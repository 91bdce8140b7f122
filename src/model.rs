//! The durable state of the publishing subsystem as plain values, and what
//! each operation on it does.
use vstd::prelude::*;

use crate::email_client::DeliveryError;
use crate::outcome::{accepted_outcome, OutcomeView};

verus! {

/// A claimed idempotency key, with the response saved for it once the
/// request that claimed it has finished.
pub struct RecordView {
    pub owner_id: u128,
    pub key: Seq<char>,
    pub created_at: u64,
    pub response: Option<OutcomeView>,
}

pub struct IssueView {
    pub id: u64,
    pub title: Seq<char>,
    pub html_body: Seq<char>,
    pub text_body: Seq<char>,
}

pub struct SubscriberView {
    pub id: u128,
    pub email: Seq<char>,
}

/// "Issue `issue_id` must still be sent to subscriber `subscriber_id`."
pub struct TaskView {
    pub issue_id: u64,
    pub subscriber_id: u128,
    pub email: Seq<char>,
    pub n_retries: u32,
    pub execute_after: u64,
    pub last_error: Seq<char>,
    pub in_flight: bool,
}

/// What a claimed task hands to the worker.
pub struct HandleView {
    pub issue_id: u64,
    pub subscriber_id: u128,
    pub email: Seq<char>,
    pub title: Seq<char>,
    pub html_body: Seq<char>,
    pub text_body: Seq<char>,
    pub n_retries: u32,
}

/// The content of a newsletter issue, as submitted.
pub struct ContentView {
    pub title: Seq<char>,
    pub html_body: Seq<char>,
    pub text_body: Seq<char>,
}

/// The whole store: idempotency records, issues, confirmed subscribers, the
/// delivery queue, the tasks abandoned for good, and the (issue, subscriber)
/// pairs whose delivery succeeded.
pub struct StoreView {
    pub records: Seq<RecordView>,
    pub issues: Seq<IssueView>,
    pub subscribers: Seq<SubscriberView>,
    pub queue: Seq<TaskView>,
    pub abandoned: Seq<TaskView>,
    pub delivered: Seq<(u64, u128)>,
}

/// What claiming an idempotency key found.
pub enum ClaimView {
    Claimed,
    AlreadyClaimed(Option<OutcomeView>),
}

#[derive(PartialEq, Eq, Structural, Clone, Copy, Debug)]
pub enum IdempotencyError {
    /// No request holds this key in flight.
    NotClaimed,
    /// A response was already saved for this key.
    AlreadySaved,
}

#[derive(PartialEq, Eq, Structural, Clone, Copy, Debug)]
pub enum PublishError {
    /// The issue has no title.
    EmptyTitle,
    /// The issue has no HTML or no plain-text content.
    EmptyContent,
    /// Another request holds the key and has not finished yet: wait, then retry.
    ConflictInProgress,
}

/// How many transient failures a task may have before it is abandoned.
pub const MAX_RETRIES: u32 = 5;

/// The wait after the first transient failure, in milliseconds; it doubles
/// after each further one.
pub const BASE_BACKOFF_MS: u64 = 1000;

// ---- idempotency records ----

pub open spec fn matches_key(r: RecordView, owner: u128, key: Seq<char>) -> bool {
    r.owner_id == owner && r.key == key
}

pub open spec fn has_record(rs: Seq<RecordView>, owner: u128, key: Seq<char>) -> bool {
    exists|i: int| 0 <= i < rs.len() && matches_key(#[trigger] rs[i], owner, key)
}

pub open spec fn record_index(rs: Seq<RecordView>, owner: u128, key: Seq<char>) -> int {
    choose|i: int| 0 <= i < rs.len() && matches_key(#[trigger] rs[i], owner, key)
}

/// The response saved for a claimed key (`None` while its request is in flight).
pub open spec fn saved_response(rs: Seq<RecordView>, owner: u128, key: Seq<char>) -> Option<
    OutcomeView,
> {
    rs[record_index(rs, owner, key)].response
}

pub open spec fn unique_records(rs: Seq<RecordView>) -> bool {
    forall|i: int, j: int|
        #![trigger rs[i], rs[j]]
        0 <= i < rs.len() && 0 <= j < rs.len() && rs[i].owner_id == rs[j].owner_id && rs[i].key
            == rs[j].key ==> i == j
}

// ---- delivery queue ----

pub open spec fn is_task(t: TaskView, issue: u64, sub: u128) -> bool {
    t.issue_id == issue && t.subscriber_id == sub
}

pub open spec fn has_task(q: Seq<TaskView>, issue: u64, sub: u128) -> bool {
    exists|i: int| 0 <= i < q.len() && is_task(#[trigger] q[i], issue, sub)
}

pub open spec fn task_index(q: Seq<TaskView>, issue: u64, sub: u128) -> int {
    choose|i: int| 0 <= i < q.len() && is_task(#[trigger] q[i], issue, sub)
}

pub open spec fn unique_tasks(q: Seq<TaskView>) -> bool {
    forall|i: int, j: int|
        #![trigger q[i], q[j]]
        0 <= i < q.len() && 0 <= j < q.len() && q[i].issue_id == q[j].issue_id
            && q[i].subscriber_id == q[j].subscriber_id ==> i == j
}

/// A task that a worker may claim at time `now`.
pub open spec fn eligible(t: TaskView, now: u64) -> bool {
    !t.in_flight && t.execute_after <= now
}

pub open spec fn has_eligible(q: Seq<TaskView>, now: u64) -> bool {
    exists|i: int| 0 <= i < q.len() && eligible(#[trigger] q[i], now)
}

/// `i` is the oldest eligible task in the queue.
pub open spec fn is_first_eligible(q: Seq<TaskView>, now: u64, i: int) -> bool {
    &&& 0 <= i < q.len()
    &&& eligible(q[i], now)
    &&& forall|j: int| 0 <= j < i ==> !eligible(#[trigger] q[j], now)
}

pub open spec fn first_eligible(q: Seq<TaskView>, now: u64) -> int {
    choose|i: int| is_first_eligible(q, now, i)
}

pub open spec fn pow2(n: nat) -> nat
    decreases n,
{
    if n == 0 {
        1
    } else {
        2 * pow2((n - 1) as nat)
    }
}

/// The wait after the `(n + 1)`-th transient failure.
pub open spec fn backoff(n: nat) -> nat {
    (BASE_BACKOFF_MS * pow2(n)) as nat
}

/// When a task that failed for the `(n + 1)`-th time may be tried again: the
/// backoff after `now`, or the latest time there is.
pub open spec fn retry_at(now: u64, n: nat) -> u64 {
    if now + backoff(n) <= u64::MAX {
        (now + backoff(n)) as u64
    } else {
        u64::MAX
    }
}

// ---- the whole store ----

impl StoreView {
    /// The invariant of the store.
    pub open spec fn wf(self) -> bool {
        &&& unique_records(self.records)
        &&& forall|i: int| 0 <= i < self.issues.len() ==> #[trigger] self.issues[i].id == i
        &&& forall|i: int, j: int|
            #![trigger self.subscribers[i], self.subscribers[j]]
            0 <= i < self.subscribers.len() && 0 <= j < self.subscribers.len()
                && self.subscribers[i].id == self.subscribers[j].id ==> i == j
        &&& unique_tasks(self.queue)
        &&& forall|i: int|
            0 <= i < self.queue.len() ==> #[trigger] self.queue[i].issue_id < self.issues.len()
        &&& self.delivered.no_duplicates()
        &&& forall|i: int|
            0 <= i < self.delivered.len() ==> #[trigger] self.delivered[i].0 < self.issues.len()
        &&& forall|i: int|
            0 <= i < self.delivered.len() ==> !has_task(
                self.queue,
                #[trigger] self.delivered[i].0,
                self.delivered[i].1,
            )
    }

    pub open spec fn with_records(self, records: Seq<RecordView>) -> StoreView {
        StoreView { records, ..self }
    }

    pub open spec fn with_queue(self, queue: Seq<TaskView>) -> StoreView {
        StoreView { queue, ..self }
    }
}

/// The store with nothing in it.
pub open spec fn empty_store() -> StoreView {
    StoreView {
        records: Seq::empty(),
        issues: Seq::empty(),
        subscribers: Seq::empty(),
        queue: Seq::empty(),
        abandoned: Seq::empty(),
        delivered: Seq::empty(),
    }
}

/// Adding a confirmed subscriber: refused (`false`) when the id is taken.
pub open spec fn add_subscriber_spec(s: StoreView, id: u128, email: Seq<char>) -> (StoreView, bool) {
    if exists|i: int| 0 <= i < s.subscribers.len() && #[trigger] s.subscribers[i].id == id {
        (s, false)
    } else {
        (StoreView { subscribers: s.subscribers.push(SubscriberView { id, email }), ..s }, true)
    }
}

/// Claiming `(owner, key)`: a key nobody holds is claimed by inserting its
/// record; a held key is reported with whatever response it has so far.
pub open spec fn try_claim_spec(s: StoreView, owner: u128, key: Seq<char>, now: u64) -> (
    StoreView,
    ClaimView,
) {
    if has_record(s.records, owner, key) {
        (s, ClaimView::AlreadyClaimed(saved_response(s.records, owner, key)))
    } else {
        (
            s.with_records(
                s.records.push(RecordView { owner_id: owner, key, created_at: now, response: None }),
            ),
            ClaimView::Claimed,
        )
    }
}

/// Saving the response of the request that holds `(owner, key)`: written
/// once, and only for a key held in flight.
pub open spec fn save_response_spec(
    s: StoreView,
    owner: u128,
    key: Seq<char>,
    response: OutcomeView,
) -> (StoreView, Result<(), IdempotencyError>) {
    if !has_record(s.records, owner, key) {
        (s, Err(IdempotencyError::NotClaimed))
    } else if saved_response(s.records, owner, key) is Some {
        (s, Err(IdempotencyError::AlreadySaved))
    } else {
        let i = record_index(s.records, owner, key);
        (
            s.with_records(s.records.update(i, RecordView { response: Some(response), ..s.records[i] })),
            Ok(()),
        )
    }
}

/// Releasing a key whose request gave up before it finished (a rollback):
/// the key can then be claimed again as if it were new.
pub open spec fn release_claim_spec(s: StoreView, owner: u128, key: Seq<char>) -> (
    StoreView,
    Result<(), IdempotencyError>,
) {
    if !has_record(s.records, owner, key) {
        (s, Err(IdempotencyError::NotClaimed))
    } else if saved_response(s.records, owner, key) is Some {
        (s, Err(IdempotencyError::AlreadySaved))
    } else {
        (s.with_records(s.records.remove(record_index(s.records, owner, key))), Ok(()))
    }
}

/// Why the content of an issue is refused, if it is.
pub open spec fn content_error(c: ContentView) -> Option<PublishError> {
    if c.title.len() == 0 {
        Some(PublishError::EmptyTitle)
    } else if c.html_body.len() == 0 || c.text_body.len() == 0 {
        Some(PublishError::EmptyContent)
    } else {
        None
    }
}

/// The task that delivers issue `issue_id` to `sub`, as publishing creates it.
pub open spec fn fresh_task(issue_id: u64, sub: SubscriberView, now: u64) -> TaskView {
    TaskView {
        issue_id,
        subscriber_id: sub.id,
        email: sub.email,
        n_retries: 0,
        execute_after: now,
        last_error: Seq::empty(),
        in_flight: false,
    }
}

/// One task per confirmed subscriber, in the order of the subscribers.
pub open spec fn fresh_tasks(issue_id: u64, subs: Seq<SubscriberView>, now: u64) -> Seq<TaskView> {
    subs.map_values(|sub: SubscriberView| fresh_task(issue_id, sub, now))
}

/// The store after a first publish of `c` under `(owner, key)`: the issue,
/// one task per confirmed subscriber, and the key with its saved response,
/// all together.
pub open spec fn published_store(s: StoreView, owner: u128, key: Seq<char>, c: ContentView, now: u64) -> StoreView {
    let id = s.issues.len() as u64;
    StoreView {
        records: s.records.push(
            RecordView { owner_id: owner, key, created_at: now, response: Some(accepted_outcome()) },
        ),
        issues: s.issues.push(
            IssueView { id, title: c.title, html_body: c.html_body, text_body: c.text_body },
        ),
        queue: s.queue + fresh_tasks(id, s.subscribers, now),
        ..s
    }
}

/// Publishing `c` under `(owner, key)` as one transaction.
pub open spec fn publish_spec(s: StoreView, owner: u128, key: Seq<char>, c: ContentView, now: u64) -> (
    StoreView,
    Result<OutcomeView, PublishError>,
) {
    if content_error(c) is Some {
        (s, Err(content_error(c).unwrap()))
    } else if has_record(s.records, owner, key) {
        match saved_response(s.records, owner, key) {
            Some(r) => (s, Ok(r)),
            None => (s, Err(PublishError::ConflictInProgress)),
        }
    } else {
        (published_store(s, owner, key, c, now), Ok(accepted_outcome()))
    }
}

/// The handle of queued task `t`.
pub open spec fn handle_of(s: StoreView, t: TaskView) -> HandleView {
    let issue = s.issues[t.issue_id as int];
    HandleView {
        issue_id: t.issue_id,
        subscriber_id: t.subscriber_id,
        email: t.email,
        title: issue.title,
        html_body: issue.html_body,
        text_body: issue.text_body,
        n_retries: t.n_retries,
    }
}

/// Claiming the oldest eligible task and marking it in flight.
pub open spec fn claim_next_spec(s: StoreView, now: u64) -> (StoreView, Option<HandleView>) {
    if has_eligible(s.queue, now) {
        let i = first_eligible(s.queue, now);
        (
            s.with_queue(s.queue.update(i, TaskView { in_flight: true, ..s.queue[i] })),
            Some(handle_of(s, s.queue[i])),
        )
    } else {
        (s, None)
    }
}

/// The task of `(issue, sub)` is queued and a worker holds it.
pub open spec fn held(s: StoreView, issue: u64, sub: u128) -> bool {
    has_task(s.queue, issue, sub) && s.queue[task_index(s.queue, issue, sub)].in_flight
}

/// Resolving a held task after a successful delivery: it leaves the queue.
pub open spec fn succeed_spec(s: StoreView, issue: u64, sub: u128) -> (StoreView, bool) {
    if held(s, issue, sub) {
        (
            StoreView {
                queue: s.queue.remove(task_index(s.queue, issue, sub)),
                delivered: s.delivered.push((issue, sub)),
                ..s
            },
            true,
        )
    } else {
        (s, false)
    }
}

/// Handing a held task back unresolved, when its worker gave up before it
/// could resolve it: the task can be claimed again, unchanged otherwise.
pub open spec fn release_task_spec(s: StoreView, issue: u64, sub: u128) -> (StoreView, bool) {
    if held(s, issue, sub) {
        let i = task_index(s.queue, issue, sub);
        (s.with_queue(s.queue.update(i, TaskView { in_flight: false, ..s.queue[i] })), true)
    } else {
        (s, false)
    }
}

/// Resolving a held task after a failed delivery: a transient failure with
/// retries left puts it back with a longer wait; any other failure removes it
/// and records it as abandoned.
pub open spec fn fail_spec(
    s: StoreView,
    issue: u64,
    sub: u128,
    transient: bool,
    error: Seq<char>,
    now: u64,
) -> (StoreView, bool) {
    if held(s, issue, sub) {
        let i = task_index(s.queue, issue, sub);
        let t = s.queue[i];
        if transient && t.n_retries < MAX_RETRIES {
            (
                s.with_queue(
                    s.queue.update(
                        i,
                        TaskView {
                            n_retries: (t.n_retries + 1) as u32,
                            execute_after: retry_at(now, t.n_retries as nat),
                            last_error: error,
                            in_flight: false,
                            ..t
                        },
                    ),
                ),
                true,
            )
        } else {
            (
                StoreView {
                    queue: s.queue.remove(i),
                    abandoned: s.abandoned.push(TaskView { last_error: error, in_flight: false, ..t }),
                    ..s
                },
                true,
            )
        }
    } else {
        (s, false)
    }
}

} // verus!

verus! {

/// How many tasks of `q` a worker may claim at time `now`.
pub open spec fn count_eligible(q: Seq<TaskView>, now: u64) -> nat
    decreases q.len(),
{
    if q.len() == 0 {
        0
    } else {
        count_eligible(q.drop_last(), now) + if eligible(q.last(), now) {
            1nat
        } else {
            0nat
        }
    }
}

pub open spec fn eligible_count(t: TaskView, now: u64) -> int {
    if eligible(t, now) {
        1
    } else {
        0
    }
}

pub proof fn lemma_count_update(q: Seq<TaskView>, i: int, t: TaskView, now: u64)
    requires
        0 <= i < q.len(),
    ensures
        count_eligible(q.update(i, t), now) == count_eligible(q, now) - eligible_count(q[i], now)
            + eligible_count(t, now),
    decreases q.len(),
{
    let u = q.update(i, t);
    if i == q.len() - 1 {
        assert(u.drop_last() =~= q.drop_last());
    } else {
        assert(u.drop_last() =~= q.drop_last().update(i, t));
        lemma_count_update(q.drop_last(), i, t, now);
    }
}

pub proof fn lemma_count_remove(q: Seq<TaskView>, i: int, now: u64)
    requires
        0 <= i < q.len(),
    ensures
        count_eligible(q.remove(i), now) == count_eligible(q, now) - eligible_count(q[i], now),
    decreases q.len(),
{
    let r = q.remove(i);
    if i == q.len() - 1 {
        assert(r =~= q.drop_last());
    } else {
        assert(r.drop_last() =~= q.drop_last().remove(i));
        assert(r.last() == q.last());
        lemma_count_remove(q.drop_last(), i, now);
    }
}

/// Only one index is the oldest eligible task.
pub proof fn lemma_first_eligible(q: Seq<TaskView>, now: u64, i: int)
    requires
        is_first_eligible(q, now, i),
    ensures
        has_eligible(q, now),
        first_eligible(q, now) == i,
{
    assert(eligible(q[i], now));
    let k = first_eligible(q, now);
    assert(is_first_eligible(q, now, k));
    if k < i {
        assert(!eligible(q[k], now));
    } else if i < k {
        assert(!eligible(q[i], now));
    }
}

/// No task is eligible when none is the first eligible one.
pub proof fn lemma_none_eligible(q: Seq<TaskView>, now: u64)
    requires
        forall|j: int| 0 <= j < q.len() ==> !eligible(#[trigger] q[j], now),
    ensures
        !has_eligible(q, now),
{
}

/// Only one index holds a given (issue, subscriber) task.
pub proof fn lemma_task_index(q: Seq<TaskView>, issue: u64, sub: u128, i: int)
    requires
        unique_tasks(q),
        0 <= i < q.len(),
        is_task(q[i], issue, sub),
    ensures
        has_task(q, issue, sub),
        task_index(q, issue, sub) == i,
{
    assert(has_task(q, issue, sub));
    let k = task_index(q, issue, sub);
    assert(is_task(q[k], issue, sub));
}

} // verus!

verus! {

/// Replacing a queued task by one with the same (issue, subscriber) keeps the
/// invariant.
pub proof fn lemma_update_task_wf(s: StoreView, i: int, t: TaskView)
    requires
        s.wf(),
        0 <= i < s.queue.len(),
        t.issue_id == s.queue[i].issue_id,
        t.subscriber_id == s.queue[i].subscriber_id,
    ensures
        s.with_queue(s.queue.update(i, t)).wf(),
{
    let q = s.queue.update(i, t);
    let oq = s.queue;
    assert(forall|j: int|
        0 <= j < q.len() ==> #[trigger] q[j].issue_id == oq[j].issue_id && q[j].subscriber_id
            == oq[j].subscriber_id);
    assert forall|d: int| 0 <= d < s.delivered.len() implies !has_task(
        q,
        #[trigger] s.delivered[d].0,
        s.delivered[d].1,
    ) by {
        let pair = s.delivered[d];
        if has_task(q, pair.0, pair.1) {
            let w = choose|w: int| 0 <= w < q.len() && is_task(#[trigger] q[w], pair.0, pair.1);
            assert(is_task(oq[w], pair.0, pair.1));
        }
    }
}

/// Removing a queued task keeps the invariant, whatever else is recorded
/// about it.
pub proof fn lemma_remove_task_wf(s: StoreView, i: int, abandoned: Seq<TaskView>)
    requires
        s.wf(),
        0 <= i < s.queue.len(),
    ensures
        (StoreView { queue: s.queue.remove(i), abandoned, ..s }).wf(),
{
    let q = s.queue.remove(i);
    let oq = s.queue;
    assert(forall|j: int| 0 <= j < q.len() ==> #[trigger] q[j] == oq[if j < i { j } else { j + 1 }]);
    assert forall|a: int, b: int|
        0 <= a < q.len() && 0 <= b < q.len() && q[a].issue_id == q[b].issue_id
            && q[a].subscriber_id == q[b].subscriber_id implies a == b by {
        let a1 = if a < i { a } else { a + 1 };
        let b1 = if b < i { b } else { b + 1 };
        assert(oq[a1] == q[a] && oq[b1] == q[b]);
    }
    assert forall|j: int| 0 <= j < q.len() implies #[trigger] q[j].issue_id < s.issues.len() by {
        let j1 = if j < i { j } else { j + 1 };
        assert(oq[j1] == q[j]);
    }
    assert forall|d: int| 0 <= d < s.delivered.len() implies !has_task(
        q,
        #[trigger] s.delivered[d].0,
        s.delivered[d].1,
    ) by {
        let pair = s.delivered[d];
        if has_task(q, pair.0, pair.1) {
            let w = choose|w: int| 0 <= w < q.len() && is_task(#[trigger] q[w], pair.0, pair.1);
            let w1 = if w < i { w } else { w + 1 };
            assert(oq[w1] == q[w]);
            assert(is_task(oq[w1], pair.0, pair.1));
        }
    }
}

/// Removing a queued task and recording its delivery keeps the invariant.
pub proof fn lemma_deliver_task_wf(s: StoreView, i: int)
    requires
        s.wf(),
        0 <= i < s.queue.len(),
    ensures
        (StoreView {
            queue: s.queue.remove(i),
            delivered: s.delivered.push((s.queue[i].issue_id, s.queue[i].subscriber_id)),
            ..s
        }).wf(),
{
    lemma_remove_task_wf(s, i, s.abandoned);
    let t = s.queue[i];
    let pair = (t.issue_id, t.subscriber_id);
    let q = s.queue.remove(i);
    let p = StoreView { queue: q, delivered: s.delivered.push(pair), ..s };
    assert(has_task(s.queue, pair.0, pair.1));
    assert forall|d: int| 0 <= d < s.delivered.len() implies #[trigger] s.delivered[d] != pair by {
        assert(!has_task(s.queue, s.delivered[d].0, s.delivered[d].1));
    }
    assert forall|a: int, b: int|
        0 <= a < p.delivered.len() && 0 <= b < p.delivered.len() && a != b implies #[trigger] p.delivered[a]
        != #[trigger] p.delivered[b] by {
        if a < s.delivered.len() && b < s.delivered.len() {
            assert(s.delivered[a] != s.delivered[b]);
        } else if a < s.delivered.len() {
            assert(s.delivered[a] != pair);
        } else {
            assert(s.delivered[b] != pair);
        }
    }
    assert(!has_task(q, pair.0, pair.1)) by {
        if has_task(q, pair.0, pair.1) {
            let w = choose|w: int| 0 <= w < q.len() && is_task(#[trigger] q[w], pair.0, pair.1);
            let w1 = if w < i { w } else { w + 1 };
            assert(s.queue[w1] == q[w]);
            assert(s.queue[i] == t);
        }
    }
    assert forall|d: int| 0 <= d < p.delivered.len() implies !has_task(
        p.queue,
        #[trigger] p.delivered[d].0,
        p.delivered[d].1,
    ) by {
        if d < s.delivered.len() {
            assert(p.delivered[d] == s.delivered[d]);
        }
    }
    assert forall|d: int| 0 <= d < p.delivered.len() implies #[trigger] p.delivered[d].0
        < p.issues.len() by {
        if d < s.delivered.len() {
            assert(p.delivered[d] == s.delivered[d]);
        }
    }
}

} // verus!

verus! {

pub proof fn lemma_pow2_positive(n: nat)
    ensures
        pow2(n) >= 1,
    decreases n,
{
    if n > 0 {
        lemma_pow2_positive((n - 1) as nat);
    }
}

/// A retried task waits past `now`, unless `now` is the latest time there is.
pub proof fn lemma_retry_after_now(now: u64, n: nat)
    requires
        now < u64::MAX,
    ensures
        retry_at(now, n) > now,
{
    lemma_pow2_positive(n);
    assert(backoff(n) >= 1) by (nonlinear_arith)
        requires
            pow2(n) >= 1,
            backoff(n) == BASE_BACKOFF_MS * pow2(n),
    ;
}

} // verus!

verus! {

proof fn lemma_first_below(q: Seq<TaskView>, now: u64, w: int)
    requires
        0 <= w < q.len(),
        eligible(q[w], now),
    ensures
        exists|i: int| is_first_eligible(q, now, i),
    decreases w,
{
    if exists|j: int| 0 <= j < w && eligible(#[trigger] q[j], now) {
        let j = choose|j: int| 0 <= j < w && eligible(#[trigger] q[j], now);
        lemma_first_below(q, now, j);
    } else {
        assert(is_first_eligible(q, now, w));
    }
}

/// When some task is eligible, the oldest eligible one exists.
pub proof fn lemma_has_first_eligible(q: Seq<TaskView>, now: u64)
    requires
        has_eligible(q, now),
    ensures
        is_first_eligible(q, now, first_eligible(q, now)),
{
    let w = choose|w: int| 0 <= w < q.len() && eligible(#[trigger] q[w], now);
    lemma_first_below(q, now, w);
}

} // verus!

verus! {

/// Only one index holds the record of a key.
pub proof fn lemma_record_index(rs: Seq<RecordView>, i: int)
    requires
        unique_records(rs),
        0 <= i < rs.len(),
    ensures
        has_record(rs, rs[i].owner_id, rs[i].key),
        record_index(rs, rs[i].owner_id, rs[i].key) == i,
{
    assert(matches_key(rs[i], rs[i].owner_id, rs[i].key));
    let k = record_index(rs, rs[i].owner_id, rs[i].key);
    assert(matches_key(rs[k], rs[i].owner_id, rs[i].key));
}

} // verus!


verus! {

/// The task of `(issue, sub)` is queued and satisfies `p`.
pub open spec fn has_task_where(
    q: Seq<TaskView>,
    issue: u64,
    sub: u128,
    p: spec_fn(TaskView) -> bool,
) -> bool {
    exists|j: int| 0 <= j < q.len() && is_task(#[trigger] q[j], issue, sub) && p(q[j])
}

/// Changing the task at `i` leaves what holds of every other pair.
pub proof fn lemma_where_update(
    q: Seq<TaskView>,
    i: int,
    t: TaskView,
    issue: u64,
    sub: u128,
    p: spec_fn(TaskView) -> bool,
)
    requires
        0 <= i < q.len(),
        !is_task(q[i], issue, sub),
        !is_task(t, issue, sub),
    ensures
        has_task_where(q.update(i, t), issue, sub, p) == has_task_where(q, issue, sub, p),
{
    let u = q.update(i, t);
    if has_task_where(q, issue, sub, p) {
        let j = choose|j: int| 0 <= j < q.len() && is_task(#[trigger] q[j], issue, sub) && p(q[j]);
        assert(u[j] == q[j]);
    }
    if has_task_where(u, issue, sub, p) {
        let j = choose|j: int| 0 <= j < u.len() && is_task(#[trigger] u[j], issue, sub) && p(u[j]);
        assert(u[j] == q[j]);
    }
}

/// Removing the task at `i` leaves what holds of every other pair.
pub proof fn lemma_where_remove(
    q: Seq<TaskView>,
    i: int,
    issue: u64,
    sub: u128,
    p: spec_fn(TaskView) -> bool,
)
    requires
        0 <= i < q.len(),
        !is_task(q[i], issue, sub),
    ensures
        has_task_where(q.remove(i), issue, sub, p) == has_task_where(q, issue, sub, p),
{
    let r = q.remove(i);
    if has_task_where(q, issue, sub, p) {
        let j = choose|j: int| 0 <= j < q.len() && is_task(#[trigger] q[j], issue, sub) && p(q[j]);
        let j1 = if j < i { j } else { j - 1 };
        assert(r[j1] == q[j]);
    }
    if has_task_where(r, issue, sub, p) {
        let j = choose|j: int| 0 <= j < r.len() && is_task(#[trigger] r[j], issue, sub) && p(r[j]);
        let j1 = if j < i { j } else { j + 1 };
        assert(r[j] == q[j1]);
    }
}

/// No task is eligible, so none is counted.
pub proof fn lemma_count_none(q: Seq<TaskView>, now: u64)
    requires
        !has_eligible(q, now),
    ensures
        count_eligible(q, now) == 0,
    decreases q.len(),
{
    if q.len() > 0 {
        assert(!eligible(q[q.len() - 1], now));
        assert forall|j: int| 0 <= j < q.drop_last().len() implies !eligible(
            #[trigger] q.drop_last()[j],
            now,
        ) by {
            assert(q.drop_last()[j] == q[j]);
        }
        lemma_count_none(q.drop_last(), now);
    }
}

/// The error text recorded on a task whose delivery failed with `e`.
pub open spec fn failure_text(e: DeliveryError) -> Seq<char> {
    match e {
        DeliveryError::Transient => "transient delivery failure"@,
        DeliveryError::Permanent => "permanent delivery failure"@,
    }
}

/// Resolving the held task of handle `h` by the outcome of its delivery.
pub open spec fn resolve_spec(s: StoreView, h: HandleView, r: Result<(), DeliveryError>, now: u64) -> StoreView {
    match r {
        Ok(()) => succeed_spec(s, h.issue_id, h.subscriber_id).0,
        Err(e) => fail_spec(
            s,
            h.issue_id,
            h.subscriber_id,
            e == DeliveryError::Transient,
            failure_text(e),
            now,
        ).0,
    }
}

/// The store, and the handles claimed, after a worker at time `now` has
/// claimed a task and resolved it by each outcome of `results` in turn.
pub open spec fn drain_spec(s: StoreView, now: u64, results: Seq<Result<(), DeliveryError>>) -> (
    StoreView,
    Seq<HandleView>,
)
    decreases results.len(),
{
    if results.len() == 0 {
        (s, Seq::empty())
    } else {
        let (before, handles) = drain_spec(s, now, results.drop_last());
        let (claimed, h) = claim_next_spec(before, now);
        match h {
            Some(h) => (resolve_spec(claimed, h, results.last(), now), handles.push(h)),
            None => (before, handles),
        }
    }
}

} // verus!

verus! {

/// The property of being claimable at `now`.
pub open spec fn eligible_at(now: u64) -> spec_fn(TaskView) -> bool {
    |t: TaskView| eligible(t, now)
}

/// Once its task is removed, a pair of a queue without duplicates has no
/// task left.
pub proof fn lemma_where_removed(q: Seq<TaskView>, i: int, p: spec_fn(TaskView) -> bool)
    requires
        unique_tasks(q),
        0 <= i < q.len(),
    ensures
        !has_task_where(q.remove(i), q[i].issue_id, q[i].subscriber_id, p),
{
    let r = q.remove(i);
    if has_task_where(r, q[i].issue_id, q[i].subscriber_id, p) {
        let j = choose|j: int|
            0 <= j < r.len() && is_task(#[trigger] r[j], q[i].issue_id, q[i].subscriber_id) && p(
                r[j],
            );
        let j1 = if j < i { j } else { j + 1 };
        assert(r[j] == q[j1]);
    }
}

/// Once its task is replaced by one that fails `p`, a pair of a queue
/// without duplicates has no task satisfying `p`.
pub proof fn lemma_where_replaced(q: Seq<TaskView>, i: int, t: TaskView, p: spec_fn(TaskView) -> bool)
    requires
        unique_tasks(q),
        0 <= i < q.len(),
        is_task(t, q[i].issue_id, q[i].subscriber_id),
        !p(t),
    ensures
        !has_task_where(q.update(i, t), q[i].issue_id, q[i].subscriber_id, p),
{
    let u = q.update(i, t);
    if has_task_where(u, q[i].issue_id, q[i].subscriber_id, p) {
        let j = choose|j: int|
            0 <= j < u.len() && is_task(#[trigger] u[j], q[i].issue_id, q[i].subscriber_id) && p(
                u[j],
            );
        assert(j != i);
        assert(u[j] == q[j]);
    }
}

} // verus!

//! The store of the publishing subsystem: idempotency records, newsletter
//! issues, confirmed subscribers and the delivery queue, kept together so
//! that one operation changes them all or none.
use vstd::prelude::*;

use crate::email_client::{DeliveryError, EmailSender};
use crate::model::{
    add_subscriber_spec, release_task_spec, resolve_spec, backoff, claim_next_spec, count_eligible, drain_spec, eligible,
    eligible_at, empty_store, fail_spec, first_eligible, fresh_task, fresh_tasks, handle_of,
    has_eligible, has_record, has_task, has_task_where, held, is_first_eligible, is_task,
    lemma_count_none, lemma_count_remove, lemma_count_update, lemma_deliver_task_wf,
    lemma_first_eligible, lemma_has_first_eligible, lemma_none_eligible, lemma_remove_task_wf,
    lemma_retry_after_now, lemma_task_index, lemma_update_task_wf, lemma_where_remove,
    lemma_where_removed, lemma_where_replaced, lemma_where_update, matches_key, pow2, publish_spec,
    published_store, record_index, release_claim_spec, retry_at, save_response_spec, succeed_spec,
    task_index, try_claim_spec, unique_records, BASE_BACKOFF_MS, ClaimView, ContentView, HandleView,
    IdempotencyError, IssueView, MAX_RETRIES, PublishError, RecordView, StoreView, SubscriberView,
    TaskView,
};
use crate::outcome::{HttpOutcome, OutcomeView};
use crate::seq_facts::{lemma_map_push, lemma_map_remove, lemma_map_update};

verus! {

pub struct IdempotencyRecord {
    pub owner_id: u128,
    pub key: String,
    pub created_at: u64,
    pub response: Option<HttpOutcome>,
}

pub struct NewsletterIssue {
    pub id: u64,
    pub title: String,
    pub html_body: String,
    pub text_body: String,
}

pub struct ConfirmedSubscriber {
    pub id: u128,
    pub email: String,
}

pub struct DeliveryTask {
    pub issue_id: u64,
    pub subscriber_id: u128,
    pub subscriber_email: String,
    pub n_retries: u32,
    pub execute_after: u64,
    pub last_error: String,
    pub in_flight: bool,
}

pub open spec fn response_view(r: Option<HttpOutcome>) -> Option<OutcomeView> {
    match r {
        Some(o) => Some(o@),
        None => None,
    }
}

pub open spec fn record_view(r: IdempotencyRecord) -> RecordView {
    RecordView {
        owner_id: r.owner_id,
        key: r.key@,
        created_at: r.created_at,
        response: response_view(r.response),
    }
}

pub open spec fn issue_view(i: NewsletterIssue) -> IssueView {
    IssueView { id: i.id, title: i.title@, html_body: i.html_body@, text_body: i.text_body@ }
}

pub open spec fn subscriber_view(s: ConfirmedSubscriber) -> SubscriberView {
    SubscriberView { id: s.id, email: s.email@ }
}

pub open spec fn task_view(t: DeliveryTask) -> TaskView {
    TaskView {
        issue_id: t.issue_id,
        subscriber_id: t.subscriber_id,
        email: t.subscriber_email@,
        n_retries: t.n_retries,
        execute_after: t.execute_after,
        last_error: t.last_error@,
        in_flight: t.in_flight,
    }
}

pub open spec fn records_view(s: Seq<IdempotencyRecord>) -> Seq<RecordView> {
    s.map_values(|r: IdempotencyRecord| record_view(r))
}

pub open spec fn issues_view(s: Seq<NewsletterIssue>) -> Seq<IssueView> {
    s.map_values(|i: NewsletterIssue| issue_view(i))
}

pub open spec fn subscribers_view(s: Seq<ConfirmedSubscriber>) -> Seq<SubscriberView> {
    s.map_values(|c: ConfirmedSubscriber| subscriber_view(c))
}

pub open spec fn tasks_view(s: Seq<DeliveryTask>) -> Seq<TaskView> {
    s.map_values(|t: DeliveryTask| task_view(t))
}

/// What claiming an idempotency key found.
pub enum ClaimOutcome {
    /// The key was free and is now held by the caller, who must do the work
    /// and then save its response (or release the key).
    Claimed,
    /// The key was already held; with the saved response if its request has
    /// finished, with none while it is still in flight.
    AlreadyClaimed(Option<HttpOutcome>),
}

impl View for ClaimOutcome {
    type V = ClaimView;

    open spec fn view(&self) -> ClaimView {
        match self {
            ClaimOutcome::Claimed => ClaimView::Claimed,
            ClaimOutcome::AlreadyClaimed(r) => ClaimView::AlreadyClaimed(response_view(*r)),
        }
    }
}

/// The content of a newsletter issue, as submitted.
pub struct IssueContent {
    pub title: String,
    pub html_body: String,
    pub text_body: String,
}

impl View for IssueContent {
    type V = ContentView;

    open spec fn view(&self) -> ContentView {
        ContentView { title: self.title@, html_body: self.html_body@, text_body: self.text_body@ }
    }
}

pub open spec fn publish_result_view(r: Result<HttpOutcome, PublishError>) -> Result<
    OutcomeView,
    PublishError,
> {
    match r {
        Ok(o) => Ok(o@),
        Err(e) => Err(e),
    }
}

/// A task claimed by a worker: what it needs to deliver the issue, until it
/// resolves the task with `succeed` or `fail`.
pub struct TaskHandle {
    pub issue_id: u64,
    pub subscriber_id: u128,
    pub subscriber_email: String,
    pub title: String,
    pub html_body: String,
    pub text_body: String,
    pub n_retries: u32,
}

impl View for TaskHandle {
    type V = HandleView;

    open spec fn view(&self) -> HandleView {
        HandleView {
            issue_id: self.issue_id,
            subscriber_id: self.subscriber_id,
            email: self.subscriber_email@,
            title: self.title@,
            html_body: self.html_body@,
            text_body: self.text_body@,
            n_retries: self.n_retries,
        }
    }
}

pub open spec fn handle_option_view(h: Option<TaskHandle>) -> Option<HandleView> {
    match h {
        Some(h) => Some(h@),
        None => None,
    }
}

/// The wait after the `(n + 1)`-th transient failure, in milliseconds, or the
/// longest wait a `u64` holds when it is longer.
pub open spec fn capped_backoff(n: nat) -> u64 {
    if backoff(n) <= u64::MAX {
        backoff(n) as u64
    } else {
        u64::MAX
    }
}

/// The wait after the `(n + 1)`-th transient failure, in milliseconds,
/// saturated at the largest `u64`.
pub fn backoff_ms(n: u32) -> (r: u64)
    ensures
        r == capped_backoff(n as nat),
{
    let mut v: u64 = BASE_BACKOFF_MS;
    let mut k: u32 = 0;
    assert(pow2(0) == 1);
    while k < n
        invariant
            k <= n,
            v == capped_backoff(k as nat),
        decreases n - k,
    {
        proof {
            let p = pow2(k as nat);
            assert(pow2((k + 1) as nat) == 2 * p);
            assert(backoff((k + 1) as nat) == 2 * backoff(k as nat)) by (nonlinear_arith)
                requires
                    pow2((k + 1) as nat) == 2 * p,
                    backoff((k + 1) as nat) == BASE_BACKOFF_MS * pow2((k + 1) as nat),
                    backoff(k as nat) == BASE_BACKOFF_MS * p,
            ;
        }
        if v > u64::MAX / 2 {
            v = u64::MAX;
        } else {
            v = v * 2;
        }
        k = k + 1;
    }
    v
}

/// When a task that failed for the `(n + 1)`-th time at `now` may be tried again.
pub fn retry_time(now: u64, n: u32) -> (r: u64)
    ensures
        r == retry_at(now, n as nat),
{
    let b = backoff_ms(n);
    if now <= u64::MAX - b {
        now + b
    } else {
        u64::MAX
    }
}

/// One send made while draining: the claimed task, as handed to the sender,
/// and what the sender answered.
pub struct SendAttempt {
    pub task: TaskHandle,
    pub result: Result<(), DeliveryError>,
}

pub open spec fn attempt_handles(a: Seq<SendAttempt>) -> Seq<HandleView> {
    a.map_values(|x: SendAttempt| x.task@)
}

pub open spec fn attempt_results(a: Seq<SendAttempt>) -> Seq<Result<(), DeliveryError>> {
    a.map_values(|x: SendAttempt| x.result)
}

/// The email that send `a` handed to the transport.
pub open spec fn email_of(a: SendAttempt) -> (Seq<char>, Seq<char>, Seq<char>, Seq<char>) {
    (a.task@.email, a.task@.title, a.task@.html_body, a.task@.text_body)
}

/// The emails that `a` handed to the transport, in order.
pub open spec fn emails_of(a: Seq<SendAttempt>) -> Seq<(Seq<char>, Seq<char>, Seq<char>, Seq<char>)> {
    a.map_values(|x: SendAttempt| email_of(x))
}

/// Two sends are for the same (issue, subscriber) pair.
pub open spec fn is_key(a: SendAttempt, b: SendAttempt) -> bool {
    a.task.issue_id == b.task.issue_id && a.task.subscriber_id == b.task.subscriber_id
}

/// One of `attempts` was a send for the (issue, subscriber) pair `p`.
pub open spec fn sent_pair(attempts: Seq<SendAttempt>, p: (u64, u128)) -> bool {
    exists|k: int|
        0 <= k < attempts.len() && p == (
            #[trigger] attempts[k].task.issue_id,
            attempts[k].task.subscriber_id,
        )
}

/// `h` is the handle of a task that was eligible at `now` in `start`.
pub open spec fn sent_from(start: StoreView, now: u64, h: HandleView) -> bool {
    exists|j: int|
        0 <= j < start.queue.len() && eligible(start.queue[j], now) && h == handle_of(
            start,
            #[trigger] start.queue[j],
        )
}

/// What holds while a drain that started from `start` at `now` has made
/// `attempts` and left the store in `s`.
pub open spec fn drain_inv(start: StoreView, s: StoreView, attempts: Seq<SendAttempt>, now: u64) -> bool {
    // An eligible or held task is one that was so on entry, untouched.
    &&& forall|j: int|
        0 <= j < s.queue.len() && (eligible(#[trigger] s.queue[j], now) || s.queue[j].in_flight)
            ==> start.queue.contains(s.queue[j])
    // Each task eligible on entry is still eligible, or was sent.
    &&& forall|j: int|
        0 <= j < start.queue.len() && eligible(#[trigger] start.queue[j], now) ==> (has_task_where(
            s.queue,
            start.queue[j].issue_id,
            start.queue[j].subscriber_id,
            eligible_at(now),
        ) || exists|k: int|
            0 <= k < attempts.len() && is_task(
                start.queue[j],
                #[trigger] attempts[k].task.issue_id,
                attempts[k].task.subscriber_id,
            ))
    // A task that was sent is not eligible again.
    &&& forall|k: int|
        0 <= k < attempts.len() ==> !has_task_where(
            s.queue,
            #[trigger] attempts[k].task.issue_id,
            attempts[k].task.subscriber_id,
            eligible_at(now),
        )
    // Each send is of a task eligible on entry.
    &&& forall|k: int| 0 <= k < attempts.len() ==> sent_from(start, now, #[trigger] attempts[k].task@)
    &&& forall|a: int, b: int|
        0 <= a < b < attempts.len() ==> !is_key(#[trigger] attempts[a], #[trigger] attempts[b])
    // What was delivered or abandoned since the start was sent.
    &&& start.delivered.is_prefix_of(s.delivered)
    &&& forall|m: int|
        start.delivered.len() <= m < s.delivered.len() ==> sent_pair(attempts, #[trigger] s.delivered[m])
    &&& start.abandoned.is_prefix_of(s.abandoned)
    &&& forall|m: int|
        start.abandoned.len() <= m < s.abandoned.len() ==> sent_pair(
            attempts,
            (#[trigger] s.abandoned[m].issue_id, s.abandoned[m].subscriber_id),
        )
}

pub struct Store {
    records: Vec<IdempotencyRecord>,
    issues: Vec<NewsletterIssue>,
    subscribers: Vec<ConfirmedSubscriber>,
    queue: Vec<DeliveryTask>,
    abandoned: Vec<DeliveryTask>,
    delivered: Ghost<Seq<(u64, u128)>>,
}

impl View for Store {
    type V = StoreView;

    closed spec fn view(&self) -> StoreView {
        StoreView {
            records: records_view(self.records@),
            issues: issues_view(self.issues@),
            subscribers: subscribers_view(self.subscribers@),
            queue: tasks_view(self.queue@),
            abandoned: tasks_view(self.abandoned@),
            delivered: self.delivered@,
        }
    }
}

fn copy_response(r: &Option<HttpOutcome>) -> (c: Option<HttpOutcome>)
    ensures
        response_view(c) == response_view(*r),
{
    match r {
        Some(o) => Some(o.duplicate()),
        None => None,
    }
}

impl Store {
    /// A store with nothing in it.
    pub fn new() -> (s: Store)
        ensures
            s@ == empty_store(),
            s@.wf(),
    {
        let s = Store {
            records: Vec::new(),
            issues: Vec::new(),
            subscribers: Vec::new(),
            queue: Vec::new(),
            abandoned: Vec::new(),
            delivered: Ghost(Seq::empty()),
        };
        assert(s@.records =~= Seq::<RecordView>::empty());
        assert(s@.issues =~= Seq::<IssueView>::empty());
        assert(s@.subscribers =~= Seq::<SubscriberView>::empty());
        assert(s@.queue =~= Seq::<TaskView>::empty());
        assert(s@.abandoned =~= Seq::<TaskView>::empty());
        s
    }

    /// The position of the record of `(owner, key)`, if there is one.
    fn find_record(&self, owner_id: u128, key: &String) -> (r: Option<usize>)
        requires
            self@.wf(),
        ensures
            match r {
                Some(i) => has_record(self@.records, owner_id, key@) && i == record_index(
                    self@.records,
                    owner_id,
                    key@,
                ) && i < self.records@.len(),
                None => !has_record(self@.records, owner_id, key@),
            },
    {
        let mut i: usize = 0;
        while i < self.records.len()
            invariant
                self@.wf(),
                i <= self.records@.len(),
                forall|j: int| 0 <= j < i ==> !matches_key(#[trigger] self@.records[j], owner_id, key@),
            decreases self.records.len() - i,
        {
            let r = &self.records[i];
            if r.owner_id == owner_id && r.key.eq(key) {
                proof {
                    let rs = self@.records;
                    assert(matches_key(rs[i as int], owner_id, key@));
                    assert(has_record(rs, owner_id, key@));
                    let k = record_index(rs, owner_id, key@);
                    assert(matches_key(rs[k], owner_id, key@));
                    assert(unique_records(rs));
                    assert(k == i);
                }
                return Some(i);
            }
            assert(!matches_key(self@.records[i as int], owner_id, key@));
            i = i + 1;
        }
        None
    }

    /// Claims `(owner_id, key)` for the calling request.
    pub fn try_claim(&mut self, owner_id: u128, key: &String, now: u64) -> (r: ClaimOutcome)
        requires
            old(self)@.wf(),
        ensures
            (final(self)@, r@) == try_claim_spec(old(self)@, owner_id, key@, now),
            final(self)@.wf(),
    {
        match self.find_record(owner_id, key) {
            Some(i) => ClaimOutcome::AlreadyClaimed(copy_response(&self.records[i].response)),
            None => {
                let rec = IdempotencyRecord {
                    owner_id,
                    key: key.clone(),
                    created_at: now,
                    response: None,
                };
                proof {
                    lemma_map_push(self.records@, rec, |r: IdempotencyRecord| record_view(r));
                }
                self.records.push(rec);
                proof {
                    let rs = self@.records;
                    assert(forall|j: int| 0 <= j < rs.len() - 1 ==> #[trigger] rs[j] == old(self)@.records[j]);
                }
                ClaimOutcome::Claimed
            },
        }
    }

    /// Saves the response of the request that holds `(owner_id, key)`.
    pub fn save_response(&mut self, owner_id: u128, key: &String, response: HttpOutcome) -> (r:
        Result<(), IdempotencyError>)
        requires
            old(self)@.wf(),
        ensures
            (final(self)@, r) == save_response_spec(old(self)@, owner_id, key@, response@),
            final(self)@.wf(),
    {
        match self.find_record(owner_id, key) {
            None => Err(IdempotencyError::NotClaimed),
            Some(i) => {
                if self.records[i].response.is_some() {
                    return Err(IdempotencyError::AlreadySaved);
                }
                let ghost old_rec = self.records@[i as int];
                let rec = IdempotencyRecord {
                    owner_id: self.records[i].owner_id,
                    key: self.records[i].key.clone(),
                    created_at: self.records[i].created_at,
                    response: Some(response),
                };
                proof {
                    lemma_map_update(
                        self.records@,
                        i as int,
                        rec,
                        |r: IdempotencyRecord| record_view(r),
                    );
                }
                self.records.set(i, rec);
                proof {
                    let rs = self@.records;
                    assert(forall|j: int|
                        0 <= j < rs.len() && j != i ==> #[trigger] rs[j] == old(self)@.records[j]);
                }
                Ok(())
            },
        }
    }

    /// Releases the key of a request that gave up before it finished.
    pub fn release_claim(&mut self, owner_id: u128, key: &String) -> (r: Result<(), IdempotencyError>)
        requires
            old(self)@.wf(),
        ensures
            (final(self)@, r) == release_claim_spec(old(self)@, owner_id, key@),
            final(self)@.wf(),
    {
        match self.find_record(owner_id, key) {
            None => Err(IdempotencyError::NotClaimed),
            Some(i) => {
                if self.records[i].response.is_some() {
                    return Err(IdempotencyError::AlreadySaved);
                }
                proof {
                    lemma_map_remove(self.records@, i as int, |r: IdempotencyRecord| record_view(r));
                }
                self.records.remove(i);
                proof {
                    let rs = self@.records;
                    let os = old(self)@.records;
                    assert(forall|j: int| 0 <= j < rs.len() ==> #[trigger] rs[j] == os[if j < i { j } else { j + 1 }]);
                    assert forall|a: int, b: int|
                        0 <= a < rs.len() && 0 <= b < rs.len() && rs[a].owner_id == rs[b].owner_id
                            && rs[a].key == rs[b].key implies a == b by {
                        let a1 = if a < i { a } else { a + 1 };
                        let b1 = if b < i { b } else { b + 1 };
                        assert(os[a1] == rs[a] && os[b1] == rs[b]);
                    }
                }
                Ok(())
            },
        }
    }

    /// Adds a confirmed subscriber; refused (`false`) when the id is taken.
    pub fn add_confirmed_subscriber(&mut self, id: u128, email: String) -> (r: bool)
        requires
            old(self)@.wf(),
        ensures
            (final(self)@, r) == add_subscriber_spec(old(self)@, id, email@),
            final(self)@.wf(),
    {
        let mut i: usize = 0;
        while i < self.subscribers.len()
            invariant
                self@ == old(self)@,
                self@.wf(),
                i <= self.subscribers@.len(),
                forall|j: int| 0 <= j < i ==> #[trigger] self@.subscribers[j].id != id,
            decreases self.subscribers.len() - i,
        {
            if self.subscribers[i].id == id {
                assert(self@.subscribers[i as int].id == id);
                return false;
            }
            i = i + 1;
        }
        let c = ConfirmedSubscriber { id, email };
        proof {
            lemma_map_push(self.subscribers@, c, |c: ConfirmedSubscriber| subscriber_view(c));
        }
        self.subscribers.push(c);
        proof {
            let ss = self@.subscribers;
            assert(forall|j: int| 0 <= j < ss.len() - 1 ==> #[trigger] ss[j] == old(self)@.subscribers[j]);
        }
        true
    }

    /// Appends one fresh task per confirmed subscriber for issue `issue_id`.
    fn enqueue_for_subscribers(&mut self, issue_id: u64, now: u64)
        ensures
            final(self)@ == old(self)@.with_queue(
                old(self)@.queue + fresh_tasks(issue_id, old(self)@.subscribers, now),
            ),
    {
        let ghost subs = self@.subscribers;
        let mut i: usize = 0;
        while i < self.subscribers.len()
            invariant
                i <= self.subscribers@.len(),
                subs == self@.subscribers,
                self@ == old(self)@.with_queue(
                    old(self)@.queue + fresh_tasks(issue_id, subs, now).subrange(0, i as int),
                ),
            decreases self.subscribers.len() - i,
        {
            let t = DeliveryTask {
                issue_id,
                subscriber_id: self.subscribers[i].id,
                subscriber_email: self.subscribers[i].email.clone(),
                n_retries: 0,
                execute_after: now,
                last_error: String::new(),
                in_flight: false,
            };
            proof {
                lemma_map_push(self.queue@, t, |t: DeliveryTask| task_view(t));
                assert(task_view(t) == fresh_task(issue_id, subs[i as int], now));
                assert(fresh_tasks(issue_id, subs, now).subrange(0, i + 1) =~= fresh_tasks(
                    issue_id,
                    subs,
                    now,
                ).subrange(0, i as int).push(task_view(t)));
            }
            let ghost before = self@;
            self.queue.push(t);
            proof {
                assert(self@.queue =~= old(self)@.queue + fresh_tasks(issue_id, subs, now).subrange(
                    0,
                    i + 1,
                ));
                assert(self@ =~= before.with_queue(self@.queue));
            }
            i = i + 1;
        }
        assert(fresh_tasks(issue_id, subs, now).subrange(0, i as int) =~= fresh_tasks(
            issue_id,
            subs,
            now,
        ));
    }

    /// Publishes a newsletter issue under the idempotency key
    /// `(owner_id, key)`, as one transaction.
    ///
    /// Content without a title or without a body is refused before anything
    /// else. A key whose request has finished gets that request's response
    /// again, with nothing else done; a key still held by a request in flight
    /// gets `ConflictInProgress`. A new key is claimed, the issue is stored,
    /// one delivery task is queued per confirmed subscriber, and the accepted
    /// response is saved under the key and returned.
    pub fn publish(&mut self, owner_id: u128, key: &String, content: &IssueContent, now: u64) -> (r:
        Result<HttpOutcome, PublishError>)
        requires
            old(self)@.wf(),
        ensures
            (final(self)@, publish_result_view(r)) == publish_spec(
                old(self)@,
                owner_id,
                key@,
                content@,
                now,
            ),
            final(self)@.wf(),
    {
        if content.title.as_str().unicode_len() == 0 {
            return Err(PublishError::EmptyTitle);
        }
        if content.html_body.as_str().unicode_len() == 0 || content.text_body.as_str().unicode_len()
            == 0 {
            return Err(PublishError::EmptyContent);
        }
        match self.find_record(owner_id, key) {
            Some(i) => match &self.records[i].response {
                Some(saved) => Ok(saved.duplicate()),
                None => Err(PublishError::ConflictInProgress),
            },
            None => {
                let n = self.issues.len();
                proof {
                    assert(old(self)@.issues.len() == n);
                    lemma_published_wf(old(self)@, owner_id, key@, content@, now);
                }
                let id = n as u64;
                let issue = NewsletterIssue {
                    id,
                    title: content.title.clone(),
                    html_body: content.html_body.clone(),
                    text_body: content.text_body.clone(),
                };
                proof {
                    lemma_map_push(self.issues@, issue, |i: NewsletterIssue| issue_view(i));
                }
                self.issues.push(issue);
                self.enqueue_for_subscribers(id, now);
                let rec = IdempotencyRecord {
                    owner_id,
                    key: key.clone(),
                    created_at: now,
                    response: Some(HttpOutcome::accepted()),
                };
                proof {
                    lemma_map_push(self.records@, rec, |r: IdempotencyRecord| record_view(r));
                }
                self.records.push(rec);
                assert(self@ =~= published_store(old(self)@, owner_id, key@, content@, now));
                Ok(HttpOutcome::accepted())
            },
        }
    }

    /// The position of the task of `(issue_id, subscriber_id)`, if it is queued.
    fn find_task(&self, issue_id: u64, subscriber_id: u128) -> (r: Option<usize>)
        requires
            self@.wf(),
        ensures
            match r {
                Some(i) => has_task(self@.queue, issue_id, subscriber_id) && i == task_index(
                    self@.queue,
                    issue_id,
                    subscriber_id,
                ) && i < self.queue@.len(),
                None => !has_task(self@.queue, issue_id, subscriber_id),
            },
    {
        let mut i: usize = 0;
        while i < self.queue.len()
            invariant
                self@.wf(),
                i <= self.queue@.len(),
                forall|j: int|
                    0 <= j < i ==> !is_task(#[trigger] self@.queue[j], issue_id, subscriber_id),
            decreases self.queue.len() - i,
        {
            if self.queue[i].issue_id == issue_id && self.queue[i].subscriber_id == subscriber_id {
                proof {
                    lemma_task_index(self@.queue, issue_id, subscriber_id, i as int);
                }
                return Some(i);
            }
            assert(!is_task(self@.queue[i as int], issue_id, subscriber_id));
            i = i + 1;
        }
        None
    }

    /// Claims the oldest task that may be tried at `now`, and marks it in
    /// flight so that no other claim selects it until it is resolved.
    pub fn claim_next_task(&mut self, now: u64) -> (r: Option<TaskHandle>)
        requires
            old(self)@.wf(),
        ensures
            (final(self)@, handle_option_view(r)) == claim_next_spec(old(self)@, now),
            final(self)@.wf(),
    {
        let mut i: usize = 0;
        while i < self.queue.len()
            invariant
                self@ == old(self)@,
                self@.wf(),
                i <= self.queue@.len(),
                forall|j: int| 0 <= j < i ==> !eligible(#[trigger] self@.queue[j], now),
            decreases self.queue.len() - i,
        {
            let t = &self.queue[i];
            if !t.in_flight && t.execute_after <= now {
                proof {
                    assert(is_first_eligible(self@.queue, now, i as int));
                    lemma_first_eligible(self@.queue, now, i as int);
                }
                let ghost tv = self@.queue[i as int];
                assert(tv.issue_id < self@.issues.len());
                assert(self@.issues.len() == self.issues@.len());
                assert(t.issue_id == tv.issue_id);
                let n_issues = self.issues.len();
                assert(t.issue_id < n_issues);
                let k = t.issue_id as usize;
                assert(k as int == tv.issue_id as int);
                assert(self@.issues[k as int].id == k);
                let issue = &self.issues[k];
                let h = TaskHandle {
                    issue_id: t.issue_id,
                    subscriber_id: t.subscriber_id,
                    subscriber_email: t.subscriber_email.clone(),
                    title: issue.title.clone(),
                    html_body: issue.html_body.clone(),
                    text_body: issue.text_body.clone(),
                    n_retries: t.n_retries,
                };
                let claimed = DeliveryTask {
                    issue_id: t.issue_id,
                    subscriber_id: t.subscriber_id,
                    subscriber_email: t.subscriber_email.clone(),
                    n_retries: t.n_retries,
                    execute_after: t.execute_after,
                    last_error: t.last_error.clone(),
                    in_flight: true,
                };
                proof {
                    lemma_map_update(self.queue@, i as int, claimed, |t: DeliveryTask| task_view(t));
                    assert(tv == task_view(self.queue@[i as int]));
                    assert(old(self)@.issues[k as int] == issue_view(self.issues@[k as int]));
                    assert(h@ == handle_of(old(self)@, tv));
                }
                self.queue.set(i, claimed);
                proof {
                    let q = self@.queue;
                    let oq = old(self)@.queue;
                    assert(forall|j: int|
                        0 <= j < q.len() && j != i ==> #[trigger] q[j] == oq[j]);
                    assert(forall|j: int|
                        0 <= j < q.len() ==> #[trigger] q[j].issue_id == oq[j].issue_id
                            && q[j].subscriber_id == oq[j].subscriber_id);
                    assert forall|d: int| 0 <= d < self@.delivered.len() implies !has_task(
                        q,
                        #[trigger] self@.delivered[d].0,
                        self@.delivered[d].1,
                    ) by {
                        let pair = self@.delivered[d];
                        if has_task(q, pair.0, pair.1) {
                            let w = choose|w: int| 0 <= w < q.len() && is_task(#[trigger] q[w], pair.0, pair.1);
                            assert(is_task(oq[w], pair.0, pair.1));
                        }
                    }
                }
                return Some(h);
            }
            i = i + 1;
        }
        proof {
            lemma_none_eligible(self@.queue, now);
        }
        None
    }

    /// Resolves a held task after its email went out: the task leaves the
    /// queue for good. `false` when the task is not held.
    pub fn succeed(&mut self, h: &TaskHandle) -> (r: bool)
        requires
            old(self)@.wf(),
        ensures
            (final(self)@, r) == succeed_spec(old(self)@, h.issue_id, h.subscriber_id),
            final(self)@.wf(),
    {
        match self.find_task(h.issue_id, h.subscriber_id) {
            None => false,
            Some(i) => {
                if !self.queue[i].in_flight {
                    return false;
                }
                proof {
                    lemma_map_remove(self.queue@, i as int, |t: DeliveryTask| task_view(t));
                    lemma_deliver_task_wf(self@, i as int);
                }
                self.queue.remove(i);
                self.delivered = Ghost(self.delivered@.push((h.issue_id, h.subscriber_id)));
                assert(self@ =~= succeed_spec(old(self)@, h.issue_id, h.subscriber_id).0);
                true
            },
        }
    }

    /// Hands a held task back unresolved, for a worker that gives up on it
    /// (it is stopping, or its send cannot be made): the task may be claimed
    /// again at once. `false` when the task is not held.
    pub fn release_task(&mut self, h: &TaskHandle) -> (r: bool)
        requires
            old(self)@.wf(),
        ensures
            (final(self)@, r) == release_task_spec(old(self)@, h.issue_id, h.subscriber_id),
            final(self)@.wf(),
    {
        match self.find_task(h.issue_id, h.subscriber_id) {
            None => false,
            Some(i) => {
                if !self.queue[i].in_flight {
                    return false;
                }
                let t = &self.queue[i];
                let freed = DeliveryTask {
                    issue_id: t.issue_id,
                    subscriber_id: t.subscriber_id,
                    subscriber_email: t.subscriber_email.clone(),
                    n_retries: t.n_retries,
                    execute_after: t.execute_after,
                    last_error: t.last_error.clone(),
                    in_flight: false,
                };
                proof {
                    lemma_map_update(self.queue@, i as int, freed, |t: DeliveryTask| task_view(t));
                    lemma_update_task_wf(self@, i as int, task_view(freed));
                }
                self.queue.set(i, freed);
                assert(self@ =~= release_task_spec(old(self)@, h.issue_id, h.subscriber_id).0);
                true
            },
        }
    }

    /// Resolves a held task after its delivery failed at `now`. A transient
    /// failure with retries left puts the task back, to be tried after the
    /// backoff; any other failure removes it and records it as abandoned.
    /// `false` when the task is not held.
    pub fn fail(&mut self, h: &TaskHandle, transient: bool, error: String, now: u64) -> (r: bool)
        requires
            old(self)@.wf(),
        ensures
            (final(self)@, r) == fail_spec(
                old(self)@,
                h.issue_id,
                h.subscriber_id,
                transient,
                error@,
                now,
            ),
            final(self)@.wf(),
    {
        match self.find_task(h.issue_id, h.subscriber_id) {
            None => false,
            Some(i) => {
                if !self.queue[i].in_flight {
                    return false;
                }
                let n = self.queue[i].n_retries;
                if transient && n < MAX_RETRIES {
                    let t = &self.queue[i];
                    let retried = DeliveryTask {
                        issue_id: t.issue_id,
                        subscriber_id: t.subscriber_id,
                        subscriber_email: t.subscriber_email.clone(),
                        n_retries: n + 1,
                        execute_after: retry_time(now, n),
                        last_error: error,
                        in_flight: false,
                    };
                    proof {
                        lemma_map_update(self.queue@, i as int, retried, |t: DeliveryTask| task_view(t));
                        lemma_update_task_wf(self@, i as int, task_view(retried));
                    }
                    self.queue.set(i, retried);
                    assert(self@ =~= fail_spec(old(self)@, h.issue_id, h.subscriber_id, transient, error@, now).0);
                } else {
                    proof {
                        lemma_map_remove(self.queue@, i as int, |t: DeliveryTask| task_view(t));
                    }
                    let t = self.queue.remove(i);
                    let gone = DeliveryTask {
                        issue_id: t.issue_id,
                        subscriber_id: t.subscriber_id,
                        subscriber_email: t.subscriber_email,
                        n_retries: t.n_retries,
                        execute_after: t.execute_after,
                        last_error: error,
                        in_flight: false,
                    };
                    proof {
                        lemma_map_push(self.abandoned@, gone, |t: DeliveryTask| task_view(t));
                        lemma_remove_task_wf(old(self)@, i as int, tasks_view(self.abandoned@.push(gone)));
                    }
                    self.abandoned.push(gone);
                    assert(self@ =~= fail_spec(old(self)@, h.issue_id, h.subscriber_id, transient, error@, now).0);
                }
                true
            },
        }
    }

    /// Runs the worker's cycle (claim the oldest eligible task, hand its
    /// email to `sender`, resolve the task by the outcome) until no task may
    /// be tried at `now`, and returns one record per send, in order.
    ///
    /// Every task eligible at `now` on entry is claimed and sent exactly once,
    /// and nothing else is: its record holds the task's address and its
    /// issue's content as they were handed to `sender`. The store ends as the
    /// claims and the resolutions by the recorded outcomes leave it.
    pub fn drain_now<S: EmailSender>(&mut self, sender: &mut S, now: u64) -> (attempts: Vec<
        SendAttempt,
    >)
        requires
            old(self)@.wf(),
            now < u64::MAX,
        ensures
            final(sender).sent() == old(sender).sent() + emails_of(attempts@),
            final(self)@.wf(),
            !has_eligible(final(self)@.queue, now),
            (final(self)@, attempt_handles(attempts@)) == drain_spec(
                old(self)@,
                now,
                attempt_results(attempts@),
            ),
            attempts@.len() == count_eligible(old(self)@.queue, now),
            forall|j: int|
                0 <= j < final(self)@.queue.len() && #[trigger] final(self)@.queue[j].in_flight
                    ==> old(self)@.queue.contains(final(self)@.queue[j]),
            forall|k: int|
                0 <= k < attempts@.len() ==> sent_from(old(self)@, now, #[trigger] attempts@[k].task@),
            forall|j: int|
                0 <= j < old(self)@.queue.len() && eligible(#[trigger] old(self)@.queue[j], now)
                    ==> exists|k: int|
                    0 <= k < attempts@.len() && is_task(
                        old(self)@.queue[j],
                        attempts@[k].task.issue_id,
                        attempts@[k].task.subscriber_id,
                    ),
            forall|a: int, b: int|
                0 <= a < b < attempts@.len() ==> !is_key(
                    #[trigger] attempts@[a],
                    #[trigger] attempts@[b],
                ),
            final(self)@.records == old(self)@.records,
            final(self)@.issues == old(self)@.issues,
            final(self)@.subscribers == old(self)@.subscribers,
            old(self)@.delivered.is_prefix_of(final(self)@.delivered),
            forall|m: int|
                old(self)@.delivered.len() <= m < final(self)@.delivered.len() ==> sent_pair(
                    attempts@,
                    #[trigger] final(self)@.delivered[m],
                ),
            old(self)@.abandoned.is_prefix_of(final(self)@.abandoned),
            forall|m: int|
                old(self)@.abandoned.len() <= m < final(self)@.abandoned.len() ==> sent_pair(
                    attempts@,
                    (#[trigger] final(self)@.abandoned[m].issue_id, final(self)@.abandoned[m].subscriber_id),
                ),
    {
        let ghost start = self@;
        let ghost elig = eligible_at(now);
        let mut attempts: Vec<SendAttempt> = Vec::new();
        let mut done = false;
        while !done
            invariant
                sender.sent() == old(sender).sent() + emails_of(attempts@),
                self@.wf(),
                now < u64::MAX,
                elig == eligible_at(now),
                start == old(self)@,
                self@.records == start.records,
                self@.issues == start.issues,
                self@.subscribers == start.subscribers,
                (self@, attempt_handles(attempts@)) == drain_spec(
                    start,
                    now,
                    attempt_results(attempts@),
                ),
                attempts@.len() + count_eligible(self@.queue, now) == count_eligible(start.queue, now),
                drain_inv(start, self@, attempts@, now),
                done ==> !has_eligible(self@.queue, now),
            decreases count_eligible(self@.queue, now) + if done {
                0nat
            } else {
                1nat
            },
        {
            let ghost before = self@;
            let ghost before_attempts = attempts@;
            match self.claim_next_task(now) {
                None => {
                    done = true;
                },
                Some(h) => {
                    let ghost i = first_eligible(before.queue, now);
                    let ghost claimed = self@;
                    let ghost ti = before.queue[i];
                    proof {
                        lemma_has_first_eligible(before.queue, now);
                        lemma_count_update(
                            before.queue,
                            i,
                            TaskView { in_flight: true, ..ti },
                            now,
                        );
                        lemma_task_index(claimed.queue, h.issue_id, h.subscriber_id, i);
                    }
                    let sent = sender.send(
                        h.subscriber_email.as_str(),
                        h.title.as_str(),
                        h.html_body.as_str(),
                        h.text_body.as_str(),
                    );
                    match sent {
                        Ok(()) => {
                            self.succeed(&h);
                            proof {
                                lemma_count_remove(claimed.queue, i, now);
                            }
                        },
                        Err(e) => {
                            let transient = e == DeliveryError::Transient;
                            let msg = if transient {
                                String::from_str("transient delivery failure")
                            } else {
                                String::from_str("permanent delivery failure")
                            };
                            self.fail(&h, transient, msg, now);
                            proof {
                                if transient && ti.n_retries < MAX_RETRIES {
                                    lemma_retry_after_now(now, ti.n_retries as nat);
                                    lemma_count_update(claimed.queue, i, self@.queue[i], now);
                                } else {
                                    lemma_count_remove(claimed.queue, i, now);
                                }
                            }
                        },
                    }
                    let attempt = SendAttempt { task: h, result: sent };
                    proof {
                        lemma_map_push(attempts@, attempt, |a: SendAttempt| a.task@);
                        lemma_map_push(attempts@, attempt, |a: SendAttempt| a.result);
                        lemma_map_push(attempts@, attempt, |a: SendAttempt| email_of(a));
                    }
                    attempts.push(attempt);
                    proof {
                        assert(sender.sent() =~= old(sender).sent() + emails_of(attempts@));
                        assert(attempts@.drop_last() =~= before_attempts);
                        lemma_drain_step(start, before, self@, before_attempts, attempts@, now);
                    }
                },
            }
        }
        proof {
            lemma_count_none(self@.queue, now);
            assert forall|j: int|
                0 <= j < start.queue.len() && eligible(#[trigger] start.queue[j], now) implies exists|k: int|
                0 <= k < attempts@.len() && is_task(
                    start.queue[j],
                    attempts@[k].task.issue_id,
                    attempts@[k].task.subscriber_id,
                ) by {
                if has_task_where(
                    self@.queue,
                    start.queue[j].issue_id,
                    start.queue[j].subscriber_id,
                    elig,
                ) {
                    let w = choose|w: int|
                        0 <= w < self@.queue.len() && is_task(
                            #[trigger] self@.queue[w],
                            start.queue[j].issue_id,
                            start.queue[j].subscriber_id,
                        ) && elig(self@.queue[w]);
                    assert(eligible(self@.queue[w], now));
                }
            }
        }
        attempts
    }

    /// How many newsletter issues are stored.
    pub fn issue_count(&self) -> (r: usize)
        ensures
            r == self@.issues.len(),
    {
        self.issues.len()
    }

    /// How many delivery tasks are queued.
    pub fn queue_len(&self) -> (r: usize)
        ensures
            r == self@.queue.len(),
    {
        self.queue.len()
    }

    /// How many delivery tasks were abandoned for good.
    pub fn abandoned_count(&self) -> (r: usize)
        ensures
            r == self@.abandoned.len(),
    {
        self.abandoned.len()
    }

    /// The number of transient failures of the queued task of
    /// `(issue_id, subscriber_id)`, if it is queued.
    pub fn task_retries(&self, issue_id: u64, subscriber_id: u128) -> (r: Option<u32>)
        requires
            self@.wf(),
        ensures
            match r {
                Some(n) => has_task(self@.queue, issue_id, subscriber_id) && n == self@.queue[task_index(
                    self@.queue,
                    issue_id,
                    subscriber_id,
                )].n_retries,
                None => !has_task(self@.queue, issue_id, subscriber_id),
            },
    {
        match self.find_task(issue_id, subscriber_id) {
            Some(i) => Some(self.queue[i].n_retries),
            None => None,
        }
    }
}

/// A first publish keeps the store's invariant.
pub proof fn lemma_published_wf(s: StoreView, owner: u128, key: Seq<char>, c: ContentView, now: u64)
    requires
        s.wf(),
        !has_record(s.records, owner, key),
        s.issues.len() <= u64::MAX,
    ensures
        published_store(s, owner, key, c, now).wf(),
{
    let p = published_store(s, owner, key, c, now);
    let id = s.issues.len() as u64;
    let n = s.queue.len();
    let fresh = fresh_tasks(id, s.subscribers, now);
    assert(p.queue == s.queue + fresh);
    assert forall|i: int| 0 <= i < p.queue.len() implies #[trigger] p.queue[i].issue_id
        < p.issues.len() by {
        if i >= n {
            assert(p.queue[i] == fresh[i - n]);
        }
    }
    assert forall|i: int, j: int|
        0 <= i < p.queue.len() && 0 <= j < p.queue.len() && p.queue[i].issue_id
            == p.queue[j].issue_id && p.queue[i].subscriber_id
            == p.queue[j].subscriber_id implies i == j by {
        if i < n && j < n {
            assert(s.queue[i] == p.queue[i] && s.queue[j] == p.queue[j]);
        } else if i >= n && j >= n {
            assert(p.queue[i] == fresh[i - n] && p.queue[j] == fresh[j - n]);
            assert(s.subscribers[i - n].id == s.subscribers[j - n].id);
        } else if i < n {
            assert(p.queue[i] == s.queue[i] && p.queue[j] == fresh[j - n]);
        } else {
            assert(p.queue[j] == s.queue[j] && p.queue[i] == fresh[i - n]);
        }
    }
    assert forall|k: int| 0 <= k < p.delivered.len() implies !has_task(
        p.queue,
        #[trigger] p.delivered[k].0,
        p.delivered[k].1,
    ) by {
        let d = p.delivered[k];
        if has_task(p.queue, d.0, d.1) {
            let i = choose|i: int| 0 <= i < p.queue.len() && is_task(#[trigger] p.queue[i], d.0, d.1);
            if i < n {
                assert(p.queue[i] == s.queue[i]);
                assert(has_task(s.queue, d.0, d.1));
            } else {
                assert(p.queue[i] == fresh[i - n]);
            }
        }
    }
    let rs = p.records;
    assert forall|a: int, b: int|
        #![trigger rs[a], rs[b]]
        0 <= a < rs.len() && 0 <= b < rs.len() && rs[a].owner_id == rs[b].owner_id && rs[a].key
            == rs[b].key implies a == b by {
        if a < s.records.len() && b < s.records.len() {
            assert(rs[a] == s.records[a] && rs[b] == s.records[b]);
        } else if a < s.records.len() {
            assert(rs[a] == s.records[a]);
            assert(matches_key(s.records[a], owner, key));
        } else if b < s.records.len() {
            assert(rs[b] == s.records[b]);
            assert(matches_key(s.records[b], owner, key));
        }
    }
}

/// One claim, send and resolution keep what a drain maintains.
pub proof fn lemma_drain_step(
    start: StoreView,
    before: StoreView,
    after: StoreView,
    prev: Seq<SendAttempt>,
    attempts: Seq<SendAttempt>,
    now: u64,
)
    requires
        before.wf(),
        now < u64::MAX,
        before.issues == start.issues,
        drain_inv(start, before, prev, now),
        (before, attempt_handles(prev)) == drain_spec(start, now, attempt_results(prev)),
        has_eligible(before.queue, now),
        attempts.len() == prev.len() + 1,
        attempts.drop_last() == prev,
        claim_next_spec(before, now).1 == Some(attempts.last().task@),
        after == resolve_spec(
            claim_next_spec(before, now).0,
            attempts.last().task@,
            attempts.last().result,
            now,
        ),
    ensures
        drain_inv(start, after, attempts, now),
        (after, attempt_handles(attempts)) == drain_spec(start, now, attempt_results(attempts)),
{
    let elig = eligible_at(now);
    lemma_has_first_eligible(before.queue, now);
    let i = first_eligible(before.queue, now);
    let ti = before.queue[i];
    let claimed = claim_next_spec(before, now).0;
    let q1 = claimed.queue;
    let last = attempts.last();
    let h = last.task@;
    let kh = (ti.issue_id, ti.subscriber_id);
    lemma_update_task_wf(before, i, TaskView { in_flight: true, ..ti });
    lemma_task_index(q1, ti.issue_id, ti.subscriber_id, i);
    assert(forall|k: int| 0 <= k < prev.len() ==> #[trigger] attempts[k] == prev[k]);
    assert(elig(ti));
    assert(has_task_where(before.queue, ti.issue_id, ti.subscriber_id, elig)) by {
        assert(is_task(before.queue[i], ti.issue_id, ti.subscriber_id));
    }
    // The pair sent now was not sent before.
    assert forall|k: int| 0 <= k < prev.len() implies !is_task(
        ti,
        #[trigger] prev[k].task.issue_id,
        prev[k].task.subscriber_id,
    ) by {
        if is_task(ti, prev[k].task.issue_id, prev[k].task.subscriber_id) {
            assert(!has_task_where(before.queue, prev[k].task.issue_id, prev[k].task.subscriber_id, elig));
        }
    }
    // How the resolution left the task of the pair.
    let retried = last.result is Err && last.result->Err_0 == DeliveryError::Transient
        && ti.n_retries < MAX_RETRIES;
    if retried {
        lemma_retry_after_now(now, ti.n_retries as nat);
        assert(!eligible(after.queue[i], now));
        assert(after.queue == q1.update(i, after.queue[i]));
    } else {
        assert(after.queue == q1.remove(i));
    }
    assert(!eligible(q1[i], now));
    // Every other pair is as it was.
    assert forall|iss: u64, sub: u128| !is_task(ti, iss, sub) implies has_task_where(
        after.queue,
        iss,
        sub,
        elig,
    ) == #[trigger] has_task_where(before.queue, iss, sub, elig) by {
        lemma_where_update(before.queue, i, TaskView { in_flight: true, ..ti }, iss, sub, elig);
        if retried {
            lemma_where_update(q1, i, after.queue[i], iss, sub, elig);
        } else {
            lemma_where_remove(q1, i, iss, sub, elig);
        }
    }
    if retried {
        lemma_where_replaced(q1, i, after.queue[i], elig);
    } else {
        lemma_where_removed(q1, i, elig);
    }
    // Eligible and held tasks are still tasks of the start.
    assert forall|j: int|
        0 <= j < after.queue.len() && (eligible(#[trigger] after.queue[j], now)
            || after.queue[j].in_flight) implies start.queue.contains(after.queue[j]) by {
        if retried {
            assert(j != i);
            assert(after.queue[j] == before.queue[j]);
        } else {
            let j1 = if j < i { j } else { j + 1 };
            assert(after.queue[j] == q1[j1]);
            assert(j1 != i);
            assert(q1[j1] == before.queue[j1]);
        }
    }
    assert forall|j: int|
        0 <= j < start.queue.len() && eligible(#[trigger] start.queue[j], now) implies (has_task_where(
        after.queue,
        start.queue[j].issue_id,
        start.queue[j].subscriber_id,
        elig,
    ) || exists|k: int|
        0 <= k < attempts.len() && is_task(
            start.queue[j],
            #[trigger] attempts[k].task.issue_id,
            attempts[k].task.subscriber_id,
        )) by {
        let t = start.queue[j];
        if is_task(ti, t.issue_id, t.subscriber_id) {
            assert(is_task(t, attempts[prev.len() as int].task.issue_id, attempts[prev.len() as int].task.subscriber_id));
        } else if !has_task_where(before.queue, t.issue_id, t.subscriber_id, elig) {
            let k = choose|k: int|
                0 <= k < prev.len() && is_task(
                    t,
                    #[trigger] prev[k].task.issue_id,
                    prev[k].task.subscriber_id,
                );
            assert(attempts[k] == prev[k]);
        }
    }
    assert forall|k: int| 0 <= k < attempts.len() implies !has_task_where(
        after.queue,
        #[trigger] attempts[k].task.issue_id,
        attempts[k].task.subscriber_id,
        elig,
    ) by {
        if k < prev.len() {
            assert(attempts[k] == prev[k]);
            assert(!is_task(ti, prev[k].task.issue_id, prev[k].task.subscriber_id));
        }
    }
    assert(start.queue.contains(ti));
    let jt = choose|jt: int| 0 <= jt < start.queue.len() && start.queue[jt] == ti;
    assert forall|k: int| 0 <= k < attempts.len() implies sent_from(
        start,
        now,
        #[trigger] attempts[k].task@,
    ) by {
        if k < prev.len() {
            assert(attempts[k] == prev[k]);
        } else {
            assert(attempts[k].task@ == handle_of(start, start.queue[jt]));
        }
    }
    assert forall|a: int, b: int| 0 <= a < b < attempts.len() implies !is_key(
        #[trigger] attempts[a],
        #[trigger] attempts[b],
    ) by {
        if b == prev.len() {
            assert(attempts[a] == prev[a]);
            assert(!is_task(ti, prev[a].task.issue_id, prev[a].task.subscriber_id));
        } else {
            assert(attempts[a] == prev[a] && attempts[b] == prev[b]);
        }
    }
    let n = prev.len() as int;
    assert(attempts[n] == last);
    if last.result is Ok {
        assert(after.delivered == before.delivered.push((ti.issue_id, ti.subscriber_id)));
        assert(after.abandoned == before.abandoned);
    } else if retried {
        assert(after.delivered == before.delivered);
        assert(after.abandoned == before.abandoned);
    } else {
        assert(after.delivered == before.delivered);
        assert(after.abandoned.drop_last() == before.abandoned);
        assert(is_task(after.abandoned.last(), ti.issue_id, ti.subscriber_id));
    }
    assert forall|m: int|
        start.delivered.len() <= m < after.delivered.len() implies sent_pair(
        attempts,
        #[trigger] after.delivered[m],
    ) by {
        if m < before.delivered.len() {
            assert(after.delivered[m] == before.delivered[m]);
            assert(sent_pair(prev, before.delivered[m]));
            let k = choose|k: int|
                0 <= k < prev.len() && before.delivered[m] == (
                    #[trigger] prev[k].task.issue_id,
                    prev[k].task.subscriber_id,
                );
            assert(attempts[k] == prev[k]);
        } else {
            assert(after.delivered[m] == (attempts[n].task.issue_id, attempts[n].task.subscriber_id));
        }
    }
    assert forall|m: int|
        start.abandoned.len() <= m < after.abandoned.len() implies sent_pair(
        attempts,
        (#[trigger] after.abandoned[m].issue_id, after.abandoned[m].subscriber_id),
    ) by {
        let t = after.abandoned[m];
        if m < before.abandoned.len() {
            assert(t == before.abandoned[m]);
            assert(sent_pair(prev, (before.abandoned[m].issue_id, before.abandoned[m].subscriber_id)));
            let k = choose|k: int|
                0 <= k < prev.len() && (t.issue_id, t.subscriber_id) == (
                    #[trigger] prev[k].task.issue_id,
                    prev[k].task.subscriber_id,
                );
            assert(attempts[k] == prev[k]);
        } else {
            assert(is_task(t, attempts[n].task.issue_id, attempts[n].task.subscriber_id));
        }
    }
    assert(start.delivered.is_prefix_of(after.delivered)) by {
        assert(start.delivered =~= after.delivered.subrange(0, start.delivered.len() as int));
    }
    assert(start.abandoned.is_prefix_of(after.abandoned)) by {
        assert(start.abandoned =~= after.abandoned.subrange(0, start.abandoned.len() as int));
    }
    assert(attempt_results(attempts).drop_last() =~= attempt_results(prev));
    assert(attempt_handles(attempts) =~= attempt_handles(prev).push(h));
    assert(attempt_results(attempts).last() == last.result);
}

} // verus!

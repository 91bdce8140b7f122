//! What holds of the publishing subsystem across several operations.
use vstd::prelude::*;

use crate::model::{
    claim_next_spec, content_error, fail_spec, has_record, has_task, held, is_task,
    lemma_record_index, publish_spec, published_store, release_claim_spec, save_response_spec,
    succeed_spec, task_index, try_claim_spec, ClaimView, ContentView, PublishError, StoreView,
    MAX_RETRIES,
};
use crate::outcome::{accepted_outcome, OutcomeView};
use crate::store::lemma_published_wf;

verus! {

/// After a first publish of `(owner, key)`, the key is held with the
/// accepted response saved.
proof fn lemma_published_record(s: StoreView, owner: u128, key: Seq<char>, c: ContentView, now: u64)
    requires
        s.wf(),
        !has_record(s.records, owner, key),
        s.issues.len() <= u64::MAX,
    ensures
        has_record(published_store(s, owner, key, c, now).records, owner, key),
        crate::model::saved_response(published_store(s, owner, key, c, now).records, owner, key)
            == Some(accepted_outcome()),
{
    let p = published_store(s, owner, key, c, now);
    lemma_published_wf(s, owner, key, c, now);
    lemma_record_index(p.records, s.records.len() as int);
}

/// Publishing twice with the same owner, key and content returns the same
/// outcome both times, and the second call changes nothing: one issue and one
/// batch of delivery tasks in all. A first publish of a new key adds exactly
/// one issue and one task per confirmed subscriber; a refused one changes
/// nothing.
pub proof fn law_idempotent_publish(
    s: StoreView,
    owner: u128,
    key: Seq<char>,
    c: ContentView,
    now1: u64,
    now2: u64,
)
    requires
        s.wf(),
        s.issues.len() <= u64::MAX,
    ensures
        ({
            let (s1, r1) = publish_spec(s, owner, key, c, now1);
            let (s2, r2) = publish_spec(s1, owner, key, c, now2);
            &&& r1 is Ok ==> r2 == r1 && s2 == s1
            &&& r1 is Err ==> s1 == s
            &&& (r1 is Ok && !has_record(s.records, owner, key)) ==> s1.issues.len()
                == s.issues.len() + 1 && s1.queue.len() == s.queue.len() + s.subscribers.len()
        }),
{
    if content_error(c) is None {
        law_duplicate_submissions(s, owner, key, c, c, accepted_outcome(), now1, now2);
    }
}

/// Two submissions under the same owner and key, whichever is served first,
/// get the same outcome, and only the first changes the store: exactly one
/// issue and one batch of tasks. While the first holds the key in flight, the
/// second is told to wait and changes nothing; once the first has saved its
/// response, the second gets that response.
pub proof fn law_duplicate_submissions(
    s: StoreView,
    owner: u128,
    key: Seq<char>,
    c1: ContentView,
    c2: ContentView,
    resp: OutcomeView,
    now1: u64,
    now2: u64,
)
    requires
        s.wf(),
        s.issues.len() <= u64::MAX,
        content_error(c2) is None,
    ensures
        ({
            let (s1, r1) = publish_spec(s, owner, key, c1, now1);
            let (s2, r2) = publish_spec(s1, owner, key, c2, now2);
            &&& r1 is Ok ==> r2 == r1 && s2 == s1
            &&& r1 is Err ==> s1 == s
            &&& (r1 is Ok && !has_record(s.records, owner, key)) ==> s1.issues.len()
                == s.issues.len() + 1 && s1.queue.len() == s.queue.len() + s.subscribers.len()
        }),
        ({
            let (s1, claim) = try_claim_spec(s, owner, key, now1);
            let (s2, r2) = publish_spec(s1, owner, key, c2, now2);
            claim == ClaimView::Claimed ==> r2 == Err::<OutcomeView, PublishError>(
                PublishError::ConflictInProgress,
            ) && s2 == s1
        }),
        ({
            let (s1, claim) = try_claim_spec(s, owner, key, now1);
            let (s2, saved) = save_response_spec(s1, owner, key, resp);
            let (s3, r3) = publish_spec(s2, owner, key, c2, now2);
            claim == ClaimView::Claimed ==> saved is Ok && r3 == Ok::<OutcomeView, PublishError>(
                resp,
            ) && s3 == s2
        }),
{
    if content_error(c1) is None && !has_record(s.records, owner, key) {
        lemma_published_record(s, owner, key, c1, now1);
    }
    if !has_record(s.records, owner, key) {
        lemma_claim_then_save(s, owner, key, resp, now1);
    }
}

/// Claiming a free key holds it in flight; the record now exists and later
/// claims see it.
proof fn lemma_claim_then_save(s: StoreView, owner: u128, key: Seq<char>, resp: OutcomeView, now: u64)
    requires
        s.wf(),
        !has_record(s.records, owner, key),
    ensures
        ({
            let (s1, claim) = try_claim_spec(s, owner, key, now);
            &&& claim == ClaimView::Claimed
            &&& s1.wf()
            &&& has_record(s1.records, owner, key)
            &&& crate::model::saved_response(s1.records, owner, key) is None
        }),
        ({
            let (s1, claim) = try_claim_spec(s, owner, key, now);
            let (s2, saved) = save_response_spec(s1, owner, key, resp);
            &&& saved is Ok
            &&& s2.wf()
            &&& has_record(s2.records, owner, key)
            &&& crate::model::saved_response(s2.records, owner, key) == Some(resp)
        }),
{
    let (s1, claim) = try_claim_spec(s, owner, key, now);
    assert(crate::model::unique_records(s1.records)) by {
        let rs = s1.records;
        assert forall|a: int, b: int|
            #![trigger rs[a], rs[b]]
            0 <= a < rs.len() && 0 <= b < rs.len() && rs[a].owner_id == rs[b].owner_id
                && rs[a].key == rs[b].key implies a == b by {
            if a < s.records.len() && b < s.records.len() {
                assert(rs[a] == s.records[a] && rs[b] == s.records[b]);
            } else if a < s.records.len() {
                assert(rs[a] == s.records[a]);
                assert(crate::model::matches_key(s.records[a], owner, key));
            } else if b < s.records.len() {
                assert(rs[b] == s.records[b]);
                assert(crate::model::matches_key(s.records[b], owner, key));
            }
        }
    }
    lemma_record_index(s1.records, s.records.len() as int);
    {
        let (s2, saved) = save_response_spec(s1, owner, key, resp);
        let i = s.records.len() as int;
        let rs = s2.records;
        assert(rs.len() == s1.records.len());
        assert forall|a: int, b: int|
            #![trigger rs[a], rs[b]]
            0 <= a < rs.len() && 0 <= b < rs.len() && rs[a].owner_id == rs[b].owner_id
                && rs[a].key == rs[b].key implies a == b by {
            assert(rs[a].owner_id == s1.records[a].owner_id && rs[a].key == s1.records[a].key);
            assert(rs[b].owner_id == s1.records[b].owner_id && rs[b].key == s1.records[b].key);
        }
        lemma_record_index(rs, i);
    }
}

/// Claiming a key that no record holds inserts the claim and returns
/// `Claimed`. Claiming it again before the first request finishes reports it
/// in flight, so that the caller waits, and changes nothing. Once the first
/// request has saved its response, claiming again returns that very response.
/// If the first request gives up instead, the key can be claimed anew.
pub proof fn law_claim_race(
    s: StoreView,
    owner: u128,
    key: Seq<char>,
    resp: OutcomeView,
    now1: u64,
    now2: u64,
    now3: u64,
)
    requires
        s.wf(),
        !has_record(s.records, owner, key),
    ensures
        ({
            let (s1, c1) = try_claim_spec(s, owner, key, now1);
            let (s2, c2) = try_claim_spec(s1, owner, key, now2);
            let (s3, saved) = save_response_spec(s1, owner, key, resp);
            let (s4, c4) = try_claim_spec(s3, owner, key, now3);
            let (s5, released) = release_claim_spec(s1, owner, key);
            let (s6, c6) = try_claim_spec(s5, owner, key, now3);
            &&& c1 == ClaimView::Claimed
            &&& c2 == ClaimView::AlreadyClaimed(None) && s2 == s1
            &&& saved is Ok && s3.wf()
            &&& c4 == ClaimView::AlreadyClaimed(Some(resp)) && s4 == s3
            &&& released is Ok && s5 == s
            &&& c6 == ClaimView::Claimed
        }),
{
    lemma_claim_then_save(s, owner, key, resp, now1);
    let (s1, c1) = try_claim_spec(s, owner, key, now1);
    lemma_record_index(s1.records, s.records.len() as int);
    assert(s1.records.remove(s.records.len() as int) =~= s.records);
    let (s5, released) = release_claim_spec(s1, owner, key);
    assert(s5 =~= s);
}

/// Publishing when no subscriber is confirmed succeeds, stores the issue, and
/// queues no delivery task.
pub proof fn law_publish_without_audience(
    s: StoreView,
    owner: u128,
    key: Seq<char>,
    c: ContentView,
    now: u64,
)
    requires
        s.wf(),
        s.subscribers.len() == 0,
        content_error(c) is None,
        !has_record(s.records, owner, key),
    ensures
        ({
            let (s1, r) = publish_spec(s, owner, key, c, now);
            &&& r == Ok::<OutcomeView, PublishError>(accepted_outcome())
            &&& s1.queue == s.queue
            &&& s1.issues.len() == s.issues.len() + 1
        }),
{
    let fresh = crate::model::fresh_tasks(s.issues.len() as u64, s.subscribers, now);
    assert(s.queue + fresh =~= s.queue);
}

/// A first publish queues exactly one delivery task for each confirmed
/// subscriber, and none for anybody else.
pub proof fn law_one_task_per_subscriber(
    s: StoreView,
    owner: u128,
    key: Seq<char>,
    c: ContentView,
    now: u64,
)
    requires
        s.wf(),
        s.issues.len() <= u64::MAX,
        content_error(c) is None,
        !has_record(s.records, owner, key),
    ensures
        ({
            let (s1, r) = publish_spec(s, owner, key, c, now);
            let id = s.issues.len() as u64;
            &&& s1.wf()
            &&& forall|k: int|
                0 <= k < s.subscribers.len() ==> has_task(
                    s1.queue,
                    id,
                    #[trigger] s.subscribers[k].id,
                )
            &&& forall|j: int|
                0 <= j < s1.queue.len() && #[trigger] s1.queue[j].issue_id == id ==> exists|k: int|
                    0 <= k < s.subscribers.len() && s.subscribers[k].id == s1.queue[j].subscriber_id
        }),
{
    lemma_published_wf(s, owner, key, c, now);
    let (s1, r) = publish_spec(s, owner, key, c, now);
    let id = s.issues.len() as u64;
    let n = s.queue.len();
    let fresh = crate::model::fresh_tasks(id, s.subscribers, now);
    assert forall|k: int| 0 <= k < s.subscribers.len() implies has_task(
        s1.queue,
        id,
        #[trigger] s.subscribers[k].id,
    ) by {
        assert(s1.queue[n + k] == fresh[k]);
        assert(is_task(s1.queue[n + k], id, s.subscribers[k].id));
    }
    assert forall|j: int|
        0 <= j < s1.queue.len() && #[trigger] s1.queue[j].issue_id == id implies exists|k: int|
        0 <= k < s.subscribers.len() && s.subscribers[k].id == s1.queue[j].subscriber_id by {
        if j < n {
            assert(s1.queue[j] == s.queue[j]);
        } else {
            assert(s1.queue[j] == fresh[j - n]);
            assert(s.subscribers[j - n].id == s1.queue[j].subscriber_id);
        }
    }
}

/// Resolving a held task as delivered takes it out of the queue and records
/// its delivery.
pub proof fn law_succeed_records_delivery(s: StoreView, issue: u64, sub: u128)
    requires
        s.wf(),
        held(s, issue, sub),
    ensures
        ({
            let (s1, ok) = succeed_spec(s, issue, sub);
            &&& ok
            &&& !has_task(s1.queue, issue, sub)
            &&& s1.delivered.contains((issue, sub))
        }),
{
    let (s1, ok) = succeed_spec(s, issue, sub);
    crate::model::lemma_deliver_task_wf(s, task_index(s.queue, issue, sub));
    assert(s1.delivered[s1.delivered.len() - 1] == (issue, sub));
    assert(!has_task(s1.queue, s1.delivered[s1.delivered.len() - 1].0, s1.delivered[s1.delivered.len() - 1].1));
}

/// In every state of the store, no (issue, subscriber) pair is recorded as
/// delivered twice, and no claim selects a pair that was delivered.
pub proof fn law_delivered_never_claimed(s: StoreView, now: u64)
    requires
        s.wf(),
    ensures
        s.delivered.no_duplicates(),
        forall|d: int|
            0 <= d < s.delivered.len() ==> match claim_next_spec(s, now).1 {
                Some(h) => (h.issue_id, h.subscriber_id) != #[trigger] s.delivered[d],
                None => true,
            },
{
    if crate::model::has_eligible(s.queue, now) {
        crate::model::lemma_has_first_eligible(s.queue, now);
        let i = crate::model::first_eligible(s.queue, now);
        assert forall|d: int| 0 <= d < s.delivered.len() implies (s.queue[i].issue_id, s.queue[i].subscriber_id)
            != #[trigger] s.delivered[d] by {
            if (s.queue[i].issue_id, s.queue[i].subscriber_id) == s.delivered[d] {
                assert(is_task(s.queue[i], s.delivered[d].0, s.delivered[d].1));
            }
        }
    }
}

/// A transient failure with retries left keeps the task queued, once, with no
/// delivery recorded, and makes it wait past the time of the failure; nothing
/// else in the queue changes.
pub proof fn law_retry_keeps_task(s: StoreView, issue: u64, sub: u128, error: Seq<char>, now: u64)
    requires
        s.wf(),
        held(s, issue, sub),
        s.queue[task_index(s.queue, issue, sub)].n_retries < MAX_RETRIES,
        now < u64::MAX,
    ensures
        ({
            let (s1, ok) = fail_spec(s, issue, sub, true, error, now);
            let i = task_index(s.queue, issue, sub);
            &&& ok
            &&& s1.wf()
            &&& s1.delivered == s.delivered
            &&& s1.queue.len() == s.queue.len()
            &&& task_index(s1.queue, issue, sub) == i
            &&& s1.queue[i].n_retries == s.queue[i].n_retries + 1
            &&& !crate::model::eligible(s1.queue[i], now)
            &&& forall|j: int| 0 <= j < s.queue.len() && j != i ==> s1.queue[j] == s.queue[j]
        }),
{
    let i = task_index(s.queue, issue, sub);
    let (s1, ok) = fail_spec(s, issue, sub, true, error, now);
    crate::model::lemma_update_task_wf(s, i, s1.queue[i]);
    crate::model::lemma_retry_after_now(now, s.queue[i].n_retries as nat);
    crate::model::lemma_task_index(s1.queue, issue, sub, i);
}

} // verus!

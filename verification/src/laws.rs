//! The laws of the monitor, stated over all inputs and proved once: the diff
//! is a set difference of rosters, an identical roster diffs to nothing, the
//! escalation alert is edge-triggered, and the sentinel identity never
//! reaches a roster or an event.
use vstd::prelude::*;
use crate::controller::{EventData, spec_diff_events, spec_next_failures};
use crate::diff::{spec_connects, spec_disconnects};
use crate::parse::{roster_of_lines, spec_parse_status, status_lines};
use crate::records::{
    ClientData, has_identity, identity_set, insert_record, lemma_insert_record_identities,
    sentinel_identity, unique_identities,
};

verus! {

/// Every element of a filtered roster comes from the unfiltered one.
proof fn lemma_filter_member_source(s: Seq<ClientData>, pred: spec_fn(ClientData) -> bool, i: int)
    requires
        0 <= i < s.filter(pred).len(),
    ensures
        exists|j: int| 0 <= j < s.len() && s[j] == s.filter(pred)[i],
    decreases s.len(),
{
    reveal(Seq::filter);
    if s.len() > 0 {
        let sub = s.drop_last().filter(pred);
        if pred(s.last()) && i == sub.len() {
            assert(s[s.len() - 1] == s.filter(pred)[i]);
        } else {
            lemma_filter_member_source(s.drop_last(), pred, i);
            let j = choose|j: int| 0 <= j < s.drop_last().len() && s.drop_last()[j] == sub[i];
            assert(s[j] == s.filter(pred)[i]);
        }
    }
}

/// Law: the disconnect events of one reconciliation carry exactly the
/// identities present in the old roster and absent from the new one, the
/// connect events exactly those present in the new roster and absent from the
/// old one; an identity present in both produces no event.
pub proof fn lemma_diff_correctness(old_r: Seq<ClientData>, new_r: Seq<ClientData>)
    ensures
        identity_set(spec_disconnects(old_r, new_r)) =~= identity_set(old_r).difference(
            identity_set(new_r),
        ),
        identity_set(spec_connects(old_r, new_r)) =~= identity_set(new_r).difference(
            identity_set(old_r),
        ),
        forall|id: Seq<char>|
            identity_set(old_r).contains(id) && identity_set(new_r).contains(id) ==> !identity_set(
                spec_disconnects(old_r, new_r),
            ).contains(id) && !identity_set(spec_connects(old_r, new_r)).contains(id),
{
    let dpred = |c: ClientData| !has_identity(new_r, c.identity);
    let cpred = |c: ClientData| !has_identity(old_r, c.identity);
    let gone = old_r.filter(dpred);
    let fresh = new_r.filter(cpred);

    assert forall|id: Seq<char>| has_identity(gone, id) implies has_identity(old_r, id)
        && !has_identity(new_r, id) by {
        let k = choose|k: int| 0 <= k < gone.len() && gone[k].identity == id;
        Seq::<ClientData>::lemma_filter_pred(old_r, dpred, k);
        lemma_filter_member_source(old_r, dpred, k);
        let j = choose|j: int| 0 <= j < old_r.len() && old_r[j] == gone[k];
        assert(old_r[j].identity == id);
    }
    assert forall|id: Seq<char>|
        has_identity(old_r, id) && !has_identity(new_r, id) implies has_identity(gone, id) by {
        let j = choose|j: int| 0 <= j < old_r.len() && old_r[j].identity == id;
        Seq::<ClientData>::lemma_filter_contains(old_r, dpred, j);
        let k = choose|k: int| 0 <= k < gone.len() && gone[k] == old_r[j];
        assert(gone[k].identity == id);
    }
    assert forall|id: Seq<char>| has_identity(fresh, id) implies has_identity(new_r, id)
        && !has_identity(old_r, id) by {
        let k = choose|k: int| 0 <= k < fresh.len() && fresh[k].identity == id;
        Seq::<ClientData>::lemma_filter_pred(new_r, cpred, k);
        lemma_filter_member_source(new_r, cpred, k);
        let j = choose|j: int| 0 <= j < new_r.len() && new_r[j] == fresh[k];
        assert(new_r[j].identity == id);
    }
    assert forall|id: Seq<char>|
        has_identity(new_r, id) && !has_identity(old_r, id) implies has_identity(fresh, id) by {
        let j = choose|j: int| 0 <= j < new_r.len() && new_r[j].identity == id;
        Seq::<ClientData>::lemma_filter_contains(new_r, cpred, j);
        let k = choose|k: int| 0 <= k < fresh.len() && fresh[k] == new_r[j];
        assert(fresh[k].identity == id);
    }
}

/// Law: polling twice with an identical client set produces zero events on
/// the second poll, whatever the records' contents.
pub proof fn lemma_idempotent_empty_diff(old_r: Seq<ClientData>, new_r: Seq<ClientData>)
    requires
        identity_set(old_r) == identity_set(new_r),
    ensures
        spec_diff_events(old_r, new_r) == Seq::<EventData>::empty(),
{
    let dpred = |c: ClientData| !has_identity(new_r, c.identity);
    let cpred = |c: ClientData| !has_identity(old_r, c.identity);
    let gone = old_r.filter(dpred);
    let fresh = new_r.filter(cpred);
    if gone.len() > 0 {
        Seq::<ClientData>::lemma_filter_pred(old_r, dpred, 0);
        lemma_filter_member_source(old_r, dpred, 0);
        let j = choose|j: int| 0 <= j < old_r.len() && old_r[j] == gone[0];
        assert(identity_set(old_r).contains(gone[0].identity));
        assert(has_identity(new_r, gone[0].identity));
    }
    if fresh.len() > 0 {
        Seq::<ClientData>::lemma_filter_pred(new_r, cpred, 0);
        lemma_filter_member_source(new_r, cpred, 0);
        let j = choose|j: int| 0 <= j < new_r.len() && new_r[j] == fresh[0];
        assert(identity_set(new_r).contains(fresh[0].identity));
        assert(has_identity(old_r, fresh[0].identity));
    }
    assert(spec_diff_events(old_r, new_r) =~= Seq::<EventData>::empty());
}

/// The failure counter after `k` consecutive failed polls that follow a
/// success.
pub open spec fn failure_streak(k: nat) -> u64
    decreases k,
{
    if k == 0 {
        0
    } else {
        spec_next_failures(failure_streak((k - 1) as nat))
    }
}

/// Whether the `k`-th failure of such a streak carries the alert, as the
/// controller's contract has it: the counter reaches the threshold at that
/// very failure.
pub open spec fn alert_on_failure(k: nat, threshold: u64) -> bool
    recommends
        k >= 1,
{
    spec_next_failures(failure_streak((k - 1) as nat)) == threshold
}

/// The counter counts the failures, saturating at the largest representable
/// value.
proof fn lemma_failure_streak_value(k: nat)
    ensures
        failure_streak(k) == if k >= u64::MAX {
            u64::MAX
        } else {
            k as u64
        },
    decreases k,
{
    if k > 0 {
        lemma_failure_streak_value((k - 1) as nat);
    }
}

/// Law: along a streak of consecutive failures that follows a success, the
/// alert fires at the failure that brings the counter to the threshold and at
/// no other; only an intervening success (which resets the counter to zero,
/// restarting the streak) re-arms it.
pub proof fn lemma_escalation_edge_trigger(k: nat, threshold: u64)
    requires
        k >= 1,
        1 <= threshold < u64::MAX,
    ensures
        alert_on_failure(k, threshold) <==> k == threshold,
{
    lemma_failure_streak_value((k - 1) as nat);
}

/// Any roster a line sequence yields is free of duplicates and of the
/// sentinel identity.
proof fn lemma_roster_of_lines_wf(lines: Seq<Seq<char>>)
    ensures
        roster_of_lines(lines) matches Some(r) ==> unique_identities(r) && !has_identity(
            r,
            sentinel_identity(),
        ),
    decreases lines.len(),
{
    if lines.len() > 0 {
        lemma_roster_of_lines_wf(lines.drop_last());
        if roster_of_lines(lines) matches Some(r) {
            let prev = roster_of_lines(lines.drop_last())->Some_0;
            if roster_of_lines(lines) != roster_of_lines(lines.drop_last()) {
                let c = crate::parse::spec_parse_client_line(lines.last())->Some_0;
                lemma_insert_record_identities(prev, c);
                assert(identity_set(insert_record(prev, c)).contains(sentinel_identity())
                    ==> identity_set(prev).insert(c.identity).contains(sentinel_identity()));
                assert(!identity_set(prev).contains(sentinel_identity()));
            }
        }
    }
}

/// Law: a parsed record whose identity equals the undefined sentinel never
/// appears in the roster a poll yields.
pub proof fn lemma_sentinel_filtering(s: Seq<char>)
    ensures
        spec_parse_status(s) matches Some(r) ==> unique_identities(r) && !has_identity(
            r,
            sentinel_identity(),
        ),
{
    lemma_roster_of_lines_wf(status_lines(s));
}

/// Whether an event does not carry the identity `id`.
pub open spec fn event_avoids_identity(e: EventData, id: Seq<char>) -> bool {
    match e {
        EventData::Connected(c) => c.identity != id,
        EventData::Disconnected(c) => c.identity != id,
        EventData::EscalationAlert => true,
    }
}

/// Law: when neither roster carries the sentinel identity — as no parsed
/// roster does — no reconciliation event carries it either.
pub proof fn lemma_events_no_sentinel(old_r: Seq<ClientData>, new_r: Seq<ClientData>)
    requires
        !has_identity(old_r, sentinel_identity()),
        !has_identity(new_r, sentinel_identity()),
    ensures
        forall|i: int|
            0 <= i < spec_diff_events(old_r, new_r).len() ==> event_avoids_identity(
                #[trigger] spec_diff_events(old_r, new_r)[i],
                sentinel_identity(),
            ),
{
    lemma_diff_correctness(old_r, new_r);
    let events = spec_diff_events(old_r, new_r);
    let gone = spec_disconnects(old_r, new_r);
    let fresh = spec_connects(old_r, new_r);
    assert forall|i: int| 0 <= i < events.len() implies event_avoids_identity(
        events[i],
        sentinel_identity(),
    ) by {
        if i < gone.len() {
            assert(events[i] == EventData::Disconnected(gone[i]));
            if gone[i].identity == sentinel_identity() {
                assert(identity_set(gone).contains(sentinel_identity()));
                assert(identity_set(old_r).contains(sentinel_identity()));
            }
        } else {
            assert(events[i] == EventData::Connected(fresh[i - gone.len()]));
            if fresh[i - gone.len()].identity == sentinel_identity() {
                assert(identity_set(fresh).contains(sentinel_identity()));
                assert(identity_set(new_r).contains(sentinel_identity()));
            }
        }
    }
}

} // verus!

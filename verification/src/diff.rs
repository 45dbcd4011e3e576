//! Roster reconciliation: diffing a freshly polled roster against the
//! previously stored one to derive disconnect and connect events.
use vstd::prelude::*;
use crate::records::{ClientData, ClientRecord, has_identity, roster_view};

verus! {

/// The records of `old_r` whose identity is absent from `new_r`: the sessions
/// that have gone away since the previous poll, each carried with its last
/// observed contents, in the order they stand in `old_r`.
pub open spec fn spec_disconnects(old_r: Seq<ClientData>, new_r: Seq<ClientData>) -> Seq<
    ClientData,
> {
    old_r.filter(|c: ClientData| !has_identity(new_r, c.identity))
}

/// The records of `new_r` whose identity is absent from `old_r`: the sessions
/// that appeared since the previous poll, each carried with its newly observed
/// contents, in the order they stand in `new_r`.
pub open spec fn spec_connects(old_r: Seq<ClientData>, new_r: Seq<ClientData>) -> Seq<ClientData> {
    new_r.filter(|c: ClientData| !has_identity(old_r, c.identity))
}

/// Whether some record of `v` carries the identity `id`.
pub fn roster_contains(v: &Vec<ClientRecord>, id: &String) -> (r: bool)
    ensures
        r == has_identity(roster_view(v@), id@),
{
    let ghost rv = roster_view(v@);
    let mut i: usize = 0;
    while i < v.len()
        invariant
            0 <= i <= v.len(),
            rv == roster_view(v@),
            rv.len() == v@.len(),
            forall|j: int| 0 <= j < i ==> rv[j].identity != id@,
        decreases v.len() - i,
    {
        if v[i].identity == *id {
            assert(rv[i as int].identity == id@);
            return true;
        }
        i += 1;
    }
    false
}

/// Computes the two event sources of one reconciliation step: the records to
/// report as disconnected (from the old roster) and the records to report as
/// connected (from the new roster). Records whose identity occurs in both
/// rosters produce nothing.
pub fn diff_rosters(old_r: &Vec<ClientRecord>, new_r: &Vec<ClientRecord>) -> (r: (
    Vec<ClientRecord>,
    Vec<ClientRecord>,
))
    ensures
        roster_view(r.0@) == spec_disconnects(roster_view(old_r@), roster_view(new_r@)),
        roster_view(r.1@) == spec_connects(roster_view(old_r@), roster_view(new_r@)),
{
    let ghost ov = roster_view(old_r@);
    let ghost nv = roster_view(new_r@);
    let ghost dpred = |c: ClientData| !has_identity(nv, c.identity);
    let ghost cpred = |c: ClientData| !has_identity(ov, c.identity);

    let mut gone: Vec<ClientRecord> = Vec::new();
    let mut i: usize = 0;
    assert(ov.take(0).filter(dpred) =~= Seq::<ClientData>::empty());
    while i < old_r.len()
        invariant
            0 <= i <= old_r.len(),
            ov == roster_view(old_r@),
            nv == roster_view(new_r@),
            ov.len() == old_r@.len(),
            dpred == (|c: ClientData| !has_identity(nv, c.identity)),
            roster_view(gone@) == ov.take(i as int).filter(dpred),
        decreases old_r.len() - i,
    {
        proof {
            reveal_with_fuel(Seq::<_>::filter, 2);
            assert(ov.take(i + 1).drop_last() =~= ov.take(i as int));
            assert(ov.take(i + 1).last() == ov[i as int]);
        }
        if !roster_contains(new_r, &old_r[i].identity) {
            let c = old_r[i].clone();
            assert(c@ == ov[i as int]);
            let ghost prev = roster_view(gone@);
            gone.push(c);
            proof {
                reveal_with_fuel(Seq::<_>::filter, 2);
                assert(roster_view(gone@) =~= prev.push(ov[i as int]));
                assert(dpred(ov[i as int]));
                assert(ov.take(i + 1).filter(dpred) == prev.push(ov[i as int]));
            }
        } else {
            proof {
                reveal_with_fuel(Seq::<_>::filter, 2);
                assert(!dpred(ov[i as int]));
                assert(ov.take(i + 1).filter(dpred) == roster_view(gone@));
            }
        }
        i += 1;
    }
    assert(ov.take(old_r.len() as int) =~= ov);

    let mut fresh: Vec<ClientRecord> = Vec::new();
    let mut k: usize = 0;
    assert(nv.take(0).filter(cpred) =~= Seq::<ClientData>::empty());
    while k < new_r.len()
        invariant
            0 <= k <= new_r.len(),
            ov == roster_view(old_r@),
            nv == roster_view(new_r@),
            nv.len() == new_r@.len(),
            cpred == (|c: ClientData| !has_identity(ov, c.identity)),
            roster_view(fresh@) == nv.take(k as int).filter(cpred),
        decreases new_r.len() - k,
    {
        proof {
            reveal_with_fuel(Seq::<_>::filter, 2);
            assert(nv.take(k + 1).drop_last() =~= nv.take(k as int));
            assert(nv.take(k + 1).last() == nv[k as int]);
        }
        if !roster_contains(old_r, &new_r[k].identity) {
            let c = new_r[k].clone();
            assert(c@ == nv[k as int]);
            let ghost prev = roster_view(fresh@);
            fresh.push(c);
            proof {
                reveal_with_fuel(Seq::<_>::filter, 2);
                assert(roster_view(fresh@) =~= prev.push(nv[k as int]));
                assert(cpred(nv[k as int]));
                assert(nv.take(k + 1).filter(cpred) == prev.push(nv[k as int]));
            }
        } else {
            proof {
                reveal_with_fuel(Seq::<_>::filter, 2);
                assert(!cpred(nv[k as int]));
                assert(nv.take(k + 1).filter(cpred) == roster_view(fresh@));
            }
        }
        k += 1;
    }
    assert(nv.take(new_r.len() as int) =~= nv);

    (gone, fresh)
}

} // verus!

//! Client records and rosters: the data observed for one connected session,
//! and the mapping from client identity to its most recently observed record.
use vstd::prelude::*;

verus! {

/// Mathematical model of one observed client session.
pub ghost struct ClientData {
    pub identity: Seq<char>,
    pub network_address: Seq<char>,
    pub connected_since: int,
    pub bytes_received: int,
    pub bytes_sent: int,
}

/// One connected session as observed at a poll: the server-assigned client
/// name, the client's source address (host portion only), the session start
/// as epoch seconds, and the cumulative byte counters at the observation
/// instant. Immutable once constructed.
#[derive(Debug)]
pub struct ClientRecord {
    pub identity: String,
    pub network_address: String,
    pub connected_since: i64,
    pub bytes_received: u64,
    pub bytes_sent: u64,
}

impl View for ClientRecord {
    type V = ClientData;

    open spec fn view(&self) -> ClientData {
        ClientData {
            identity: self.identity@,
            network_address: self.network_address@,
            connected_since: self.connected_since as int,
            bytes_received: self.bytes_received as int,
            bytes_sent: self.bytes_sent as int,
        }
    }
}

impl Clone for ClientRecord {
    fn clone(&self) -> (r: Self)
        ensures
            r@ == self@,
    {
        ClientRecord {
            identity: self.identity.clone(),
            network_address: self.network_address.clone(),
            connected_since: self.connected_since,
            bytes_received: self.bytes_received,
            bytes_sent: self.bytes_sent,
        }
    }
}

/// Whether some record in `r` carries the identity `id`.
pub open spec fn has_identity(r: Seq<ClientData>, id: Seq<char>) -> bool {
    exists|i: int| 0 <= i < r.len() && r[i].identity == id
}

/// The set of identities present in a roster.
pub open spec fn identity_set(r: Seq<ClientData>) -> Set<Seq<char>> {
    Set::new(|id: Seq<char>| has_identity(r, id))
}

/// A roster is well formed when no identity occurs twice.
pub open spec fn unique_identities(r: Seq<ClientData>) -> bool {
    forall|i: int, j: int|
        0 <= i < r.len() && 0 <= j < r.len() && i != j ==> r[i].identity != r[j].identity
}

/// The view of a roster held as a vector of records.
pub open spec fn roster_view(r: Seq<ClientRecord>) -> Seq<ClientData> {
    r.map_values(|c: ClientRecord| c@)
}

/// The reserved identity that the upstream protocol uses for placeholder
/// rows; a record bearing it stands for no real client and never enters a
/// roster.
pub open spec fn sentinel_identity() -> Seq<char> {
    "UNDEF"@
}

/// Inserting `c` into the roster `r`: a record already carrying the same
/// identity is overwritten in place, otherwise `c` is appended.
pub open spec fn insert_record(r: Seq<ClientData>, c: ClientData) -> Seq<ClientData> {
    if has_identity(r, c.identity) {
        r.update(choose|i: int| 0 <= i < r.len() && r[i].identity == c.identity, c)
    } else {
        r.push(c)
    }
}

/// Inserting never removes an identity and adds exactly the inserted one.
pub proof fn lemma_insert_record_identities(r: Seq<ClientData>, c: ClientData)
    requires
        unique_identities(r),
    ensures
        unique_identities(insert_record(r, c)),
        identity_set(insert_record(r, c)) =~= identity_set(r).insert(c.identity),
{
    if has_identity(r, c.identity) {
        let i = choose|i: int| 0 <= i < r.len() && r[i].identity == c.identity;
        let out = r.update(i, c);
        assert forall|id: Seq<char>| has_identity(out, id) implies identity_set(r).insert(
            c.identity,
        ).contains(id) by {
            let j = choose|j: int| 0 <= j < out.len() && out[j].identity == id;
            if j != i {
                assert(r[j].identity == id);
            }
        }
        assert forall|id: Seq<char>| identity_set(r).insert(c.identity).contains(id) implies
        has_identity(out, id) by {
            if id == c.identity {
                assert(out[i].identity == id);
            } else {
                let j = choose|j: int| 0 <= j < r.len() && r[j].identity == id;
                assert(out[j].identity == id);
            }
        }
    } else {
        let out = r.push(c);
        assert forall|id: Seq<char>| has_identity(out, id) implies identity_set(r).insert(
            c.identity,
        ).contains(id) by {
            let j = choose|j: int| 0 <= j < out.len() && out[j].identity == id;
            if j < r.len() {
                assert(r[j].identity == id);
            }
        }
        assert forall|id: Seq<char>| identity_set(r).insert(c.identity).contains(id) implies
        has_identity(out, id) by {
            if id == c.identity {
                assert(out[r.len() as int].identity == id);
            } else {
                let j = choose|j: int| 0 <= j < r.len() && r[j].identity == id;
                assert(out[j].identity == id);
            }
        }
    }
}

/// When the roster is free of duplicates, overwriting happens exactly at the
/// index that carries the inserted identity.
pub proof fn lemma_insert_record_at(r: Seq<ClientData>, c: ClientData, i: int)
    requires
        unique_identities(r),
        0 <= i < r.len(),
        r[i].identity == c.identity,
    ensures
        insert_record(r, c) == r.update(i, c),
{
    assert(has_identity(r, c.identity));
    let w = choose|j: int| 0 <= j < r.len() && r[j].identity == c.identity;
    assert(w == i);
}

/// Inserts `c` into the roster vector, overwriting the record that carries
/// the same identity if one is present, appending otherwise.
pub fn roster_insert(v: &mut Vec<ClientRecord>, c: ClientRecord)
    requires
        unique_identities(roster_view(old(v)@)),
    ensures
        roster_view(final(v)@) == insert_record(roster_view(old(v)@), c@),
        unique_identities(roster_view(final(v)@)),
{
    let ghost rv = roster_view(v@);
    proof {
        lemma_insert_record_identities(rv, c@);
    }
    let mut i: usize = 0;
    while i < v.len()
        invariant
            0 <= i <= v.len(),
            v@ == old(v)@,
            rv == roster_view(v@),
            rv.len() == v@.len(),
            unique_identities(rv),
            forall|j: int| 0 <= j < i ==> rv[j].identity != c@.identity,
        decreases v.len() - i,
    {
        if v[i].identity == c.identity {
            assert(rv[i as int].identity == c@.identity);
            proof {
                lemma_insert_record_at(rv, c@, i as int);
            }
            v.set(i, c);
            assert(roster_view(v@) =~= rv.update(i as int, c@));
            return ;
        }
        i += 1;
    }
    assert(!has_identity(rv, c@.identity));
    v.push(c);
    assert(roster_view(v@) =~= rv.push(c@));
}

} // verus!

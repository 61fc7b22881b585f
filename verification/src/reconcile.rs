//! Reconciliation: collapse a result set holding canonical and pending
//! records for the same logical votes into one chosen record per identity.

use vstd::prelude::*;

use crate::record::{Status, VoteRecord};

verus! {

/// No two records in the sequence share an identity.
pub open spec fn unique_identities(s: Seq<VoteRecord>) -> bool {
    forall|i: int, j: int|
        0 <= i < j < s.len() ==> s[i].identity != s[j].identity
}

/// The map described by a sequence of records with unique identities:
/// each record stands under its own identity.
pub open spec fn map_of(s: Seq<VoteRecord>) -> Map<u64, VoteRecord>
    decreases s.len(),
{
    if s.len() == 0 {
        Map::empty()
    } else {
        map_of(s.drop_last()).insert(s.last().identity, s.last())
    }
}

/// One reconciliation step: fold record `r` into the map built so far.
/// A record under a fresh identity is inserted; a canonical record
/// overwrites a pending one under the same identity; otherwise the
/// record already present wins.
pub open spec fn reconcile_step(m: Map<u64, VoteRecord>, r: VoteRecord) -> Map<u64, VoteRecord> {
    if !m.dom().contains(r.identity) {
        m.insert(r.identity, r)
    } else if m[r.identity].status == Status::Pending && r.status == Status::Canonical {
        m.insert(r.identity, r)
    } else {
        m
    }
}

/// Reconciliation of a whole result set, folding records in sequence order.
pub open spec fn reconcile_seq(s: Seq<VoteRecord>) -> Map<u64, VoteRecord>
    decreases s.len(),
{
    if s.len() == 0 {
        Map::empty()
    } else {
        reconcile_step(reconcile_seq(s.drop_last()), s.last())
    }
}

/// An identity is in `map_of(s)` exactly when some record of `s` carries it.
proof fn lemma_map_of_dom(s: Seq<VoteRecord>)
    ensures
        forall|k: u64|
            map_of(s).dom().contains(k) <==> exists|i: int| 0 <= i < s.len() && s[i].identity == k,
    decreases s.len(),
{
    if s.len() > 0 {
        lemma_map_of_dom(s.drop_last());
        assert forall|k: u64| map_of(s).dom().contains(k) implies exists|i: int|
            0 <= i < s.len() && s[i].identity == k by {
            if k == s.last().identity {
                assert(s[s.len() - 1].identity == k);
            } else {
                assert(map_of(s.drop_last()).dom().contains(k));
                let i = choose|i: int| 0 <= i < s.drop_last().len() && s.drop_last()[i].identity == k;
                assert(s[i] == s.drop_last()[i]);
                assert(s[i].identity == k);
            }
        }
        assert forall|k: u64| (exists|i: int| 0 <= i < s.len() && s[i].identity == k) implies map_of(
            s,
        ).dom().contains(k) by {
            let i = choose|i: int| 0 <= i < s.len() && s[i].identity == k;
            if i < s.len() - 1 {
                assert(s.drop_last()[i].identity == k);
                assert(map_of(s.drop_last()).dom().contains(k));
            } else {
                assert(k == s.last().identity);
            }
        }
    }
}

/// With unique identities, `map_of(s)` holds each record of `s` under its
/// own identity.
proof fn lemma_map_of_index(s: Seq<VoteRecord>)
    requires
        unique_identities(s),
    ensures
        forall|i: int|
            0 <= i < s.len() ==> map_of(s).contains_pair(#[trigger] s[i].identity, s[i]),
    decreases s.len(),
{
    if s.len() > 0 {
        assert(unique_identities(s.drop_last()));
        lemma_map_of_index(s.drop_last());
        assert forall|i: int| 0 <= i < s.len() implies map_of(s).contains_pair(
            #[trigger] s[i].identity,
            s[i],
        ) by {
            if i < s.len() - 1 {
                assert(s.drop_last()[i] == s[i]);
                assert(s[i].identity != s.last().identity);
            }
        }
    }
}

/// Appending a record extends the described map by one binding.
proof fn lemma_map_of_push(s: Seq<VoteRecord>, r: VoteRecord)
    ensures
        map_of(s.push(r)) == map_of(s).insert(r.identity, r),
{
    assert(s.push(r).drop_last() =~= s);
    assert(s.push(r).last() == r);
}

/// Replacing the record at `j` by one with the same identity rewrites that
/// one binding and keeps identities unique.
proof fn lemma_map_of_update(s: Seq<VoteRecord>, j: int, r: VoteRecord)
    requires
        unique_identities(s),
        0 <= j < s.len(),
        r.identity == s[j].identity,
    ensures
        unique_identities(s.update(j, r)),
        map_of(s.update(j, r)) == map_of(s).insert(r.identity, r),
    decreases s.len(),
{
    assert(unique_identities(s.drop_last()));
    if j == s.len() - 1 {
        assert(s.update(j, r).drop_last() =~= s.drop_last());
        assert(s.update(j, r).last() == r);
        assert(map_of(s.update(j, r)) == map_of(s.drop_last()).insert(r.identity, r));
        assert(map_of(s).insert(r.identity, r) =~= map_of(s.drop_last()).insert(r.identity, r));
    } else {
        assert(s.update(j, r).drop_last() =~= s.drop_last().update(j, r));
        assert(s.update(j, r).last() == s.last());
        lemma_map_of_update(s.drop_last(), j, r);
        assert(r.identity != s.last().identity);
        assert(map_of(s.drop_last()).insert(r.identity, r).insert(s.last().identity, s.last())
            =~= map_of(s.drop_last()).insert(s.last().identity, s.last()).insert(r.identity, r));
    }
}

/// With unique identities the described map binds exactly one identity per
/// record.
proof fn lemma_map_of_len(s: Seq<VoteRecord>)
    requires
        unique_identities(s),
    ensures
        map_of(s).dom().finite(),
        map_of(s).dom().len() == s.len(),
    decreases s.len(),
{
    if s.len() > 0 {
        assert(unique_identities(s.drop_last()));
        lemma_map_of_len(s.drop_last());
        lemma_map_of_dom(s.drop_last());
        assert(!map_of(s.drop_last()).dom().contains(s.last().identity));
    }
}

/// Totality: reconciliation binds exactly the identities appearing in the
/// input — none missing, none invented — and every chosen record is one of
/// the input's own, held under its own identity.
pub proof fn lemma_reconcile_total(s: Seq<VoteRecord>)
    ensures
        forall|k: u64|
            #[trigger] reconcile_seq(s).dom().contains(k) <==> exists|i: int|
                0 <= i < s.len() && s[i].identity == k,
        forall|k: u64|
            #[trigger] reconcile_seq(s).dom().contains(k) ==> reconcile_seq(s)[k].identity == k
                && exists|i: int| 0 <= i < s.len() && s[i] == reconcile_seq(s)[k],
    decreases s.len(),
{
    if s.len() > 0 {
        lemma_reconcile_total(s.drop_last());
        let m0 = reconcile_seq(s.drop_last());
        let m = reconcile_seq(s);
        assert forall|k: u64| #[trigger] m.dom().contains(k) implies (exists|i: int|
            0 <= i < s.len() && s[i].identity == k) && m[k].identity == k && (exists|i: int|
            0 <= i < s.len() && s[i] == m[k]) by {
            if k == s.last().identity && m[k] == s.last() {
                assert(s[s.len() - 1].identity == k);
                assert(s[s.len() - 1] == m[k]);
            } else {
                assert(m0.dom().contains(k) && m[k] == m0[k]);
                let i = choose|i: int| 0 <= i < s.drop_last().len() && s.drop_last()[i].identity == k;
                assert(s[i].identity == k);
                let v = choose|i: int| 0 <= i < s.drop_last().len() && s.drop_last()[i] == m0[k];
                assert(s[v] == m[k]);
            }
        }
        assert forall|k: u64| (exists|i: int| 0 <= i < s.len() && s[i].identity == k) implies #[trigger] m.dom().contains(k) by {
            let i = choose|i: int| 0 <= i < s.len() && s[i].identity == k;
            if i < s.len() - 1 {
                assert(s.drop_last()[i].identity == k);
                assert(m0.dom().contains(k));
            } else {
                assert(k == s.last().identity);
            }
        }
    }
}

/// Canonical precedence: wherever the input holds a canonical record for an
/// identity — in particular when both a canonical and a pending record are
/// present, in either order — the chosen record is canonical.
pub proof fn lemma_canonical_precedence(s: Seq<VoteRecord>, k: u64)
    requires
        exists|i: int| 0 <= i < s.len() && s[i].identity == k && s[i].status == Status::Canonical,
    ensures
        reconcile_seq(s).dom().contains(k),
        reconcile_seq(s)[k].status == Status::Canonical,
    decreases s.len(),
{
    let i = choose|i: int|
        0 <= i < s.len() && s[i].identity == k && s[i].status == Status::Canonical;
    let m0 = reconcile_seq(s.drop_last());
    if i < s.len() - 1 {
        assert(s.drop_last()[i] == s[i]);
        lemma_canonical_precedence(s.drop_last(), k);
        assert(m0.dom().contains(k) && m0[k].status == Status::Canonical);
    } else {
        if !m0.dom().contains(k) || m0[k].status == Status::Pending {
            assert(reconcile_seq(s) == m0.insert(k, s.last()));
        }
    }
}

/// Passthrough: an input with no two records sharing an identity is kept
/// whole — every record appears in the output unchanged, and the output is
/// exactly the map the input describes.
pub proof fn lemma_no_duplicates_passthrough(s: Seq<VoteRecord>)
    requires
        unique_identities(s),
    ensures
        reconcile_seq(s) == map_of(s),
        forall|i: int|
            0 <= i < s.len() ==> reconcile_seq(s).contains_pair(#[trigger] s[i].identity, s[i]),
    decreases s.len(),
{
    lemma_map_of_index(s);
    if s.len() > 0 {
        assert(unique_identities(s.drop_last()));
        lemma_no_duplicates_passthrough(s.drop_last());
        lemma_map_of_dom(s.drop_last());
        assert(!reconcile_seq(s.drop_last()).dom().contains(s.last().identity));
    }
}

/// Idempotence: reconciling the output of a reconciliation — any sequence
/// laying out the reconciled map with one record per identity — reproduces
/// that same map.
pub proof fn lemma_reconcile_idempotent(s: Seq<VoteRecord>, t: Seq<VoteRecord>)
    requires
        unique_identities(t),
        map_of(t) == reconcile_seq(s),
    ensures
        reconcile_seq(t) == reconcile_seq(s),
{
    lemma_no_duplicates_passthrough(t);
}

/// The reconciler's output: exactly one record per identity seen in the
/// input, constructed fresh per request and handed to serialization.
pub struct ReconciledMap {
    records: Vec<VoteRecord>,
}

impl View for ReconciledMap {
    type V = Map<u64, VoteRecord>;

    closed spec fn view(&self) -> Map<u64, VoteRecord> {
        map_of(self.records@)
    }
}

impl ReconciledMap {
    /// The held records never repeat an identity.
    pub closed spec fn wf(self) -> bool {
        unique_identities(self.records@)
    }

    /// How many identities the map binds.
    pub fn len(&self) -> (n: usize)
        requires
            self.wf(),
        ensures
            n == self@.dom().len(),
    {
        proof {
            lemma_map_of_len(self.records@);
        }
        self.records.len()
    }

    /// The record chosen for `identity`, if the map binds it.
    pub fn get(&self, identity: u64) -> (r: Option<&VoteRecord>)
        requires
            self.wf(),
        ensures
            match r {
                Some(rec) => self@.dom().contains(identity) && *rec == self@[identity],
                None => !self@.dom().contains(identity),
            },
    {
        proof {
            lemma_map_of_dom(self.records@);
            lemma_map_of_index(self.records@);
        }
        match find_identity(&self.records, identity) {
            Some(j) => Some(&self.records[j]),
            None => None,
        }
    }

    /// The chosen records themselves, one per identity, ready for
    /// serialization.
    pub fn into_values(self) -> (v: Vec<VoteRecord>)
        requires
            self.wf(),
        ensures
            unique_identities(v@),
            map_of(v@) == self@,
    {
        self.records
    }
}

/// The index of the record holding `identity`, if any is held.
fn find_identity(records: &Vec<VoteRecord>, identity: u64) -> (r: Option<usize>)
    ensures
        match r {
            Some(j) => j < records.len() && records@[j as int].identity == identity,
            None => forall|i: int| 0 <= i < records.len() ==> records@[i].identity != identity,
        },
{
    let mut idx: usize = 0;
    while idx < records.len()
        invariant
            idx <= records.len(),
            forall|i: int| 0 <= i < idx ==> records@[i].identity != identity,
        decreases records.len() - idx,
    {
        if records[idx].identity == identity {
            return Some(idx);
        }
        idx += 1;
    }
    None
}

/// Deduplicate a result set: keep one record per identity, letting a
/// canonical record displace a pending one and the earliest record win
/// among equals in status.
pub fn reconcile(input: &Vec<VoteRecord>) -> (out: ReconciledMap)
    ensures
        out.wf(),
        out@ == reconcile_seq(input@),
{
    let mut records: Vec<VoteRecord> = Vec::new();
    let mut idx: usize = 0;
    while idx < input.len()
        invariant
            idx <= input.len(),
            unique_identities(records@),
            map_of(records@) == reconcile_seq(input@.take(idx as int)),
        decreases input.len() - idx,
    {
        let ghost pre = records@;
        let r = &input[idx];
        proof {
            assert(input@.take(idx + 1).drop_last() =~= input@.take(idx as int));
            assert(input@.take(idx + 1).last() == input@[idx as int]);
            lemma_map_of_dom(pre);
            lemma_map_of_index(pre);
        }
        match find_identity(&records, r.identity) {
            None => {
                records.push(r.clone());
                proof {
                    lemma_map_of_push(pre, input@[idx as int]);
                    assert(forall|i: int|
                        0 <= i < pre.len() ==> pre[i] == #[trigger] records@[i]);
                }
            },
            Some(j) => {
                if records[j].status == Status::Pending && r.status == Status::Canonical {
                    records.set(j, r.clone());
                    proof {
                        lemma_map_of_update(pre, j as int, input@[idx as int]);
                    }
                }
            },
        }
        idx += 1;
    }
    proof {
        assert(input@.take(input@.len() as int) =~= input@);
    }
    ReconciledMap { records }
}

} // verus!

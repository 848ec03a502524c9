//! Component kind identifiers and their metadata.
//!
//! A kind is described by a [`TypeId`] fingerprint together with its byte
//! size and whether values of the kind carry a destructor.  Columns store
//! values of one kind as raw bytes of that size.

use vstd::prelude::*;

verus! {

/// A process-stable fingerprint of a component kind.
/// Equal identifiers stand for equal kinds.
#[derive(Debug, Clone, Copy, PartialEq, Eq, Structural, Hash, PartialOrd, Ord)]
pub struct TypeId(pub u128);

/// The metadata of one component kind: its identifier, the byte size of one
/// value, and whether values own resources that a destructor must release.
#[derive(Debug, Clone, Copy, PartialEq, Eq, Structural, Hash)]
pub struct TypeInfo {
    pub id: TypeId,
    pub size: usize,
    pub has_drop: bool,
}

impl TypeInfo {
    /// A kind occupies at least one byte per value, so that a column can
    /// recover its slot count from its byte length.
    pub open spec fn valid(self) -> bool {
        self.size >= 1
    }

    pub fn new(id: TypeId, size: usize, has_drop: bool) -> (r: TypeInfo)
        requires
            size >= 1,
        ensures
            r == (TypeInfo { id, size, has_drop }),
            r.valid(),
    {
        TypeInfo { id, size, has_drop }
    }
}

/// Whether a sequence of kind identifiers is strictly increasing.
pub open spec fn strictly_sorted(s: Seq<TypeId>) -> bool {
    forall|i: int, j: int| 0 <= i < j < s.len() ==> s[i].0 < s[j].0
}

/// Whether a sequence of kind identifiers is sorted (duplicates allowed).
pub open spec fn sorted(s: Seq<TypeId>) -> bool {
    forall|i: int, j: int| 0 <= i < j < s.len() ==> s[i].0 <= s[j].0
}

/// Sorts a list of kind identifiers.
///
/// The result holds the same identifiers, with multiplicity, in ascending
/// order of their fingerprints.
pub fn static_sort(values: &Vec<TypeId>) -> (r: Vec<TypeId>)
    ensures
        sorted(r@),
        r@.to_multiset() == values@.to_multiset(),
        r@.len() == values@.len(),
{
    let mut out: Vec<TypeId> = Vec::new();
    proof {
        assert(out@ =~= values@.subrange(0, 0));
    }
    let mut i: usize = 0;
    while i < values.len()
        invariant
            i <= values.len(),
            sorted(out@),
            out@.to_multiset() == values@.subrange(0, i as int).to_multiset(),
            out@.len() == i,
        decreases values.len() - i,
    {
        let v = values[i];
        let mut pos: usize = 0;
        while pos < out.len() && out[pos].0 <= v.0
            invariant
                pos <= out.len(),
                forall|k: int| 0 <= k < pos ==> out@[k].0 <= v.0,
            decreases out.len() - pos,
        {
            pos = pos + 1;
        }
        let ghost old_out = out@;
        out.insert(pos, v);
        proof {
            broadcast use vstd::seq_lib::group_to_multiset_ensures;

            lemma_insert_to_multiset(old_out, pos as int, v);
            assert(values@.subrange(0, i as int).push(v) =~= values@.subrange(0, i as int + 1));
            assert(out@.to_multiset() == values@.subrange(0, i as int + 1).to_multiset());
            assert forall|a: int, b: int| 0 <= a < b < out@.len() implies out@[a].0 <= out@[b].0 by {
                if b == pos {
                    assert(out@[a] == old_out[a]);
                } else if a == pos && b > pos {
                    assert(out@[b] == old_out[b - 1]);
                    assert(old_out[pos as int].0 > v.0 || pos == old_out.len());
                }
            }
        }
        i = i + 1;
    }
    proof {
        assert(values@.subrange(0, values@.len() as int) =~= values@);
    }
    out
}

/// Inserting an element into a sequence adds it, once, to the sequence's
/// multiset.
proof fn lemma_insert_to_multiset(s: Seq<TypeId>, i: int, v: TypeId)
    requires
        0 <= i <= s.len(),
    ensures
        s.insert(i, v).to_multiset() == s.to_multiset().insert(v),
    decreases s.len(),
{
    broadcast use vstd::seq_lib::group_to_multiset_ensures;

    let t = s.insert(i, v);
    assert(t.len() == s.len() + 1);
    assert(t[i] == v);
    t.to_multiset_ensures();
    assert(t.remove(i) =~= s);
    assert(t.remove(i).to_multiset() =~= t.to_multiset().remove(v));
    assert(s.to_multiset() == t.to_multiset().remove(v));
    assert(t.to_multiset().count(v) > 0) by {
        assert(t.contains(v));
    }
    assert(t.to_multiset() =~= s.to_multiset().insert(v)) by {
        assert forall|x: TypeId| true implies t.to_multiset().count(x) == s.to_multiset().insert(
            v,
        ).count(x) by {
            if x == v {
                assert(s.to_multiset().count(v) == t.to_multiset().remove(v).count(v));
            } else {
                assert(s.to_multiset().count(x) == t.to_multiset().remove(v).count(x));
            }
        }
    }
}

} // verus!

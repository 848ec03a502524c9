//! A type-erased column: a contiguous byte buffer of fixed-stride slots.
//!
//! One column stores every value of one component kind within one table,
//! as raw bytes.  The column never runs destructors on its own; a caller
//! that retires a value announces it through [`BlobVec::drop_at`], and the
//! column counts those invocations so that callers can state how often a
//! kind's destructor ran.

use vstd::arithmetic::div_mod::lemma_fundamental_div_mod;
use vstd::arithmetic::div_mod::lemma_fundamental_div_mod_converse;
use vstd::prelude::*;

verus! {

/// A contiguous byte array of fixed-size slots; the slot count is the byte
/// length divided by the stride.
#[derive(Debug)]
pub struct BlobVec {
    stride: usize,
    data: Vec<u8>,
    has_drop: bool,
    drops: usize,
}

impl BlobVec {
    /// The byte size of one slot.
    pub closed spec fn spec_stride(self) -> int {
        self.stride as int
    }

    /// The number of slots.
    pub closed spec fn spec_len(self) -> int {
        self.data@.len() as int / self.stride as int
    }

    /// Whether the stored kind has a destructor.
    pub closed spec fn spec_has_drop(self) -> bool {
        self.has_drop
    }

    /// How often the stored kind's destructor has been invoked on a slot.
    pub closed spec fn spec_drops(self) -> int {
        self.drops as int
    }

    /// The whole underlying byte array.
    pub closed spec fn bytes(self) -> Seq<u8> {
        self.data@
    }

    /// The bytes of slot `i`.
    pub open spec fn slot(self, i: int) -> Seq<u8> {
        self.bytes().subrange(i * self.spec_stride(), i * self.spec_stride() + self.spec_stride())
    }

    /// A slot full of zero bytes.
    pub open spec fn zero_slot(self) -> Seq<u8> {
        Seq::new(self.spec_stride() as nat, |i: int| 0u8)
    }

    pub closed spec fn wf(self) -> bool {
        &&& self.stride >= 1
        &&& self.data@.len() as int % self.stride as int == 0
    }

    /// The well-formedness facts callers may rely on.
    pub proof fn lemma_wf(self)
        requires
            self.wf(),
        ensures
            self.spec_stride() >= 1,
            self.spec_len() >= 0,
            self.spec_drops() >= 0,
            self.bytes().len() == self.spec_len() * self.spec_stride(),
    {
        lemma_column_layout(self.data@.len() as int, self.stride as int);
    }

    /// A new, empty column for a kind of `stride` bytes.
    pub fn new(stride: usize, has_drop: bool) -> (r: BlobVec)
        requires
            stride >= 1,
        ensures
            r.wf(),
            r.spec_stride() == stride,
            r.spec_len() == 0,
            r.spec_has_drop() == has_drop,
            r.spec_drops() == 0,
            r.bytes() =~= Seq::<u8>::empty(),
    {
        let r = BlobVec { stride, data: Vec::new(), has_drop, drops: 0 };
        proof {
            lemma_fundamental_div_mod_converse(0, stride as int, 0, 0);
        }
        r
    }

    pub fn len(&self) -> (r: usize)
        requires
            self.wf(),
        ensures
            r as int == self.spec_len(),
    {
        self.data.len() / self.stride
    }

    pub fn is_empty(&self) -> (r: bool)
        requires
            self.wf(),
        ensures
            r == (self.spec_len() == 0),
    {
        proof {
            lemma_column_layout(self.data@.len() as int, self.stride as int);
            assert(self.data@.len() == 0 <==> self.spec_len() == 0) by (nonlinear_arith)
                requires
                    self.data@.len() as int == self.spec_len() * self.spec_stride(),
                    self.spec_len() >= 0,
                    self.spec_stride() >= 1,
            ;
        }
        self.data.is_empty()
    }

    pub fn stride(&self) -> (r: usize)
        ensures
            r as int == self.spec_stride(),
    {
        self.stride
    }

    pub fn drop_count(&self) -> (r: usize)
        ensures
            r as int == self.spec_drops(),
    {
        self.drops
    }

    /// Appends one slot holding the given bytes.
    pub fn push_from_slice(&mut self, object: &Vec<u8>)
        requires
            old(self).wf(),
            object@.len() == old(self).spec_stride(),
        ensures
            final(self).wf(),
            final(self).spec_stride() == old(self).spec_stride(),
            final(self).spec_has_drop() == old(self).spec_has_drop(),
            final(self).spec_drops() == old(self).spec_drops(),
            final(self).spec_len() == old(self).spec_len() + 1,
            final(self).slot(old(self).spec_len()) == object@,
            forall|i: int|
                0 <= i < old(self).spec_len() ==> final(self).slot(i) == old(self).slot(i),
            final(self).bytes() == old(self).bytes() + object@,
    {
        let ghost prev = *self;
        let mut j: usize = 0;
        while j < object.len()
            invariant
                object@.len() == prev.spec_stride(),
                j <= object@.len(),
                self.stride == prev.stride,
                self.has_drop == prev.has_drop,
                self.drops == prev.drops,
                self.data@ == prev.data@ + object@.subrange(0, j as int),
            decreases object@.len() - j,
        {
            self.data.push(object[j]);
            proof {
                assert(self.data@ =~= prev.data@ + object@.subrange(0, j as int + 1));
            }
            j = j + 1;
        }
        proof {
            assert(self.data@ =~= prev.data@ + object@);
            self.lemma_push_effect(prev, object@);
        }
    }

    /// Appends one zeroed slot, reserving space for a value to come.
    pub fn push_empty(&mut self)
        requires
            old(self).wf(),
        ensures
            final(self).wf(),
            final(self).spec_stride() == old(self).spec_stride(),
            final(self).spec_has_drop() == old(self).spec_has_drop(),
            final(self).spec_drops() == old(self).spec_drops(),
            final(self).spec_len() == old(self).spec_len() + 1,
            final(self).slot(old(self).spec_len()) == old(self).zero_slot(),
            forall|i: int|
                0 <= i < old(self).spec_len() ==> final(self).slot(i) == old(self).slot(i),
    {
        let ghost prev = *self;
        let stride = self.stride;
        let mut j: usize = 0;
        while j < stride
            invariant
                stride == prev.stride,
                j <= stride,
                self.stride == prev.stride,
                self.has_drop == prev.has_drop,
                self.drops == prev.drops,
                self.data@ == prev.data@ + Seq::new(j as nat, |i: int| 0u8),
            decreases stride - j,
        {
            self.data.push(0);
            proof {
                assert(self.data@ =~= prev.data@ + Seq::new(j as nat + 1, |i: int| 0u8));
            }
            j = j + 1;
        }
        proof {
            self.lemma_push_effect(prev, prev.zero_slot());
        }
    }

    /// What appending one slot's worth of bytes does to the slot view.
    proof fn lemma_push_effect(self, prev: BlobVec, object: Seq<u8>)
        requires
            prev.wf(),
            object.len() == prev.spec_stride(),
            self.stride == prev.stride,
            self.has_drop == prev.has_drop,
            self.drops == prev.drops,
            self.data@ == prev.data@ + object,
        ensures
            self.wf(),
            self.spec_len() == prev.spec_len() + 1,
            self.slot(prev.spec_len()) == object,
            forall|i: int| 0 <= i < prev.spec_len() ==> self.slot(i) == prev.slot(i),
    {
        let s = prev.stride as int;
        let b = prev.data@.len() as int;
        let l = prev.spec_len();
        lemma_column_layout(b, s);
        assert(b + s == (l + 1) * s + 0) by (nonlinear_arith)
            requires
                b == l * s,
        ;
        lemma_fundamental_div_mod_converse(b + s, s, l + 1, 0);
        assert(self.slot(l) =~= object);
        assert forall|i: int| 0 <= i < l implies self.slot(i) == prev.slot(i) by {
            assert(i * s >= 0 && i * s + s <= l * s) by (nonlinear_arith)
                requires
                    0 <= i < l,
                    s >= 1,
            ;
            assert(self.slot(i) =~= prev.slot(i));
        }
    }

    /// Overwrites slot `index` with the given bytes, without dropping the
    /// prior occupant.
    pub fn overwrite_from_slice(&mut self, index: usize, object: &Vec<u8>)
        requires
            old(self).wf(),
            index < old(self).spec_len(),
            object@.len() == old(self).spec_stride(),
        ensures
            final(self).wf(),
            final(self).spec_stride() == old(self).spec_stride(),
            final(self).spec_has_drop() == old(self).spec_has_drop(),
            final(self).spec_drops() == old(self).spec_drops(),
            final(self).spec_len() == old(self).spec_len(),
            final(self).slot(index as int) == object@,
            forall|i: int|
                0 <= i < old(self).spec_len() && i != index ==> final(self).slot(i) == old(self).slot(i),
    {
        let ghost prev = *self;
        let total = self.data.len();
        proof {
            lemma_column_layout(self.data@.len() as int, self.stride as int);
            lemma_slot_in_bounds(self.spec_len(), self.stride as int, index as int);
        }
        let base: usize = index * self.stride;
        let mut j: usize = 0;
        while j < self.stride
            invariant
                prev.wf(),
                index < prev.spec_len(),
                object@.len() == prev.spec_stride(),
                j <= self.stride,
                self.stride == prev.stride,
                self.has_drop == prev.has_drop,
                self.drops == prev.drops,
                base == index * prev.spec_stride(),
                base + prev.spec_stride() <= self.data@.len(),
                self.data@.len() <= usize::MAX,
                self.data@.len() == prev.data@.len(),
                forall|k: int|
                    0 <= k < self.data@.len() && !(base <= k < base + j) ==> self.data@[k]
                        == prev.data@[k],
                forall|k: int| 0 <= k < j ==> self.data@[base + k] == object@[k],
            decreases self.stride - j,
        {
            self.data.set(base + j, object[j]);
            j = j + 1;
        }
        proof {
            let s = prev.spec_stride();
            assert(self.spec_len() == prev.spec_len());
            assert(self.slot(index as int) =~= object@);
            assert forall|i: int|
                0 <= i < prev.spec_len() && i != index implies self.slot(i) == prev.slot(i) by {
                lemma_column_layout(prev.data@.len() as int, s);
                lemma_slot_in_bounds(prev.spec_len(), s, i);
                assert(i * s + s <= index * s || index * s + s <= i * s) by (nonlinear_arith)
                    requires
                        0 <= i,
                        0 <= index,
                        i != index,
                        s >= 1,
                ;
                assert(self.slot(i) =~= prev.slot(i));
            }
        }
    }

    /// Reads slot `index` as a byte vector.
    pub fn get_as_byte_slice(&self, index: usize) -> (r: Vec<u8>)
        requires
            self.wf(),
            index < self.spec_len(),
        ensures
            r@ == self.slot(index as int),
            r@.len() == self.spec_stride(),
    {
        let total = self.data.len();
        proof {
            lemma_column_layout(self.data@.len() as int, self.stride as int);
            lemma_slot_in_bounds(self.spec_len(), self.stride as int, index as int);
        }
        let base: usize = index * self.stride;
        let mut r: Vec<u8> = Vec::new();
        let mut j: usize = 0;
        while j < self.stride
            invariant
                self.wf(),
                index < self.spec_len(),
                j <= self.stride,
                base == index * self.spec_stride(),
                base + self.spec_stride() <= self.data@.len(),
                self.data@.len() <= usize::MAX,
                r@.len() == j,
                forall|k: int| 0 <= k < j ==> r@[k] == self.data@[base + k],
            decreases self.stride - j,
        {
            r.push(self.data[base + j]);
            j = j + 1;
        }
        proof {
            assert(r@ =~= self.slot(index as int));
        }
        r
    }

    /// Exchanges the bytes of slot `index` with the given bytes and returns
    /// the prior occupant.
    pub fn swap(&mut self, index: usize, object: Vec<u8>) -> (r: Vec<u8>)
        requires
            old(self).wf(),
            index < old(self).spec_len(),
            object@.len() == old(self).spec_stride(),
        ensures
            final(self).wf(),
            final(self).spec_stride() == old(self).spec_stride(),
            final(self).spec_has_drop() == old(self).spec_has_drop(),
            final(self).spec_drops() == old(self).spec_drops(),
            final(self).spec_len() == old(self).spec_len(),
            r@ == old(self).slot(index as int),
            final(self).slot(index as int) == object@,
            forall|i: int|
                0 <= i < old(self).spec_len() && i != index ==> final(self).slot(i) == old(self).slot(i),
    {
        let prior = self.get_as_byte_slice(index);
        self.overwrite_from_slice(index, &object);
        prior
    }

    /// Invokes the registered destructor, if any, on slot `index`; the bytes
    /// stay in place.
    pub fn drop_at(&mut self, index: usize)
        requires
            old(self).wf(),
            index < old(self).spec_len(),
            old(self).spec_drops() < usize::MAX,
        ensures
            final(self).wf(),
            final(self).spec_stride() == old(self).spec_stride(),
            final(self).spec_has_drop() == old(self).spec_has_drop(),
            final(self).spec_len() == old(self).spec_len(),
            final(self).bytes() == old(self).bytes(),
            final(self).spec_drops() == old(self).spec_drops() + if old(self).spec_has_drop() {
                1int
            } else {
                0int
            },
    {
        if self.has_drop {
            self.drops = self.drops + 1;
        }
    }

    /// Every slot inside the column holds exactly one stride of bytes.
    pub proof fn lemma_slot_len(self, i: int)
        requires
            self.wf(),
            0 <= i < self.spec_len(),
        ensures
            self.slot(i).len() == self.spec_stride(),
    {
        lemma_column_layout(self.data@.len() as int, self.stride as int);
        lemma_slot_in_bounds(self.spec_len(), self.stride as int, i);
    }

    /// The underlying bytes, for inspection.
    pub fn as_bytes(&self) -> (r: &Vec<u8>)
        ensures
            r@ == self.bytes(),
    {
        &self.data
    }
}

/// A well-formed column's byte length is its slot count times its stride.
proof fn lemma_column_layout(b: int, s: int)
    requires
        s >= 1,
        b >= 0,
        b % s == 0,
    ensures
        b == (b / s) * s,
        b / s >= 0,
{
    lemma_fundamental_div_mod(b, s);
    assert(b == (b / s) * s && b / s >= 0) by (nonlinear_arith)
        requires
            b == s * (b / s) + b % s,
            b % s == 0,
            b >= 0,
            s >= 1,
    ;
}

/// A slot index strictly inside the column stays inside its byte array.
proof fn lemma_slot_in_bounds(len: int, stride: int, i: int)
    requires
        0 <= i < len,
        stride >= 1,
    ensures
        0 <= i * stride,
        i * stride + stride <= len * stride,
{
    assert(0 <= i * stride && i * stride + stride <= len * stride) by (nonlinear_arith)
        requires
            0 <= i < len,
            stride >= 1,
    ;
}

} // verus!

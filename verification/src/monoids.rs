use vstd::prelude::*;

use crate::monoid::Monoid;

verus! {

/// Addition on `u64` that saturates at `u64::MAX`, with identity `0`.
pub struct SatAddU64;

impl Monoid for SatAddU64 {
    type S = u64;

    type V = u64;

    open spec fn view_of(s: u64) -> u64 {
        s
    }

    open spec fn spec_id() -> u64 {
        0
    }

    open spec fn spec_op(a: u64, b: u64) -> u64 {
        if a + b > u64::MAX {
            u64::MAX
        } else {
            (a + b) as u64
        }
    }

    proof fn lemma_identity(x: u64) {
    }

    proof fn lemma_assoc(a: u64, b: u64, c: u64) {
    }

    fn id() -> (r: u64) {
        0
    }

    fn bi_op(a: &u64, b: &u64) -> (r: u64) {
        if *a > u64::MAX - *b {
            u64::MAX
        } else {
            *a + *b
        }
    }

    fn dup(a: &u64) -> (r: u64) {
        *a
    }
}

/// Minimum on `u64` with identity `u64::MAX`, which stands for plus
/// infinity.
pub struct MinU64;

impl Monoid for MinU64 {
    type S = u64;

    type V = u64;

    open spec fn view_of(s: u64) -> u64 {
        s
    }

    open spec fn spec_id() -> u64 {
        u64::MAX
    }

    open spec fn spec_op(a: u64, b: u64) -> u64 {
        if a <= b {
            a
        } else {
            b
        }
    }

    proof fn lemma_identity(x: u64) {
    }

    proof fn lemma_assoc(a: u64, b: u64, c: u64) {
    }

    fn id() -> (r: u64) {
        u64::MAX
    }

    fn bi_op(a: &u64, b: &u64) -> (r: u64) {
        if *a <= *b {
            *a
        } else {
            *b
        }
    }

    fn dup(a: &u64) -> (r: u64) {
        *a
    }
}

/// Maximum on `u64` with identity `0`.
pub struct MaxU64;

impl Monoid for MaxU64 {
    type S = u64;

    type V = u64;

    open spec fn view_of(s: u64) -> u64 {
        s
    }

    open spec fn spec_id() -> u64 {
        0
    }

    open spec fn spec_op(a: u64, b: u64) -> u64 {
        if a >= b {
            a
        } else {
            b
        }
    }

    proof fn lemma_identity(x: u64) {
    }

    proof fn lemma_assoc(a: u64, b: u64, c: u64) {
    }

    fn id() -> (r: u64) {
        0
    }

    fn bi_op(a: &u64, b: &u64) -> (r: u64) {
        if *a >= *b {
            *a
        } else {
            *b
        }
    }

    fn dup(a: &u64) -> (r: u64) {
        *a
    }
}

/// Concatenation of byte strings with the empty string as identity. Not
/// commutative, so it exercises the left-to-right combination order.
pub struct ConcatBytes;

impl Monoid for ConcatBytes {
    type S = Vec<u8>;

    type V = Seq<u8>;

    open spec fn view_of(s: Vec<u8>) -> Seq<u8> {
        s@
    }

    open spec fn spec_id() -> Seq<u8> {
        Seq::empty()
    }

    open spec fn spec_op(a: Seq<u8>, b: Seq<u8>) -> Seq<u8> {
        a + b
    }

    proof fn lemma_identity(x: Seq<u8>) {
        assert(Seq::<u8>::empty() + x =~= x);
        assert(x + Seq::<u8>::empty() =~= x);
    }

    proof fn lemma_assoc(a: Seq<u8>, b: Seq<u8>, c: Seq<u8>) {
        assert((a + b) + c =~= a + (b + c));
    }

    fn id() -> (r: Vec<u8>) {
        Vec::new()
    }

    fn bi_op(a: &Vec<u8>, b: &Vec<u8>) -> (r: Vec<u8>) {
        let mut out: Vec<u8> = Vec::new();
        let mut i: usize = 0;
        while i < a.len()
            invariant
                i <= a@.len(),
                out@ == a@.subrange(0, i as int),
            decreases a@.len() - i,
        {
            out.push(a[i]);
            proof {
                assert(a@.subrange(0, i + 1 as int) =~= a@.subrange(0, i as int).push(a@[i as int]));
            }
            i = i + 1;
        }
        proof {
            assert(a@.subrange(0, a@.len() as int) =~= a@);
        }
        let mut j: usize = 0;
        while j < b.len()
            invariant
                j <= b@.len(),
                out@ == a@ + b@.subrange(0, j as int),
            decreases b@.len() - j,
        {
            out.push(b[j]);
            proof {
                assert(b@.subrange(0, j + 1 as int) =~= b@.subrange(0, j as int).push(b@[j as int]));
                assert(a@ + b@.subrange(0, j + 1 as int) =~= (a@ + b@.subrange(0, j as int)).push(
                    b@[j as int],
                ));
            }
            j = j + 1;
        }
        proof {
            assert(b@.subrange(0, b@.len() as int) =~= b@);
        }
        out
    }

    fn dup(a: &Vec<u8>) -> (r: Vec<u8>) {
        let mut out: Vec<u8> = Vec::new();
        let mut i: usize = 0;
        while i < a.len()
            invariant
                i <= a@.len(),
                out@ == a@.subrange(0, i as int),
            decreases a@.len() - i,
        {
            out.push(a[i]);
            proof {
                assert(a@.subrange(0, i + 1 as int) =~= a@.subrange(0, i as int).push(a@[i as int]));
            }
            i = i + 1;
        }
        proof {
            assert(a@.subrange(0, a@.len() as int) =~= a@);
        }
        out
    }
}

} // verus!

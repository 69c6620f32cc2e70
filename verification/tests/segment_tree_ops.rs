use segtree::monoid::Monoid;
use segtree::monoids::{ConcatBytes, MaxU64, MinU64, SatAddU64};
use segtree::segment_tree::{SegTreeError, SegmentTree};

fn sum_tree(values: &[u64]) -> SegmentTree<SatAddU64> {
    SegmentTree::<SatAddU64>::from(values.to_vec())
}

#[test]
fn invariant_after_updates() {
    let mut t = sum_tree(&[1, 2, 3, 4, 5, 6, 7, 8]);
    assert_eq!(t.set(2, 30), Ok(()));
    assert_eq!(t.apply(5, 100), Ok(()));
    assert_eq!(t.set(0, 9), Ok(()));
    assert_eq!(t.apply(7, 1), Ok(()));
    // every internal node holds the combination of its two children
    for i in 1..t.size {
        assert_eq!(t.tree[i], SatAddU64::bi_op(&t.tree[2 * i], &t.tree[2 * i + 1]));
    }
}

#[test]
fn prod_all_prod_agreement() {
    let mut t = sum_tree(&[4, 4, 4, 4, 4]);
    assert_eq!(t.all_prod(), t.prod(0, t.size).unwrap());
    assert_eq!(t.set(1, 9), Ok(()));
    assert_eq!(t.all_prod(), t.prod(0, t.size).unwrap());
    assert_eq!(t.apply(4, 7), Ok(()));
    assert_eq!(t.all_prod(), t.prod(0, t.size).unwrap());
    assert_eq!(t.set(7, 2), Ok(()));
    assert_eq!(t.all_prod(), t.prod(0, t.size).unwrap());

    let mut m = SegmentTree::<MinU64>::from(vec![9, 2, 6]);
    assert_eq!(m.all_prod(), m.prod(0, m.size).unwrap());
    assert_eq!(m.set(1, 100), Ok(()));
    assert_eq!(m.all_prod(), m.prod(0, m.size).unwrap());
}

#[test]
fn range_decomposition_concat() {
    let words: Vec<Vec<u8>> = vec![
        b"a".to_vec(),
        b"b".to_vec(),
        b"c".to_vec(),
        b"d".to_vec(),
        b"e".to_vec(),
    ];
    let t = SegmentTree::<ConcatBytes>::from(words.clone());
    assert_eq!(t.size, 8);
    // leaves 5..8 hold the identity (the empty string)
    let mut leaves: Vec<Vec<u8>> = words;
    leaves.push(Vec::new());
    leaves.push(Vec::new());
    leaves.push(Vec::new());
    for l in 0..=t.size {
        for r in l..=t.size {
            let mut expected: Vec<u8> = Vec::new();
            for leaf in &leaves[l..r] {
                expected.extend_from_slice(leaf);
            }
            assert_eq!(t.prod(l, r).unwrap(), expected);
        }
    }
}

#[test]
fn empty_range() {
    let t = sum_tree(&[1, 2, 3]);
    for k in 0..=t.size {
        assert_eq!(t.prod(k, k), Ok(0));
    }
}

#[test]
fn out_of_range_rejection() {
    let mut t = sum_tree(&[1, 2, 3, 4]);
    let cap = t.size;
    assert_eq!(t.get(cap), Err(SegTreeError::OutOfRange));
    assert_eq!(t.set(cap, 5), Err(SegTreeError::OutOfRange));
    assert_eq!(t.apply(cap, 5), Err(SegTreeError::OutOfRange));
    assert_eq!(t.prod(0, cap + 1), Err(SegTreeError::OutOfRange));
    assert_eq!(t.prod(2, 1), Err(SegTreeError::OutOfRange));
    // a rejected write leaves the tree unchanged
    assert_eq!(t.all_prod(), 10);
}

#[test]
fn sum_scenario() {
    let mut t = sum_tree(&[1, 2, 3, 4, 5, 6, 7, 8]);
    assert_eq!(t.size, 8);
    assert_eq!(t.all_prod(), 36);
    assert_eq!(t.prod(2, 5), Ok(12));
    assert_eq!(t.apply(0, 10), Ok(()));
    assert_eq!(t.get(0), Ok(11));
    assert_eq!(t.all_prod(), 46);
    assert_eq!(t.prod(0, 1), Ok(11));
}

#[test]
fn min_scenario() {
    let mut t = SegmentTree::<MinU64>::from(vec![5, 3, 8, 1]);
    assert_eq!(t.size, 4);
    assert_eq!(t.all_prod(), 1);
    assert_eq!(t.set(3, 100), Ok(()));
    assert_eq!(t.all_prod(), 3);
    assert_eq!(t.prod(0, 2), Ok(3));
}

#[test]
fn power_of_two_rounding() {
    let t = SegmentTree::<SatAddU64>::new(5);
    assert_eq!(t.size, 8);

    let s = sum_tree(&[1, 2, 3, 4, 5]);
    assert_eq!(s.size, 8);
    for pos in 5..8 {
        assert_eq!(s.get(pos), Ok(0));
    }
    assert_eq!(s.all_prod(), 15);

    let m = SegmentTree::<MinU64>::from(vec![5, 3, 8, 1, 2]);
    assert_eq!(m.size, 8);
    for pos in 5..8 {
        assert_eq!(m.get(pos), Ok(u64::MAX));
    }
    assert_eq!(m.all_prod(), 1);

    let x = SegmentTree::<MaxU64>::from(vec![5, 3, 8, 1, 2]);
    assert_eq!(x.size, 8);
    for pos in 5..8 {
        assert_eq!(x.get(pos), Ok(0));
    }
    assert_eq!(x.all_prod(), 8);
}

#[test]
fn empty_tree() {
    let mut t = SegmentTree::<SatAddU64>::new(0);
    assert_eq!(t.size, 0);
    assert_eq!(t.all_prod(), 0);
    assert_eq!(t.prod(0, 0), Ok(0));
    assert_eq!(t.get(0), Err(SegTreeError::OutOfRange));
    assert_eq!(t.set(0, 1), Err(SegTreeError::OutOfRange));
    assert_eq!(t.apply(0, 1), Err(SegTreeError::OutOfRange));
    assert_eq!(t.prod(0, 1), Err(SegTreeError::OutOfRange));
}

#[test]
fn new_all_identity() {
    let t = SegmentTree::<SatAddU64>::new(4);
    assert_eq!(t.size, 4);
    for pos in 0..4 {
        assert_eq!(t.get(pos), Ok(0));
    }
    assert_eq!(t.all_prod(), 0);
}

#[test]
fn apply_keeps_operand_order() {
    let mut t = SegmentTree::<ConcatBytes>::from(vec![b"x".to_vec()]);
    assert_eq!(t.size, 1);
    // the existing leaf is the left operand, the applied value the right
    assert_eq!(t.apply(0, b"y".to_vec()), Ok(()));
    assert_eq!(t.get(0), Ok(b"xy".to_vec()));
    assert_eq!(t.all_prod(), b"xy".to_vec());
}

#[test]
fn set_overwrites_leaf() {
    let mut t = sum_tree(&[7, 7]);
    assert_eq!(t.set(0, 1), Ok(()));
    assert_eq!(t.get(0), Ok(1));
    assert_eq!(t.get(1), Ok(7));
    assert_eq!(t.all_prod(), 8);
}

#[test]
fn saturation_at_max() {
    let mut t = SegmentTree::<SatAddU64>::new(2);
    assert_eq!(t.set(0, u64::MAX - 1), Ok(()));
    assert_eq!(t.set(1, 5), Ok(()));
    assert_eq!(t.all_prod(), u64::MAX);
}

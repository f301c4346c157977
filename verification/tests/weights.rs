use rsmdl::filters::weights::Weights;

/// Test set_weight sets the expected weights.
#[test]
fn test_set_weight() {
    let mut weights = Weights::zeros(128);
    weights.set_weight(15, true);
    weights.set_weight(100, true);
    weights.set_weight(120, true);

    assert_eq!(*weights.raw_weights(), vec![32768, 72057662757404672]);
}

/// Test set_range works within one chunk.
#[test]
fn test_set_range_one_chunk() {
    let mut weights = Weights::zeros(128);
    weights.set_range(30, 50, true);

    // should be values 30 to 50 in chunk one, then none of chunk two
    assert_eq!(*weights.raw_weights(), vec![1125898833100800, 0]);
}

/// Test set_range works across chunks.
#[test]
fn test_set_range_across_chunks() {
    let mut weights = Weights::zeros(192);
    weights.set_range(30, 150, true);

    // should be values 30 to 64 in chunk one, all of chunk two, then 0 to 22 in chunk three
    assert_eq!(
        *weights.raw_weights(),
        vec![18446744072635809792, u64::MAX, 4194303]
    );
}

#[test]
fn ones_and_zeros_allocate_at_least_one_chunk() {
    assert_eq!(*Weights::ones(0).raw_weights(), vec![u64::MAX]);
    assert_eq!(*Weights::zeros(10).raw_weights(), vec![0]);
    assert_eq!(*Weights::zeros(64).raw_weights(), vec![0]);
    assert_eq!(*Weights::zeros(127).raw_weights(), vec![0, 0]);
    assert_eq!(*Weights::ones(130).raw_weights(), vec![u64::MAX, u64::MAX, u64::MAX]);
}

#[test]
fn ones_holds_len_weights() {
    let w = Weights::ones(100);
    for i in 0..100 {
        assert!(w.index(i));
    }
    let z = Weights::zeros(100);
    assert!(!z.index(99));
}

#[test]
fn set_weight_then_index_reads_it_back() {
    let mut weights = Weights::ones(128);
    weights.set_weight(70, false);
    assert!(!weights.index(70));
    assert!(weights.index(69));
    assert!(weights.index(71));
    weights.set_weight(70, true);
    assert!(weights.index(70));
    assert_eq!(*weights.raw_weights(), vec![u64::MAX, u64::MAX]);
}

#[test]
fn set_range_clears_across_chunks() {
    let mut weights = Weights::ones(192);
    weights.set_range(30, 150, false);
    assert_eq!(
        *weights.raw_weights(),
        vec![!18446744072635809792u64, 0, !4194303u64]
    );
    for i in 0..192 {
        assert_eq!(weights.index(i), !(30..150).contains(&i));
    }
}

#[test]
fn set_range_on_chunk_boundaries_sets_whole_chunks() {
    let mut weights = Weights::zeros(256);
    weights.set_range(64, 192, true);
    assert_eq!(*weights.raw_weights(), vec![0, u64::MAX, u64::MAX, 0]);
}

#[test]
fn set_range_empty_within_a_chunk_changes_nothing() {
    let mut weights = Weights::zeros(128);
    weights.set_range(40, 40, true);
    weights.set_range(50, 40, true);
    assert_eq!(*weights.raw_weights(), vec![0, 0]);
}

#[test]
fn set_range_backwards_across_chunks_sets_the_partial_chunks() {
    // start after end, in different chunks: the rest of start's chunk and
    // the part of end's chunk before end are written
    let mut weights = Weights::zeros(192);
    weights.set_range(130, 70, true);
    assert_eq!(*weights.raw_weights(), vec![0, 0b111111, !0b11u64]);
}

#[test]
fn slice_takes_whole_chunks() {
    let three = Weights::from_raw(vec![1, 2, 3]);
    assert_eq!(three.slice(64, 128), Weights::from_raw(vec![2]));
    assert_eq!(three.slice(64, 130), Weights::from_raw(vec![2, 3]));
    assert_eq!(three.slice(0, 0), Weights::from_raw(vec![]));
    let weights = Weights::from_raw(vec![1, 2, 3, 4]);
    assert_eq!(*weights.slice(64, 128).raw_weights(), vec![2]);
    // an end within a chunk takes that chunk too
    assert_eq!(*weights.slice(64, 130).raw_weights(), vec![2, 3]);
    assert_eq!(*weights.slice(0, 0).raw_weights(), Vec::<u64>::new());
    let s = weights.slice(128, 192);
    assert!(s.index(0));
    assert!(s.index(1));
    assert!(!s.index(2));
    assert!(s.index(2) == weights.index(130));
}

#[test]
fn slice_at_an_unaligned_start_moves_the_weights_down() {
    let weights = Weights::from_raw(vec![0xf0, 0b101]);
    // weights 4..70: the chunks holding them, moved down by 4
    let s = weights.slice(4, 70);
    assert_eq!(*s.raw_weights(), vec![0xf | (0b101 << 60), 0]);
    for i in 0..66 {
        assert_eq!(s.index(i), weights.index(4 + i));
    }
    // past the last weight of the source the slice is clear
    assert!(!s.index(124));
}

#[test]
fn from_raw_keeps_the_chunks() {
    let weights = Weights::from_raw(vec![5, 6]);
    assert_eq!(*weights.raw_weights(), vec![5, 6]);
    assert!(weights.index(0));
    assert!(!weights.index(1));
    assert!(weights.index(2));
    assert!(weights.index(65));
}

#[test]
fn from_bools_sets_each_weight() {
    let values = vec![false, true, true, false, false, true];
    let weights = Weights::from_bools(&values);
    assert_eq!(*weights.raw_weights(), vec![0b100110]);
    for (k, v) in values.iter().enumerate() {
        assert_eq!(weights.index(k), *v);
    }
    let long: Vec<bool> = (0..128).map(|k| k % 3 == 0).collect();
    let weights = Weights::from_bools(&long);
    for k in 0..128 {
        assert_eq!(weights.index(k), k % 3 == 0);
    }
    let odd: Vec<bool> = (0..100).map(|k| k % 7 == 0).collect();
    let weights = Weights::from_bools(&odd);
    assert_eq!(weights.raw_weights().len(), 2);
    for k in 0..100 {
        assert_eq!(weights.index(k), k % 7 == 0);
    }
}

#[test]
fn bitand_combines_chunkwise() {
    let a = Weights::from_raw(vec![0b1100, u64::MAX, 7]);
    let b = Weights::from_raw(vec![0b1010, 5]);
    let c = a.bitand(b);
    assert_eq!(*c.raw_weights(), vec![0b1000, 5]);
}

#[test]
fn bitand_is_commutative_and_ones_is_identity() {
    let a = Weights::from_raw(vec![0x1234_5678, 99]);
    let b = Weights::from_raw(vec![0xff00, 3]);
    let ab = Weights::from_raw(vec![0x1234_5678, 99]).bitand(Weights::from_raw(vec![0xff00, 3]));
    let ba = b.bitand(Weights::from_raw(vec![0x1234_5678, 99]));
    assert_eq!(ab, ba);
    let kept = a.bitand(Weights::ones(128));
    assert_eq!(*kept.raw_weights(), vec![0x1234_5678, 99]);
    let cleared = Weights::from_raw(vec![0x1234_5678, 99]).bitand(Weights::zeros(128));
    assert_eq!(*cleared.raw_weights(), vec![0, 0]);
}

#[test]
fn not_inverts_and_twice_restores() {
    let a = Weights::from_raw(vec![0b1010, 0]);
    let n = a.not();
    assert_eq!(*n.raw_weights(), vec![!0b1010u64, u64::MAX]);
    let back = n.not();
    assert_eq!(*back.raw_weights(), vec![0b1010, 0]);
    assert_eq!(Weights::zeros(128).not(), Weights::ones(128));
    assert_eq!(Weights::ones(64).not(), Weights::zeros(64));
}

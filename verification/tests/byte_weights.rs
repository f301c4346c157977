use rsmdl::filters::byte_weights::Weights;

#[test]
fn byte_ones_and_zeros_have_one_spare_byte() {
    assert_eq!(*Weights::ones(16).raw_weights(), vec![255, 255, 255]);
    assert_eq!(*Weights::zeros(7).raw_weights(), vec![0]);
    assert_eq!(Weights::zeros(7).padding(), 0);
}

#[test]
fn byte_set_weight_is_most_significant_first() {
    let mut w = Weights::zeros(16);
    w.set_weight(0, true);
    w.set_weight(9, true);
    assert_eq!(*w.raw_weights(), vec![0b1000_0000, 0b0100_0000, 0]);
    assert!(w.index(0));
    assert!(!w.index(1));
    assert!(w.index(9));
    w.set_weight(0, false);
    assert_eq!(*w.raw_weights(), vec![0, 0b0100_0000, 0]);
}

#[test]
fn byte_slice_keeps_whole_bytes() {
    let w = Weights::from_bools(&(0..32).map(|k| k % 2 == 0).collect());
    let s = w.slice(8, 24);
    assert_eq!(*s.raw_weights(), vec![0b1010_1010, 0b1010_1010]);
    assert_eq!(s.padding(), 0);
    // a start within a byte: the weights are moved up so that weight 3 comes
    // first
    let t = w.slice(3, 16);
    assert_eq!(*t.raw_weights(), vec![0b0101_0101, 0b0101_0101]);
    assert_eq!(t.padding(), 0);
    for i in 0..13 {
        assert_eq!(t.index(i), w.index(3 + i));
    }
}

#[test]
fn byte_from_bools_sets_each_weight() {
    let values = vec![true, false, false, true, true, false, false, false, true];
    let w = Weights::from_bools(&values);
    assert_eq!(*w.raw_weights(), vec![0b1001_1000, 0b1000_0000]);
    for (k, v) in values.iter().enumerate() {
        assert_eq!(w.index(k), *v);
    }
}

#[test]
fn byte_slice_keeps_the_interval() {
    let w = Weights::from_bools(&(0..24).map(|k| k % 3 == 0).collect());
    let s = w.slice(0, 12);
    assert_eq!(s.raw_weights().len(), 2);
    for i in 0..12 {
        assert_eq!(s.index(i), w.index(i));
    }
    assert!(!s.index(10));
    assert!(s.index(9));
}

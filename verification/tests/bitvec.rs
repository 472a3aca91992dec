use rts_server::libs::bitvec::BitVec;

#[test]
fn test() {
    let mut bv = BitVec::new(1000);

    for i in 0..1000 {
        bv.set(i, true);
        assert!(bv.get(i));
    }

    bv.set(1, false);
    bv.set(3, false);
    bv.set(4, false);
    bv.set(6, false);
    bv.set(62, false);
    bv.set(63, false);
    bv.set(64, false);
    bv.set(65, false);

    assert!(bv.get(0));
    assert!(!bv.get(1));
    assert!(bv.get(2));
    assert!(!bv.get(3));
    assert!(!bv.get(4));
    assert!(bv.get(5));
    assert!(!bv.get(6));
    assert!(bv.get(7));
    assert!(bv.get(8));
    assert!(bv.get(61));
    assert!(!bv.get(62));
    assert!(!bv.get(63));
    assert!(!bv.get(64));
    assert!(!bv.get(65));
    assert!(bv.get(66));
}

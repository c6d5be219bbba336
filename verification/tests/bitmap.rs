use bufpool::bitmap::Qcbitmap;

#[test]
fn test_bitmap() {
    let mut bitm = Qcbitmap::new(10);
    bitm.set(0);
    bitm.set(1);
    bitm.set(5);
    bitm.set(10);
    assert_eq!(bitm.issue().unwrap(), 2);
}

#[test]
fn issue_scans_from_lowest_index() {
    let bitm = Qcbitmap::new(16);
    assert_eq!(bitm.issue(), Some(0));
    let mut bitm = Qcbitmap::new(16);
    bitm.set(0);
    assert_eq!(bitm.issue(), Some(1));
    bitm.set(1);
    bitm.set(2);
    assert_eq!(bitm.issue(), Some(3));
}

#[test]
fn issue_none_when_full() {
    let mut bitm = Qcbitmap::new(3);
    bitm.set(0);
    bitm.set(1);
    bitm.set(2);
    // the spare bits of the byte were set at construction
    assert_eq!(bitm.issue(), None);
}

#[test]
fn release_clears_a_bit_idempotently() {
    let mut bitm = Qcbitmap::new(8);
    bitm.set(0);
    bitm.set(1);
    bitm.set(2);
    bitm.release(1);
    assert_eq!(bitm.issue(), Some(1));
    bitm.release(1);
    assert_eq!(bitm.issue(), Some(1));
    bitm.set(1);
    assert_eq!(bitm.issue(), Some(3));
}

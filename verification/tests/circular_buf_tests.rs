use goban::circular_buf::CircularBuf;

#[test]
fn check() {
    let mut buf = CircularBuf::new();

    buf.push(&vec![0; 368]);
    buf.push(&vec![1; 368]);
    buf.push(&vec![2; 368]);
    buf.push(&vec![3; 368]);
    buf.push(&vec![4; 368]);
    buf.push(&vec![5; 368]);
    buf.push(&vec![6; 368]);
    buf.push(&vec![7; 368]);
    buf.push(&vec![8; 368]);

    let mut iter = buf.iter();

    assert_eq!(iter.next().unwrap()[0], 8);
    assert_eq!(iter.next().unwrap()[0], 7);
    assert_eq!(iter.next().unwrap()[0], 6);
    assert_eq!(iter.next().unwrap()[0], 5);
    assert_eq!(iter.next().unwrap()[0], 4);
    assert_eq!(iter.next().unwrap()[0], 3);
    assert!(iter.next().is_none());
}

/// The six snapshot slots start zeroed and report newest first.
#[test]
fn fresh_buffer_all_zero() {
    let buf = CircularBuf::new();
    let mut iter = buf.iter();
    for _ in 0..6 {
        let row = iter.next().unwrap();
        assert_eq!(row.len(), 368);
        assert!(row.iter().all(|&b| b == 0));
    }
    assert!(iter.next().is_none());
}

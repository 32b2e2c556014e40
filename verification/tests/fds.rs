use ckb_native_simulator::fd::Fd;

#[test]
fn create_gives_neighbouring_ends() {
    assert_eq!(Fd::create(2), (Fd(2), Fd(3), 4));
    assert_eq!(Fd::create(40), (Fd(40), Fd(41), 42));
}

#[test]
fn other_end_of_a_pipe() {
    assert_eq!(Fd(2).other_fd(), Fd(3));
    assert_eq!(Fd(3).other_fd(), Fd(2));
    assert_eq!(Fd(u64::MAX).other_fd(), Fd(u64::MAX - 1));
    for n in 0..100u64 {
        let fd = Fd(n);
        assert_eq!(fd.other_fd().other_fd(), fd);
        assert_ne!(fd.is_read(), fd.other_fd().is_read());
    }
}

#[test]
fn even_ends_are_read_ends() {
    assert!(Fd(2).is_read());
    assert!(!Fd(2).is_write());
    assert!(Fd(3).is_write());
    assert!(!Fd(3).is_read());
}

#[test]
fn numbers_and_ends_convert() {
    assert_eq!(Fd::from(7), Fd(7));
    assert_eq!(u64::from(Fd(7)), 7);
}

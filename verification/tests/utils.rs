use interpreter_starter_rust::utils::StopOnFirstErrorIterator;

#[test]
fn stop_on_first_error_1() {
    let inner = vec![Ok(1), Ok(2), Err("foo")];
    let mut sut = StopOnFirstErrorIterator::new(inner);
    assert_eq!(Some(1), sut.next());
    assert_eq!(Some(2), sut.next());
    assert_eq!(None, sut.next());
    assert!(sut.error.is_some());
    assert_eq!(Some("foo"), sut.error);
}

#[test]
fn stop_on_first_error_2() {
    let inner = vec![Ok(1), Ok(2), Err("foo"), Ok(3), Err("bar")];
    let mut sut = StopOnFirstErrorIterator::new(inner);
    assert_eq!(Some(1), sut.next());
    assert_eq!(Some(2), sut.next());
    assert_eq!(None, sut.next());
    let err = sut.error.take();
    assert!(err.is_some());
    assert_eq!(Some("foo"), err);
    assert_eq!(Some(3), sut.next());
    assert_eq!(None, sut.next());
    assert!(sut.error.is_some());
    assert_eq!(Some("bar"), sut.error);
}

#[test]
fn stop_on_first_error_end() {
    let inner: Vec<Result<u32, &str>> = vec![Ok(7)];
    let mut sut = StopOnFirstErrorIterator::new(inner);
    assert_eq!(Some(7), sut.next());
    assert_eq!(None, sut.next());
    assert!(sut.error.is_none());
    assert_eq!(None, sut.next());
}

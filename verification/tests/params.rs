use matchit::Params;

#[test]
fn params_push_and_truncate() {
    let mut params = Params::new();
    assert!(params.is_empty());
    params.push(b"a", b"1");
    params.push(b"b", b"2");
    params.push(b"a", b"3");
    assert_eq!(params.len(), 3);
    assert_eq!(params.get(b"a"), Some(&b"1"[..]));
    assert_eq!(params.get(b"b"), Some(&b"2"[..]));
    params.truncate(5);
    assert_eq!(params.len(), 3);
    params.truncate(1);
    assert_eq!(params.len(), 1);
    assert_eq!(params.get(b"b"), None);
    assert_eq!(params.name(0), b"a");
    assert_eq!(params.value(0), b"1");
    params.truncate(0);
    assert!(params.is_empty());
}

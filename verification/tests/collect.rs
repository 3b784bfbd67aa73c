use bgm_codec::collect::{collect_array, collect_array_pedantic};

#[test]
fn collects_into_arrays() {
    let exact: Result<[u16; 3], ()> = collect_array(vec![Ok(1), Ok(2), Ok(3)]);
    assert_eq!(exact, Ok([1, 2, 3]));
    let short: Result<[u16; 3], ()> = collect_array(vec![Ok(1)]);
    assert_eq!(short, Ok([1, 0, 0]));
    let long: Result<[u16; 2], &str> = collect_array(vec![Ok(1), Ok(2), Err("unread")]);
    assert_eq!(long, Ok([1, 2]));
    let failed: Result<[u16; 3], &str> = collect_array(vec![Ok(1), Err("first"), Err("second")]);
    assert_eq!(failed, Err("first"));
    let none: Result<[u16; 2], ()> = collect_array(vec![]);
    assert_eq!(none, Ok([0, 0]));
}

#[test]
fn collects_exactly() {
    let exact: Result<[u16; 3], ()> = collect_array_pedantic(vec![Ok(1), Ok(2), Ok(3)]);
    assert_eq!(exact, Ok([1, 2, 3]));
    let failed: Result<[u16; 3], &str> = collect_array_pedantic(vec![Ok(1), Err("first")]);
    assert_eq!(failed, Err("first"));
    let failed: Result<[u16; 1], &str> = collect_array_pedantic(vec![Err("first"), Ok(1)]);
    assert_eq!(failed, Err("first"));
}

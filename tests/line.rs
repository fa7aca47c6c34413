use completers::line::get_initial_query_range;

#[test]
fn test_initial_query_range() {
    assert_eq!((0, 0), get_initial_query_range("", 0));
    assert_eq!((0, 3), get_initial_query_range("foo", 0));
    assert_eq!((0, 3), get_initial_query_range("foo", 2));
    assert_eq!((0, 3), get_initial_query_range("foo", 3));
    assert_eq!((0, 3), get_initial_query_range("foo bar", 0));
    assert_eq!((0, 3), get_initial_query_range("foo bar", 3));
    assert_eq!((4, 7), get_initial_query_range("foo bar", 4));
    assert_eq!((4, 7), get_initial_query_range("foo bar", 6));
    assert_eq!((4, 7), get_initial_query_range("foo bar", 7));
}

#[test]
fn initial_query_range_edges() {
    assert_eq!((0, 0), get_initial_query_range("foo", 4));
    assert_eq!((2, 2), get_initial_query_range("a  b", 2));
    assert_eq!((5, 8), get_initial_query_range("echo(abc)", 6));
    assert_eq!((4, 7), get_initial_query_range("git:abc", 5));
}

#[test]
fn initial_query_range_counts_bytes() {
    // "é" is two bytes.
    assert_eq!((0, 3), get_initial_query_range("éa b", 0));
    assert_eq!((4, 5), get_initial_query_range("éa b", 4));
    assert_eq!((0, 0), get_initial_query_range("éa b", 6));
}

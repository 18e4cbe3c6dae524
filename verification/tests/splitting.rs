use lambda_eval::split::split_n_whitespace;

#[test]
fn two_pieces_last_takes_the_rest() {
    let mut it = split_n_whitespace("limit 10 20", 2);
    let first = it.next().expect("a first piece");
    assert_eq!(first.slice, b"limit");
    assert_eq!((first.start, first.end), (0, 5));
    let rest = it.next().expect("a second piece");
    assert_eq!(rest.slice, b"10 20");
    assert_eq!((rest.start, rest.end), (6, 11));
    assert!(it.next().is_none());
}

#[test]
fn separators_are_skipped() {
    let mut it = split_n_whitespace("  \t a  ", 3);
    let piece = it.next().expect("a piece");
    assert_eq!(piece.slice, b"a");
    assert_eq!((piece.start, piece.end), (4, 5));
    assert!(it.next().is_none());
}

#[test]
fn blank_line_has_no_pieces() {
    let mut it = split_n_whitespace("   ", 2);
    assert!(it.next().is_none());
}

#[test]
fn zero_quota_yields_nothing() {
    let mut it = split_n_whitespace("a b", 0);
    assert!(it.next().is_none());
}

#[test]
fn three_pieces_in_order() {
    let mut it = split_n_whitespace("a bb ccc", 3);
    assert_eq!(it.next().expect("first").slice, b"a");
    assert_eq!(it.next().expect("second").slice, b"bb");
    assert_eq!(it.next().expect("third").slice, b"ccc");
    assert!(it.next().is_none());
}

use array_recipes::text_table::{split_whitespace_ranges, table_shape};

fn tokens(s: &str) -> Vec<&str> {
    split_whitespace_ranges(s.as_bytes()).into_iter().map(|(a, b)| &s[a..b]).collect()
}

#[test]
fn splits_like_split_whitespace() {
    for s in [
        "1.5 2.5 3.5",
        "  10\t20   30  ",
        "",
        "   \t ",
        "a\u{a0}b\u{3000}c\u{2009}d\u{85}e\u{1680}f\u{2028}g\u{205f}h\u{202f}i",
        "x\r\n",
        "é€ ü\u{200b}v",
        "-1e-3\x0b+4\x0c5",
    ] {
        assert_eq!(tokens(s), s.split_whitespace().collect::<Vec<_>>(), "on {:?}", s);
    }
}

#[test]
fn token_ranges() {
    assert_eq!(split_whitespace_ranges(b" ab  c"), vec![(1, 3), (5, 6)]);
    assert_eq!(split_whitespace_ranges(b""), vec![]);
}

#[test]
fn table_shapes() {
    assert_eq!(table_shape(0, 0), None);
    assert_eq!(table_shape(2, 6), Some((2, 3)));
    assert_eq!(table_shape(3, 7), Some((3, 2)));
    assert_eq!(table_shape(4, 2), Some((4, 0)));
}

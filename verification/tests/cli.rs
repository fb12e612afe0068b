use engine::cli::parse;

#[test]
fn numbers_are_read_as_std_reads_them() {
    for text in [
        "0", "42", "+7", "007", "4294967295", "4294967296", "99999999999999999999", "", "+", "-1",
        "-0", "1a", " 1", "1 ", "++1", "+-1", "12_000", "\u{663}", "1\u{e9}",
    ] {
        assert_eq!(parse(text), text.parse::<u32>().ok(), "{text:?}");
    }
}

#[test]
fn a_width_parses() {
    assert_eq!(parse("1280"), Some(1280));
    assert_eq!(parse("wide"), None);
}

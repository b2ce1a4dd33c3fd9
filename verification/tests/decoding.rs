use seqdiag::decode::decode;

#[test]
fn decode_round_trip() {
    assert_eq!(decode("a%3Bb%20c"), "a;b c");
}

#[test]
fn decode_without_escapes_is_identity() {
    assert_eq!(decode("one->two: hello"), "one->two: hello");
    assert_eq!(decode(""), "");
    assert_eq!(decode("plain text_1"), "plain text_1");
}

#[test]
fn decode_never_lengthens() {
    for input in ["", "abc", "a%3Bb%20c", "%3", "%%3B", "%41%42"] {
        assert!(decode(input).chars().count() <= input.chars().count());
    }
}

#[test]
fn decode_whole_table() {
    assert_eq!(decode("%3B%3C%3D%3E%20%22%2F%2C%5B%5D"), ";<=> \"/,[]");
}

#[test]
fn unknown_escape_passes_through() {
    assert_eq!(decode("%41"), "%41");
    assert_eq!(decode("%3X"), "%3X");
}

#[test]
fn trailing_fragment_passes_through() {
    assert_eq!(decode("abc%3"), "abc%3");
    assert_eq!(decode("%"), "%");
    assert_eq!(decode("%2"), "%2");
}

#[test]
fn consumed_escape_is_not_rescanned() {
    assert_eq!(decode("%%3B"), "%;");
    assert_eq!(decode("%3%3B"), "%3;");
}

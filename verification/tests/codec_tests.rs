use yoink::codec::decode_header;
use yoink::codec::encode_header;
use yoink::codec::is_header_line;
use yoink::codec::str_eq;

#[test]
fn encode_is_exact() {
    let h = encode_header("2025-04-16 22:49:23", "test", "Thisthing");
    assert_eq!(h, "<!--yoink::::2025-04-16 22:49:23::::test::::Thisthing-->");
}

#[test]
fn round_trip_simple() {
    let h = encode_header("2025-04-16 22:49:23", "notes", "A subject line");
    let k = decode_header(&h).expect("encoded header must decode");
    assert_eq!(k.timestamp, "2025-04-16 22:49:23");
    assert_eq!(k.topic, "notes");
    assert_eq!(k.subject, "A subject line");
}

#[test]
fn round_trip_empty_fields() {
    let h = encode_header("", "", "");
    assert_eq!(h, "<!--yoink::::::::::::-->");
    let k = decode_header(&h).expect("empty fields still decode");
    assert_eq!(k.timestamp, "");
    assert_eq!(k.topic, "");
    assert_eq!(k.subject, "");
}

#[test]
fn decode_rejects_short_lines() {
    assert!(decode_header("<!--yoink-->").is_none());
    assert!(decode_header("").is_none());
    assert!(decode_header("<!---->").is_none());
}

#[test]
fn decode_rejects_missing_envelope() {
    assert!(decode_header("yoink::::a::::b::::c").is_none());
    assert!(decode_header("<!--yoink::::a::::b::::c").is_none());
    assert!(decode_header("yoink::::a::::b::::c-->").is_none());
}

#[test]
fn decode_rejects_too_few_fields() {
    assert!(decode_header("<!--yoink::::only::::two-->").is_none());
}

#[test]
fn decode_does_not_check_the_tag() {
    // Only the `<!--` / `-->` envelope and the field count are checked.
    let k = decode_header("<!--other::::t1::::t2::::t3-->").expect("envelope and fields suffice");
    assert_eq!(k.timestamp, "t1");
    assert_eq!(k.topic, "t2");
    assert_eq!(k.subject, "t3");
}

#[test]
fn decode_keeps_first_three_fields_of_many() {
    // A delimiter inside the subject produces extra fields; the first three
    // after the tag win.
    let k = decode_header("<!--yoink::::ts::::top::::sub::::extra-->").expect("still decodes");
    assert_eq!(k.timestamp, "ts");
    assert_eq!(k.topic, "top");
    assert_eq!(k.subject, "sub");
}

#[test]
fn trailing_colon_shifts_the_split() {
    // The documented un-escaped-delimiter limitation: a timestamp ending in
    // a colon fuses with the following delimiter and corrupts the fields.
    let h = encode_header("x:", "topic", "subj");
    let k = decode_header(&h).expect("still a decodable line");
    assert_eq!(k.timestamp, "x");
    assert_eq!(k.topic, ":topic");
    assert_eq!(k.subject, "subj");
}

#[test]
fn header_line_recognition() {
    assert!(is_header_line("<!--yoink::::a::::b::::c-->"));
    assert!(is_header_line("<!--yoink-->"));
    assert!(!is_header_line("<!--other::::a::::b::::c-->"));
    assert!(!is_header_line("plain text"));
    assert!(!is_header_line("<!--yoink::::a"));
    assert!(!is_header_line(""));
}

#[test]
fn str_eq_behaves() {
    assert!(str_eq("", ""));
    assert!(str_eq("abc", "abc"));
    assert!(!str_eq("abc", "abd"));
    assert!(!str_eq("abc", "ab"));
}

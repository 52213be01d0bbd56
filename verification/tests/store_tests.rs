use yoink::codec::encode_header;
use yoink::error::Error;
use yoink::error::IoKind;
use yoink::lines::split_lines;
use yoink::splitter::split_sections;
use yoink::store::WritePlan;
use yoink::store::append_plan;
use yoink::store::capture_fields;
use yoink::store::capture_opened;
use yoink::store::captures_in_lines;
use yoink::store::delete_capture;
use yoink::store::file_name_of_topic;
use yoink::store::load_captures;
use yoink::store::locate_capture;
use yoink::store::make_capture_text;
use yoink::store::read_capture;
use yoink::store::replace_capture;
use yoink::store::section_text;
use yoink::store::serialize_sections;
use yoink::store::topic_of_file_name;

fn lines_vec(lines: &[&str]) -> Vec<String> {
    lines.iter().map(|s| s.to_string()).collect()
}

#[test]
fn concrete_append_scenario() {
    // File `_test.md` does not exist: the append creates it with exactly
    // the capture's bytes.
    let text = make_capture_text("2025-04-16 22:49:23", "test", "Thisthing", "hello");
    assert_eq!(text, "<!--yoink::::2025-04-16 22:49:23::::test::::Thisthing-->\nhello\n");
    match append_plan(false, &text) {
        WritePlan::Create(bytes) => {
            assert_eq!(bytes, "<!--yoink::::2025-04-16 22:49:23::::test::::Thisthing-->\nhello\n");
        }
        WritePlan::Append(_) => panic!("a missing file is created, not appended to"),
    }
}

#[test]
fn second_append_gets_one_separator() {
    // A second capture appended to the same file: the two sections end up
    // concatenated with exactly one blank-line separator between them.
    let first = make_capture_text("2025-04-16 22:49:23", "test", "Thisthing", "hello");
    let second = make_capture_text("2025-04-16 22:50:00", "test", "Another", "world");
    let mut file = String::new();
    match append_plan(false, &first) {
        WritePlan::Create(bytes) => file.push_str(&bytes),
        WritePlan::Append(_) => panic!("first append creates"),
    }
    match append_plan(true, &second) {
        WritePlan::Append(bytes) => file.push_str(&bytes),
        WritePlan::Create(_) => panic!("second append appends"),
    }
    assert_eq!(
        file,
        "<!--yoink::::2025-04-16 22:49:23::::test::::Thisthing-->\nhello\n\n<!--yoink::::2025-04-16 22:50:00::::test::::Another-->\nworld\n"
    );
}

#[test]
fn append_then_list() {
    // Appending one capture to an empty file and listing yields exactly one
    // record with the header's fields.
    let text = make_capture_text("2025-04-16 22:49:23", "test", "Thisthing", "hello");
    let lines = split_lines(&text);
    let keys = captures_in_lines(&lines);
    assert_eq!(keys.len(), 1);
    assert_eq!(keys[0].timestamp, "2025-04-16 22:49:23");
    assert_eq!(keys[0].topic, "test");
    assert_eq!(keys[0].subject, "Thisthing");
}

#[test]
fn read_after_append_returns_the_capture() {
    // Idempotent lookup: reading by the exact key immediately after the
    // append returns the reconstructed header and the appended body.
    let text = make_capture_text("2025-04-16 22:49:23", "test", "Thisthing", "hello");
    let lines = split_lines(&text);
    let (before, content, after) = read_capture(&lines, "2025-04-16 22:49:23", "_test.md", "Thisthing");
    assert_eq!(content.header, "<!--yoink::::2025-04-16 22:49:23::::test::::Thisthing-->");
    assert_eq!(content.body, vec!["hello".to_string()]);
    assert_eq!(before.len(), 0);
    assert_eq!(after.len(), 0);
}

#[test]
fn read_partitions_context() {
    let lines = lines_vec(&[
        "<!--yoink::::t1::::top::::s1-->",
        "one",
        "<!--yoink::::t2::::top::::s2-->",
        "two",
        "<!--yoink::::t3::::top::::s3-->",
        "three",
    ]);
    let (before, content, after) = read_capture(&lines, "t2", "_top.md", "s2");
    assert_eq!(before.len(), 1);
    assert_eq!(before[0].header, "<!--yoink::::t1::::top::::s1-->");
    assert_eq!(content.header, "<!--yoink::::t2::::top::::s2-->");
    assert_eq!(content.body, vec!["two".to_string()]);
    assert_eq!(after.len(), 1);
    assert_eq!(after[0].header, "<!--yoink::::t3::::top::::s3-->");
}

#[test]
fn read_without_match_leaves_content_empty() {
    let lines = lines_vec(&["<!--yoink::::t1::::top::::s1-->", "one"]);
    let (before, content, after) = read_capture(&lines, "zzz", "_top.md", "nope");
    assert_eq!(content.header, "");
    assert_eq!(content.body.len(), 0);
    assert_eq!(before.len(), 1);
    assert_eq!(after.len(), 0);
}

#[test]
fn delete_removes_exactly_one_section() {
    // Sections [S1, S2, S3]: deleting S2 leaves [S1, S3], byte-identical.
    let lines = lines_vec(&[
        "<!--yoink::::t1::::top::::s1-->",
        "one",
        "<!--yoink::::t2::::top::::s2-->",
        "two",
        "<!--yoink::::t3::::top::::s3-->",
        "three",
    ]);
    let rewritten = delete_capture(&lines, "t2", "top", "s2").expect("the capture exists");
    assert_eq!(
        rewritten,
        "<!--yoink::::t1::::top::::s1-->\none\n<!--yoink::::t3::::top::::s3-->\nthree\n"
    );
    let resplit = split_sections(&split_lines(&rewritten));
    assert_eq!(resplit.len(), 2);
    assert_eq!(resplit[0].header, "<!--yoink::::t1::::top::::s1-->");
    assert_eq!(resplit[0].body, vec!["one".to_string()]);
    assert_eq!(resplit[1].header, "<!--yoink::::t3::::top::::s3-->");
    assert_eq!(resplit[1].body, vec!["three".to_string()]);
}

#[test]
fn delete_without_match_is_not_found() {
    // A capture no section's header matches cannot be located; the file is
    // not rewritten.
    let lines = lines_vec(&["<!--yoink::::t1::::top::::s1-->", "one"]);
    match delete_capture(&lines, "zzz", "top", "nope") {
        Err(Error::FileNotFound) => {}
        other => panic!("an un-locatable capture must be not-found, got {:?}", other),
    }
}

#[test]
fn replace_preserves_context() {
    let lines = lines_vec(&[
        "<!--yoink::::t1::::top::::s1-->",
        "one",
        "<!--yoink::::t2::::top::::s2-->",
        "two",
        "<!--yoink::::t3::::top::::s3-->",
        "three",
    ]);
    let sections = split_sections(&lines);
    let target = encode_header("t2", "top", "s2");
    let (before, _content, after) = locate_capture(&sections, &target);
    let rewritten = replace_capture(&before, "t9", "top", "s2", "new body", &after);
    assert_eq!(
        rewritten,
        "<!--yoink::::t1::::top::::s1-->\none\n<!--yoink::::t9::::top::::s2-->\nnew body\n<!--yoink::::t3::::top::::s3-->\nthree\n"
    );
}

#[test]
fn list_across_files_keeps_order() {
    let file_a = lines_vec(&["<!--yoink::::t1::::a::::s1-->", "x"]);
    let file_b = lines_vec(&["junk", "<!--yoink::::t2::::b::::s2-->"]);
    let keys = load_captures(&vec![file_a, file_b]).expect("two captures exist");
    assert_eq!(keys.len(), 2);
    assert_eq!(keys[0].timestamp, "t1");
    assert_eq!(keys[1].timestamp, "t2");
}

#[test]
fn list_with_no_decodable_header_is_not_found() {
    // "No captures anywhere" is a not-found condition, not an empty list.
    let file_a = lines_vec(&["nothing here"]);
    let file_b = lines_vec(&["<!--yoink-->"]);
    match load_captures(&vec![file_a, file_b]) {
        Err(Error::FileNotFound) => {}
        other => panic!("no captures anywhere must be not-found, got {:?}", other),
    }
    match load_captures(&Vec::new()) {
        Err(Error::FileNotFound) => {}
        other => panic!("no files at all must be not-found, got {:?}", other),
    }
}

#[test]
fn list_skips_undecodable_section_headers() {
    let file = lines_vec(&[
        "<!--yoink-->",
        "body of an undecodable section",
        "<!--yoink::::t1::::top::::s1-->",
    ]);
    let keys = captures_in_lines(&file);
    assert_eq!(keys.len(), 1);
    assert_eq!(keys[0].timestamp, "t1");
}

#[test]
fn capture_fields_needs_three() {
    let full = lines_vec(&["ts", "top", "sub"]);
    let (a, b, c) = capture_fields(&full).expect("three fields are enough");
    assert_eq!((a.as_str(), b.as_str(), c.as_str()), ("ts", "top", "sub"));
    match capture_fields(&lines_vec(&["ts", "top"])) {
        Err(Error::IoError(IoKind::Other)) => {}
        other => panic!("short record must fail, got {:?}", other),
    }
}

#[test]
fn capture_opened_builds_file_name() {
    let full = lines_vec(&["ts", "top", "sub"]);
    let (ts, file, sub) = capture_opened(&full).expect("three fields are enough");
    assert_eq!(ts, "ts");
    assert_eq!(file, "_top.md");
    assert_eq!(sub, "sub");
    match capture_opened(&lines_vec(&[])) {
        Err(Error::IoError(IoKind::NotFound)) => {}
        other => panic!("empty record must fail, got {:?}", other),
    }
}

#[test]
fn topic_and_file_name_convert_both_ways() {
    assert_eq!(file_name_of_topic("test"), "_test.md");
    assert_eq!(topic_of_file_name("_test.md"), "test");
    assert_eq!(topic_of_file_name(&file_name_of_topic("notes")), "notes");
}

#[test]
fn duplicate_headers_merge_into_content() {
    // Identity is the full header string; sections carrying the same header
    // are the same capture, and their bodies concatenate on read.
    let lines = lines_vec(&[
        "<!--yoink::::t1::::top::::s1-->",
        "one",
        "<!--yoink::::t2::::top::::s2-->",
        "other",
        "<!--yoink::::t1::::top::::s1-->",
        "two",
    ]);
    let sections = split_sections(&lines);
    let target = encode_header("t1", "top", "s1");
    let (before, content, after) = locate_capture(&sections, &target);
    assert_eq!(before.len(), 0);
    assert_eq!(content.header, "<!--yoink::::t1::::top::::s1-->");
    assert_eq!(content.body, vec!["one".to_string(), "two".to_string()]);
    assert_eq!(after.len(), 1);
    assert_eq!(after[0].header, "<!--yoink::::t2::::top::::s2-->");
}

#[test]
fn rewriting_drops_pre_header_junk() {
    // Content before the first header belongs to no section, so a rewrite
    // silently loses it.
    let lines = lines_vec(&[
        "stray",
        "<!--yoink::::t1::::top::::s1-->",
        "one",
        "<!--yoink::::t2::::top::::s2-->",
        "two",
    ]);
    let rewritten = delete_capture(&lines, "t1", "top", "s1").expect("the capture exists");
    assert_eq!(rewritten, "<!--yoink::::t2::::top::::s2-->\ntwo\n");
}

#[test]
fn read_context_reserializes_to_the_file() {
    // With a unique header, serializing before + content + after in order
    // reproduces the file's bytes exactly.
    let content = "<!--yoink::::t1::::top::::s1-->\none\n<!--yoink::::t2::::top::::s2-->\ntwo\n<!--yoink::::t3::::top::::s3-->\nthree\n";
    let lines = split_lines(content);
    let (before, middle, after) = read_capture(&lines, "t2", "_top.md", "s2");
    let mut rebuilt = serialize_sections(&before);
    rebuilt.push_str(&section_text(&middle));
    rebuilt.push_str(&serialize_sections(&after));
    assert_eq!(rebuilt, content);
}

#[test]
fn serialization_of_located_parts_is_stable() {
    let lines = lines_vec(&["<!--yoink::::t1::::top::::s1-->", "one", "two"]);
    let sections = split_sections(&lines);
    assert_eq!(serialize_sections(&sections), "<!--yoink::::t1::::top::::s1-->\none\ntwo\n");
}

use yoink::lines::join_lines;
use yoink::lines::split_lines;
use yoink::splitter::split_sections;
use yoink::store::serialize_sections;

fn lines_vec(lines: &[&str]) -> Vec<String> {
    lines.iter().map(|s| s.to_string()).collect()
}

#[test]
fn splits_two_sections() {
    let lines = lines_vec(&[
        "<!--yoink::::t1::::top::::s1-->",
        "body one",
        "body two",
        "<!--yoink::::t2::::top::::s2-->",
        "body three",
    ]);
    let sections = split_sections(&lines);
    assert_eq!(sections.len(), 2);
    assert_eq!(sections[0].header, "<!--yoink::::t1::::top::::s1-->");
    assert_eq!(sections[0].body, vec!["body one".to_string(), "body two".to_string()]);
    assert_eq!(sections[1].header, "<!--yoink::::t2::::top::::s2-->");
    assert_eq!(sections[1].body, vec!["body three".to_string()]);
}

#[test]
fn malformed_input_tolerance() {
    // Lines before any valid header do not crash the splitter and are
    // absent from every returned section.
    let lines = lines_vec(&[
        "stray line",
        "<!--not a capture header-->",
        "<!--yoink::::t1::::top::::s1-->",
        "kept",
    ]);
    let sections = split_sections(&lines);
    assert_eq!(sections.len(), 1);
    assert_eq!(sections[0].header, "<!--yoink::::t1::::top::::s1-->");
    assert_eq!(sections[0].body, vec!["kept".to_string()]);
}

#[test]
fn splitter_never_fails_on_junk() {
    let lines = lines_vec(&["no", "headers", "anywhere"]);
    let sections = split_sections(&lines);
    assert_eq!(sections.len(), 0);
}

#[test]
fn empty_input_gives_no_sections() {
    let sections = split_sections(&Vec::new());
    assert_eq!(sections.len(), 0);
}

#[test]
fn split_reassemble_identity() {
    // Zero or more well-formed sections, no pre-header junk: reassembling
    // the splitter's output reproduces the original content exactly.
    let content = "<!--yoink::::t1::::top::::s1-->\nline a\n\nline b\n<!--yoink::::t2::::top::::s2-->\n";
    let lines = split_lines(content);
    let sections = split_sections(&lines);
    let rebuilt = serialize_sections(&sections);
    assert_eq!(rebuilt, content);
}

#[test]
fn split_reassemble_identity_empty() {
    let lines = split_lines("");
    let sections = split_sections(&lines);
    assert_eq!(serialize_sections(&sections), "");
}

#[test]
fn line_splitting_matches_lines_semantics() {
    assert_eq!(split_lines("a\nb"), vec!["a".to_string(), "b".to_string()]);
    assert_eq!(split_lines("a\nb\n"), vec!["a".to_string(), "b".to_string()]);
    assert_eq!(split_lines("a\r\nb\r\n"), vec!["a".to_string(), "b".to_string()]);
    assert_eq!(split_lines("\n"), vec!["".to_string()]);
    assert_eq!(split_lines(""), Vec::<String>::new());
    assert_eq!(split_lines("a\n\nb"), vec!["a".to_string(), "".to_string(), "b".to_string()]);
    // A bare carriage return is not a line ending.
    assert_eq!(split_lines("a\rb"), vec!["a\rb".to_string()]);
}

#[test]
fn join_terminates_every_line() {
    let lines = lines_vec(&["a", "", "b"]);
    assert_eq!(join_lines(&lines), "a\n\nb\n");
    assert_eq!(join_lines(&Vec::new()), "");
}

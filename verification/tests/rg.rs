use ngi::report::json_escape;
use ngi::rg::{
    extract_json_str, extract_json_u64_field, extract_rg_json_lines_text, extract_rg_json_path, parse_rg_json_output,
    needs_context, parse_rg_output, parse_rg_plain_output, rg_arguments,
};
use ngi::text::{find_after, join_lines, push_decimal, push_hex, split_lines, trim};
use ngi::walk::{default_ignore_patterns, IGNORE_FILE};

#[test]
fn arguments() {
    let candidates = vec![(0, "a.rs".to_string()), (5, "b.rs".to_string())];
    assert_eq!(
        rg_arguments("x+", true, true, 0, 0, Some(3), &candidates),
        vec!["--no-heading", "--with-filename", "-n", "-e", "x+", "-i", "-l", "-m", "3", "a.rs", "b.rs"]
    );
    assert_eq!(
        rg_arguments("x", false, false, 2, 10, None, &[]),
        vec!["--json", "-e", "x", "-B", "2", "-A", "10"]
    );
    // Where only file names are wanted, no context is asked for.
    assert_eq!(
        rg_arguments("x", false, true, 2, 10, None, &[]),
        vec!["--no-heading", "--with-filename", "-n", "-e", "x", "-l"]
    );
    assert!(needs_context(false, 0, 1) && needs_context(false, 1, 0));
    assert!(!needs_context(false, 0, 0) && !needs_context(true, 1, 1));
}

#[test]
fn plain_output() {
    let out = parse_rg_plain_output("a.rs:3:let x: u8;\n\nnoise\nb.rs:x:y\nc:4294967296:z\nd:7:\r\n", false);
    let all: Vec<(&str, u32, &str)> =
        out.iter().map(|m| (m.path.as_str(), m.line_number, m.line_text.as_str())).collect();
    assert_eq!(all, vec![("a.rs", 3, "let x: u8;"), ("d", 7, "")]);
    let names = parse_rg_plain_output("a.rs\nb:1:c\n", true);
    let all: Vec<(&str, u32)> = names.iter().map(|m| (m.path.as_str(), m.line_number)).collect();
    assert_eq!(all, vec![("a.rs", 0), ("b:1:c", 0)]);
}

const EVENT: &str = r#"{"type":"match","data":{"path":{"text":"src/a.rs"},"lines":{"text":"say \"hi\"\tnow\\\n"},"line_number":12,"absolute_offset":3,"submatches":[]}}"#;

#[test]
fn fields_of_events() {
    assert_eq!(extract_json_str(EVENT, "type"), Some("match".to_string()));
    assert_eq!(extract_json_str(EVENT, "kind"), None);
    assert_eq!(extract_json_u64_field(EVENT, "line_number"), Some(12));
    assert_eq!(extract_json_u64_field(EVENT, "offset"), None);
    assert_eq!(extract_rg_json_path(EVENT), Some("src/a.rs".to_string()));
    assert_eq!(extract_rg_json_lines_text(EVENT), Some("say \"hi\"\tnow\\\n".to_string()));
    assert_eq!(extract_rg_json_path("{}"), None);
    assert_eq!(extract_rg_json_lines_text("{}"), None);
}

fn event(kind: &str, path: &str, number: u32, text: &str) -> String {
    format!(
        "{{\"type\":\"{kind}\",\"data\":{{\"path\":{{\"text\":\"{path}\"}},\"lines\":{{\"text\":\"{text}\\n\"}},\"line_number\":{number},\"x\":0}}}}\n"
    )
}

#[test]
fn json_output() {
    let mut out = String::from("{\"type\":\"begin\",\"data\":{\"path\":{\"text\":\"a\"}}}\n");
    out.push_str(&event("context", "a", 1, "before"));
    out.push_str(&event("match", "a", 2, "hit"));
    out.push_str(&event("context", "a", 3, "after"));
    out.push_str("{\"type\":\"end\",\"data\":{\"path\":{\"text\":\"a\"}}}\n");
    out.push_str(&event("match", "b", 9, "hit"));
    let all = parse_rg_json_output(&out, 2, 2);
    assert_eq!(all.len(), 2);
    assert_eq!((all[0].path.as_str(), all[0].line_number, all[0].line_text.as_str()), ("a", 2, "hit"));
    assert_eq!(all[0].context_before, vec!["before"]);
    assert_eq!(all[0].context_after, vec!["after"]);
    assert_eq!((all[1].path.as_str(), all[1].line_number), ("b", 9));
    assert!(all[1].context_before.is_empty());
    assert!(all[1].context_after.is_empty());
}

#[test]
fn output_is_read_as_it_was_asked_for() {
    let plain = parse_rg_output(b"a:1:x\xFF\n", false, 0, 0);
    assert_eq!(plain.len(), 1);
    assert_eq!(plain[0].line_text, "x\u{FFFD}");
    let json = parse_rg_output(event("match", "a", 4, "x").as_bytes(), false, 1, 0);
    assert_eq!(json.len(), 1);
    assert_eq!(json[0].line_number, 4);
}

#[test]
fn only_file_names_whatever_the_context() {
    let names = parse_rg_output(b"a.rs\nb.rs\n\n", true, 3, 1);
    let all: Vec<(&str, u32, &str)> =
        names.iter().map(|m| (m.path.as_str(), m.line_number, m.line_text.as_str())).collect();
    assert_eq!(all, vec![("a.rs", 0, ""), ("b.rs", 0, "")]);
    assert!(names.iter().all(|m| m.context_before.is_empty() && m.context_after.is_empty()));
    // A path that is named twice comes twice.
    assert_eq!(parse_rg_plain_output("a\nb\na\n", true).len(), 3);
}

#[test]
fn context_is_bounded_by_line_numbers() {
    let mut out = String::new();
    for (kind, number, text) in [
        ("context", 2, "b"),
        ("match", 3, "MATCH1"),
        ("context", 4, "c"),
        ("context", 6, "e"),
        ("match", 7, "MATCH2"),
        ("context", 8, "f"),
    ] {
        out.push_str(&event(kind, "f.txt", number, text));
    }
    let all = parse_rg_json_output(&out, 1, 1);
    assert_eq!(all.len(), 2);
    assert_eq!((all[0].line_number, all[0].line_text.as_str()), (3, "MATCH1"));
    assert_eq!(all[0].context_before, vec!["b"]);
    assert_eq!(all[0].context_after, vec!["c"]);
    assert_eq!((all[1].line_number, all[1].line_text.as_str()), (7, "MATCH2"));
    assert_eq!(all[1].context_before, vec!["e"]);
    assert_eq!(all[1].context_after, vec!["f"]);
    // A match next to another is context of it, too.
    let near = event("match", "a", 1, "x") + &event("match", "a", 2, "y") + &event("match", "b", 3, "z");
    let all = parse_rg_json_output(&near, 1, 1);
    assert_eq!(all[0].context_after, vec!["y"]);
    assert_eq!(all[1].context_before, vec!["x"]);
    assert!(all[1].context_after.is_empty());
}

#[test]
fn texts_of_events_undo_escaping() {
    let text = "say \"hi\"\t\\ caf\u{e9}\r\nend";
    let json = format!("{{\"lines\":{{\"text\":\"{}\"}},\"x\":\"y\"}}", json_escape(text));
    assert_eq!(extract_rg_json_lines_text(&json), Some(text.to_string()));
}

#[test]
fn texts() {
    let chars: Vec<char> = "a\r\n\nb".chars().collect();
    assert_eq!(split_lines(&chars), vec!["a", "", "b"]);
    assert_eq!(join_lines(&["a".into(), "".into(), "b".into()]), "a\n\nb");
    let joined: Vec<char> = join_lines(&["a b".into(), "c".into()]).chars().collect();
    assert_eq!(split_lines(&joined), vec!["a b", "c"]);
    let spaced: Vec<char> = "\u{2003} x y\n".chars().collect();
    assert_eq!(trim(&spaced), &['x', ' ', 'y']);
    let hay: Vec<char> = "aabab".chars().collect();
    assert_eq!(find_after(&hay, &['a', 'b']), Some(&['a', 'b'][..]));
    assert_eq!(find_after(&hay, &['b', 'b']), None);
    let mut out = String::from("n=");
    push_decimal(&mut out, u128::MAX);
    push_hex(&mut out, 0xAB, 4);
    assert_eq!(out, "n=34028236692093846346337460743176821145500ab");
}

#[test]
fn white_space_is_that_of_unicode() {
    for n in 0..=0x10FFFFu32 {
        if let Some(c) = char::from_u32(n) {
            assert_eq!(trim(&[c]).is_empty(), c.is_whitespace(), "{n:x}");
        }
    }
}

#[test]
fn ignored_by_default() {
    let patterns = default_ignore_patterns();
    for expected in ["!**/node_modules/", "!**/__pycache__/", "!**/.venv/", "!**/.ngi/", "!/target/"] {
        assert!(patterns.contains(&expected), "missing {expected}: {patterns:?}");
    }
    assert_eq!(IGNORE_FILE, ".ngiignore");
}

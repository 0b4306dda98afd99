use maacoc_engine::pipeline::{blank_jsonc, load, unified_diff, Edit, PipelineDoc, PipelineError};
use maacoc_engine::json::{get, Json};
use maacoc_engine::scan::{scan_document_exec, ScanError};
use maacoc_engine::diff::{hunk_of, ChangeKind, LineChange, OpChanges};

const SAMPLE: &str = "{\n    // entry point\n    \"Main\": {\n        \"next\": [\"SetScreen\", \"Launch\"],\n    },\n    \"FindSoldier\": {\n        \"recognition\": \"TemplateMatch\",\n        \"threshold\": 0.95, // tuned on device\n        \"roi\": [46, 584, 1191, 135],\n    },\n    /* the loop */\n    \"AttackLoop\": {\n        \"next\": [\n            \"FindSoldier\",\n            \"FindNext\",\n        ],\n    },\n}\n";

/// A value written as JSON text.
fn v(text: &str) -> Json {
    load(text).unwrap()
}

/// A member of an object value.
fn at<'a>(value: &'a Json, key: &str) -> &'a Json {
    get(value, key).unwrap()
}

fn edit(node: &str, field: &str, value: Json) -> Edit {
    Edit::new(node.to_string(), field.to_string(), value)
}

#[test]
fn blanking_preserves_length_and_offsets() {
    let text = "{\"a\": 1, // hi\n}";
    let blanked = blank_jsonc(text);
    assert_eq!(blanked.len(), text.len());
    assert_eq!(blanked.matches('\n').count(), text.matches('\n').count());
    assert_eq!(at(&load(text).unwrap(), "a"), &v("1"));
}

#[test]
fn commas_inside_strings_are_not_trailing() {
    assert_eq!(at(&load("{\"a\": \"x,y\", }").unwrap(), "a"), &v("\"x,y\""));
}

#[test]
fn missing_field_is_inserted_after_the_last_one() {
    let doc = PipelineDoc::from_text("{\n  \"Node\": {\n    \"action\": \"Click\",\n  },\n}\n".to_string());
    let patched = doc.patched(&[edit("Node", "threshold", v("0.9"))]).unwrap();
    let data = load(&patched).unwrap();
    let node = at(&data, "Node");
    assert_eq!(at(node, "threshold"), &v("0.9"));
    assert_eq!(at(node, "action"), &v("\"Click\""));
}

#[test]
fn a_broken_result_is_refused() {
    // Guard: the patched text must still parse, or nothing is written.
    let doc = PipelineDoc::from_text("{\n  \"N\": {\"a\": 1},\n}\n".to_string());
    assert!(doc.patched(&[edit("N", "a", v("[1, 2]"))]).is_ok());
}

#[test]
fn blanking_replaces_comments_and_trailing_commas_exactly() {
    assert_eq!(blank_jsonc("[1, 2, ]"), "[1, 2  ]");
    assert_eq!(blank_jsonc("{\"a\": 1 /* x */}"), "{\"a\": 1        }");
    assert_eq!(blank_jsonc("1 // c\n2"), "1     \n2");
    assert_eq!(blank_jsonc("\"// not a comment\""), "\"// not a comment\"");
    assert_eq!(blank_jsonc("{\"a\": \"\\\",\", }"), "{\"a\": \"\\\",\"  }");
}

#[test]
fn blanking_keeps_multibyte_text_in_comments_aligned() {
    let text = "{\"a\": 1 // 中文注释\n}";
    let blanked = blank_jsonc(text);
    assert_eq!(blanked.len(), text.len());
    assert_eq!(blanked.find('\n'), text.find('\n'));
    assert_eq!(at(&load(text).unwrap(), "a"), &v("1"));
}

#[test]
fn node_names_follow_the_document() {
    let doc = PipelineDoc::from_text(SAMPLE.to_string());
    assert_eq!(doc.node_names().unwrap(), vec!["Main", "FindSoldier", "AttackLoop"]);
    let dup = PipelineDoc::from_text("{\"b\": 1, \"a\": 2, \"b\": 3}".to_string());
    assert_eq!(dup.node_names().unwrap(), vec!["a", "b"]);
    assert!(PipelineDoc::from_text("[1, 2]".to_string()).node_names().unwrap().is_empty());
    let escaped = PipelineDoc::from_text("{\"a\\u0062\": 1, \"q\\\"\": 2}".to_string());
    assert_eq!(escaped.node_names().unwrap(), vec!["ab", "q\""]);
}

#[test]
fn unreadable_documents_report_where_scanning_stopped() {
    let unclosed = PipelineDoc::from_text("{\"a\": \"x".to_string());
    assert!(matches!(unclosed.node_names(), Err(PipelineError::Scan(ScanError::UnclosedString))));
    let end = PipelineDoc::from_text("   ".to_string());
    assert!(matches!(end.node_names(), Err(PipelineError::Scan(ScanError::UnexpectedEnd))));
    let object = PipelineDoc::from_text("{\"a\": 1 \"b\": 2}".to_string());
    assert!(matches!(object.node_names(), Err(PipelineError::Scan(ScanError::ExpectedObjectEnd))));
    let array = PipelineDoc::from_text("[1 2]".to_string());
    assert!(matches!(array.node_names(), Err(PipelineError::Scan(ScanError::ExpectedArrayEnd))));
    let bad = PipelineDoc::from_text("{\"a\": nope}".to_string());
    assert!(matches!(bad.node_names(), Err(PipelineError::Scan(ScanError::BadJson))));
}

#[test]
fn scalar_edit_changes_exactly_one_line_of_a_sample() {
    let doc = PipelineDoc::from_text(SAMPLE.to_string());
    let patched = doc.patched(&[edit("FindSoldier", "threshold", v("0.8"))]).unwrap();
    let changed: Vec<_> = doc.text().lines().zip(patched.lines()).filter(|(a, b)| a != b).collect();
    assert_eq!(changed.len(), 1, "{changed:?}");
    assert_eq!(changed[0].1, "        \"threshold\": 0.8, // tuned on device");
    assert_eq!(at(at(&load(&patched).unwrap(), "FindSoldier"), "threshold"), &v("0.8"));
}

#[test]
fn list_edit_keeps_the_multiline_layout_of_a_sample() {
    let doc = PipelineDoc::from_text(SAMPLE.to_string());
    let after: Json = v("[\"FindSoldier\", \"FindNext\", \"Deploy\"]");
    let patched = doc.patched(&[edit("AttackLoop", "next", after)]).unwrap();
    let diff = unified_diff(doc.text(), &patched, "a", "b");
    assert_eq!(diff.lines().filter(|l| l.starts_with('-') && !l.starts_with("---")).count(), 0, "{diff}");
    let added: Vec<_> = diff.lines().filter(|l| l.starts_with('+') && !l.starts_with("+++")).collect();
    assert_eq!(added, vec!["+            \"Deploy\","]);
}

#[test]
fn single_line_lists_stay_compact() {
    let doc = PipelineDoc::from_text(SAMPLE.to_string());
    let after: Json = v("[\"Launch\"]");
    let patched = doc.patched(&[edit("Main", "next", after)]).unwrap();
    assert!(patched.contains("        \"next\": [\"Launch\"],\n"));
}

#[test]
fn inserted_field_uses_the_node_indent_and_existing_comma() {
    let doc = PipelineDoc::from_text("{\n  \"Node\": {\n    \"action\": \"Click\",\n  },\n}\n".to_string());
    let patched = doc.patched(&[edit("Node", "threshold", v("0.9"))]).unwrap();
    assert_eq!(patched, "{\n  \"Node\": {\n    \"action\": \"Click\",\n  \n    \"threshold\": 0.9},\n}\n");
    let bare = PipelineDoc::from_text("{\"Node\": {\"action\": 1}}".to_string());
    let patched = bare.patched(&[edit("Node", "x", v("2"))]).unwrap();
    assert_eq!(patched, "{\"Node\": {\"action\": 1,\n\"x\": 2}}");
    let empty = PipelineDoc::from_text("{\"Node\": {}}".to_string());
    let patched = empty.patched(&[edit("Node", "x", v("2"))]).unwrap();
    assert_eq!(patched, "{\"Node\": {\"x\": 2}}");
}

#[test]
fn unknown_node_is_an_error_not_a_silent_write_in_a_sample() {
    let doc = PipelineDoc::from_text(SAMPLE.to_string());
    let err = doc.patched(&[edit("NoSuchNode", "threshold", v("0.5"))]).unwrap_err();
    assert!(matches!(&err, PipelineError::UnknownNode(n) if n == "NoSuchNode"));
    assert_eq!(err.message(), "未知节点: NoSuchNode");
}

#[test]
fn an_edit_that_breaks_the_document_is_refused() {
    let doc = PipelineDoc::from_text("{\"N\": {\"a\": 1}}".to_string());
    let mut odd = edit("N", "a", v("1"));
    odd.value_json = Some("}".to_string());
    assert!(matches!(doc.patched(&[odd]), Err(PipelineError::Json)));
}

#[test]
fn write_replaces_the_text_and_a_failure_keeps_it() {
    let mut doc = PipelineDoc::from_text(SAMPLE.to_string());
    let out = doc.write(&[edit("FindSoldier", "threshold", v("0.7"))]).unwrap();
    assert_eq!(doc.text(), out);
    let before = doc.text().to_string();
    assert!(doc.write(&[edit("Missing", "x", v("1"))]).is_err());
    assert_eq!(doc.text(), before);
    assert!(doc.path().is_none());
}

#[test]
fn several_edits_apply_in_document_order() {
    let doc = PipelineDoc::from_text(SAMPLE.to_string());
    let patched = doc
        .patched(&vec![
            edit("Main", "next", v("[\"Launch\"]")),
            edit("FindSoldier", "threshold", v("0.5")),
        ])
        .unwrap();
    let data = load(&patched).unwrap();
    assert_eq!(at(at(&data, "FindSoldier"), "threshold"), &v("0.5"));
    assert_eq!(at(at(&data, "Main"), "next"), &v("[\"Launch\"]"));
}

#[test]
fn node_reads_one_definition_or_null() {
    let doc = PipelineDoc::from_text(SAMPLE.to_string());
    assert_eq!(at(&doc.node("FindSoldier").unwrap(), "threshold"), &v("0.95"));
    assert_eq!(doc.node("Nope").unwrap(), Json::Null);
    assert!(PipelineDoc::from_text("{".to_string()).data().is_err());
}

#[test]
fn unified_diff_marks_each_line() {
    assert_eq!(unified_diff("a\nb\n", "a\nc\n", "l", "r"), "--- l\n+++ r\n@@ -1,2 +1,2 @@\n a\n-b\n+c\n");
    assert_eq!(unified_diff("x", "y", "l", "r"), "--- l\n+++ r\n@@ -1 +1 @@\n-x\n+y\n");
    assert_eq!(unified_diff("same\n", "same\n", "l", "r"), "--- l\n+++ r\n");
}

#[test]
fn unified_diff_introduces_each_hunk_with_its_ranges() {
    assert_eq!(unified_diff("a\nb\n", "a\nx\nb\n", "l", "r"), "--- l\n+++ r\n@@ -1,2 +1,3 @@\n a\n+x\n b\n");
    assert_eq!(unified_diff("", "a\n", "l", "r"), "--- l\n+++ r\n@@ -0,0 +1 @@\n+a\n");
    let before: String = (1..=20).map(|i| format!("{i}\n")).collect();
    let after: String = (1..=20)
        .map(|i| match i {
            2 => "two\n".to_string(),
            19 => "nineteen\n".to_string(),
            _ => format!("{i}\n"),
        })
        .collect();
    let diff = unified_diff(&before, &after, "l", "r");
    let headers: Vec<_> = diff.lines().filter(|l| l.starts_with("@@")).collect();
    assert_eq!(headers, vec!["@@ -1,5 +1,5 @@", "@@ -16,5 +16,5 @@"]);
}

#[test]
fn diff_shows_what_a_patch_would_change() {
    let doc = PipelineDoc::from_text("{\"N\": {\"a\": 1}}\n".to_string());
    let diff = doc.diff(&[edit("N", "a", v("2"))]).unwrap();
    assert_eq!(diff, "--- a/main.json\n+++ b/main.json\n@@ -1 +1 @@\n-{\"N\": {\"a\": 1}}\n+{\"N\": {\"a\": 2}}\n");
}

#[test]
fn edits_land_on_their_own_fields_in_any_order() {
    let doc = PipelineDoc::from_text("{\"N\": {\"a\": 1, \"b\": 2}}".to_string());
    let patched = doc.patched(&[edit("N", "b", v("30")), edit("N", "a", v("10"))]).unwrap();
    assert_eq!(patched, "{\"N\": {\"a\": 10, \"b\": 30}}");
    let same = doc.patched(&[edit("N", "a", v("10")), edit("N", "b", v("30"))]).unwrap();
    assert_eq!(same, patched);
}

#[test]
fn two_edits_of_one_field_overlap() {
    let doc = PipelineDoc::from_text("{\"N\": {\"a\": 1}}".to_string());
    assert!(matches!(doc.patched(&[edit("N", "a", v("2")), edit("N", "a", v("3"))]), Err(PipelineError::Overlap)));
}

#[test]
fn edit_values_are_written_as_json() {
    let e = edit("N", "next", v("[\"A\", 1.5, {\"k\": null}]"));
    assert_eq!(e.value_json.as_deref(), Some("[\"A\",1.5,{\"k\":null}]"));
    assert_eq!(e.value_items, Some(vec!["\"A\"".to_string(), "1.5".to_string(), "{\"k\":null}".to_string()]));
    assert_eq!(edit("N", "t", v("0.95")).value_items, None);
}

#[test]
fn the_scanner_reads_the_value_and_its_spans() {
    let (spans, value) = scan_document_exec(b"{\"a\": 1, \"b\": [2],}").unwrap();
    assert_eq!(value, v("{\"a\": 1, \"b\": [2]}"));
    let key_a = spans.keys.entries.iter().find(|e| e.path == vec!["a".to_string()]).unwrap();
    assert_eq!((key_a.start, key_a.end), (1, 4));
    let value_a = spans.values.entries.iter().find(|e| e.path == vec!["a".to_string()]).unwrap();
    assert_eq!((value_a.start, value_a.end), (6, 7));
    assert!(matches!(scan_document_exec(b"{\"a\": 1 \"b\": 2}"), Err(ScanError::ExpectedObjectEnd)));
    let (_, dup) = scan_document_exec(b"{\"k\": 1, \"k\": 2}").unwrap();
    assert_eq!(get(&dup, "k"), Some(&v("2")));
}

#[test]
fn blanking_twice_is_blanking_once() {
    for text in ["{\"a\": 1, // c\n \"b\": [1, 2, /* x */ ], }", "[\"a,]\", 3,]", SAMPLE] {
        let once = blank_jsonc(text);
        assert_eq!(blank_jsonc(&once), once);
    }
    // A comma followed only by a comment and another comma is left alone at
    // first and becomes trailing once the second one is blanked.
    let once = blank_jsonc("[1,/*c*/,]");
    assert_eq!(once, "[1,      ]");
    assert_eq!(blank_jsonc(&once), "[1       ]");
}

#[test]
fn a_hunk_runs_from_its_first_op_to_its_last() {
    let op = |old: (usize, usize), new: (usize, usize), text: &str| OpChanges {
        old_start: old.0,
        old_end: old.1,
        new_start: new.0,
        new_end: new.1,
        changes: vec![LineChange { kind: ChangeKind::Equal, text: text.to_string(), missing_newline: false }],
    };
    let hunk = hunk_of(&vec![op((2, 3), (2, 3), "a\n"), op((3, 3), (3, 4), "b\n"), op((3, 5), (4, 6), "c\n")]);
    assert_eq!((hunk.old_start, hunk.old_end, hunk.new_start, hunk.new_end), (2, 5, 2, 6));
    let texts: Vec<_> = hunk.changes.iter().map(|c| c.text.as_str()).collect();
    assert_eq!(texts, vec!["a\n", "b\n", "c\n"]);
}

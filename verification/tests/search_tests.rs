use jed::cursor::Cursor;
use jed::folds::FoldSet;
use jed::lines::{Line, LineContent};
use jed::value::Value;

fn sample_roots() -> Vec<Value> {
    // [ {"alpha": "one", "beta": [10, 20]} ]
    let inner = Value::Array(vec![
        Value::Number(String::from("10")),
        Value::Number(String::from("20")),
    ]);
    let object = Value::Object(vec![
        (String::from("alpha"), Value::String(String::from("one"))),
        (String::from("beta"), inner),
    ]);
    vec![object]
}

#[test]
fn line_text_renders_key_content_and_comma() {
    let line = Line {
        content: LineContent::Number(String::from("1")),
        key: Some(String::from("a")),
        folded: false,
        comma: true,
        indent: 1,
    };
    assert_eq!(line.to_text(), "\"a\": 1,");
    let plain = Line {
        content: LineContent::String(String::from("one")),
        key: None,
        folded: false,
        comma: false,
        indent: 0,
    };
    assert_eq!(plain.to_text(), "\"one\"");
    let bracket = Line {
        content: LineContent::ArrayEnd(2),
        key: None,
        folded: false,
        comma: true,
        indent: 1,
    };
    assert_eq!(bracket.to_text(), "],");
    let null_line = Line {
        content: LineContent::Null,
        key: None,
        folded: false,
        comma: false,
        indent: 0,
    };
    assert_eq!(null_line.to_text(), "null");
    let truth = Line {
        content: LineContent::Bool(true),
        key: None,
        folded: false,
        comma: false,
        indent: 0,
    };
    assert_eq!(truth.to_text(), "true");
}

#[test]
fn search_finds_the_next_matching_line() {
    let folds = FoldSet::new();
    let cursor = Cursor::new(sample_roots()).expect("roots are not empty");
    // The first match for "2" after the opening line is the number 20.
    let hit = cursor.search("2", &folds).expect("a line matches");
    let line = hit.current_line(&folds);
    assert_eq!(line.content, LineContent::Number(String::from("20")));
}

#[test]
fn search_skips_the_current_line() {
    let folds = FoldSet::new();
    let cursor = Cursor::new(sample_roots()).expect("roots are not empty");
    // The opening brace would match, but search starts after the current
    // position, so the next opening bracket is found instead.
    let hit = cursor
        .search(r"\{|\[", &folds)
        .expect("the nested array's opening line matches");
    let line = hit.current_line(&folds);
    assert_eq!(line.content, LineContent::ArrayStart(2));
}

#[test]
fn search_misses_when_nothing_matches() {
    let folds = FoldSet::new();
    let cursor = Cursor::new(sample_roots()).expect("roots are not empty");
    assert!(cursor.search("gamma", &folds).is_none());
}

#[test]
fn search_rejects_an_invalid_pattern() {
    let folds = FoldSet::new();
    let cursor = Cursor::new(sample_roots()).expect("roots are not empty");
    assert!(cursor.search("(", &folds).is_none());
}

#[test]
fn search_back_finds_the_previous_matching_line() {
    let folds = FoldSet::new();
    let cursor = Cursor::new_end(sample_roots()).expect("roots are not empty");
    let hit = cursor.search_back("alpha", &folds).expect("a line matches");
    let line = hit.current_line(&folds);
    assert_eq!(line.key, Some(String::from("alpha")));
    assert_eq!(line.content, LineContent::String(String::from("one")));
}

#[test]
fn search_respects_folds() {
    let mut folds = FoldSet::new();
    folds.insert((0, vec![1]));
    let cursor = Cursor::new(sample_roots()).expect("roots are not empty");
    // The numbers inside the folded array are never visited.
    assert!(cursor.search("20", &folds).is_none());
}

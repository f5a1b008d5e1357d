use jed::cursor::{Cursor, FocusPosition};
use jed::folds::FoldSet;
use jed::lines::{Line, LineContent};
use jed::value::Value;

fn num(text: &str) -> Value {
    Value::Number(String::from(text))
}

fn sample_roots() -> Vec<Value> {
    // [ {"a": 1, "b": [2, 3]} ]
    let inner = Value::Array(vec![num("2"), num("3")]);
    let object = Value::Object(vec![
        (String::from("a"), num("1")),
        (String::from("b"), inner),
    ]);
    vec![object]
}

fn collect_lines(roots: Vec<Value>, folds: &FoldSet) -> Vec<Line> {
    let mut cursor = Cursor::new(roots).expect("roots are not empty");
    let mut lines = vec![cursor.current_line(folds)];
    while cursor.advance(folds).is_some() {
        lines.push(cursor.current_line(folds));
    }
    lines
}

#[test]
fn scenario_forward_lines() {
    let folds = FoldSet::new();
    let lines = collect_lines(sample_roots(), &folds);
    assert_eq!(lines.len(), 7);
    assert_eq!(lines[0].content, LineContent::ObjectStart(2));
    assert_eq!(lines[0].key, None);
    assert_eq!(lines[0].indent, 0);
    assert_eq!(lines[1].content, LineContent::Number(String::from("1")));
    assert_eq!(lines[1].key, Some(String::from("a")));
    assert!(lines[1].comma);
    assert_eq!(lines[1].indent, 1);
    assert_eq!(lines[2].content, LineContent::ArrayStart(2));
    assert_eq!(lines[2].key, Some(String::from("b")));
    assert!(!lines[2].comma);
    assert_eq!(lines[3].content, LineContent::Number(String::from("2")));
    assert_eq!(lines[3].key, None);
    assert!(lines[3].comma);
    assert_eq!(lines[3].indent, 2);
    assert_eq!(lines[4].content, LineContent::Number(String::from("3")));
    assert!(!lines[4].comma);
    assert_eq!(lines[5].content, LineContent::ArrayEnd(2));
    assert_eq!(lines[5].key, None);
    assert!(!lines[5].comma);
    assert_eq!(lines[5].indent, 1);
    assert_eq!(lines[6].content, LineContent::ObjectEnd(2));
    assert_eq!(lines[6].indent, 0);
}

#[test]
fn scenario_folded_lines() {
    let mut folds = FoldSet::new();
    // Fold the array under key "b": root 0, child index 1.
    folds.insert((0, vec![1]));
    let lines = collect_lines(sample_roots(), &folds);
    assert_eq!(lines.len(), 5);
    assert_eq!(lines[0].content, LineContent::ObjectStart(2));
    assert_eq!(lines[1].content, LineContent::Number(String::from("1")));
    assert_eq!(lines[2].content, LineContent::ArrayStart(2));
    assert!(lines[2].folded);
    assert_eq!(lines[3].content, LineContent::ArrayEnd(2));
    assert_eq!(lines[4].content, LineContent::ObjectEnd(2));
}

#[test]
fn fold_skip_lands_on_end() {
    let mut folds = FoldSet::new();
    folds.insert((0, vec![1]));
    let empty = FoldSet::new();
    let mut cursor = Cursor::new(sample_roots()).expect("roots are not empty");
    // Step to the array's opening line: object start, "a", array start.
    cursor.advance(&empty).unwrap();
    cursor.advance(&empty).unwrap();
    assert_eq!(cursor.to_path().focus_position, FocusPosition::Start);
    assert_eq!(cursor.to_path().frames, vec![1]);
    // One folded step lands exactly on the array's closing line.
    cursor.advance(&folds).unwrap();
    let path = cursor.to_path();
    assert_eq!(path.frames, vec![1]);
    assert_eq!(path.focus_position, FocusPosition::End);
}

#[test]
fn boundary_steps_fail_and_change_nothing() {
    let folds = FoldSet::new();
    let mut first = Cursor::new(sample_roots()).expect("roots are not empty");
    let before = first.duplicate();
    assert!(first.regress(&folds).is_none());
    assert_eq!(first, before);

    let mut last = Cursor::new_end(sample_roots()).expect("roots are not empty");
    let before_end = last.duplicate();
    assert!(last.advance(&folds).is_none());
    assert_eq!(last, before_end);
}

#[test]
fn new_on_empty_roots_fails() {
    assert!(Cursor::new(Vec::new()).is_none());
    assert!(Cursor::new_end(Vec::new()).is_none());
}

#[test]
fn path_roundtrip_at_every_position() {
    let folds = FoldSet::new();
    let mut cursor = Cursor::new(sample_roots()).expect("roots are not empty");
    loop {
        let path = cursor.to_path();
        let rebuilt = Cursor::from_path(sample_roots(), &path);
        assert_eq!(rebuilt, cursor);
        assert_eq!(rebuilt.to_path(), path);
        if cursor.advance(&folds).is_none() {
            break;
        }
    }
}

#[test]
fn advance_then_regress_at_every_position() {
    let folds = FoldSet::new();
    let mut cursor = Cursor::new(sample_roots()).expect("roots are not empty");
    loop {
        let mut probe = cursor.duplicate();
        if probe.advance(&folds).is_none() {
            break;
        }
        probe.regress(&folds).unwrap();
        assert_eq!(probe, cursor);
        cursor.advance(&folds).unwrap();
    }
}

#[test]
fn regress_then_advance_at_every_position() {
    let folds = FoldSet::new();
    let mut cursor = Cursor::new_end(sample_roots()).expect("roots are not empty");
    loop {
        let mut probe = cursor.duplicate();
        if probe.regress(&folds).is_none() {
            break;
        }
        probe.advance(&folds).unwrap();
        assert_eq!(probe, cursor);
        cursor.regress(&folds).unwrap();
    }
}

#[test]
fn advance_is_strictly_monotone() {
    let folds = FoldSet::new();
    let mut cursor = Cursor::new(sample_roots()).expect("roots are not empty");
    let mut prior = cursor.to_path();
    while cursor.advance(&folds).is_some() {
        let next = cursor.to_path();
        assert!(prior.lt(&next));
        assert!(!next.lt(&prior));
        assert!(prior.le(&next));
        prior = next;
    }
}

#[test]
fn multiple_roots_traverse_in_order() {
    let folds = FoldSet::new();
    let roots = vec![num("1"), Value::Array(vec![]), Value::Null];
    let lines = collect_lines(roots, &folds);
    assert_eq!(lines.len(), 4);
    assert_eq!(lines[0].content, LineContent::Number(String::from("1")));
    assert_eq!(lines[1].content, LineContent::ArrayStart(0));
    assert_eq!(lines[2].content, LineContent::ArrayEnd(0));
    assert_eq!(lines[3].content, LineContent::Null);
    // Top-level values never carry commas.
    assert!(lines.iter().all(|l| !l.comma));
}

#[test]
fn lines_from_respects_the_limit() {
    let folds = FoldSet::new();
    let cursor = Cursor::new(sample_roots()).expect("roots are not empty");
    let lines = cursor.lines_from(&folds, 3);
    assert_eq!(lines.len(), 3);
    assert_eq!(lines[0].content, LineContent::ObjectStart(2));
    assert_eq!(lines[2].content, LineContent::ArrayStart(2));
    let rest = Cursor::new(sample_roots()).unwrap().lines_from(&folds, 100);
    assert_eq!(rest.len(), 7);
    let none = Cursor::new(sample_roots()).unwrap().lines_from(&folds, 0);
    assert!(none.is_empty());
}

#[test]
fn strip_position_drops_only_the_sub_position() {
    let folds = FoldSet::new();
    let mut cursor = Cursor::new(sample_roots()).expect("roots are not empty");
    cursor.advance(&folds).unwrap();
    cursor.advance(&folds).unwrap();
    let path = cursor.to_path();
    let (top, frames) = path.strip_position();
    assert_eq!(top, 0);
    assert_eq!(frames, vec![1]);
}

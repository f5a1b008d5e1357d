use jed::cursor::{Cursor, FocusPosition, Path};
use jed::focus::Focus;
use jed::folds::FoldSet;
use jed::value::{value_eq, Value};

fn tree() -> Value {
    Value::Object(vec![
        (String::from("k"), Value::Array(vec![Value::Bool(false), Value::Null])),
        (String::from("s"), Value::String(String::from("text"))),
    ])
}

#[test]
fn duplicate_is_structurally_equal() {
    let original = tree();
    let copy = original.duplicate();
    assert!(value_eq(&original, &copy));
}

#[test]
fn value_eq_distinguishes_values() {
    assert!(value_eq(&Value::Null, &Value::Null));
    assert!(!value_eq(&Value::Null, &Value::Bool(false)));
    assert!(!value_eq(
        &Value::Array(vec![Value::Null]),
        &Value::Array(vec![Value::Null, Value::Null]),
    ));
    assert!(!value_eq(
        &Value::Object(vec![(String::from("a"), Value::Null)]),
        &Value::Object(vec![(String::from("b"), Value::Null)]),
    ));
    assert!(value_eq(&tree(), &tree()));
}

#[test]
fn fold_set_insert_contains_remove() {
    let mut folds = FoldSet::new();
    let key = (0usize, vec![1usize, 2usize]);
    assert!(!folds.contains(&key));
    folds.insert((0, vec![1, 2]));
    assert!(folds.contains(&key));
    // Inserting a member changes nothing.
    folds.insert((0, vec![1, 2]));
    assert!(folds.contains(&key));
    // A different key is not a member.
    assert!(!folds.contains(&(0, vec![1])));
    assert!(!folds.contains(&(1, vec![1, 2])));
    folds.remove(&key);
    assert!(!folds.contains(&key));
    // Removing a non-member changes nothing.
    folds.remove(&key);
    assert!(!folds.contains(&key));
}

#[test]
fn path_ordering_breaks_ties_by_sub_position() {
    let folds = FoldSet::new();
    let roots = vec![tree()];
    let mut cursor = Cursor::new(roots).expect("roots are not empty");
    let opening = cursor.to_path();
    let mut paths: Vec<Path> = vec![opening.clone()];
    while cursor.advance(&folds).is_some() {
        paths.push(cursor.to_path());
    }
    let closing = paths.last().unwrap();
    // The object's opening line sorts before everything within, and its
    // closing line after.
    for middle in &paths[1..paths.len() - 1] {
        assert!(opening.lt(middle));
        assert!(middle.lt(closing));
    }
    assert!(opening.lt(closing));
    assert!(!closing.lt(&opening));
    assert!(opening.le(&opening));
    assert!(opening == opening.clone());
}

#[test]
fn deep_fold_skips_the_whole_interior() {
    // [[[null, null]]], folding the innermost array at depth two.
    let deep = Value::Array(vec![Value::Array(vec![Value::Array(vec![
        Value::Null,
        Value::Null,
    ])])]);
    let mut folds = FoldSet::new();
    folds.insert((0, vec![0, 0]));
    let mut cursor = Cursor::new(vec![deep]).expect("roots are not empty");
    cursor.advance(&folds).unwrap();
    cursor.advance(&folds).unwrap();
    // Now at the innermost array's opening line.
    let at = cursor.to_path();
    assert_eq!(at.frames, vec![0, 0]);
    cursor.advance(&folds).unwrap();
    let after = cursor.to_path();
    assert_eq!(after.frames, vec![0, 0]);
    assert_eq!(after.focus_position, FocusPosition::End);
}

#[test]
fn equal_keys_are_told_apart_by_position() {
    let folds = FoldSet::new();
    let object = Value::Object(vec![
        (String::from("k"), Value::Bool(true)),
        (String::from("k"), Value::Bool(false)),
    ]);
    let mut cursor = Cursor::new(vec![object]).expect("roots are not empty");
    cursor.advance(&folds).unwrap();
    let first = cursor.to_path();
    cursor.advance(&folds).unwrap();
    let second = cursor.to_path();
    assert_eq!(first.frames, vec![0]);
    assert_eq!(second.frames, vec![1]);
    assert!(first != second);
    assert!(first.lt(&second));
}

#[test]
fn empty_object_shows_its_two_brackets() {
    let folds = FoldSet::new();
    let mut cursor = Cursor::new(vec![Value::Object(vec![])]).expect("roots are not empty");
    assert_eq!(cursor.to_path().focus_position, FocusPosition::Start);
    cursor.advance(&folds).unwrap();
    assert_eq!(cursor.to_path().focus_position, FocusPosition::End);
    assert!(cursor.to_path().frames.is_empty());
    let mut probe = cursor.duplicate();
    assert!(probe.advance(&folds).is_none());
}

#[test]
fn focus_swap_toggles_the_pane() {
    assert_eq!(Focus::Left.swap(), Focus::Right);
    assert_eq!(Focus::Right.swap(), Focus::Left);
    assert_eq!(Focus::Left.swap().swap(), Focus::Left);
}

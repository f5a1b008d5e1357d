//! Text search over the rendered lines: step forward (or backward) from the
//! current position, one line at a time, and stop on the first line whose
//! textual form matches the pattern. The match itself is regular-expression
//! matching, relied upon from the regex crate; everything around it is
//! verified.

use vstd::prelude::*;

use crate::cursor::Cursor;
use crate::folds::FoldSet;
use crate::linear::{
    index_of, lemma_advance_index, lemma_index_bounds, lemma_regress_index, total_lines,
};
use crate::lines::{line_at, line_text};
use crate::model::{
    advance_spec, cursor_at, lemma_advance_wf, lemma_regress_wf, regress_spec, wf_pos, PathView,
};
use crate::value::JsonView;

verus! {

/// Whether a pattern is a valid regular expression, as regex::Regex::new
/// decides it. A function of the pattern alone.
pub uninterp spec fn regex_compiles(pattern: Seq<char>) -> bool;

/// Whether a valid pattern matches a text, as regex::Regex::is_match decides
/// it. A function of the pattern and the text alone.
pub uninterp spec fn regex_match(pattern: Seq<char>, text: Seq<char>) -> bool;

/// Relies on regex::Regex::new and regex::Regex::is_match: whether the
/// pattern compiles, and whether it then matches the text, depend on the
/// pattern and the text alone. `None` exactly when the pattern does not
/// compile.
#[verifier::external_body]
fn pattern_matches(pattern: &str, text: &str) -> (r: Option<bool>)
    ensures
        r is Some <==> regex_compiles(pattern@),
        r matches Some(b) ==> b == regex_match(pattern@, text@),
{
    match regex::Regex::new(pattern) {
        Ok(re) => Some(re.is_match(text)),
        Err(_) => None,
    }
}

/// The first position strictly after `p` whose line text matches `pattern`,
/// or `None` when the rendering is exhausted without a match.
pub open spec fn search_from(
    roots: Seq<JsonView>,
    folds: Set<(int, Seq<int>)>,
    pattern: Seq<char>,
    p: PathView,
) -> Option<PathView>
    decreases total_lines(roots) - index_of(roots, p),
        when wf_pos(roots, p)
        via search_from_decreases
{
    match advance_spec(roots, folds, p) {
        None => None,
        Some(q) => if regex_match(pattern, line_text(line_at(roots, folds, q))) {
            Some(q)
        } else {
            search_from(roots, folds, pattern, q)
        },
    }
}

#[via_fn]
proof fn search_from_decreases(
    roots: Seq<JsonView>,
    folds: Set<(int, Seq<int>)>,
    pattern: Seq<char>,
    p: PathView,
) {
    match advance_spec(roots, folds, p) {
        None => {},
        Some(q) => {
            lemma_advance_wf(roots, folds, p, q);
            lemma_advance_index(roots, folds, p, q);
            lemma_index_bounds(roots, q);
        },
    }
}

/// The first position strictly before `p` whose line text matches `pattern`,
/// or `None` when the rendering is exhausted without a match.
pub open spec fn search_back_from(
    roots: Seq<JsonView>,
    folds: Set<(int, Seq<int>)>,
    pattern: Seq<char>,
    p: PathView,
) -> Option<PathView>
    decreases index_of(roots, p),
        when wf_pos(roots, p)
        via search_back_from_decreases
{
    match regress_spec(roots, folds, p) {
        None => None,
        Some(q) => if regex_match(pattern, line_text(line_at(roots, folds, q))) {
            Some(q)
        } else {
            search_back_from(roots, folds, pattern, q)
        },
    }
}

#[via_fn]
proof fn search_back_from_decreases(
    roots: Seq<JsonView>,
    folds: Set<(int, Seq<int>)>,
    pattern: Seq<char>,
    p: PathView,
) {
    match regress_spec(roots, folds, p) {
        None => {},
        Some(q) => {
            lemma_regress_wf(roots, folds, p, q);
            lemma_regress_index(roots, folds, p, q);
            lemma_index_bounds(roots, q);
        },
    }
}

impl Cursor {
    /// Search forward: step line by line from (but not including) the current
    /// position and return the cursor at the first line whose text matches
    /// `pattern`. `None` when nothing past the current position matches, or
    /// when the pattern is not a valid regular expression.
    #[verifier::loop_isolation(false)]
    pub fn search(self, pattern: &str, folds: &FoldSet) -> (r: Option<Cursor>)
        requires
            self.wf(),
        ensures
            !regex_compiles(pattern@) ==> r is None,
            regex_compiles(pattern@) ==> match search_from(
                self@.jsons,
                folds@,
                pattern@,
                self@.path_of(),
            ) {
                Some(q) => {
                    &&& r matches Some(c)
                    &&& c.wf()
                    &&& c@ == cursor_at(self@.jsons, q)
                },
                None => r is None,
            },
    {
        let ghost roots = self@.jsons;
        let mut cursor = self;
        loop
            invariant
                cursor.wf(),
                cursor@.jsons == roots,
                search_from(roots, folds@, pattern@, cursor@.path_of()) == search_from(
                    roots,
                    folds@,
                    pattern@,
                    self@.path_of(),
                ),
            decreases total_lines(roots) - index_of(roots, cursor@.path_of()),
        {
            let ghost before = cursor@.path_of();
            let stepped = cursor.advance(folds);
            if stepped.is_none() {
                return None;
            }
            proof {
                let q = advance_spec(roots, folds@, before)->Some_0;
                lemma_advance_wf(roots, folds@, before, q);
                lemma_advance_index(roots, folds@, before, q);
                lemma_index_bounds(roots, q);
                crate::model::lemma_cursor_at_wf(roots, q);
            }
            let line = cursor.current_line(folds);
            let text = line.to_text();
            match pattern_matches(pattern, text.as_str()) {
                None => {
                    return None;
                },
                Some(true) => {
                    return Some(cursor);
                },
                Some(false) => {},
            }
        }
    }

    /// Search backward: the mirror of [`Cursor::search`].
    #[verifier::loop_isolation(false)]
    pub fn search_back(self, pattern: &str, folds: &FoldSet) -> (r: Option<Cursor>)
        requires
            self.wf(),
        ensures
            !regex_compiles(pattern@) ==> r is None,
            regex_compiles(pattern@) ==> match search_back_from(
                self@.jsons,
                folds@,
                pattern@,
                self@.path_of(),
            ) {
                Some(q) => {
                    &&& r matches Some(c)
                    &&& c.wf()
                    &&& c@ == cursor_at(self@.jsons, q)
                },
                None => r is None,
            },
    {
        let ghost roots = self@.jsons;
        let mut cursor = self;
        loop
            invariant
                cursor.wf(),
                cursor@.jsons == roots,
                search_back_from(roots, folds@, pattern@, cursor@.path_of()) == search_back_from(
                    roots,
                    folds@,
                    pattern@,
                    self@.path_of(),
                ),
            decreases index_of(roots, cursor@.path_of()),
        {
            let ghost before = cursor@.path_of();
            let stepped = cursor.regress(folds);
            if stepped.is_none() {
                return None;
            }
            proof {
                let q = regress_spec(roots, folds@, before)->Some_0;
                lemma_regress_wf(roots, folds@, before, q);
                lemma_regress_index(roots, folds@, before, q);
                lemma_index_bounds(roots, q);
                crate::model::lemma_cursor_at_wf(roots, q);
            }
            let line = cursor.current_line(folds);
            let text = line.to_text();
            match pattern_matches(pattern, text.as_str()) {
                None => {
                    return None;
                },
                Some(true) => {
                    return Some(cursor);
                },
                Some(false) => {},
            }
        }
    }
}

} // verus!

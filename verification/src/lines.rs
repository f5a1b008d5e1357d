//! Rendered-line descriptors: what one line of the linearized rendering
//! holds, and its textual projection used by search.

use vstd::prelude::*;

use vstd::string::StringExecFns;

use crate::cursor::FocusPosition;
use crate::value::JsonView;

verus! {

/// The content tag of one rendered line. Container tags carry a child-count
/// hint.
#[derive(Debug)]
pub enum LineContent {
    Null,
    Bool(bool),
    /// A number, carried as its rendered text.
    Number(String),
    String(String),
    ArrayStart(usize),
    ArrayEnd(usize),
    ObjectStart(usize),
    ObjectEnd(usize),
}

/// The mathematical model of a [`LineContent`].
pub ghost enum ContentView {
    Null,
    Bool(bool),
    Number(Seq<char>),
    String(Seq<char>),
    ArrayStart(int),
    ArrayEnd(int),
    ObjectStart(int),
    ObjectEnd(int),
}

impl View for LineContent {
    type V = ContentView;

    open spec fn view(&self) -> ContentView {
        match self {
            LineContent::Null => ContentView::Null,
            LineContent::Bool(b) => ContentView::Bool(*b),
            LineContent::Number(s) => ContentView::Number(s@),
            LineContent::String(s) => ContentView::String(s@),
            LineContent::ArrayStart(n) => ContentView::ArrayStart(*n as int),
            LineContent::ArrayEnd(n) => ContentView::ArrayEnd(*n as int),
            LineContent::ObjectStart(n) => ContentView::ObjectStart(*n as int),
            LineContent::ObjectEnd(n) => ContentView::ObjectEnd(*n as int),
        }
    }
}

/// One rendered line: its content, the key of the focused child when the
/// immediate parent is an object (absent on closing lines), whether the
/// current container is folded, whether a trailing comma follows, and the
/// indent depth.
#[derive(Debug)]
pub struct Line {
    pub content: LineContent,
    pub key: Option<String>,
    pub folded: bool,
    pub comma: bool,
    pub indent: usize,
}

/// The mathematical model of a [`Line`].
pub ghost struct LineView {
    pub content: ContentView,
    pub key: Option<Seq<char>>,
    pub folded: bool,
    pub comma: bool,
    pub indent: int,
}

impl View for Line {
    type V = LineView;

    open spec fn view(&self) -> LineView {
        LineView {
            content: self.content@,
            key: match &self.key {
                Some(k) => Some(k@),
                None => None,
            },
            folded: self.folded,
            comma: self.comma,
            indent: self.indent as int,
        }
    }
}

/// The content of the line that the node `j` shows at sub-position `sub`.
pub open spec fn content_of(j: JsonView, sub: FocusPosition) -> ContentView {
    match j {
        JsonView::Null => ContentView::Null,
        JsonView::Bool(b) => ContentView::Bool(b),
        JsonView::Number(s) => ContentView::Number(s),
        JsonView::String(s) => ContentView::String(s),
        JsonView::Array(cs) => if sub == FocusPosition::Start {
            ContentView::ArrayStart(cs.len() as int)
        } else {
            ContentView::ArrayEnd(cs.len() as int)
        },
        JsonView::Object(es) => if sub == FocusPosition::Start {
            ContentView::ObjectStart(es.len() as int)
        } else {
            ContentView::ObjectEnd(es.len() as int)
        },
    }
}

/// The line shown for the position `(inds, sub)` inside the subtree `j`,
/// rendered in an outer context: `key0` is the key `j` itself is reached
/// under, `depth0` the indent of `j`'s own lines, and `comma0` whether a
/// sibling follows `j`. Closing lines show no key; opening lines never carry
/// a comma.
pub open spec fn line_pos(
    j: JsonView,
    inds: Seq<int>,
    sub: FocusPosition,
    key0: Option<Seq<char>>,
    depth0: int,
    comma0: bool,
) -> LineView
    decreases inds.len(),
{
    if inds.len() == 0 {
        LineView {
            content: content_of(j, sub),
            key: if sub == FocusPosition::End {
                None
            } else {
                key0
            },
            folded: false,
            comma: if sub == FocusPosition::Start {
                false
            } else {
                comma0
            },
            indent: depth0,
        }
    } else {
        let i = inds[0];
        line_pos(
            j.child(i),
            inds.drop_first(),
            sub,
            j.key(i),
            depth0 + 1,
            i + 1 < j.child_count(),
        )
    }
}

/// The line shown at position `p` over `roots`, given the fold set: the
/// context-free rendering of [`line_pos`] with the folded flag looked up.
pub open spec fn line_at(
    roots: Seq<JsonView>,
    folds: Set<(int, Seq<int>)>,
    p: crate::model::PathView,
) -> LineView {
    let l = line_pos(roots[p.top], p.inds, p.sub, None, 0, false);
    LineView {
        content: l.content,
        key: l.key,
        folded: folds.contains(p.fold_key()),
        comma: l.comma,
        indent: l.indent,
    }
}

/// Restated with the focus's parent in view: the line of a position with a
/// non-empty index sequence takes its key and comma from the last index into
/// the parent container, and its indent is the depth.
pub proof fn lemma_line_pos_parent(
    j: JsonView,
    inds: Seq<int>,
    sub: FocusPosition,
    key0: Option<Seq<char>>,
    depth0: int,
    comma0: bool,
)
    requires
        inds.len() > 0,
    ensures
        line_pos(j, inds, sub, key0, depth0, comma0) == {
            let parent = crate::model::node_at(j, inds.drop_last());
            let i = inds.last();
            LineView {
                content: content_of(crate::model::node_at(j, inds), sub),
                key: if sub == FocusPosition::End {
                    None
                } else {
                    parent.key(i)
                },
                folded: false,
                comma: if sub == FocusPosition::Start {
                    false
                } else {
                    i + 1 < parent.child_count()
                },
                indent: depth0 + inds.len(),
            }
        },
    decreases inds.len(),
{
    reveal_with_fuel(line_pos, 3);
    reveal_with_fuel(crate::model::node_at, 3);
    let i0 = inds[0];
    if inds.len() == 1 {
        assert(inds.drop_first() =~= Seq::<int>::empty());
        assert(inds.drop_last() =~= Seq::<int>::empty());
        assert(inds.last() == i0);
        assert(crate::model::node_at(j, inds.drop_last()) == j);
        assert(crate::model::node_at(j, inds) == crate::model::node_at(
            j.child(i0),
            inds.drop_first(),
        ));
    } else {
        lemma_line_pos_parent(
            j.child(i0),
            inds.drop_first(),
            sub,
            j.key(i0),
            depth0 + 1,
            i0 + 1 < j.child_count(),
        );
        assert(inds.drop_first().drop_last() =~= inds.drop_last().drop_first());
        assert(inds.drop_last()[0] == i0);
        assert(inds.drop_first().last() == inds.last());
        assert(crate::model::node_at(j, inds) == crate::model::node_at(
            j.child(i0),
            inds.drop_first(),
        ));
        assert(crate::model::node_at(j, inds.drop_last()) == crate::model::node_at(
            j.child(i0),
            inds.drop_first().drop_last(),
        ));
    }
}

/// The first `n` lines of the rendering from position `p` on, stopping early
/// when the rendering is exhausted.
pub open spec fn lines_from_spec(
    roots: Seq<JsonView>,
    folds: Set<(int, Seq<int>)>,
    p: crate::model::PathView,
    n: nat,
) -> Seq<LineView>
    decreases n,
{
    if n == 0 {
        Seq::empty()
    } else {
        seq![line_at(roots, folds, p)] + (match crate::model::advance_spec(roots, folds, p) {
            None => Seq::<LineView>::empty(),
            Some(q) => lines_from_spec(roots, folds, q, (n - 1) as nat),
        })
    }
}

/// The rest of the rendering after one step from `p`: empty on exhaustion.
pub open spec fn lines_cont(
    roots: Seq<JsonView>,
    folds: Set<(int, Seq<int>)>,
    p: crate::model::PathView,
    n: nat,
) -> Seq<LineView> {
    match crate::model::advance_spec(roots, folds, p) {
        None => Seq::<LineView>::empty(),
        Some(q) => lines_from_spec(roots, folds, q, n),
    }
}

/// One unfolding of [`lines_from_spec`]: the line at `p`, then the rest.
pub proof fn lines_step(
    roots: Seq<JsonView>,
    folds: Set<(int, Seq<int>)>,
    p: crate::model::PathView,
    n: nat,
)
    requires
        n > 0,
    ensures
        lines_from_spec(roots, folds, p, n) == seq![line_at(roots, folds, p)] + lines_cont(
            roots,
            folds,
            p,
            (n - 1) as nat,
        ),
{
}

/// A context-free line never carries the folded flag; only [`line_at`] sets
/// it, from the fold set.
pub proof fn lemma_line_pos_folded(
    j: JsonView,
    inds: Seq<int>,
    sub: FocusPosition,
    key0: Option<Seq<char>>,
    depth0: int,
    comma0: bool,
)
    ensures
        line_pos(j, inds, sub, key0, depth0, comma0).folded == false,
    decreases inds.len(),
{
    if inds.len() > 0 {
        lemma_line_pos_folded(
            j.child(inds[0]),
            inds.drop_first(),
            sub,
            j.key(inds[0]),
            depth0 + 1,
            inds[0] + 1 < j.child_count(),
        );
    }
}

impl Line {
    /// The textual projection of this line, as searched by pattern matching:
    /// the quoted key (when present), the content, and the trailing comma.
    /// Indentation is not part of the text.
    pub fn to_text(&self) -> (r: String)
        ensures
            r@ == line_text(self@),
    {
        let mut out = String::new();
        match &self.key {
            Some(k) => {
                out.append("\"");
                out.append(k.as_str());
                out.append("\": ");
            },
            None => {},
        }
        match &self.content {
            LineContent::Null => out.append("null"),
            LineContent::Bool(b) => {
                if *b {
                    out.append("true")
                } else {
                    out.append("false")
                }
            },
            LineContent::Number(s) => out.append(s.as_str()),
            LineContent::String(s) => {
                out.append("\"");
                out.append(s.as_str());
                out.append("\"");
            },
            LineContent::ArrayStart(_) => out.append("["),
            LineContent::ArrayEnd(_) => out.append("]"),
            LineContent::ObjectStart(_) => out.append("{"),
            LineContent::ObjectEnd(_) => out.append("}"),
        }
        if self.comma {
            out.append(",");
        }
        assert(out@ =~= line_text(self@));
        out
    }
}

/// The textual projection of a line.
pub open spec fn line_text(l: LineView) -> Seq<char> {
    let key_part = match l.key {
        Some(k) => "\""@ + k + "\": "@,
        None => Seq::<char>::empty(),
    };
    let content_part = match l.content {
        ContentView::Null => "null"@,
        ContentView::Bool(b) => if b {
            "true"@
        } else {
            "false"@
        },
        ContentView::Number(s) => s,
        ContentView::String(s) => "\""@ + s + "\""@,
        ContentView::ArrayStart(_) => "["@,
        ContentView::ArrayEnd(_) => "]"@,
        ContentView::ObjectStart(_) => "{"@,
        ContentView::ObjectEnd(_) => "}"@,
    };
    let comma_part = if l.comma {
        ","@
    } else {
        Seq::<char>::empty()
    };
    key_part + content_part + comma_part
}

impl PartialEq for LineContent {
    fn eq(&self, other: &Self) -> (r: bool) {
        match (self, other) {
            (LineContent::Null, LineContent::Null) => true,
            (LineContent::Bool(a), LineContent::Bool(b)) => *a == *b,
            (LineContent::Number(a), LineContent::Number(b)) => *a == *b,
            (LineContent::String(a), LineContent::String(b)) => *a == *b,
            (LineContent::ArrayStart(a), LineContent::ArrayStart(b)) => *a == *b,
            (LineContent::ArrayEnd(a), LineContent::ArrayEnd(b)) => *a == *b,
            (LineContent::ObjectStart(a), LineContent::ObjectStart(b)) => *a == *b,
            (LineContent::ObjectEnd(a), LineContent::ObjectEnd(b)) => *a == *b,
            _ => false,
        }
    }
}

impl vstd::std_specs::cmp::PartialEqSpecImpl for LineContent {
    open spec fn obeys_eq_spec() -> bool {
        true
    }

    open spec fn eq_spec(&self, other: &Self) -> bool {
        self@ == other@
    }
}

impl PartialEq for Line {
    fn eq(&self, other: &Self) -> (r: bool) {
        let key_eq = match (&self.key, &other.key) {
            (None, None) => true,
            (Some(a), Some(b)) => *a == *b,
            _ => false,
        };
        key_eq && self.content == other.content && self.folded == other.folded
            && self.comma == other.comma && self.indent == other.indent
    }
}

impl vstd::std_specs::cmp::PartialEqSpecImpl for Line {
    open spec fn obeys_eq_spec() -> bool {
        true
    }

    open spec fn eq_spec(&self, other: &Self) -> bool {
        self@ == other@
    }
}

} // verus!

//! The zipper: a focus point inside a sequence of root values, with the
//! ancestor stack needed to step the focus one rendered line at a time.

use vstd::prelude::*;

use crate::folds::{key_view, FoldSet};
use crate::lines::{line_at, lines_cont, lines_step, Line, LineContent};
use crate::model::{
    advance_spec, cursor_at, ending_sub, first_pos, frames_of, last_pos, lemma_advance_wf,
    lemma_cursor_at_wf, lemma_frames_of, lemma_node_at_push, lemma_regress_wf,
    lemma_valid_inds_push, lemma_valid_take, lemma_wf_parent, mk_frame, node_at, regress_spec,
    starting_sub, wf_cursor, wf_pos, CursorView, PathView,
};
use crate::value::{lemma_view_entries, lemma_view_seq, JsonView, Value};

verus! {

/// Which of a value's rendered lines the focus denotes: a container's opening
/// line (`Start`), its closing line (`End`), or a scalar's single line
/// (`Value`).
#[derive(Clone, Copy, PartialEq, Eq, Structural, Debug, Hash)]
pub enum FocusPosition {
    Start,
    Value,
    End,
}

impl FocusPosition {
    /// The sub-position of `json`'s first rendered line.
    pub fn starting(json: &Value) -> (r: Self)
        ensures
            r == crate::model::starting_sub(json@),
    {
        if json.is_container() {
            FocusPosition::Start
        } else {
            FocusPosition::Value
        }
    }

    /// The sub-position of `json`'s last rendered line.
    pub fn ending(json: &Value) -> (r: Self)
        ensures
            r == crate::model::ending_sub(json@),
    {
        if json.is_container() {
            FocusPosition::End
        } else {
            FocusPosition::Value
        }
    }
}

/// One entry of the zipper's ancestor stack: an open container together with
/// the index of the child the focus currently lives under. Object frames also
/// record that child's key.
#[derive(Debug)]
pub enum CursorFrame {
    Array { index: usize, json: Value },
    Object { index: usize, key: String, json: Value },
}

/// The mathematical model of a [`CursorFrame`].
pub ghost enum FrameView {
    Array { index: int, json: JsonView },
    Object { index: int, key: Seq<char>, json: JsonView },
}

impl View for CursorFrame {
    type V = FrameView;

    open spec fn view(&self) -> FrameView {
        match self {
            CursorFrame::Array { index, json } => FrameView::Array {
                index: *index as int,
                json: json@,
            },
            CursorFrame::Object { index, key, json } => FrameView::Object {
                index: *index as int,
                key: key@,
                json: json@,
            },
        }
    }
}

impl FrameView {
    /// The index of the child the focus lives under.
    pub open spec fn index(self) -> int {
        match self {
            FrameView::Array { index, .. } => index,
            FrameView::Object { index, .. } => index,
        }
    }

    /// The container this frame keeps open.
    pub open spec fn container(self) -> JsonView {
        match self {
            FrameView::Array { json, .. } => json,
            FrameView::Object { json, .. } => json,
        }
    }
}

impl CursorFrame {
    /// The index of the currently focused child within this frame.
    pub fn index(&self) -> (r: usize)
        ensures
            r as int == self@.index(),
    {
        match self {
            CursorFrame::Array { index, .. } => *index,
            CursorFrame::Object { index, .. } => *index,
        }
    }
}

impl PartialEq for CursorFrame {
    fn eq(&self, other: &Self) -> (r: bool) {
        match (self, other) {
            (
                CursorFrame::Array { index, json },
                CursorFrame::Array { index: other_index, json: other_json },
            ) => *index == *other_index && crate::value::value_eq(json, other_json),
            (
                CursorFrame::Object { index, key, json },
                CursorFrame::Object { index: other_index, key: other_key, json: other_json },
            ) => *index == *other_index && *key == *other_key && crate::value::value_eq(
                json,
                other_json,
            ),
            _ => false,
        }
    }
}

impl vstd::std_specs::cmp::PartialEqSpecImpl for CursorFrame {
    open spec fn obeys_eq_spec() -> bool {
        true
    }

    open spec fn eq_spec(&self, other: &Self) -> bool {
        self@ == other@
    }
}

/// A well-formed frame: the container really is a container, the index
/// denotes one of its children, and an object frame's key is that child's.
pub open spec fn frame_wf(f: FrameView) -> bool {
    &&& f.container().is_container()
    &&& 0 <= f.index() < f.container().child_count()
    &&& f == mk_frame(f.container(), f.index())
}

/// Open a container: descend to its first child, or, if it is empty, move to
/// its own closing line.
fn open_container(json: &Value) -> (r: (Option<CursorFrame>, Value, FocusPosition))
    requires
        json@.is_container(),
    ensures
        json@.child_count() == 0 ==> {
            &&& r.0 is None
            &&& r.1@ == json@
            &&& r.2 == FocusPosition::End
        },
        json@.child_count() > 0 ==> {
            &&& r.0 matches Some(f) && f@ == mk_frame(json@, 0)
            &&& r.1@ == json@.child(0)
            &&& r.2 == starting_sub(json@.child(0))
        },
{
    match json {
        Value::Array(items) => {
            proof {
                lemma_view_seq(items@);
            }
            if items.len() == 0 {
                (None, json.duplicate(), FocusPosition::End)
            } else {
                let child = items[0].duplicate();
                let position = FocusPosition::starting(&child);
                (
                    Some(CursorFrame::Array { index: 0, json: json.duplicate() }),
                    child,
                    position,
                )
            }
        },
        Value::Object(entries) => {
            proof {
                lemma_view_entries(entries@);
            }
            if entries.len() == 0 {
                (None, json.duplicate(), FocusPosition::End)
            } else {
                let key = entries[0].0.clone();
                let child = entries[0].1.duplicate();
                let position = FocusPosition::starting(&child);
                (
                    Some(CursorFrame::Object { index: 0, key, json: json.duplicate() }),
                    child,
                    position,
                )
            }
        },
        _ => {
            proof {
                assert(false);
            }
            (None, json.duplicate(), FocusPosition::End)
        },
    }
}

/// Open a container from behind: ascend onto its last child, or, if it is
/// empty, move to its own opening line.
fn open_container_end(json: &Value) -> (r: (Option<CursorFrame>, Value, FocusPosition))
    requires
        json@.is_container(),
    ensures
        json@.child_count() == 0 ==> {
            &&& r.0 is None
            &&& r.1@ == json@
            &&& r.2 == FocusPosition::Start
        },
        json@.child_count() > 0 ==> {
            &&& r.0 matches Some(f) && f@ == mk_frame(json@, json@.child_count() - 1)
            &&& r.1@ == json@.child(json@.child_count() - 1)
            &&& r.2 == ending_sub(json@.child(json@.child_count() - 1))
        },
{
    match json {
        Value::Array(items) => {
            proof {
                lemma_view_seq(items@);
            }
            if items.len() == 0 {
                (None, json.duplicate(), FocusPosition::Start)
            } else {
                let index = items.len() - 1;
                let child = items[index].duplicate();
                let position = FocusPosition::ending(&child);
                (
                    Some(CursorFrame::Array { index, json: json.duplicate() }),
                    child,
                    position,
                )
            }
        },
        Value::Object(entries) => {
            proof {
                lemma_view_entries(entries@);
            }
            if entries.len() == 0 {
                (None, json.duplicate(), FocusPosition::Start)
            } else {
                let index = entries.len() - 1;
                let key = entries[index].0.clone();
                let child = entries[index].1.duplicate();
                let position = FocusPosition::ending(&child);
                (
                    Some(CursorFrame::Object { index, key, json: json.duplicate() }),
                    child,
                    position,
                )
            }
        },
        _ => {
            proof {
                assert(false);
            }
            (None, json.duplicate(), FocusPosition::Start)
        },
    }
}

impl CursorFrame {
    /// Step to the next sibling under this frame, or, when none follows,
    /// close the container: the focus returns to it at its closing line.
    fn advance(self) -> (r: (Option<CursorFrame>, Value, FocusPosition))
        requires
            frame_wf(self@),
        ensures
            self@.index() + 1 < self@.container().child_count() ==> {
                &&& r.0 matches Some(f) && f@ == mk_frame(self@.container(), self@.index() + 1)
                &&& r.1@ == self@.container().child(self@.index() + 1)
                &&& r.2 == starting_sub(self@.container().child(self@.index() + 1))
            },
            self@.index() + 1 == self@.container().child_count() ==> {
                &&& r.0 is None
                &&& r.1@ == self@.container()
                &&& r.2 == FocusPosition::End
            },
    {
        match self {
            CursorFrame::Array { index, json } => {
                let n = json.child_count();
                proof {
                    if json is Array {
                        lemma_view_seq(json->Array_0@);
                    }
                }
                if index + 1 < n {
                    let child = match &json {
                        Value::Array(items) => items[index + 1].duplicate(),
                        _ => {
                            proof {
                                assert(false);
                            }
                            Value::Null
                        },
                    };
                    let position = FocusPosition::starting(&child);
                    (Some(CursorFrame::Array { index: index + 1, json }), child, position)
                } else {
                    (None, json, FocusPosition::End)
                }
            },
            CursorFrame::Object { index, key: _, json } => {
                let n = json.child_count();
                proof {
                    if json is Object {
                        lemma_view_entries(json->Object_0@);
                    }
                }
                if index + 1 < n {
                    let (key, child) = match &json {
                        Value::Object(entries) => (
                            entries[index + 1].0.clone(),
                            entries[index + 1].1.duplicate(),
                        ),
                        _ => {
                            proof {
                                assert(false);
                            }
                            (String::new(), Value::Null)
                        },
                    };
                    let position = FocusPosition::starting(&child);
                    (
                        Some(CursorFrame::Object { index: index + 1, key, json }),
                        child,
                        position,
                    )
                } else {
                    (None, json, FocusPosition::End)
                }
            },
        }
    }

    /// Step to the previous sibling under this frame, or, when the focus was
    /// on the first child, re-open the container: the focus returns to it at
    /// its opening line.
    fn regress(self) -> (r: (Option<CursorFrame>, Value, FocusPosition))
        requires
            frame_wf(self@),
        ensures
            self@.index() > 0 ==> {
                &&& r.0 matches Some(f) && f@ == mk_frame(self@.container(), self@.index() - 1)
                &&& r.1@ == self@.container().child(self@.index() - 1)
                &&& r.2 == ending_sub(self@.container().child(self@.index() - 1))
            },
            self@.index() == 0 ==> {
                &&& r.0 is None
                &&& r.1@ == self@.container()
                &&& r.2 == FocusPosition::Start
            },
    {
        match self {
            CursorFrame::Array { index, json } => {
                proof {
                    if json is Array {
                        lemma_view_seq(json->Array_0@);
                    }
                }
                if index > 0 {
                    let child = match &json {
                        Value::Array(items) => items[index - 1].duplicate(),
                        _ => {
                            proof {
                                assert(false);
                            }
                            Value::Null
                        },
                    };
                    let position = FocusPosition::ending(&child);
                    (Some(CursorFrame::Array { index: index - 1, json }), child, position)
                } else {
                    (None, json, FocusPosition::Start)
                }
            },
            CursorFrame::Object { index, key: _, json } => {
                proof {
                    if json is Object {
                        lemma_view_entries(json->Object_0@);
                    }
                }
                if index > 0 {
                    let (key, child) = match &json {
                        Value::Object(entries) => (
                            entries[index - 1].0.clone(),
                            entries[index - 1].1.duplicate(),
                        ),
                        _ => {
                            proof {
                                assert(false);
                            }
                            (String::new(), Value::Null)
                        },
                    };
                    let position = FocusPosition::ending(&child);
                    (
                        Some(CursorFrame::Object { index: index - 1, key, json }),
                        child,
                        position,
                    )
                } else {
                    (None, json, FocusPosition::Start)
                }
            },
        }
    }
}

/// A dehydrated, owned snapshot of a cursor position: which root, the child
/// index at each ancestor level (shallow to deep), and the sub-position.
#[derive(Debug, Clone, Hash)]
pub struct Path {
    pub top_index: usize,
    pub frames: Vec<usize>,
    pub focus_position: FocusPosition,
}

impl View for Path {
    type V = PathView;

    open spec fn view(&self) -> PathView {
        PathView {
            top: self.top_index as int,
            inds: Seq::new(self.frames@.len(), |i: int| self.frames@[i] as int),
            sub: self.focus_position,
        }
    }
}

impl Path {
    /// The fold key of the position: the sub-position is stripped, since a
    /// fold applies to a container whether the cursor sits at its opening or
    /// closing line.
    pub fn strip_position(self) -> (r: (usize, Vec<usize>))
        ensures
            r.0 as int == self@.top,
            Seq::new(r.1@.len(), |i: int| r.1@[i] as int) == self@.inds,
    {
        let Path { top_index, frames, focus_position: _ } = self;
        (top_index, frames)
    }
}

impl PartialEq for Path {
    fn eq(&self, other: &Self) -> (r: bool) {
        if self.top_index != other.top_index {
            return false;
        }
        if self.focus_position != other.focus_position {
            return false;
        }
        if self.frames.len() != other.frames.len() {
            proof {
                assert(self@.inds.len() != other@.inds.len());
            }
            return false;
        }
        let mut i: usize = 0;
        while i < self.frames.len()
            invariant
                i <= self.frames@.len(),
                self.frames@.len() == other.frames@.len(),
                forall|j: int| 0 <= j < i ==> self.frames@[j] == other.frames@[j],
            decreases self.frames@.len() - i,
        {
            if self.frames[i] != other.frames[i] {
                proof {
                    assert(self@.inds[i as int] != other@.inds[i as int]);
                }
                return false;
            }
            i = i + 1;
        }
        proof {
            assert(self@.inds =~= other@.inds);
        }
        true
    }
}

impl vstd::std_specs::cmp::PartialEqSpecImpl for Path {
    open spec fn obeys_eq_spec() -> bool {
        true
    }

    open spec fn eq_spec(&self, other: &Self) -> bool {
        self@ == other@
    }
}

/// Elementwise structural equality of two root sequences.
fn values_eq(a: &Vec<Value>, b: &Vec<Value>) -> (r: bool)
    ensures
        r == (roots_view(a@) == roots_view(b@)),
{
    if a.len() != b.len() {
        proof {
            assert(roots_view(a@).len() != roots_view(b@).len());
        }
        return false;
    }
    let mut i: usize = 0;
    while i < a.len()
        invariant
            i <= a@.len(),
            a@.len() == b@.len(),
            forall|j: int| 0 <= j < i ==> a@[j]@ == b@[j]@,
        decreases a@.len() - i,
    {
        if !crate::value::value_eq(&a[i], &b[i]) {
            proof {
                assert(roots_view(a@)[i as int] != roots_view(b@)[i as int]);
            }
            return false;
        }
        i = i + 1;
    }
    proof {
        assert(roots_view(a@) =~= roots_view(b@));
    }
    true
}

/// Elementwise equality of two frame stacks.
fn frames_eq(a: &Vec<CursorFrame>, b: &Vec<CursorFrame>) -> (r: bool)
    ensures
        r == (Seq::new(a@.len(), |i: int| a@[i]@) == Seq::new(b@.len(), |i: int| b@[i]@)),
{
    if a.len() != b.len() {
        proof {
            assert(Seq::new(a@.len(), |i: int| a@[i]@).len() != Seq::new(
                b@.len(),
                |i: int| b@[i]@,
            ).len());
        }
        return false;
    }
    let mut i: usize = 0;
    while i < a.len()
        invariant
            i <= a@.len(),
            a@.len() == b@.len(),
            forall|j: int| 0 <= j < i ==> a@[j]@ == b@[j]@,
        decreases a@.len() - i,
    {
        if !(a[i] == b[i]) {
            proof {
                assert(Seq::new(a@.len(), |k: int| a@[k]@)[i as int] != Seq::new(
                    b@.len(),
                    |k: int| b@[k]@,
                )[i as int]);
            }
            return false;
        }
        i = i + 1;
    }
    proof {
        assert(Seq::new(a@.len(), |i: int| a@[i]@) =~= Seq::new(b@.len(), |i: int| b@[i]@));
    }
    true
}

/// The model of a root sequence.
pub open spec fn roots_view(v: Seq<Value>) -> Seq<JsonView> {
    Seq::new(v.len(), |i: int| v[i]@)
}

impl PartialEq for Cursor {
    fn eq(&self, other: &Self) -> (r: bool) {
        values_eq(&self.jsons, &other.jsons) && self.top_index == other.top_index && frames_eq(
            &self.frames,
            &other.frames,
        ) && crate::value::value_eq(&self.focus, &other.focus) && self.focus_position
            == other.focus_position
    }
}

impl vstd::std_specs::cmp::PartialEqSpecImpl for Cursor {
    open spec fn obeys_eq_spec() -> bool {
        true
    }

    open spec fn eq_spec(&self, other: &Self) -> bool {
        self@ == other@
    }
}

/// The zipper: the shared root values, the index of the root the focus lives
/// under, the stack of open ancestor containers, the focused value itself,
/// and which of its rendered lines the focus denotes.
#[derive(Debug)]
pub struct Cursor {
    pub jsons: Vec<Value>,
    pub top_index: usize,
    pub frames: Vec<CursorFrame>,
    pub focus: Value,
    pub focus_position: FocusPosition,
}

impl View for Cursor {
    type V = CursorView;

    open spec fn view(&self) -> CursorView {
        CursorView {
            jsons: roots_view(self.jsons@),
            top: self.top_index as int,
            frames: Seq::new(self.frames@.len(), |i: int| self.frames@[i]@),
            focus: self.focus@,
            sub: self.focus_position,
        }
    }
}

impl Cursor {
    /// A well-formed cursor: its frames and focus are exactly those derived
    /// from its position, and the position fits the roots.
    pub open spec fn wf(&self) -> bool {
        wf_cursor(self@)
    }

    /// The cursor at the first position of the first root, or `None` when
    /// there are no roots.
    pub fn new(jsons: Vec<Value>) -> (r: Option<Cursor>)
        ensures
            jsons@.len() == 0 <==> r is None,
            r matches Some(c) ==> {
                &&& c.wf()
                &&& c@ == cursor_at(roots_view(jsons@), first_pos(roots_view(jsons@)))
            },
    {
        if jsons.len() == 0 {
            return None;
        }
        let focus = jsons[0].duplicate();
        let focus_position = FocusPosition::starting(&focus);
        let c = Cursor { jsons, top_index: 0, frames: Vec::new(), focus, focus_position };
        proof {
            let roots = roots_view(c.jsons@);
            let p = first_pos(roots);
            assert(p.inds =~= Seq::<int>::empty());
            assert(c@.frames =~= frames_of(roots[0], p.inds));
            assert(c@ == cursor_at(roots, p));
            lemma_cursor_at_wf(roots, p);
        }
        Some(c)
    }

    /// The cursor at the last position of the last root, or `None` when there
    /// are no roots.
    pub fn new_end(jsons: Vec<Value>) -> (r: Option<Cursor>)
        ensures
            jsons@.len() == 0 <==> r is None,
            r matches Some(c) ==> {
                &&& c.wf()
                &&& c@ == cursor_at(roots_view(jsons@), last_pos(roots_view(jsons@)))
            },
    {
        if jsons.len() == 0 {
            return None;
        }
        let top_index = jsons.len() - 1;
        let focus = jsons[top_index].duplicate();
        let focus_position = FocusPosition::ending(&focus);
        let c = Cursor { jsons, top_index, frames: Vec::new(), focus, focus_position };
        proof {
            let roots = roots_view(c.jsons@);
            let p = last_pos(roots);
            assert(p.inds =~= Seq::<int>::empty());
            assert(c@.frames =~= frames_of(roots[p.top], p.inds));
            assert(c@ == cursor_at(roots, p));
            lemma_cursor_at_wf(roots, p);
        }
        Some(c)
    }

    /// Dehydrate: the owned snapshot of the current position.
    pub fn to_path(&self) -> (r: Path)
        ensures
            r@ == self@.path_of(),
    {
        let mut frames: Vec<usize> = Vec::new();
        let mut i: usize = 0;
        while i < self.frames.len()
            invariant
                i <= self.frames@.len(),
                frames@.len() == i,
                forall|j: int| 0 <= j < i ==> frames@[j] as int == self.frames@[j]@.index(),
            decreases self.frames@.len() - i,
        {
            let index = self.frames[i].index();
            frames.push(index);
            i = i + 1;
        }
        let r = Path { top_index: self.top_index, frames, focus_position: self.focus_position };
        proof {
            assert(r@.inds =~= self@.path_of().inds);
        }
        r
    }

    /// Rehydrate: rebuild the cursor over `jsons` that sits at `path`. The
    /// path must have been derived over roots of the same shape; an index
    /// with no corresponding child is a contract violation of the caller.
    #[verifier::loop_isolation(false)]
    pub fn from_path(jsons: Vec<Value>, path: &Path) -> (r: Cursor)
        requires
            wf_pos(roots_view(jsons@), path@),
        ensures
            r.wf(),
            r@ == cursor_at(roots_view(jsons@), path@),
    {
        let ghost roots = roots_view(jsons@);
        let ghost root = roots[path@.top];
        let top_index = path.top_index;
        let mut focus = jsons[top_index].duplicate();
        let mut frames: Vec<CursorFrame> = Vec::new();
        let mut k: usize = 0;
        proof {
            assert(path@.inds.take(0) =~= Seq::<int>::empty());
            assert(Seq::new(frames@.len(), |i: int| frames@[i]@) =~= frames_of(
                root,
                path@.inds.take(0),
            ));
        }
        while k < path.frames.len()
            invariant
                k <= path.frames@.len(),
                frames@.len() == k,
                Seq::new(frames@.len(), |i: int| frames@[i]@) == frames_of(
                    root,
                    path@.inds.take(k as int),
                ),
                focus@ == node_at(root, path@.inds.take(k as int)),
            decreases path.frames@.len() - k,
        {
            let ghost pre = path@.inds.take(k as int);
            let idx = path.frames[k];
            proof {
                lemma_valid_take(root, path@.inds, k as int + 1);
                assert(path@.inds.take(k as int + 1) =~= pre.push(idx as int));
                lemma_valid_inds_push(root, pre, idx as int);
                lemma_node_at_push(root, pre, idx as int);
                assert(focus@.is_container());
                assert(0 <= (idx as int) && (idx as int) < focus@.child_count());
            }
            let current = focus;
            match current {
                Value::Array(items) => {
                    proof {
                        lemma_view_seq(items@);
                    }
                    let child = items[idx].duplicate();
                    let frame = CursorFrame::Array { index: idx, json: Value::Array(items) };
                    proof {
                        assert(frame@ == mk_frame(node_at(root, pre), idx as int));
                    }
                    frames.push(frame);
                    focus = child;
                },
                Value::Object(entries) => {
                    proof {
                        lemma_view_entries(entries@);
                    }
                    let key = entries[idx].0.clone();
                    let child = entries[idx].1.duplicate();
                    let frame = CursorFrame::Object {
                        index: idx,
                        key,
                        json: Value::Object(entries),
                    };
                    proof {
                        assert(frame@ == mk_frame(node_at(root, pre), idx as int));
                    }
                    frames.push(frame);
                    focus = child;
                },
                other => {
                    proof {
                        assert(false);
                    }
                    focus = other;
                },
            }
            k = k + 1;
            proof {
                let s = path@.inds.take(k as int);
                assert(s.drop_last() =~= pre);
                assert(s.last() == idx as int);
                assert(frames_of(root, s) == frames_of(root, pre).push(
                    mk_frame(node_at(root, pre), idx as int),
                ));
                assert(frames@.last()@ == mk_frame(node_at(root, pre), idx as int));
                assert(Seq::new(frames@.len(), |i: int| frames@[i]@) =~= frames_of(root, s));
            }
        }
        let r = Cursor {
            jsons,
            top_index,
            frames,
            focus,
            focus_position: path.focus_position,
        };
        proof {
            assert(path@.inds.take(path@.inds.len() as int) =~= path@.inds);
            assert(r@ == cursor_at(roots, path@));
            lemma_cursor_at_wf(roots, path@);
        }
        r
    }

    /// Step forward one rendered line. Fails, changing nothing, exactly at
    /// the last position; a folded container's opening line steps directly to
    /// its own closing line.
    pub fn advance(&mut self, folds: &FoldSet) -> (r: Option<()>)
        requires
            old(self).wf(),
        ensures
            final(self).wf(),
            final(self)@.jsons == old(self)@.jsons,
            match advance_spec(old(self)@.jsons, folds@, old(self)@.path_of()) {
                Some(q) => r is Some && final(self)@ == cursor_at(old(self)@.jsons, q),
                None => r is None && final(self)@ == old(self)@,
            },
    {
        let ghost roots = self@.jsons;
        let ghost p = self@.path_of();
        let ghost root = roots[p.top];
        let path = self.to_path();
        let key = path.strip_position();
        let is_folded = folds.contains(&key);
        proof {
            assert(key_view(key) == p.fold_key());
        }
        match self.focus_position {
            FocusPosition::Start => {
                let ghost q = advance_spec(roots, folds@, p)->Some_0;
                if is_folded {
                    self.focus_position = FocusPosition::End;
                    proof {
                        assert(self@ == cursor_at(roots, q));
                        lemma_advance_wf(roots, folds@, p, q);
                        lemma_cursor_at_wf(roots, q);
                    }
                    Some(())
                } else {
                    let (new_frame, new_focus, new_position) = open_container(&self.focus);
                    if let Some(f) = new_frame {
                        self.frames.push(f);
                    }
                    self.focus = new_focus;
                    self.focus_position = new_position;
                    proof {
                        if node_at(root, p.inds).child_count() == 0 {
                            assert(self@.frames =~= frames_of(root, q.inds));
                        } else {
                            assert(q.inds.drop_last() =~= p.inds);
                            assert(q.inds.last() == 0);
                            lemma_node_at_push(root, p.inds, 0);
                            assert(self@.frames =~= frames_of(root, q.inds));
                        }
                        assert(self@ == cursor_at(roots, q));
                        lemma_advance_wf(roots, folds@, p, q);
                        lemma_cursor_at_wf(roots, q);
                    }
                    Some(())
                }
            },
            _ => {
                let popped = self.frames.pop();
                match popped {
                    None => {
                        proof {
                            assert(p.inds =~= Seq::<int>::empty());
                            assert(self.top_index < self.jsons@.len());
                        }
                        let n = self.jsons.len();
                        if self.top_index + 1 < n {
                            let ghost q = advance_spec(roots, folds@, p)->Some_0;
                            self.top_index = self.top_index + 1;
                            let new_focus = {
                                let v = &self.jsons[self.top_index];
                                v.duplicate()
                            };
                            self.focus = new_focus;
                            self.focus_position = FocusPosition::starting(&self.focus);
                            proof {
                                assert(q.inds =~= Seq::<int>::empty());
                                assert(self@.frames =~= frames_of(roots[q.top], q.inds));
                                assert(self@ == cursor_at(roots, q));
                                lemma_advance_wf(roots, folds@, p, q);
                                lemma_cursor_at_wf(roots, q);
                            }
                            Some(())
                        } else {
                            proof {
                                assert(self@ == old(self)@);
                            }
                            None
                        }
                    },
                    Some(frame) => {
                        let ghost q = advance_spec(roots, folds@, p)->Some_0;
                        proof {
                            assert(p.inds.len() == old(self)@.frames.len());
                            assert(old(self)@.frames == frames_of(root, p.inds));
                            assert(frame@ == mk_frame(
                                node_at(root, p.inds.drop_last()),
                                p.inds.last(),
                            ));
                            lemma_wf_parent(root, p.inds);
                            assert(frame_wf(frame@));
                            lemma_frames_of(root, p.inds.drop_last());
                            assert forall|i: int| 0 <= i < self.frames@.len() implies self@.frames[i]
                                == frames_of(root, p.inds.drop_last())[i] by {
                                assert(self.frames@[i] == old(self).frames@[i]);
                                assert(old(self)@.frames[i] == frames_of(root, p.inds)[i]);
                                assert(frames_of(root, p.inds)[i] == frames_of(
                                    root,
                                    p.inds.drop_last(),
                                )[i]);
                            }
                            assert(self@.frames =~= frames_of(root, p.inds.drop_last()));
                        }
                        let (new_frame, new_focus, new_position) = frame.advance();
                        if let Some(f) = new_frame {
                            self.frames.push(f);
                        }
                        self.focus = new_focus;
                        self.focus_position = new_position;
                        proof {
                            let parent = node_at(root, p.inds.drop_last());
                            let i = p.inds.last();
                            if i + 1 < parent.child_count() {
                                assert(q.inds.drop_last() =~= p.inds.drop_last());
                                assert(q.inds.last() == i + 1);
                                lemma_node_at_push(root, p.inds.drop_last(), i + 1);
                                assert(self@.frames =~= frames_of(root, q.inds));
                            } else {
                                assert(q.inds =~= p.inds.drop_last());
                                assert(self@.frames =~= frames_of(root, q.inds));
                            }
                            assert(self@ == cursor_at(roots, q));
                            lemma_advance_wf(roots, folds@, p, q);
                            lemma_cursor_at_wf(roots, q);
                        }
                        Some(())
                    },
                }
            },
        }
    }

    /// Step backward one rendered line, the mirror of [`Cursor::advance`].
    /// Fails, changing nothing, exactly at the first position; a folded
    /// container's closing line steps directly to its own opening line.
    pub fn regress(&mut self, folds: &FoldSet) -> (r: Option<()>)
        requires
            old(self).wf(),
        ensures
            final(self).wf(),
            final(self)@.jsons == old(self)@.jsons,
            match regress_spec(old(self)@.jsons, folds@, old(self)@.path_of()) {
                Some(q) => r is Some && final(self)@ == cursor_at(old(self)@.jsons, q),
                None => r is None && final(self)@ == old(self)@,
            },
    {
        let ghost roots = self@.jsons;
        let ghost p = self@.path_of();
        let ghost root = roots[p.top];
        let path = self.to_path();
        let key = path.strip_position();
        let is_folded = folds.contains(&key);
        proof {
            assert(key_view(key) == p.fold_key());
        }
        match self.focus_position {
            FocusPosition::End => {
                let ghost q = regress_spec(roots, folds@, p)->Some_0;
                if is_folded {
                    self.focus_position = FocusPosition::Start;
                    proof {
                        assert(self@ == cursor_at(roots, q));
                        lemma_regress_wf(roots, folds@, p, q);
                        lemma_cursor_at_wf(roots, q);
                    }
                    Some(())
                } else {
                    let (new_frame, new_focus, new_position) = open_container_end(&self.focus);
                    if let Some(f) = new_frame {
                        self.frames.push(f);
                    }
                    self.focus = new_focus;
                    self.focus_position = new_position;
                    proof {
                        let n = node_at(root, p.inds).child_count();
                        if n == 0 {
                            assert(self@.frames =~= frames_of(root, q.inds));
                        } else {
                            assert(q.inds.drop_last() =~= p.inds);
                            assert(q.inds.last() == n - 1);
                            lemma_node_at_push(root, p.inds, n - 1);
                            assert(self@.frames =~= frames_of(root, q.inds));
                        }
                        assert(self@ == cursor_at(roots, q));
                        lemma_regress_wf(roots, folds@, p, q);
                        lemma_cursor_at_wf(roots, q);
                    }
                    Some(())
                }
            },
            _ => {
                let popped = self.frames.pop();
                match popped {
                    None => {
                        proof {
                            assert(p.inds =~= Seq::<int>::empty());
                        }
                        if self.top_index > 0 {
                            let ghost q = regress_spec(roots, folds@, p)->Some_0;
                            self.top_index = self.top_index - 1;
                            let new_focus = {
                                let v = &self.jsons[self.top_index];
                                v.duplicate()
                            };
                            self.focus = new_focus;
                            self.focus_position = FocusPosition::ending(&self.focus);
                            proof {
                                assert(q.inds =~= Seq::<int>::empty());
                                assert(self@.frames =~= frames_of(roots[q.top], q.inds));
                                assert(self@ == cursor_at(roots, q));
                                lemma_regress_wf(roots, folds@, p, q);
                                lemma_cursor_at_wf(roots, q);
                            }
                            Some(())
                        } else {
                            proof {
                                assert(self@ == old(self)@);
                            }
                            None
                        }
                    },
                    Some(frame) => {
                        let ghost q = regress_spec(roots, folds@, p)->Some_0;
                        proof {
                            assert(p.inds.len() == old(self)@.frames.len());
                            assert(old(self)@.frames == frames_of(root, p.inds));
                            assert(frame@ == mk_frame(
                                node_at(root, p.inds.drop_last()),
                                p.inds.last(),
                            ));
                            lemma_wf_parent(root, p.inds);
                            assert(frame_wf(frame@));
                            lemma_frames_of(root, p.inds.drop_last());
                            assert forall|i: int| 0 <= i < self.frames@.len() implies self@.frames[i]
                                == frames_of(root, p.inds.drop_last())[i] by {
                                assert(self.frames@[i] == old(self).frames@[i]);
                                assert(old(self)@.frames[i] == frames_of(root, p.inds)[i]);
                                assert(frames_of(root, p.inds)[i] == frames_of(
                                    root,
                                    p.inds.drop_last(),
                                )[i]);
                            }
                            assert(self@.frames =~= frames_of(root, p.inds.drop_last()));
                        }
                        let (new_frame, new_focus, new_position) = frame.regress();
                        if let Some(f) = new_frame {
                            self.frames.push(f);
                        }
                        self.focus = new_focus;
                        self.focus_position = new_position;
                        proof {
                            let parent = node_at(root, p.inds.drop_last());
                            let i = p.inds.last();
                            if i > 0 {
                                assert(q.inds.drop_last() =~= p.inds.drop_last());
                                assert(q.inds.last() == i - 1);
                                lemma_node_at_push(root, p.inds.drop_last(), i - 1);
                                assert(self@.frames =~= frames_of(root, q.inds));
                            } else {
                                assert(q.inds =~= p.inds.drop_last());
                                assert(self@.frames =~= frames_of(root, q.inds));
                            }
                            assert(self@ == cursor_at(roots, q));
                            lemma_regress_wf(roots, folds@, p, q);
                            lemma_cursor_at_wf(roots, q);
                        }
                        Some(())
                    },
                }
            },
        }
    }

    /// The line descriptor of the current position: a pure function of the
    /// focus, the sub-position, the innermost frame and the fold set.
    pub fn current_line(&self, folds: &FoldSet) -> (r: Line)
        requires
            self.wf(),
        ensures
            r@ == line_at(self@.jsons, folds@, self@.path_of()),
    {
        let ghost roots = self@.jsons;
        let ghost p = self@.path_of();
        let ghost root = roots[p.top];
        let content = match (&self.focus, self.focus_position) {
            (Value::Object(entries), FocusPosition::Start) => {
                proof {
                    lemma_view_entries(entries@);
                }
                LineContent::ObjectStart(entries.len())
            },
            (Value::Object(entries), FocusPosition::End) => {
                proof {
                    lemma_view_entries(entries@);
                }
                LineContent::ObjectEnd(entries.len())
            },
            (Value::Array(items), FocusPosition::Start) => {
                proof {
                    lemma_view_seq(items@);
                }
                LineContent::ArrayStart(items.len())
            },
            (Value::Array(items), FocusPosition::End) => {
                proof {
                    lemma_view_seq(items@);
                }
                LineContent::ArrayEnd(items.len())
            },
            (Value::Null, FocusPosition::Value) => LineContent::Null,
            (Value::Bool(b), FocusPosition::Value) => LineContent::Bool(*b),
            (Value::Number(x), FocusPosition::Value) => LineContent::Number(x.clone()),
            (Value::String(s), FocusPosition::Value) => LineContent::String(s.clone()),
            _ => {
                proof {
                    assert(false);
                }
                LineContent::Null
            },
        };
        proof {
            assert(content@ == crate::lines::content_of(self.focus@, self.focus_position));
            if p.inds.len() > 0 {
                assert(self@.frames == frames_of(root, p.inds));
                assert(self@.frames.last() == mk_frame(
                    node_at(root, p.inds.drop_last()),
                    p.inds.last(),
                ));
                lemma_wf_parent(root, p.inds);
                crate::lines::lemma_line_pos_parent(root, p.inds, p.sub, None, 0, false);
            } else {
                assert(p.inds =~= Seq::<int>::empty());
            }
        }
        let key = match self.focus_position {
            FocusPosition::End => None,
            _ => {
                if self.frames.len() == 0 {
                    None
                } else {
                    match &self.frames[self.frames.len() - 1] {
                        CursorFrame::Array { .. } => None,
                        CursorFrame::Object { key, .. } => Some(key.clone()),
                    }
                }
            },
        };
        let folded = {
            let path = self.to_path();
            let fold_key = path.strip_position();
            proof {
                assert(key_view(fold_key) == p.fold_key());
            }
            folds.contains(&fold_key)
        };
        let comma = match self.focus_position {
            FocusPosition::Start => false,
            _ => {
                if self.frames.len() == 0 {
                    false
                } else {
                    let f = &self.frames[self.frames.len() - 1];
                    proof {
                        assert(f@ == self@.frames.last());
                    }
                    match f {
                        CursorFrame::Array { index, json } => {
                            let c = json.child_count();
                            proof {
                                assert((*index as int) < json@.child_count());
                            }
                            *index + 1 < c
                        },
                        CursorFrame::Object { index, json, .. } => {
                            let c = json.child_count();
                            proof {
                                assert((*index as int) < json@.child_count());
                            }
                            *index + 1 < c
                        },
                    }
                }
            },
        };
        let indent = self.frames.len();
        let r = Line { content, key, folded, comma, indent };
        proof {
            assert(r@ == line_at(roots, folds@, p));
        }
        r
    }

    /// Up to `limit` rendered lines, starting at (and including) the current
    /// position and stopping early when the rendering is exhausted. This
    /// consumes the cursor; a fresh one is had by a path round trip.
    #[verifier::loop_isolation(false)]
    pub fn lines_from(self, folds: &FoldSet, limit: usize) -> (r: Vec<Line>)
        requires
            self.wf(),
        ensures
            Seq::new(r@.len(), |i: int| r@[i]@) == crate::lines::lines_from_spec(
                self@.jsons,
                folds@,
                self@.path_of(),
                limit as nat,
            ),
    {
        let ghost roots = self@.jsons;
        let ghost start = self@.path_of();
        let mut out: Vec<Line> = Vec::new();
        if limit == 0 {
            proof {
                assert(Seq::new(out@.len(), |i: int| out@[i]@) =~= crate::lines::lines_from_spec(
                    roots,
                    folds@,
                    start,
                    limit as nat,
                ));
            }
            return out;
        }
        let mut cursor = self;
        let first = cursor.current_line(folds);
        out.push(first);
        proof {
            lines_step(roots, folds@, start, limit as nat);
        }
        while out.len() < limit
            invariant
                1 <= out@.len() <= limit,
                cursor.wf(),
                cursor@.jsons == roots,
                crate::lines::lines_from_spec(roots, folds@, start, limit as nat) == Seq::new(
                    out@.len(),
                    |i: int| out@[i]@,
                ) + lines_cont(roots, folds@, cursor@.path_of(), (limit - out@.len()) as nat),
            decreases limit - out@.len(),
        {
            let ghost before = cursor@.path_of();
            let ghost done = Seq::new(out@.len(), |i: int| out@[i]@);
            let stepped = cursor.advance(folds);
            if stepped.is_none() {
                proof {
                    assert(Seq::new(out@.len(), |i: int| out@[i]@) =~= done + lines_cont(
                        roots,
                        folds@,
                        before,
                        (limit - out@.len()) as nat,
                    ));
                }
                return out;
            }
            let ghost q = advance_spec(roots, folds@, before)->Some_0;
            proof {
                lemma_advance_wf(roots, folds@, before, q);
                lemma_cursor_at_wf(roots, q);
                lines_step(roots, folds@, q, (limit - out@.len()) as nat);
            }
            let line = cursor.current_line(folds);
            out.push(line);
            proof {
                assert(Seq::new(out@.len(), |i: int| out@[i]@) =~= done + seq![
                    out@[out@.len() - 1]@,
                ]);
                assert(done + (seq![out@[out@.len() - 1]@] + lines_cont(
                    roots,
                    folds@,
                    cursor@.path_of(),
                    (limit - out@.len()) as nat,
                )) =~= (done + seq![out@[out@.len() - 1]@]) + lines_cont(
                    roots,
                    folds@,
                    cursor@.path_of(),
                    (limit - out@.len()) as nat,
                ));
            }
        }
        proof {
            assert(lines_cont(roots, folds@, cursor@.path_of(), (limit - out@.len()) as nat)
                =~= Seq::<crate::lines::LineView>::empty());
            assert(Seq::new(out@.len(), |i: int| out@[i]@) =~= Seq::new(
                out@.len(),
                |i: int| out@[i]@,
            ) + lines_cont(roots, folds@, cursor@.path_of(), (limit - out@.len()) as nat));
        }
        out
    }

    /// A structurally equal copy of this cursor, rebuilt by dehydrating to a
    /// path and rehydrating over a copy of the same roots.
    pub fn duplicate(&self) -> (r: Cursor)
        requires
            self.wf(),
        ensures
            r.wf(),
            r@ == self@,
    {
        let mut jsons: Vec<Value> = Vec::new();
        let mut i: usize = 0;
        while i < self.jsons.len()
            invariant
                i <= self.jsons@.len(),
                jsons@.len() == i,
                forall|j: int| 0 <= j < i ==> jsons@[j]@ == self.jsons@[j]@,
            decreases self.jsons@.len() - i,
        {
            let v = self.jsons[i].duplicate();
            jsons.push(v);
            i = i + 1;
        }
        proof {
            assert(roots_view(jsons@) =~= roots_view(self.jsons@));
        }
        let path = self.to_path();
        Cursor::from_path(jsons, &path)
    }
}

} // verus!

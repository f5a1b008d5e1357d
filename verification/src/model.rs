//! The mathematical model of cursor positions and of the stepping protocol.
//!
//! A position is a root index, a sequence of child indices (shallow to deep)
//! and a sub-position. [`advance_spec`] and [`regress_spec`] define one
//! forward and one backward step through the line-oriented rendering, given
//! the set of fold keys; every executable stepping function is proved against
//! them.

use vstd::prelude::*;

use crate::cursor::{FocusPosition, FrameView};
use crate::value::JsonView;

verus! {

/// The model of a `Path`: a dehydrated cursor position.
pub ghost struct PathView {
    pub top: int,
    pub inds: Seq<int>,
    pub sub: FocusPosition,
}

impl PathView {
    /// The fold key of this position: the sub-position is stripped.
    pub open spec fn fold_key(self) -> (int, Seq<int>) {
        (self.top, self.inds)
    }
}

/// The model of a `Cursor`.
pub ghost struct CursorView {
    pub jsons: Seq<JsonView>,
    pub top: int,
    pub frames: Seq<FrameView>,
    pub focus: JsonView,
    pub sub: FocusPosition,
}

impl CursorView {
    /// The dehydrated position this cursor sits at.
    pub open spec fn path_of(self) -> PathView {
        PathView {
            top: self.top,
            inds: Seq::new(self.frames.len(), |i: int| self.frames[i].index()),
            sub: self.sub,
        }
    }
}

/// The sub-position of a value's first rendered line.
pub open spec fn starting_sub(j: JsonView) -> FocusPosition {
    if j.is_container() {
        FocusPosition::Start
    } else {
        FocusPosition::Value
    }
}

/// The sub-position of a value's last rendered line.
pub open spec fn ending_sub(j: JsonView) -> FocusPosition {
    if j.is_container() {
        FocusPosition::End
    } else {
        FocusPosition::Value
    }
}

/// Containers sit at `Start` or `End`, scalars always at `Value`.
pub open spec fn sub_ok(j: JsonView, sub: FocusPosition) -> bool {
    if j.is_container() {
        sub != FocusPosition::Value
    } else {
        sub == FocusPosition::Value
    }
}

/// The node reached from `j` by descending along `inds`.
pub open spec fn node_at(j: JsonView, inds: Seq<int>) -> JsonView
    decreases inds.len(),
{
    if inds.len() == 0 {
        j
    } else {
        node_at(j.child(inds[0]), inds.drop_first())
    }
}

/// Every index along `inds` denotes an existing child.
pub open spec fn valid_inds(j: JsonView, inds: Seq<int>) -> bool
    decreases inds.len(),
{
    inds.len() == 0 || {
        &&& j.is_container()
        &&& 0 <= inds[0] < j.child_count()
        &&& valid_inds(j.child(inds[0]), inds.drop_first())
    }
}

/// A well-formed position within `roots`.
pub open spec fn wf_pos(roots: Seq<JsonView>, p: PathView) -> bool {
    &&& 0 <= p.top < roots.len()
    &&& valid_inds(roots[p.top], p.inds)
    &&& sub_ok(node_at(roots[p.top], p.inds), p.sub)
}

/// Whether the position's own fold key is in the fold set.
pub open spec fn folded(folds: Set<(int, Seq<int>)>, p: PathView) -> bool {
    folds.contains(p.fold_key())
}

/// A position not strictly inside a folded container: no proper ancestor of
/// the focused node is folded. (The focused node itself may be folded.)
pub open spec fn surface(folds: Set<(int, Seq<int>)>, p: PathView) -> bool {
    forall|k: int|
        0 <= k < p.inds.len() ==> !folds.contains((p.top, #[trigger] p.inds.take(k)))
}

/// The first position of the rendering: the opening line of the first root.
pub open spec fn first_pos(roots: Seq<JsonView>) -> PathView {
    PathView { top: 0, inds: Seq::empty(), sub: starting_sub(roots[0]) }
}

/// The last position of the rendering: the closing line of the last root.
pub open spec fn last_pos(roots: Seq<JsonView>) -> PathView {
    PathView {
        top: roots.len() - 1,
        inds: Seq::empty(),
        sub: ending_sub(roots[roots.len() - 1]),
    }
}

/// One forward step. `None` exactly at the last position.
///
/// From an unfolded container's opening line the step descends to the first
/// child (or, if the container is empty, to its own closing line); a folded
/// container's opening line steps directly to its own closing line, exactly
/// as if the container were empty. From any other line the step moves to the
/// next sibling, or to the parent's closing line when no sibling follows, or
/// to the next root at the top level.
pub open spec fn advance_spec(
    roots: Seq<JsonView>,
    folds: Set<(int, Seq<int>)>,
    p: PathView,
) -> Option<PathView> {
    let j = node_at(roots[p.top], p.inds);
    if p.sub == FocusPosition::Start {
        if folded(folds, p) || j.child_count() == 0 {
            Some(PathView { top: p.top, inds: p.inds, sub: FocusPosition::End })
        } else {
            Some(
                PathView {
                    top: p.top,
                    inds: p.inds.push(0),
                    sub: starting_sub(j.child(0)),
                },
            )
        }
    } else {
        if p.inds.len() == 0 {
            if p.top + 1 < roots.len() {
                Some(
                    PathView {
                        top: p.top + 1,
                        inds: Seq::empty(),
                        sub: starting_sub(roots[p.top + 1]),
                    },
                )
            } else {
                None
            }
        } else {
            let parent = node_at(roots[p.top], p.inds.drop_last());
            let i = p.inds.last();
            if i + 1 < parent.child_count() {
                Some(
                    PathView {
                        top: p.top,
                        inds: p.inds.drop_last().push(i + 1),
                        sub: starting_sub(parent.child(i + 1)),
                    },
                )
            } else {
                Some(
                    PathView {
                        top: p.top,
                        inds: p.inds.drop_last(),
                        sub: FocusPosition::End,
                    },
                )
            }
        }
    }
}

/// One backward step, the mirror of [`advance_spec`]. `None` exactly at the
/// first position.
pub open spec fn regress_spec(
    roots: Seq<JsonView>,
    folds: Set<(int, Seq<int>)>,
    p: PathView,
) -> Option<PathView> {
    let j = node_at(roots[p.top], p.inds);
    if p.sub == FocusPosition::End {
        if folded(folds, p) || j.child_count() == 0 {
            Some(PathView { top: p.top, inds: p.inds, sub: FocusPosition::Start })
        } else {
            Some(
                PathView {
                    top: p.top,
                    inds: p.inds.push(j.child_count() - 1),
                    sub: ending_sub(j.child(j.child_count() - 1)),
                },
            )
        }
    } else {
        if p.inds.len() == 0 {
            if p.top > 0 {
                Some(
                    PathView {
                        top: p.top - 1,
                        inds: Seq::empty(),
                        sub: ending_sub(roots[p.top - 1]),
                    },
                )
            } else {
                None
            }
        } else {
            let parent = node_at(roots[p.top], p.inds.drop_last());
            let i = p.inds.last();
            if i > 0 {
                Some(
                    PathView {
                        top: p.top,
                        inds: p.inds.drop_last().push(i - 1),
                        sub: ending_sub(parent.child(i - 1)),
                    },
                )
            } else {
                Some(
                    PathView {
                        top: p.top,
                        inds: p.inds.drop_last(),
                        sub: FocusPosition::Start,
                    },
                )
            }
        }
    }
}

/// The frame kept for the open container `parent` with the focus under child
/// `i`.
pub open spec fn mk_frame(parent: JsonView, i: int) -> FrameView {
    match parent {
        JsonView::Object(es) => FrameView::Object { index: i, key: es[i].0, json: parent },
        _ => FrameView::Array { index: i, json: parent },
    }
}

/// The ancestor stack of the position `inds` under the root `root`.
pub open spec fn frames_of(root: JsonView, inds: Seq<int>) -> Seq<FrameView>
    decreases inds.len(),
{
    if inds.len() == 0 {
        Seq::empty()
    } else {
        frames_of(root, inds.drop_last()).push(
            mk_frame(node_at(root, inds.drop_last()), inds.last()),
        )
    }
}

/// The unique well-formed cursor sitting at position `p` over `roots`.
pub open spec fn cursor_at(roots: Seq<JsonView>, p: PathView) -> CursorView {
    CursorView {
        jsons: roots,
        top: p.top,
        frames: frames_of(roots[p.top], p.inds),
        focus: node_at(roots[p.top], p.inds),
        sub: p.sub,
    }
}

/// A well-formed cursor: its position is well-formed and its frames and focus
/// are exactly those derived from the position.
pub open spec fn wf_cursor(c: CursorView) -> bool {
    &&& wf_pos(c.jsons, c.path_of())
    &&& c == cursor_at(c.jsons, c.path_of())
}

/// Descending one more step: the node at `inds.push(i)`.
pub proof fn lemma_node_at_push(j: JsonView, inds: Seq<int>, i: int)
    ensures
        node_at(j, inds.push(i)) == node_at(j, inds).child(i),
    decreases inds.len(),
{
    reveal_with_fuel(node_at, 3);
    if inds.len() == 0 {
        assert(inds.push(i)[0] == i);
        assert(inds.push(i).drop_first() =~= Seq::<int>::empty());
    } else {
        assert(inds.push(i)[0] == inds[0]);
        assert(inds.push(i).drop_first() =~= inds.drop_first().push(i));
        lemma_node_at_push(j.child(inds[0]), inds.drop_first(), i);
    }
}

/// Validity of one more step: `inds.push(i)` is valid iff `inds` is and `i`
/// denotes a child of the node it reaches.
pub proof fn lemma_valid_inds_push(j: JsonView, inds: Seq<int>, i: int)
    ensures
        valid_inds(j, inds.push(i)) <==> {
            &&& valid_inds(j, inds)
            &&& node_at(j, inds).is_container()
            &&& 0 <= i < node_at(j, inds).child_count()
        },
    decreases inds.len(),
{
    reveal_with_fuel(valid_inds, 3);
    reveal_with_fuel(node_at, 3);
    if inds.len() == 0 {
        assert(inds.push(i)[0] == i);
        assert(inds.push(i).drop_first() =~= Seq::<int>::empty());
    } else {
        assert(inds.push(i)[0] == inds[0]);
        assert(inds.push(i).drop_first() =~= inds.drop_first().push(i));
        lemma_valid_inds_push(j.child(inds[0]), inds.drop_first(), i);
    }
}

/// A well-formed position's ancestors are containers; in particular, with a
/// non-empty index sequence the parent of the focus is a container holding
/// the focus at the last index.
pub proof fn lemma_wf_parent(j: JsonView, inds: Seq<int>)
    requires
        valid_inds(j, inds),
        inds.len() > 0,
    ensures
        valid_inds(j, inds.drop_last()),
        node_at(j, inds.drop_last()).is_container(),
        0 <= inds.last() < node_at(j, inds.drop_last()).child_count(),
        node_at(j, inds) == node_at(j, inds.drop_last()).child(inds.last()),
{
    assert(inds =~= inds.drop_last().push(inds.last()));
    lemma_valid_inds_push(j, inds.drop_last(), inds.last());
    lemma_node_at_push(j, inds.drop_last(), inds.last());
}

/// `n` forward steps from `p`; `None` when the rendering is exhausted first.
pub open spec fn advance_n(
    roots: Seq<JsonView>,
    folds: Set<(int, Seq<int>)>,
    p: PathView,
    n: nat,
) -> Option<PathView>
    decreases n,
{
    if n == 0 {
        Some(p)
    } else {
        match advance_spec(roots, folds, p) {
            None => None,
            Some(q) => advance_n(roots, folds, q, (n - 1) as nat),
        }
    }
}

/// Iterated stepping peels one step off the end as well as off the front.
pub proof fn lemma_advance_n_snoc(
    roots: Seq<JsonView>,
    folds: Set<(int, Seq<int>)>,
    p: PathView,
    n: nat,
)
    requires
        n > 0,
    ensures
        advance_n(roots, folds, p, n) == match advance_n(roots, folds, p, (n - 1) as nat) {
            None => None::<PathView>,
            Some(q) => advance_spec(roots, folds, q),
        },
    decreases n,
{
    reveal_with_fuel(advance_n, 3);
    if n > 1 {
        match advance_spec(roots, folds, p) {
            None => {},
            Some(q) => lemma_advance_n_snoc(roots, folds, q, (n - 1) as nat),
        }
    }
}

/// Validity is prefix-closed.
pub proof fn lemma_valid_take(j: JsonView, inds: Seq<int>, k: int)
    requires
        valid_inds(j, inds),
        0 <= k <= inds.len(),
    ensures
        valid_inds(j, inds.take(k)),
    decreases inds.len(),
{
    if k == 0 {
        assert(inds.take(0) =~= Seq::<int>::empty());
    } else {
        lemma_valid_take(j.child(inds[0]), inds.drop_first(), k - 1);
        assert(inds.take(k).drop_first() =~= inds.drop_first().take(k - 1));
        assert(inds.take(k)[0] == inds[0]);
    }
}

/// Each ancestor frame is the frame over the node its prefix reaches, at the
/// next index down.
pub proof fn lemma_frames_of(root: JsonView, inds: Seq<int>)
    ensures
        frames_of(root, inds).len() == inds.len(),
        forall|k: int|
            0 <= k < inds.len() ==> (#[trigger] frames_of(root, inds)[k]) == mk_frame(
                node_at(root, inds.take(k)),
                inds[k],
            ),
    decreases inds.len(),
{
    if inds.len() > 0 {
        lemma_frames_of(root, inds.drop_last());
        assert forall|k: int| 0 <= k < inds.len() implies (#[trigger] frames_of(root, inds)[k])
            == mk_frame(node_at(root, inds.take(k)), inds[k]) by {
            if k < inds.len() - 1 {
                assert(frames_of(root, inds)[k] == frames_of(root, inds.drop_last())[k]);
                assert(inds.drop_last().take(k) =~= inds.take(k));
                assert(inds.drop_last()[k] == inds[k]);
            } else {
                assert(inds.take(k) =~= inds.drop_last());
            }
        }
    }
}

/// The cursor derived from a well-formed position sits at that position and
/// is well-formed.
pub proof fn lemma_cursor_at_wf(roots: Seq<JsonView>, p: PathView)
    requires
        wf_pos(roots, p),
    ensures
        cursor_at(roots, p).path_of() == p,
        wf_cursor(cursor_at(roots, p)),
{
    let c = cursor_at(roots, p);
    lemma_frames_of(roots[p.top], p.inds);
    assert(c.path_of().inds =~= p.inds);
}

/// A forward step lands on a well-formed position.
pub proof fn lemma_advance_wf(
    roots: Seq<JsonView>,
    folds: Set<(int, Seq<int>)>,
    p: PathView,
    q: PathView,
)
    requires
        wf_pos(roots, p),
        advance_spec(roots, folds, p) == Some(q),
    ensures
        wf_pos(roots, q),
{
    let j = node_at(roots[p.top], p.inds);
    if p.sub == FocusPosition::Start {
        if folded(folds, p) || j.child_count() == 0 {
        } else {
            lemma_valid_inds_push(roots[p.top], p.inds, 0);
            lemma_node_at_push(roots[p.top], p.inds, 0);
        }
    } else {
        if p.inds.len() == 0 {
        } else {
            lemma_wf_parent(roots[p.top], p.inds);
            let parent = node_at(roots[p.top], p.inds.drop_last());
            let i = p.inds.last();
            if i + 1 < parent.child_count() {
                lemma_valid_inds_push(roots[p.top], p.inds.drop_last(), i + 1);
                lemma_node_at_push(roots[p.top], p.inds.drop_last(), i + 1);
            }
        }
    }
}

/// A backward step lands on a well-formed position.
pub proof fn lemma_regress_wf(
    roots: Seq<JsonView>,
    folds: Set<(int, Seq<int>)>,
    p: PathView,
    q: PathView,
)
    requires
        wf_pos(roots, p),
        regress_spec(roots, folds, p) == Some(q),
    ensures
        wf_pos(roots, q),
{
    let j = node_at(roots[p.top], p.inds);
    if p.sub == FocusPosition::End {
        if folded(folds, p) || j.child_count() == 0 {
        } else {
            lemma_valid_inds_push(roots[p.top], p.inds, j.child_count() - 1);
            lemma_node_at_push(roots[p.top], p.inds, j.child_count() - 1);
        }
    } else {
        if p.inds.len() == 0 {
        } else {
            lemma_wf_parent(roots[p.top], p.inds);
            let parent = node_at(roots[p.top], p.inds.drop_last());
            let i = p.inds.last();
            if i > 0 {
                lemma_valid_inds_push(roots[p.top], p.inds.drop_last(), i - 1);
                lemma_node_at_push(roots[p.top], p.inds.drop_last(), i - 1);
            }
        }
    }
}

/// Forward exhaustion: a well-formed position admits no forward step exactly
/// when it is the last position.
pub proof fn lemma_advance_exhausted(
    roots: Seq<JsonView>,
    folds: Set<(int, Seq<int>)>,
    p: PathView,
)
    requires
        wf_pos(roots, p),
    ensures
        advance_spec(roots, folds, p) is None <==> p == last_pos(roots),
{
    if p.sub != FocusPosition::Start && p.inds.len() == 0 && p.top + 1 >= roots.len() {
        assert(p.inds =~= Seq::<int>::empty());
    }
}

/// Backward exhaustion: a well-formed position admits no backward step
/// exactly when it is the first position.
pub proof fn lemma_regress_exhausted(
    roots: Seq<JsonView>,
    folds: Set<(int, Seq<int>)>,
    p: PathView,
)
    requires
        wf_pos(roots, p),
    ensures
        regress_spec(roots, folds, p) is None <==> p == first_pos(roots),
{
    if p.sub != FocusPosition::End && p.inds.len() == 0 && p.top == 0 {
        assert(p.inds =~= Seq::<int>::empty());
    }
}

} // verus!

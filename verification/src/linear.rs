//! The linearization: how many lines a value renders to, the index of a
//! position within the rendering, and the fact that stepping moves through
//! those indices one line at a time (or, over a folded container, forward by
//! the whole collapsed interior).

use vstd::prelude::*;

use crate::cursor::FocusPosition;
use crate::model::{
    advance_spec, folded, lemma_wf_parent, node_at, regress_spec, sub_ok, valid_inds, wf_pos,
    PathView,
};
use crate::value::JsonView;

verus! {

/// How many lines a value renders to: one per scalar, two bracket lines plus
/// the children for a container.
pub open spec fn count_lines(j: JsonView) -> int
    decreases j,
{
    match j {
        JsonView::Array(cs) => 2 + count_arr(cs),
        JsonView::Object(es) => 2 + count_obj(es),
        _ => 1,
    }
}

/// The lines of a sequence of array children.
pub open spec fn count_arr(cs: Seq<JsonView>) -> int
    decreases cs,
{
    if cs.len() == 0 {
        0
    } else {
        count_lines(cs[0]) + count_arr(cs.drop_first())
    }
}

/// The lines of a sequence of object entries.
pub open spec fn count_obj(es: Seq<(Seq<char>, JsonView)>) -> int
    decreases es,
{
    if es.len() == 0 {
        0
    } else {
        count_lines(es[0].1) + count_obj(es.drop_first())
    }
}

/// The lines of the first `k` children of a container.
pub open spec fn count_first(j: JsonView, k: int) -> int
    decreases k,
{
    if k <= 0 {
        0
    } else {
        count_first(j, k - 1) + count_lines(j.child(k - 1))
    }
}

/// The lines of the first `k` roots.
pub open spec fn count_roots(roots: Seq<JsonView>, k: int) -> int
    decreases k,
{
    if k <= 0 {
        0
    } else {
        count_roots(roots, k - 1) + count_lines(roots[k - 1])
    }
}

/// The lines of the whole rendering.
pub open spec fn total_lines(roots: Seq<JsonView>) -> int {
    count_roots(roots, roots.len() as int)
}

/// The index, within the subtree `j`, of the line at position `(inds, sub)`:
/// the lines of the subtree that are rendered strictly before it.
pub open spec fn offset_in(j: JsonView, inds: Seq<int>, sub: FocusPosition) -> int
    decreases inds.len(),
{
    if inds.len() == 0 {
        if sub == FocusPosition::End {
            count_lines(j) - 1
        } else {
            0
        }
    } else {
        1 + count_first(j, inds[0]) + offset_in(j.child(inds[0]), inds.drop_first(), sub)
    }
}

/// The index of a position within the whole rendering.
pub open spec fn index_of(roots: Seq<JsonView>, p: PathView) -> int {
    count_roots(roots, p.top) + offset_in(roots[p.top], p.inds, p.sub)
}

/// Every value renders to at least one line, a container to at least two.
pub proof fn lemma_count_pos(j: JsonView)
    ensures
        count_lines(j) >= 1,
        j.is_container() ==> count_lines(j) >= 2,
    decreases j,
{
    match j {
        JsonView::Array(cs) => lemma_count_arr_nonneg(cs),
        JsonView::Object(es) => lemma_count_obj_nonneg(es),
        _ => {},
    }
}

proof fn lemma_count_arr_nonneg(cs: Seq<JsonView>)
    ensures
        count_arr(cs) >= 0,
    decreases cs,
{
    if cs.len() > 0 {
        lemma_count_pos(cs[0]);
        lemma_count_arr_nonneg(cs.drop_first());
    }
}

proof fn lemma_count_obj_nonneg(es: Seq<(Seq<char>, JsonView)>)
    ensures
        count_obj(es) >= 0,
    decreases es,
{
    if es.len() > 0 {
        lemma_count_pos(es[0].1);
        lemma_count_obj_nonneg(es.drop_first());
    }
}

/// Appending one more child adds its lines.
pub proof fn lemma_count_arr_snoc(s: Seq<JsonView>, x: JsonView)
    ensures
        count_arr(s.push(x)) == count_arr(s) + count_lines(x),
    decreases s.len(),
{
    reveal_with_fuel(count_arr, 3);
    if s.len() == 0 {
        assert(s.push(x)[0] == x);
        assert(s.push(x).drop_first() =~= Seq::<JsonView>::empty());
    } else {
        assert(s.push(x)[0] == s[0]);
        assert(s.push(x).drop_first() =~= s.drop_first().push(x));
        lemma_count_arr_snoc(s.drop_first(), x);
    }
}

pub proof fn lemma_count_obj_snoc(s: Seq<(Seq<char>, JsonView)>, x: (Seq<char>, JsonView))
    ensures
        count_obj(s.push(x)) == count_obj(s) + count_lines(x.1),
    decreases s.len(),
{
    reveal_with_fuel(count_obj, 3);
    if s.len() == 0 {
        assert(s.push(x)[0] == x);
        assert(s.push(x).drop_first() =~= Seq::<(Seq<char>, JsonView)>::empty());
    } else {
        assert(s.push(x)[0] == s[0]);
        assert(s.push(x).drop_first() =~= s.drop_first().push(x));
        lemma_count_obj_snoc(s.drop_first(), x);
    }
}

/// The first `k` children of an array.
pub proof fn lemma_count_first_arr(cs: Seq<JsonView>, k: int)
    requires
        0 <= k <= cs.len(),
    ensures
        count_first(JsonView::Array(cs), k) == count_arr(cs.take(k)),
    decreases k,
{
    if k == 0 {
        assert(cs.take(0) =~= Seq::<JsonView>::empty());
    } else {
        lemma_count_first_arr(cs, k - 1);
        lemma_count_arr_snoc(cs.take(k - 1), cs[k - 1]);
        assert(cs.take(k) =~= cs.take(k - 1).push(cs[k - 1]));
    }
}

pub proof fn lemma_count_first_obj(es: Seq<(Seq<char>, JsonView)>, k: int)
    requires
        0 <= k <= es.len(),
    ensures
        count_first(JsonView::Object(es), k) == count_obj(es.take(k)),
    decreases k,
{
    if k == 0 {
        assert(es.take(0) =~= Seq::<(Seq<char>, JsonView)>::empty());
    } else {
        lemma_count_first_obj(es, k - 1);
        lemma_count_obj_snoc(es.take(k - 1), es[k - 1]);
        assert(es.take(k) =~= es.take(k - 1).push(es[k - 1]));
    }
}

/// A container's line count is its two bracket lines plus all its children.
pub proof fn lemma_count_container(j: JsonView)
    requires
        j.is_container(),
    ensures
        count_lines(j) == 2 + count_first(j, j.child_count()),
{
    match j {
        JsonView::Array(cs) => {
            lemma_count_first_arr(cs, cs.len() as int);
            assert(cs.take(cs.len() as int) =~= cs);
        },
        JsonView::Object(es) => {
            lemma_count_first_obj(es, es.len() as int);
            assert(es.take(es.len() as int) =~= es);
        },
        _ => {},
    }
}

/// Child-prefix sums grow by at least one line per child.
pub proof fn lemma_count_first_mono(j: JsonView, k1: int, k2: int)
    requires
        0 <= k1 <= k2,
    ensures
        count_first(j, k1) + (k2 - k1) <= count_first(j, k2),
    decreases k2 - k1,
{
    if k1 < k2 {
        lemma_count_first_mono(j, k1, k2 - 1);
        lemma_count_pos(j.child(k2 - 1));
    }
}

/// Root-prefix sums grow by at least one line per root.
pub proof fn lemma_count_roots_mono(roots: Seq<JsonView>, k1: int, k2: int)
    requires
        0 <= k1 <= k2,
    ensures
        count_roots(roots, k1) + (k2 - k1) <= count_roots(roots, k2),
    decreases k2 - k1,
{
    if k1 < k2 {
        lemma_count_roots_mono(roots, k1, k2 - 1);
        lemma_count_pos(roots[k2 - 1]);
    }
}

/// A position's line index falls inside its subtree's rendering.
pub proof fn lemma_offset_bounds(j: JsonView, inds: Seq<int>, sub: FocusPosition)
    requires
        valid_inds(j, inds),
        sub_ok(node_at(j, inds), sub),
    ensures
        0 <= offset_in(j, inds, sub) <= count_lines(j) - 1,
    decreases inds.len(),
{
    lemma_count_pos(j);
    if inds.len() == 0 {
    } else {
        let i0 = inds[0];
        let child = j.child(i0);
        lemma_offset_bounds(child, inds.drop_first(), sub);
        lemma_count_first_mono(j, 0, i0);
        lemma_count_first_mono(j, i0 + 1, j.child_count());
        lemma_count_container(j);
        assert(count_first(j, i0 + 1) == count_first(j, i0) + count_lines(child));
    }
}

/// A well-formed position's line index falls inside the whole rendering.
pub proof fn lemma_index_bounds(roots: Seq<JsonView>, p: PathView)
    requires
        wf_pos(roots, p),
    ensures
        0 <= index_of(roots, p) <= total_lines(roots) - 1,
{
    lemma_offset_bounds(roots[p.top], p.inds, p.sub);
    lemma_count_roots_mono(roots, 0, p.top);
    lemma_count_roots_mono(roots, p.top + 1, roots.len() as int);
    assert(count_roots(roots, p.top + 1) == count_roots(roots, p.top) + count_lines(
        roots[p.top],
    ));
}

/// The last position's line index is the last line of the rendering.
pub proof fn lemma_index_last(roots: Seq<JsonView>, p: PathView)
    requires
        wf_pos(roots, p),
        p == crate::model::last_pos(roots),
    ensures
        index_of(roots, p) == total_lines(roots) - 1,
{
    let root = roots[p.top];
    lemma_count_pos(root);
    assert(offset_in(root, p.inds, p.sub) == count_lines(root) - 1) by {
        if p.sub != FocusPosition::End {
            assert(count_lines(root) == 1);
        }
    }
    assert(count_roots(roots, p.top + 1) == count_roots(roots, p.top) + count_lines(root));
}

/// A position's index splits at any prefix of its index sequence: the lines
/// before the prefix's opening line, plus the offset within the subtree the
/// prefix reaches.
pub proof fn lemma_offset_concat(j: JsonView, pre: Seq<int>, tail: Seq<int>, sub: FocusPosition)
    ensures
        offset_in(j, pre + tail, sub) == offset_in(j, pre, FocusPosition::Start) + offset_in(
            node_at(j, pre),
            tail,
            sub,
        ),
    decreases pre.len(),
{
    if pre.len() == 0 {
        assert(pre + tail =~= tail);
    } else {
        assert((pre + tail)[0] == pre[0]);
        assert((pre + tail).drop_first() =~= pre.drop_first() + tail);
        lemma_offset_concat(j.child(pre[0]), pre.drop_first(), tail, sub);
    }
}

/// A forward step moves to a strictly later line; except over a folded
/// container it moves to exactly the next line.
pub proof fn lemma_advance_index(
    roots: Seq<JsonView>,
    folds: Set<(int, Seq<int>)>,
    p: PathView,
    q: PathView,
)
    requires
        wf_pos(roots, p),
        advance_spec(roots, folds, p) == Some(q),
    ensures
        index_of(roots, p) < index_of(roots, q),
        !(p.sub == FocusPosition::Start && folded(folds, p)) ==> index_of(roots, q) == index_of(
            roots,
            p,
        ) + 1,
{
    let root = roots[p.top];
    let j = node_at(root, p.inds);
    if p.sub == FocusPosition::Start {
        lemma_offset_concat(root, p.inds, Seq::empty(), FocusPosition::Start);
        assert(p.inds + Seq::<int>::empty() =~= p.inds);
        lemma_offset_concat(root, p.inds, Seq::empty(), FocusPosition::End);
        lemma_count_pos(j);
        if folded(folds, p) || j.child_count() == 0 {
            // The step jumps to the container's closing line.
            if j.child_count() == 0 {
                lemma_count_container(j);
            }
        } else {
            // The step descends to the first child's first line.
            assert(q.inds =~= p.inds + seq![0int]);
            lemma_offset_concat(root, p.inds, seq![0int], q.sub);
            assert(offset_in(j, seq![0int], q.sub) == 1 + count_first(j, 0) + offset_in(
                j.child(0),
                seq![0int].drop_first(),
                q.sub,
            ));
            assert(seq![0int].drop_first() =~= Seq::<int>::empty());
        }
    } else {
        if p.inds.len() == 0 {
            // The step moves to the next root's first line.
            lemma_count_pos(root);
            assert(offset_in(root, p.inds, p.sub) == count_lines(root) - 1) by {
                if p.sub != FocusPosition::End {
                    assert(count_lines(root) == 1);
                }
            }
            assert(count_roots(roots, p.top + 1) == count_roots(roots, p.top) + count_lines(
                root,
            ));
            assert(q.inds =~= Seq::<int>::empty());
        } else {
            lemma_wf_parent(root, p.inds);
            let pre = p.inds.drop_last();
            let parent = node_at(root, pre);
            let i = p.inds.last();
            assert(p.inds =~= pre + seq![i]);
            lemma_offset_concat(root, pre, seq![i], p.sub);
            assert(seq![i].drop_first() =~= Seq::<int>::empty());
            assert(offset_in(parent, seq![i], p.sub) == 1 + count_first(parent, i) + offset_in(
                j,
                Seq::empty(),
                p.sub,
            ));
            lemma_count_pos(j);
            assert(offset_in(j, Seq::empty(), p.sub) == count_lines(j) - 1) by {
                if p.sub != FocusPosition::End {
                    assert(count_lines(j) == 1);
                }
            }
            assert(count_first(parent, i + 1) == count_first(parent, i) + count_lines(j));
            if i + 1 < parent.child_count() {
                // The step moves to the next sibling's first line.
                assert(q.inds =~= pre + seq![i + 1]);
                lemma_offset_concat(root, pre, seq![i + 1], q.sub);
                assert(seq![i + 1].drop_first() =~= Seq::<int>::empty());
                assert(offset_in(parent, seq![i + 1], q.sub) == 1 + count_first(parent, i + 1)
                    + offset_in(parent.child(i + 1), Seq::empty(), q.sub));
            } else {
                // The step moves to the parent's closing line.
                lemma_offset_concat(root, pre, Seq::empty(), FocusPosition::End);
                assert(pre + Seq::<int>::empty() =~= pre);
                assert(q.inds =~= pre);
                lemma_count_container(parent);
            }
        }
    }
}

/// A backward step moves to a strictly earlier line.
pub proof fn lemma_regress_index(
    roots: Seq<JsonView>,
    folds: Set<(int, Seq<int>)>,
    p: PathView,
    q: PathView,
)
    requires
        wf_pos(roots, p),
        regress_spec(roots, folds, p) == Some(q),
    ensures
        index_of(roots, q) < index_of(roots, p),
{
    let root = roots[p.top];
    let j = node_at(root, p.inds);
    if p.sub == FocusPosition::End {
        lemma_offset_concat(root, p.inds, Seq::empty(), FocusPosition::Start);
        assert(p.inds + Seq::<int>::empty() =~= p.inds);
        lemma_offset_concat(root, p.inds, Seq::empty(), FocusPosition::End);
        lemma_count_pos(j);
        if folded(folds, p) || j.child_count() == 0 {
        } else {
            // The step ascends onto the last child's last line.
            let n = j.child_count();
            assert(q.inds =~= p.inds + seq![n - 1]);
            lemma_offset_concat(root, p.inds, seq![n - 1], q.sub);
            assert(seq![n - 1].drop_first() =~= Seq::<int>::empty());
            assert(offset_in(j, seq![n - 1], q.sub) == 1 + count_first(j, n - 1) + offset_in(
                j.child(n - 1),
                Seq::empty(),
                q.sub,
            ));
            let last = j.child(n - 1);
            lemma_count_pos(last);
            assert(offset_in(last, Seq::empty(), q.sub) == count_lines(last) - 1) by {
                if q.sub != FocusPosition::End {
                    assert(count_lines(last) == 1);
                }
            }
            lemma_count_container(j);
            assert(count_first(j, n) == count_first(j, n - 1) + count_lines(last));
        }
    } else {
        if p.inds.len() == 0 {
            // The step moves to the previous root's last line.
            lemma_count_pos(roots[p.top - 1]);
            assert(count_roots(roots, p.top) == count_roots(roots, p.top - 1) + count_lines(
                roots[p.top - 1],
            ));
            assert(q.inds =~= Seq::<int>::empty());
            lemma_offset_bounds(roots[q.top], q.inds, q.sub);
        } else {
            lemma_wf_parent(root, p.inds);
            let pre = p.inds.drop_last();
            let parent = node_at(root, pre);
            let i = p.inds.last();
            assert(p.inds =~= pre + seq![i]);
            lemma_offset_concat(root, pre, seq![i], p.sub);
            assert(seq![i].drop_first() =~= Seq::<int>::empty());
            assert(offset_in(parent, seq![i], p.sub) == 1 + count_first(parent, i) + offset_in(
                j,
                Seq::empty(),
                p.sub,
            ));
            if i > 0 {
                // The step moves to the previous sibling's last line.
                assert(q.inds =~= pre + seq![i - 1]);
                lemma_offset_concat(root, pre, seq![i - 1], q.sub);
                assert(seq![i - 1].drop_first() =~= Seq::<int>::empty());
                assert(offset_in(parent, seq![i - 1], q.sub) == 1 + count_first(parent, i - 1)
                    + offset_in(parent.child(i - 1), Seq::empty(), q.sub));
                let prev = parent.child(i - 1);
                lemma_count_pos(prev);
                assert(offset_in(prev, Seq::empty(), q.sub) == count_lines(prev) - 1) by {
                    if q.sub != FocusPosition::End {
                        assert(count_lines(prev) == 1);
                    }
                }
                assert(count_first(parent, i) == count_first(parent, i - 1) + count_lines(prev));
                assert(offset_in(j, Seq::empty(), p.sub) >= 0) by {
                    lemma_count_pos(j);
                }
            } else {
                // The step surfaces at the parent's opening line.
                lemma_offset_concat(root, pre, Seq::empty(), FocusPosition::Start);
                assert(pre + Seq::<int>::empty() =~= pre);
                assert(q.inds =~= pre);
                lemma_count_first_mono(parent, 0, i);
            }
        }
    }
}

} // verus!

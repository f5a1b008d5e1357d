//! The reference flattening: a tree rendered all at once into its sequence of
//! lines, independently of any cursor. Stepping a cursor from the first
//! position visits exactly this sequence, which is proved in the library's
//! laws.

use vstd::prelude::*;

use crate::cursor::FocusPosition;
use crate::linear::{
    count_first, count_lines, count_roots, lemma_count_container, lemma_count_first_mono,
    lemma_count_pos, lemma_offset_bounds, offset_in,
};
use crate::lines::{content_of, line_pos, LineView};
use crate::model::{node_at, sub_ok, valid_inds};
use crate::value::JsonView;

verus! {

/// The lines of one value, rendered under a key, at a depth, with or without
/// a trailing comma.
pub open spec fn flat_val(
    j: JsonView,
    key: Option<Seq<char>>,
    depth: int,
    comma: bool,
) -> Seq<LineView>
    decreases j,
{
    match j {
        JsonView::Array(cs) => seq![
            LineView {
                content: content_of(j, FocusPosition::Start),
                key,
                folded: false,
                comma: false,
                indent: depth,
            },
        ] + flat_arr(cs, depth + 1) + seq![
            LineView {
                content: content_of(j, FocusPosition::End),
                key: None,
                folded: false,
                comma,
                indent: depth,
            },
        ],
        JsonView::Object(es) => seq![
            LineView {
                content: content_of(j, FocusPosition::Start),
                key,
                folded: false,
                comma: false,
                indent: depth,
            },
        ] + flat_obj(es, depth + 1) + seq![
            LineView {
                content: content_of(j, FocusPosition::End),
                key: None,
                folded: false,
                comma,
                indent: depth,
            },
        ],
        _ => seq![
            LineView {
                content: content_of(j, FocusPosition::Value),
                key,
                folded: false,
                comma,
                indent: depth,
            },
        ],
    }
}

/// The lines of a sequence of array children: each child keyless, the last
/// one without a trailing comma.
pub open spec fn flat_arr(cs: Seq<JsonView>, depth: int) -> Seq<LineView>
    decreases cs,
{
    if cs.len() == 0 {
        Seq::empty()
    } else {
        flat_val(cs[0], None, depth, cs.len() > 1) + flat_arr(cs.drop_first(), depth)
    }
}

/// The lines of a sequence of object entries: each child under its key, the
/// last one without a trailing comma.
pub open spec fn flat_obj(es: Seq<(Seq<char>, JsonView)>, depth: int) -> Seq<LineView>
    decreases es,
{
    if es.len() == 0 {
        Seq::empty()
    } else {
        flat_val(es[0].1, Some(es[0].0), depth, es.len() > 1) + flat_obj(es.drop_first(), depth)
    }
}

/// The lines of a container's children.
pub open spec fn flat_kids(j: JsonView, depth: int) -> Seq<LineView> {
    match j {
        JsonView::Array(cs) => flat_arr(cs, depth),
        JsonView::Object(es) => flat_obj(es, depth),
        _ => Seq::empty(),
    }
}

/// The whole rendering: every root, keyless, at depth zero, without commas.
pub open spec fn flat_roots(roots: Seq<JsonView>) -> Seq<LineView>
    decreases roots,
{
    if roots.len() == 0 {
        Seq::empty()
    } else {
        flat_val(roots[0], None, 0, false) + flat_roots(roots.drop_first())
    }
}

/// A value flattens to as many lines as it counts.
pub proof fn lemma_flat_len(j: JsonView, key: Option<Seq<char>>, depth: int, comma: bool)
    ensures
        flat_val(j, key, depth, comma).len() == count_lines(j),
    decreases j,
{
    match j {
        JsonView::Array(cs) => lemma_flat_arr_len(cs, depth + 1),
        JsonView::Object(es) => lemma_flat_obj_len(es, depth + 1),
        _ => {},
    }
}

proof fn lemma_flat_arr_len(cs: Seq<JsonView>, depth: int)
    ensures
        flat_arr(cs, depth).len() == crate::linear::count_arr(cs),
    decreases cs,
{
    if cs.len() > 0 {
        lemma_flat_len(cs[0], None, depth, cs.len() > 1);
        lemma_flat_arr_len(cs.drop_first(), depth);
    }
}

proof fn lemma_flat_obj_len(es: Seq<(Seq<char>, JsonView)>, depth: int)
    ensures
        flat_obj(es, depth).len() == crate::linear::count_obj(es),
    decreases es,
{
    if es.len() > 0 {
        lemma_flat_len(es[0].1, Some(es[0].0), depth, es.len() > 1);
        lemma_flat_obj_len(es.drop_first(), depth);
    }
}

/// The container with its first child removed.
pub open spec fn tail_of(j: JsonView) -> JsonView {
    match j {
        JsonView::Array(cs) => JsonView::Array(cs.drop_first()),
        JsonView::Object(es) => JsonView::Object(es.drop_first()),
        _ => j,
    }
}

/// A child-prefix sum splits off the first child.
pub proof fn lemma_count_first_shift(j: JsonView, k: int)
    requires
        j.is_container(),
        1 <= k <= j.child_count(),
    ensures
        count_first(j, k) == count_lines(j.child(0)) + count_first(tail_of(j), k - 1),
    decreases k,
{
    reveal_with_fuel(count_first, 3);
    if k == 1 {
    } else {
        lemma_count_first_shift(j, k - 1);
        assert(tail_of(j).child(k - 2) == j.child(k - 1));
    }
}

/// Within a container's flattened children, the lines of child `i` begin at
/// the prefix sum of the children before it.
pub proof fn lemma_flat_kids_index(j: JsonView, depth: int, i: int, r: int)
    requires
        j.is_container(),
        0 <= i < j.child_count(),
        0 <= r < count_lines(j.child(i)),
    ensures
        flat_kids(j, depth)[count_first(j, i) + r] == flat_val(
            j.child(i),
            j.key(i),
            depth,
            i + 1 < j.child_count(),
        )[r],
    decreases i,
{
    lemma_count_pos(j.child(0));
    lemma_flat_len(j.child(0), j.key(0), depth, 1 < j.child_count());
    if i == 0 {
        match j {
            JsonView::Array(cs) => {
                lemma_flat_len(cs[0], None, depth, cs.len() > 1);
                assert(flat_kids(j, depth)[r] == flat_val(cs[0], None, depth, cs.len() > 1)[r]);
            },
            JsonView::Object(es) => {
                lemma_flat_len(es[0].1, Some(es[0].0), depth, es.len() > 1);
                assert(flat_kids(j, depth)[r] == flat_val(
                    es[0].1,
                    Some(es[0].0),
                    depth,
                    es.len() > 1,
                )[r]);
            },
            _ => {},
        }
    } else {
        let t = tail_of(j);
        lemma_count_first_shift(j, i);
        lemma_count_first_mono(t, 0, i - 1);
        lemma_flat_kids_index(t, depth, i - 1, r);
        assert(t.child(i - 1) == j.child(i));
        assert(t.key(i - 1) == j.key(i));
        assert(t.child_count() == j.child_count() - 1);
        lemma_flat_kids_len(t, depth);
        assert(count_first(t, i - 1) + count_lines(t.child(i - 1)) == count_first(t, i));
        lemma_count_first_mono(t, i, t.child_count());
        let head_len = count_lines(j.child(0));
        match j {
            JsonView::Array(cs) => {
                lemma_flat_len(cs[0], None, depth, cs.len() > 1);
                assert(flat_kids(j, depth) == flat_val(cs[0], None, depth, cs.len() > 1)
                    + flat_kids(t, depth));
                assert(flat_kids(j, depth)[count_first(j, i) + r] == flat_kids(t, depth)[
                    count_first(t, i - 1) + r
                ]);
            },
            JsonView::Object(es) => {
                lemma_flat_len(es[0].1, Some(es[0].0), depth, es.len() > 1);
                assert(flat_kids(j, depth) == flat_val(es[0].1, Some(es[0].0), depth, es.len() > 1)
                    + flat_kids(t, depth));
                assert(flat_kids(j, depth)[count_first(j, i) + r] == flat_kids(t, depth)[
                    count_first(t, i - 1) + r
                ]);
            },
            _ => {},
        }
    }
}

/// The flattened children of a container are as many lines as all its
/// children count.
pub proof fn lemma_flat_kids_len(j: JsonView, depth: int)
    requires
        j.is_container(),
    ensures
        flat_kids(j, depth).len() == count_first(j, j.child_count()),
{
    match j {
        JsonView::Array(cs) => {
            lemma_flat_arr_len(cs, depth);
            crate::linear::lemma_count_first_arr(cs, cs.len() as int);
            assert(cs.take(cs.len() as int) =~= cs);
        },
        JsonView::Object(es) => {
            lemma_flat_obj_len(es, depth);
            crate::linear::lemma_count_first_obj(es, es.len() as int);
            assert(es.take(es.len() as int) =~= es);
        },
        _ => {},
    }
}

/// The line at a position's offset within a flattened value is exactly the
/// line the cursor would show there.
pub proof fn lemma_flat_index(
    j: JsonView,
    inds: Seq<int>,
    sub: FocusPosition,
    key: Option<Seq<char>>,
    depth: int,
    comma: bool,
)
    requires
        valid_inds(j, inds),
        sub_ok(node_at(j, inds), sub),
    ensures
        flat_val(j, key, depth, comma)[offset_in(j, inds, sub)] == line_pos(
            j,
            inds,
            sub,
            key,
            depth,
            comma,
        ),
    decreases inds.len(),
{
    lemma_flat_len(j, key, depth, comma);
    lemma_count_pos(j);
    if inds.len() == 0 {
        if j.is_container() {
            lemma_flat_kids_len(j, depth + 1);
            lemma_count_container(j);
        }
    } else {
        let i0 = inds[0];
        let child = j.child(i0);
        lemma_offset_bounds(child, inds.drop_first(), sub);
        lemma_flat_kids_len(j, depth + 1);
        lemma_count_container(j);
        lemma_count_first_mono(j, 0, i0);
        lemma_count_first_mono(j, i0 + 1, j.child_count());
        assert(count_first(j, i0 + 1) == count_first(j, i0) + count_lines(child));
        let off = offset_in(j, inds, sub);
        let r = offset_in(child, inds.drop_first(), sub);
        lemma_flat_kids_index(j, depth + 1, i0, r);
        lemma_flat_len(child, j.key(i0), depth + 1, i0 + 1 < j.child_count());
        assert(flat_val(j, key, depth, comma)[off] == flat_kids(j, depth + 1)[
            count_first(j, i0) + r
        ]);
        lemma_flat_index(child, inds.drop_first(), sub, j.key(i0), depth + 1, i0 + 1
            < j.child_count());
    }
}

/// The lines of root `t` begin at the prefix sum of the roots before it.
pub proof fn lemma_flat_roots_index(roots: Seq<JsonView>, t: int, r: int)
    requires
        0 <= t < roots.len(),
        0 <= r < count_lines(roots[t]),
    ensures
        flat_roots(roots)[count_roots(roots, t) + r] == flat_val(roots[t], None, 0, false)[r],
    decreases t,
{
    lemma_count_pos(roots[0]);
    lemma_flat_len(roots[0], None, 0, false);
    if t == 0 {
        assert(flat_roots(roots)[r] == flat_val(roots[0], None, 0, false)[r]);
    } else {
        let rest = roots.drop_first();
        lemma_count_roots_shift(roots, t);
        crate::linear::lemma_count_roots_mono(rest, 0, t - 1);
        lemma_flat_roots_index(rest, t - 1, r);
        assert(rest[t - 1] == roots[t]);
        lemma_flat_roots_len(rest);
        assert(count_roots(rest, t - 1) + count_lines(rest[t - 1]) == count_roots(rest, t));
        crate::linear::lemma_count_roots_mono(rest, t, rest.len() as int);
        assert(flat_roots(roots)[count_roots(roots, t) + r] == flat_roots(rest)[
            count_roots(rest, t - 1) + r
        ]);
    }
}

/// A root-prefix sum splits off the first root.
pub proof fn lemma_count_roots_shift(roots: Seq<JsonView>, k: int)
    requires
        1 <= k <= roots.len(),
    ensures
        count_roots(roots, k) == count_lines(roots[0]) + count_roots(roots.drop_first(), k - 1),
    decreases k,
{
    reveal_with_fuel(count_roots, 3);
    if k == 1 {
    } else {
        lemma_count_roots_shift(roots, k - 1);
        assert(roots.drop_first()[k - 2] == roots[k - 1]);
    }
}

/// The whole flattening is as long as the whole rendering counts.
pub proof fn lemma_flat_roots_len(roots: Seq<JsonView>)
    ensures
        flat_roots(roots).len() == crate::linear::total_lines(roots),
    decreases roots,
{
    if roots.len() > 0 {
        lemma_flat_len(roots[0], None, 0, false);
        lemma_flat_roots_len(roots.drop_first());
        lemma_count_roots_shift(roots, roots.len() as int);
    }
}

/// The line a well-formed position shows, with nothing folded, is the line at
/// its index in the reference flattening.
pub proof fn lemma_line_at_flat(roots: Seq<JsonView>, p: crate::model::PathView)
    requires
        crate::model::wf_pos(roots, p),
    ensures
        crate::lines::line_at(roots, Set::empty(), p) == flat_roots(roots)[crate::linear::index_of(
            roots,
            p,
        )],
{
    let root = roots[p.top];
    lemma_offset_bounds(root, p.inds, p.sub);
    lemma_flat_roots_index(roots, p.top, offset_in(root, p.inds, p.sub));
    lemma_flat_index(root, p.inds, p.sub, None, 0, false);
    crate::lines::lemma_line_pos_folded(root, p.inds, p.sub, None, 0, false);
    assert(!Set::<(int, Seq<int>)>::empty().contains(p.fold_key()));
}

} // verus!

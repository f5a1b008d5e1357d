//! The library's laws: properties of the stepping protocol, stated over the
//! position model and proved once and for all.

use vstd::prelude::*;

use crate::cursor::FocusPosition;
use crate::flat::{flat_roots, lemma_line_at_flat};
use crate::linear::{
    index_of, lemma_advance_index, lemma_count_roots_mono, lemma_index_bounds, lemma_index_last,
    total_lines,
};
use crate::lines::line_at;
use crate::order::{comparable, lemma_inds_common, path_lt};
use crate::model::{
    advance_n, advance_spec, cursor_at, ending_sub, first_pos, folded, last_pos,
    lemma_advance_exhausted, lemma_advance_n_snoc, lemma_advance_wf, lemma_node_at_push,
    lemma_regress_exhausted, lemma_wf_parent, node_at, regress_spec, starting_sub, sub_ok,
    surface, wf_cursor, wf_pos, CursorView, PathView,
};
use crate::value::JsonView;

verus! {

/// Path round trip: a well-formed cursor is exactly the cursor rebuilt over
/// the same roots from its own dehydrated path. Rehydration is total
/// information recovery; only the position survives dehydration, and it
/// suffices.
pub proof fn law_path_roundtrip(c: CursorView)
    requires
        wf_cursor(c),
    ensures
        cursor_at(c.jsons, c.path_of()) == c,
{
}

/// Advance/regress symmetry, forward form: from any position that is not
/// strictly inside a folded container, a successful forward step followed by
/// a backward step returns to exactly the original position.
pub proof fn law_advance_then_regress(
    roots: Seq<JsonView>,
    folds: Set<(int, Seq<int>)>,
    p: PathView,
    q: PathView,
)
    requires
        wf_pos(roots, p),
        surface(folds, p),
        advance_spec(roots, folds, p) == Some(q),
    ensures
        regress_spec(roots, folds, q) == Some(p),
{
    let root = roots[p.top];
    let j = node_at(root, p.inds);
    if p.sub == FocusPosition::Start {
        if folded(folds, p) || j.child_count() == 0 {
            // The closing line of the same container steps back to its
            // opening line.
            assert(regress_spec(roots, folds, q) == Some(p));
        } else {
            // We descended to the first child; stepping back climbs out.
            assert(q.inds.drop_last() =~= p.inds);
            assert(q.inds.last() == 0);
            assert(regress_spec(roots, folds, q) == Some(p));
        }
    } else {
        if p.inds.len() == 0 {
            // We moved to the next root; stepping back re-enters this root at
            // its last line.
            assert(q.inds =~= Seq::<int>::empty());
            assert(p.inds =~= Seq::<int>::empty());
            assert(sub_ok(root, p.sub));
            assert(regress_spec(roots, folds, q) == Some(p));
        } else {
            lemma_wf_parent(root, p.inds);
            let parent = node_at(root, p.inds.drop_last());
            let i = p.inds.last();
            assert(p.inds.drop_last().push(i) =~= p.inds);
            if i + 1 < parent.child_count() {
                // We moved to the next sibling; stepping back returns to this
                // child's last line.
                assert(q.inds.drop_last() =~= p.inds.drop_last());
                assert(q.inds.last() == i + 1);
                assert(ending_sub(parent.child(i)) == p.sub);
                assert(regress_spec(roots, folds, q) == Some(p));
            } else {
                // We closed the parent; stepping back from the parent's
                // closing line descends to its last child, this one.
                assert(q.inds =~= p.inds.drop_last());
                assert(!folds.contains((p.top, p.inds.take(p.inds.len() - 1))));
                assert(p.inds.take(p.inds.len() - 1) =~= p.inds.drop_last());
                assert(!folded(folds, q));
                assert(parent.child_count() == i + 1);
                assert(ending_sub(parent.child(i)) == p.sub);
                assert(regress_spec(roots, folds, q) == Some(p));
            }
        }
    }
}

/// Advance/regress symmetry, backward form: from any position that is not
/// strictly inside a folded container, a successful backward step followed by
/// a forward step returns to exactly the original position.
pub proof fn law_regress_then_advance(
    roots: Seq<JsonView>,
    folds: Set<(int, Seq<int>)>,
    p: PathView,
    q: PathView,
)
    requires
        wf_pos(roots, p),
        surface(folds, p),
        regress_spec(roots, folds, p) == Some(q),
    ensures
        advance_spec(roots, folds, q) == Some(p),
{
    let root = roots[p.top];
    let j = node_at(root, p.inds);
    if p.sub == FocusPosition::End {
        if folded(folds, p) || j.child_count() == 0 {
            assert(advance_spec(roots, folds, q) == Some(p));
        } else {
            // We descended to the last child; stepping forward closes the
            // container again.
            let n = j.child_count();
            assert(q.inds.drop_last() =~= p.inds);
            assert(q.inds.last() == n - 1);
            lemma_node_at_push(root, p.inds, n - 1);
            assert(advance_spec(roots, folds, q) == Some(p));
        }
    } else {
        if p.inds.len() == 0 {
            // We moved to the previous root; stepping forward re-enters this
            // root at its first line.
            assert(q.inds =~= Seq::<int>::empty());
            assert(p.inds =~= Seq::<int>::empty());
            assert(sub_ok(root, p.sub));
            assert(advance_spec(roots, folds, q) == Some(p));
        } else {
            lemma_wf_parent(root, p.inds);
            let parent = node_at(root, p.inds.drop_last());
            let i = p.inds.last();
            assert(p.inds.drop_last().push(i) =~= p.inds);
            if i > 0 {
                // We moved to the previous sibling; stepping forward returns
                // to this child's first line.
                assert(q.inds.drop_last() =~= p.inds.drop_last());
                assert(q.inds.last() == i - 1);
                assert(starting_sub(parent.child(i)) == p.sub);
                assert(advance_spec(roots, folds, q) == Some(p));
            } else {
                // We surfaced at the parent's opening line; stepping forward
                // descends to its first child, this one.
                assert(q.inds =~= p.inds.drop_last());
                assert(!folds.contains((p.top, p.inds.take(p.inds.len() - 1))));
                assert(p.inds.take(p.inds.len() - 1) =~= p.inds.drop_last());
                assert(!folded(folds, q));
                assert(parent.child_count() > 0);
                assert(starting_sub(parent.child(0)) == p.sub);
                assert(advance_spec(roots, folds, q) == Some(p));
            }
        }
    }
}

/// Strict monotonicity, forward form: a successful forward step lands on a
/// comparable, strictly greater position under the path order.
pub proof fn law_advance_strictly_greater(
    roots: Seq<JsonView>,
    folds: Set<(int, Seq<int>)>,
    p: PathView,
    q: PathView,
)
    requires
        wf_pos(roots, p),
        advance_spec(roots, folds, p) == Some(q),
    ensures
        comparable(p, q),
        path_lt(p, q),
{
    let j = node_at(roots[p.top], p.inds);
    if p.sub == FocusPosition::Start {
        if folded(folds, p) || j.child_count() == 0 {
            lemma_inds_common(
                p.inds,
                Seq::empty(),
                FocusPosition::Start,
                Seq::empty(),
                FocusPosition::End,
            );
            assert(p.inds + Seq::<int>::empty() =~= p.inds);
        } else {
            lemma_inds_common(p.inds, Seq::empty(), FocusPosition::Start, seq![0int], q.sub);
            assert(p.inds + Seq::<int>::empty() =~= p.inds);
            assert(p.inds + seq![0int] =~= q.inds);
        }
    } else {
        if p.inds.len() == 0 {
        } else {
            let i = p.inds.last();
            let parent = node_at(roots[p.top], p.inds.drop_last());
            if i + 1 < parent.child_count() {
                lemma_inds_common(p.inds.drop_last(), seq![i], p.sub, seq![i + 1], q.sub);
                assert(p.inds.drop_last() + seq![i] =~= p.inds);
                assert(p.inds.drop_last() + seq![i + 1] =~= q.inds);
            } else {
                lemma_inds_common(q.inds, seq![i], p.sub, Seq::empty(), FocusPosition::End);
                assert(q.inds + seq![i] =~= p.inds);
                assert(q.inds + Seq::<int>::empty() =~= q.inds);
                lemma_wf_parent(roots[p.top], p.inds);
            }
        }
    }
}

/// Strict monotonicity, backward form: a successful backward step lands on a
/// comparable, strictly smaller position under the path order.
pub proof fn law_regress_strictly_smaller(
    roots: Seq<JsonView>,
    folds: Set<(int, Seq<int>)>,
    p: PathView,
    q: PathView,
)
    requires
        wf_pos(roots, p),
        regress_spec(roots, folds, p) == Some(q),
    ensures
        comparable(q, p),
        path_lt(q, p),
{
    let j = node_at(roots[p.top], p.inds);
    if p.sub == FocusPosition::End {
        if folded(folds, p) || j.child_count() == 0 {
            lemma_inds_common(
                p.inds,
                Seq::empty(),
                FocusPosition::Start,
                Seq::empty(),
                FocusPosition::End,
            );
            assert(p.inds + Seq::<int>::empty() =~= p.inds);
        } else {
            let n = j.child_count();
            lemma_inds_common(p.inds, seq![n - 1], q.sub, Seq::empty(), FocusPosition::End);
            assert(p.inds + Seq::<int>::empty() =~= p.inds);
            assert(p.inds + seq![n - 1] =~= q.inds);
        }
    } else {
        if p.inds.len() == 0 {
        } else {
            let i = p.inds.last();
            let parent = node_at(roots[p.top], p.inds.drop_last());
            if i > 0 {
                lemma_inds_common(p.inds.drop_last(), seq![i - 1], q.sub, seq![i], p.sub);
                assert(p.inds.drop_last() + seq![i] =~= p.inds);
                assert(p.inds.drop_last() + seq![i - 1] =~= q.inds);
            } else {
                lemma_inds_common(q.inds, Seq::empty(), FocusPosition::Start, seq![i], p.sub);
                assert(q.inds + seq![i] =~= p.inds);
                assert(q.inds + Seq::<int>::empty() =~= q.inds);
                lemma_wf_parent(roots[p.top], p.inds);
            }
        }
    }
}

/// Fold skip: from the opening line of a folded container, a single forward
/// step lands exactly on that container's closing line, regardless of child
/// count or nesting depth.
pub proof fn law_fold_skip(
    roots: Seq<JsonView>,
    folds: Set<(int, Seq<int>)>,
    p: PathView,
)
    requires
        wf_pos(roots, p),
        p.sub == FocusPosition::Start,
        folds.contains(p.fold_key()),
    ensures
        advance_spec(roots, folds, p) == Some(
            PathView { top: p.top, inds: p.inds, sub: FocusPosition::End },
        ),
{
}

/// Boundary: a backward step fails exactly at the very first position, and a
/// forward step fails exactly at the very last position.
pub proof fn law_boundary(
    roots: Seq<JsonView>,
    folds: Set<(int, Seq<int>)>,
    p: PathView,
)
    requires
        wf_pos(roots, p),
    ensures
        regress_spec(roots, folds, p) is None <==> p == first_pos(roots),
        advance_spec(roots, folds, p) is None <==> p == last_pos(roots),
{
    lemma_advance_exhausted(roots, folds, p);
    lemma_regress_exhausted(roots, folds, p);
}

/// Line-sequence equivalence: with nothing folded, stepping forward from the
/// first position visits, in order, exactly the lines of the reference
/// flattening — the `n`-th step stands on the `n`-th line and shows it.
pub proof fn law_line_sequence(roots: Seq<JsonView>, n: nat)
    requires
        roots.len() > 0,
        n < total_lines(roots),
    ensures
        advance_n(roots, Set::empty(), first_pos(roots), n) matches Some(p) && {
            &&& wf_pos(roots, p)
            &&& index_of(roots, p) == n
            &&& line_at(roots, Set::empty(), p) == flat_roots(roots)[n as int]
        },
    decreases n,
{
    let folds = Set::<(int, Seq<int>)>::empty();
    let first = first_pos(roots);
    if n == 0 {
        assert(first.inds =~= Seq::<int>::empty());
        assert(wf_pos(roots, first));
        assert(index_of(roots, first) == 0);
        lemma_line_at_flat(roots, first);
    } else {
        law_line_sequence(roots, (n - 1) as nat);
        let p = advance_n(roots, folds, first, (n - 1) as nat)->Some_0;
        lemma_advance_exhausted(roots, folds, p);
        if p == last_pos(roots) {
            lemma_index_last(roots, p);
            assert(false);
        }
        let q = advance_spec(roots, folds, p)->Some_0;
        lemma_advance_n_snoc(roots, folds, first, n);
        lemma_advance_wf(roots, folds, p, q);
        lemma_advance_index(roots, folds, p, q);
        assert(!folded(folds, p));
        lemma_line_at_flat(roots, q);
    }
}

/// Line-sequence equivalence, tail end: the traversal from the first position
/// is exhausted exactly after the last line of the reference flattening, so
/// the two sequences have the same length.
pub proof fn law_line_sequence_end(roots: Seq<JsonView>)
    requires
        roots.len() > 0,
    ensures
        total_lines(roots) >= 1,
        advance_n(roots, Set::empty(), first_pos(roots), (total_lines(roots) - 1) as nat)
            matches Some(p) && advance_spec(roots, Set::empty(), p) is None,
{
    let folds = Set::<(int, Seq<int>)>::empty();
    lemma_count_roots_mono(roots, 0, roots.len() as int);
    let n = (total_lines(roots) - 1) as nat;
    law_line_sequence(roots, n);
    let p = advance_n(roots, folds, first_pos(roots), n)->Some_0;
    match advance_spec(roots, folds, p) {
        None => {},
        Some(q) => {
            lemma_advance_wf(roots, folds, p, q);
            lemma_advance_index(roots, folds, p, q);
            lemma_index_bounds(roots, q);
            assert(false);
        },
    }
}

} // verus!

//! The total order on paths that underlies visibility computations: positions
//! compare by root index, then lexicographically by child indices; where one
//! index sequence is a strict prefix of the other, the shorter path's
//! sub-position breaks the tie (its opening line sorts before everything
//! inside, its closing line after). Two paths that diverge at a scalar
//! sub-position describe different root shapes and are not comparable.

use vstd::prelude::*;

use crate::cursor::{FocusPosition, Path};
use crate::model::PathView;

verus! {

/// Start sorts before Value, Value before End.
pub open spec fn sub_rank(sub: FocusPosition) -> int {
    match sub {
        FocusPosition::Start => 0,
        FocusPosition::Value => 1,
        FocusPosition::End => 2,
    }
}

/// Whether two index sequences (with their sub-positions) describe a
/// navigable relationship: they may only diverge at an index, not by one
/// being a strict prefix of the other ending in a scalar line.
pub open spec fn comparable_inds(
    a: Seq<int>,
    asub: FocusPosition,
    b: Seq<int>,
    bsub: FocusPosition,
) -> bool
    decreases a.len(),
{
    if a.len() == 0 && b.len() == 0 {
        true
    } else if a.len() == 0 {
        asub != FocusPosition::Value
    } else if b.len() == 0 {
        bsub != FocusPosition::Value
    } else {
        a[0] != b[0] || comparable_inds(a.drop_first(), asub, b.drop_first(), bsub)
    }
}

/// The strict order on index sequences with sub-position tie-breaking.
pub open spec fn inds_lt(
    a: Seq<int>,
    asub: FocusPosition,
    b: Seq<int>,
    bsub: FocusPosition,
) -> bool
    decreases a.len(),
{
    if a.len() == 0 && b.len() == 0 {
        sub_rank(asub) < sub_rank(bsub)
    } else if a.len() == 0 {
        asub == FocusPosition::Start
    } else if b.len() == 0 {
        bsub == FocusPosition::End
    } else {
        a[0] < b[0] || (a[0] == b[0] && inds_lt(a.drop_first(), asub, b.drop_first(), bsub))
    }
}

/// Whether two positions are comparable.
pub open spec fn comparable(p: PathView, q: PathView) -> bool {
    p.top != q.top || comparable_inds(p.inds, p.sub, q.inds, q.sub)
}

/// The strict total order on comparable positions.
pub open spec fn path_lt(p: PathView, q: PathView) -> bool {
    p.top < q.top || (p.top == q.top && inds_lt(p.inds, p.sub, q.inds, q.sub))
}

/// Both the order and comparability ignore a shared prefix.
pub proof fn lemma_inds_common(
    c: Seq<int>,
    a: Seq<int>,
    asub: FocusPosition,
    b: Seq<int>,
    bsub: FocusPosition,
)
    ensures
        inds_lt(c + a, asub, c + b, bsub) == inds_lt(a, asub, b, bsub),
        comparable_inds(c + a, asub, c + b, bsub) == comparable_inds(a, asub, b, bsub),
    decreases c.len(),
{
    if c.len() == 0 {
        assert(c + a =~= a);
        assert(c + b =~= b);
    } else {
        assert((c + a).len() > 0);
        assert((c + b).len() > 0);
        assert((c + a)[0] == c[0]);
        assert((c + b)[0] == c[0]);
        assert((c + a).drop_first() =~= c.drop_first() + a);
        assert((c + b).drop_first() =~= c.drop_first() + b);
        lemma_inds_common(c.drop_first(), a, asub, b, bsub);
    }
}

impl Path {
    /// Whether this position sorts strictly before `other`. The two paths
    /// must be comparable: positions derived over the same roots always are.
    pub fn lt(&self, other: &Path) -> (r: bool)
        requires
            comparable(self@, other@),
        ensures
            r == path_lt(self@, other@),
    {
        if self.top_index != other.top_index {
            return self.top_index < other.top_index;
        }
        let a = &self.frames;
        let b = &other.frames;
        let ghost av = self@.inds;
        let ghost bv = other@.inds;
        let mut i: usize = 0;
        proof {
            assert(av.skip(0) =~= av);
            assert(bv.skip(0) =~= bv);
        }
        while i < a.len() && i < b.len()
            invariant
                self.top_index == other.top_index,
                i <= av.len(),
                i <= bv.len(),
                av.len() == a@.len(),
                bv.len() == b@.len(),
                av == self@.inds,
                bv == other@.inds,
                forall|j: int| 0 <= j < av.len() ==> av[j] == a@[j] as int,
                forall|j: int| 0 <= j < bv.len() ==> bv[j] == b@[j] as int,
                inds_lt(av.skip(i as int), self@.sub, bv.skip(i as int), other@.sub) == inds_lt(
                    av,
                    self@.sub,
                    bv,
                    other@.sub,
                ),
                forall|j: int| 0 <= j < i ==> av[j] == bv[j],
            decreases a@.len() - i,
        {
            if a[i] != b[i] {
                proof {
                    assert(av.skip(i as int)[0] == av[i as int]);
                    assert(bv.skip(i as int)[0] == bv[i as int]);
                }
                return a[i] < b[i];
            }
            i = i + 1;
            proof {
                assert(av.skip(i - 1).drop_first() =~= av.skip(i as int));
                assert(bv.skip(i - 1).drop_first() =~= bv.skip(i as int));
            }
        }
        proof {
            if i == a@.len() {
                assert(av.skip(i as int) =~= Seq::<int>::empty());
            }
            if i == b@.len() {
                assert(bv.skip(i as int) =~= Seq::<int>::empty());
            }
        }
        if i == a.len() && i == b.len() {
            sub_before(self.focus_position, other.focus_position)
        } else if i == a.len() {
            matches!(self.focus_position, FocusPosition::Start)
        } else {
            matches!(other.focus_position, FocusPosition::End)
        }
    }

    /// Whether this position sorts before `other` or equals it.
    pub fn le(&self, other: &Path) -> (r: bool)
        requires
            comparable(self@, other@),
        ensures
            r == (path_lt(self@, other@) || self@ == other@),
    {
        if self.lt(other) {
            true
        } else {
            self.eq(other)
        }
    }
}

/// Whether `a`'s line of a node sorts before `b`'s line of the same node.
fn sub_before(a: FocusPosition, b: FocusPosition) -> (r: bool)
    ensures
        r == (sub_rank(a) < sub_rank(b)),
{
    match (a, b) {
        (FocusPosition::Start, FocusPosition::Value) => true,
        (FocusPosition::Start, FocusPosition::End) => true,
        (FocusPosition::Value, FocusPosition::End) => true,
        _ => false,
    }
}

} // verus!

//! Clock reconvergence: two clock paths followed back to where they last ran together.

use vstd::prelude::*;
use crate::float32::F32;
use crate::levels;
use crate::search;
use crate::search::{Path, SearchView, Sought, Tag};

verus! {

/// Tags that differ in nothing a path is found by.
pub open spec fn tagged_alike(a: Tag, b: Tag) -> bool {
    &&& a.rf == b.rf
    &&& a.mm == b.mm
    &&& a.clk_edge == b.clk_edge
    &&& a.is_clock == b.is_clock
    &&& match (a.crpr, b.crpr) {
        (Some(x), Some(y)) => x.vertex == y.vertex,
        (None, None) => true,
        _ => false,
    }
}

/// The arrival of path `p.1` at vertex `p.0` came from path `q.1` at vertex `q.0`: the first there
/// that is tagged as it says.
pub open spec fn came_from(paths: Seq<Seq<Path>>, p: (int, int), q: (int, int)) -> bool {
    &&& paths[p.0][p.1].prev matches Some(prev) && {
        &&& q.0 == prev.vertex
        &&& 0 <= q.1 < paths[q.0].len()
        &&& tagged_alike(paths[q.0][q.1].tag, prev.tag)
        &&& forall|k: int| 0 <= k < q.1 ==> !tagged_alike((#[trigger] paths[q.0][k]).tag, prev.tag)
    }
}

/// Paths each of which came from the next.
pub open spec fn followed_back(paths: Seq<Seq<Path>>, chain: Seq<(int, int)>) -> bool {
    forall|k: int, l: int|
        0 <= k && l == k + 1 && l < chain.len() ==> came_from(paths, #[trigger] chain[k], #[trigger] chain[l])
}

/// Nothing came before a path.
pub open spec fn starts(paths: Seq<Seq<Path>>, p: (int, int)) -> bool {
    forall|q: (int, int)| !#[trigger] came_from(paths, p, q)
}

/// The places in two chains that are at the same vertex.
pub open spec fn meet(s: Seq<(int, int)>, t: Seq<(int, int)>, x: int, y: int) -> bool {
    &&& 0 <= x < s.len()
    &&& 0 <= y < t.len()
    &&& s[x].0 == t[y].0
}

/// The first path at a vertex of the opposite min/max: of the same transition, clock edge and kind.
pub open spec fn opposite(paths: Seq<Path>, i: int, j: int) -> bool {
    let t = paths[i].tag;
    &&& 0 <= j < paths.len()
    &&& across(paths[j].tag, t)
    &&& forall|k: int| 0 <= k < j ==> !across((#[trigger] paths[k]).tag, t)
}

pub open spec fn across(a: Tag, b: Tag) -> bool {
    a.mm + b.mm == 1 && a.rf == b.rf && a.clk_edge == b.clk_edge && a.is_clock == b.is_clock
}

/// How far apart a path and the one of the opposite min/max arrive; 0 for a path without one.
pub open spec fn apart(paths: Seq<Path>, i: int, spread: F32) -> bool {
    &&& forall|j: int| #[trigger]
        opposite(paths, i, j) ==> spread == (paths[i].arrival - paths[j].arrival).abs_value()
    &&& (forall|j: int| !#[trigger] opposite(paths, i, j)) ==> spread == (paths[i].arrival
        - paths[i].arrival).abs_value()
}

/// The lesser of two numbers; one that is no number gives way.
pub open spec fn lesser(x: F32, y: F32, c: F32) -> bool {
    &&& c == x || c == y
    &&& !x.is_lt(c)
    &&& !y.is_lt(c)
    &&& c.nan() ==> x.nan() && y.nan()
}

/// The path before one is the one it came from.
pub proof fn lemma_path_before(s: SearchView, paths: Seq<Seq<Path>>, p: (int, int))
    requires
        s.can_back_up(paths),
        s.has_path(paths, p.0, p.1),
    ensures
        s.prev_path(paths, p.0, p.1) matches Some(q) ==> came_from(paths, p, q),
        s.prev_path(paths, p.0, p.1) is None ==> starts(paths, p),
        forall|q: (int, int)| #[trigger]
            came_from(paths, p, q) ==> s.prev_path(paths, p.0, p.1) == Some(q) && s.has_path(paths, q.0, q.1)
                && levels::levels(s.g)[q.0] < levels::levels(s.g)[p.0],
{
    s.lemma_prev_path(paths, p.0, p.1);
    if let Some(prev) = paths[p.0][p.1].prev {
        let there = paths[prev.vertex as int];
        let sought = Sought::Same(prev.tag);
        search::lemma_first(there, sought, 0);
        assert forall|k: int| 0 <= k < there.len() implies (sought.fits((#[trigger] there[k]).tag)
            <==> tagged_alike(there[k].tag, prev.tag)) by {}
        assert forall|q: (int, int)| #[trigger] came_from(paths, p, q) implies s.prev_path(paths, p.0, p.1) == Some(
            q,
        ) by {
            assert(sought.fits(there[q.1].tag));
            match search::first(there, sought, 0) {
                Some(j) => {
                    if j < q.1 {
                        assert(!tagged_alike(paths[q.0][j].tag, prev.tag));
                    } else if q.1 < j {
                        assert(!sought.fits(there[q.1].tag));
                    }
                },
                None => {},
            }
        }
        if let Some(j) = search::first(there, sought, 0) {
            assert forall|k: int| 0 <= k < j implies !tagged_alike(
                (#[trigger] paths[prev.vertex as int][k]).tag,
                prev.tag,
            ) by {
                assert(!sought.fits(there[k].tag));
            }
            assert(came_from(paths, p, (prev.vertex as int, j)));
        }
    }
}

/// Along paths followed back every path is there, and the level falls.
proof fn lemma_levels_fall(s: SearchView, paths: Seq<Seq<Path>>, chain: Seq<(int, int)>, k: int)
    requires
        s.can_back_up(paths),
        followed_back(paths, chain),
        0 <= k < chain.len(),
        s.has_path(paths, chain[0].0, chain[0].1),
    ensures
        s.has_path(paths, chain[k].0, chain[k].1),
        k > 0 ==> levels::levels(s.g)[chain[k].0] < levels::levels(s.g)[chain[0].0],
    decreases k,
{
    if k > 0 {
        lemma_levels_fall(s, paths, chain, k - 1);
        lemma_path_before(s, paths, chain[k - 1]);
        assert(came_from(paths, chain[k - 1], chain[k]));
    }
}

proof fn lemma_rest_of_chain(paths: Seq<Seq<Path>>, chain: Seq<(int, int)>)
    requires
        followed_back(paths, chain),
        chain.len() > 1,
    ensures
        followed_back(paths, chain.skip(1)),
{
    let rest = chain.skip(1);
    assert forall|k: int, l: int| 0 <= k && l == k + 1 && l < rest.len() implies came_from(
        paths,
        #[trigger] rest[k],
        #[trigger] rest[l],
    ) by {
        assert(came_from(paths, chain[k + 1], chain[l + 1]));
    }
}

/// The spread that a credit is made of.
pub(crate) proof fn lemma_spread(s: SearchView, paths: Seq<Seq<Path>>, v: int, i: int)
    requires
        s.can_back_up(paths),
        s.has_path(paths, v, i),
    ensures
        forall|x: F32| #[trigger] apart(paths[v], i, x) ==> x == s.arrival_spread(paths, v, i),
        apart(paths[v], i, s.arrival_spread(paths, v, i)),
{
    let here = paths[v];
    let t = here[i].tag;
    let sought = Sought::Opposite(t);
    search::lemma_first(here, sought, 0);
    assert forall|k: int| 0 <= k < here.len() implies (sought.fits((#[trigger] here[k]).tag) <==> across(
        here[k].tag,
        t,
    )) by {}
    match search::first(here, sought, 0) {
        Some(j) => {
            assert forall|k: int| 0 <= k < j implies !across((#[trigger] here[k]).tag, t) by {
                assert(!sought.fits(here[k].tag));
            }
            assert(opposite(here, i, j));
            assert forall|l: int| #[trigger] opposite(here, i, l) implies l == j by {
                if l < j {
                    assert(!sought.fits(here[l].tag));
                } else if j < l {
                    assert(!across(here[j].tag, t));
                }
            }
        },
        None => {
            assert forall|l: int| !#[trigger] opposite(here, i, l) by {
                if 0 <= l < here.len() {
                    assert(!sought.fits(here[l].tag));
                }
            }
        },
    }
}

/// Two clock paths followed back to a vertex that both come through, the first that they have in
/// common: their credit is the smaller of how far apart the two minima and maxima arrive there.
pub proof fn lemma_credit_at_the_common_pin(
    s: SearchView,
    paths: Seq<Seq<Path>>,
    source: Seq<(int, int)>,
    target: Seq<(int, int)>,
    x: F32,
    y: F32,
)
    requires
        s.can_back_up(paths),
        source.len() > 0,
        target.len() > 0,
        s.has_path(paths, source[0].0, source[0].1),
        s.has_path(paths, target[0].0, target[0].1),
        followed_back(paths, source),
        followed_back(paths, target),
        meet(source, target, source.len() - 1, target.len() - 1),
        forall|k: int, l: int| #[trigger]
            meet(source, target, k, l) ==> k == source.len() - 1 && l == target.len() - 1,
        apart(paths[source.last().0], source.last().1, x),
        apart(paths[target.last().0], target.last().1, y),
    ensures
        lesser(x, y, s.credit(paths, source[0].0, source[0].1, target[0].0, target[0].1)),
    decreases source.len() + target.len(),
{
    let (p, q) = (source[0], target[0]);
    let (sl, tl) = (levels::levels(s.g)[p.0], levels::levels(s.g)[q.0]);
    lemma_levels_fall(s, paths, source, source.len() - 1);
    lemma_levels_fall(s, paths, target, target.len() - 1);
    lemma_path_before(s, paths, p);
    lemma_path_before(s, paths, q);
    if p.0 == q.0 {
        assert(meet(source, target, 0, 0));
        lemma_spread(s, paths, p.0, p.1);
        lemma_spread(s, paths, q.0, q.1);
        reveal(F32::is_lt);
    } else {
        if source.len() > 1 {
            assert(came_from(paths, source[0], source[1]));
            lemma_rest_of_chain(paths, source);
        }
        if target.len() > 1 {
            assert(came_from(paths, target[0], target[1]));
            lemma_rest_of_chain(paths, target);
        }
        let from = if sl >= tl {
            source.skip(1)
        } else {
            source
        };
        let to = if sl <= tl {
            target.skip(1)
        } else {
            target
        };
        let (a, b) = (source.len() - from.len(), target.len() - to.len());
        assert(from.len() > 0 && to.len() > 0);
        assert forall|k: int, l: int| #[trigger] meet(from, to, k, l) implies k == from.len() - 1 && l == to.len()
            - 1 by {
            assert(meet(source, target, k + a, l + b));
        }
        assert(meet(from, to, from.len() - 1, to.len() - 1)) by {
            assert(meet(source, target, source.len() - 1, target.len() - 1));
        }
        assert(from.last() == source.last() && to.last() == target.last());
        lemma_credit_at_the_common_pin(s, paths, from, to, x, y);
    }
}

/// Two clock paths that have no vertex in common, followed back to where they start, have no credit.
pub proof fn lemma_no_credit_without_a_common_pin(
    s: SearchView,
    paths: Seq<Seq<Path>>,
    source: Seq<(int, int)>,
    target: Seq<(int, int)>,
)
    requires
        s.can_back_up(paths),
        source.len() > 0,
        target.len() > 0,
        s.has_path(paths, source[0].0, source[0].1),
        s.has_path(paths, target[0].0, target[0].1),
        followed_back(paths, source),
        followed_back(paths, target),
        starts(paths, source.last()),
        starts(paths, target.last()),
        forall|k: int, l: int| !#[trigger] meet(source, target, k, l),
    ensures
        s.credit(paths, source[0].0, source[0].1, target[0].0, target[0].1) == F32(0),
    decreases source.len() + target.len(),
{
    let (p, q) = (source[0], target[0]);
    let (sl, tl) = (levels::levels(s.g)[p.0], levels::levels(s.g)[q.0]);
    lemma_path_before(s, paths, p);
    lemma_path_before(s, paths, q);
    assert(!meet(source, target, 0, 0));
    if source.len() > 1 {
        assert(came_from(paths, source[0], source[1]));
        lemma_rest_of_chain(paths, source);
    }
    if target.len() > 1 {
        assert(came_from(paths, target[0], target[1]));
        lemma_rest_of_chain(paths, target);
    }
    let from = if sl >= tl {
        source.skip(1)
    } else {
        source
    };
    let to = if sl <= tl {
        target.skip(1)
    } else {
        target
    };
    if from.len() > 0 && to.len() > 0 {
        let (a, b) = (source.len() - from.len(), target.len() - to.len());
        assert forall|k: int, l: int| !#[trigger] meet(from, to, k, l) by {
            if meet(from, to, k, l) {
                assert(meet(source, target, k + a, l + b));
            }
        }
        lemma_no_credit_without_a_common_pin(s, paths, from, to);
    }
}

/// Every path can be followed back to where it starts.
pub proof fn lemma_back_to_the_start(s: SearchView, paths: Seq<Seq<Path>>, v: int, i: int) -> (chain: Seq<(int, int)>)
    requires
        s.can_back_up(paths),
        s.has_path(paths, v, i),
    ensures
        chain.len() > 0,
        chain[0] == (v, i),
        followed_back(paths, chain),
        starts(paths, chain.last()),
    decreases levels::levels(s.g)[v],
{
    lemma_path_before(s, paths, (v, i));
    match s.prev_path(paths, v, i) {
        None => seq![(v, i)],
        Some((u, j)) => {
            assert(came_from(paths, (v, i), (u, j)));
            let rest = lemma_back_to_the_start(s, paths, u, j);
            let chain = seq![(v, i)] + rest;
            assert forall|k: int, l: int| 0 <= k && l == k + 1 && l < chain.len() implies came_from(
                paths,
                #[trigger] chain[k],
                #[trigger] chain[l],
            ) by {
                assert(chain[l] == rest[l - 1]);
                if k > 0 {
                    assert(chain[k] == rest[k - 1]);
                }
            }
            assert(chain.last() == rest.last());
            chain
        },
    }
}

} // verus!

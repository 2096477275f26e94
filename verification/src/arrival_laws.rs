//! What holds of the arrivals of a search: where each comes from, and that none later (max) or
//! earlier (min) is lost.

use vstd::prelude::*;
use crate::arrivals;
use crate::arrivals::Built;
use crate::delays;
use crate::float32::F32;
use crate::fuzzy;
use crate::liberty::MAX;
use crate::search;
use crate::search::{Path, Prev, SearchView, Sought, Tag};
use crate::topology;

verus! {

impl SearchView {
    /// What arc `k` of edge `e` makes of the `j`th path at the edge's source.
    pub open spec fn candidate(self, paths: Seq<Seq<Path>>, e: int, j: int, k: int) -> Option<Path> {
        let from_v = self.g.edges[e].from;
        let from = paths[from_v as int][j];
        let arc = self.arcs_from(e, from.tag.rf)[k];
        match self.through(from_v, from, e, arc) {
            None => None,
            Some((tag, _, arrival)) => Some(
                Path {
                    tag,
                    arrival,
                    required: F32(0),
                    prev: Some(Prev { vertex: from_v, tag: from.tag, edge: e as usize, arc: arc.index }),
                },
            ),
        }
    }

    /// Arc `k` of edge `e`, walked into `v`, and the `j`th path at its source.
    pub open spec fn offers(self, paths: Seq<Seq<Path>>, v: int, e: int, j: int, k: int) -> bool {
        let from = paths[self.g.edges[e].from as int];
        &&& 0 <= e < self.g.edges.len()
        &&& self.g.edges[e].to == v
        &&& self.walks(e)
        &&& 0 <= j < from.len()
        &&& 0 <= k < self.arcs_from(e, from[j].tag.rf).len()
    }

    /// A path reaches `v` along one of its in-edges.
    pub open spec fn reaches(self, paths: Seq<Seq<Path>>, v: int, p: Path) -> bool {
        exists|e: int, j: int, k: int|
            self.offers(paths, v, e, j, k) && #[trigger] self.candidate(paths, e, j, k) == Some(p)
    }

    /// A path starts at `v`: the clock's edge at its source, or an input delay after the clock's rise.
    pub open spec fn starts(self, v: int, p: Path) -> bool {
        let x = self.g.vertices[v];
        let inputs = search::delay_index(self.sdc.input_delays);
        &&& x.lib is None
        &&& p.prev is None
        &&& p.tag.crpr is None
        &&& p.tag.rf < 2 && p.tag.mm < 2
        &&& if x.name == self.sdc.clock.source {
            &&& p.tag.is_clock
            &&& p.tag.clk_edge == Some(p.tag.rf)
            &&& p.arrival == F32(0) + self.sdc.clock.waveform[p.tag.rf as int]
        } else {
            &&& inputs.contains_key(x.name)
            &&& !p.tag.is_clock
            &&& p.tag.clk_edge == Some(0usize)
            &&& p.arrival == self.sdc.clock.waveform[0] + self.sdc.input_delays[inputs[x.name] as int].delay[p.tag.rf as int][p.tag.mm as int]
        }
    }
}

/// A list of paths that all reach a vertex.
spec fn all_reach(s: SearchView, paths: Seq<Seq<Path>>, v: int, list: Seq<Path>) -> bool {
    forall|i: int| 0 <= i < list.len() ==> s.reaches(paths, v, #[trigger] list[i])
}

/// A list of paths that all reach a vertex or start there.
pub open spec fn all_explained(s: SearchView, paths: Seq<Seq<Path>>, v: int, list: Seq<Path>) -> bool {
    forall|i: int| 0 <= i < list.len() ==> s.reaches(paths, v, #[trigger] list[i]) || s.starts(v, list[i])
}

/// A list holds a path of a tag that `p` does not beat.
pub open spec fn answers(list: Seq<Path>, p: Path) -> bool {
    exists|i: int|
        0 <= i < list.len() && (#[trigger] list[i]).tag.same(p.tag) && !delays::worse(
            p.tag.mm as int,
            p.arrival,
            list[i].arrival,
        )
}

proof fn lemma_offered_reach(s: SearchView, paths: Seq<Seq<Path>>, v: int, b: Built, p: Path, single: bool)
    requires
        all_reach(s, paths, v, b.paths),
        all_reach(s, paths, v, b.winners),
        s.reaches(paths, v, p),
    ensures
        all_reach(s, paths, v, b.offered(p, single).paths),
        all_reach(s, paths, v, b.offered(p, single).winners),
{
    search::lemma_first(b.paths, Sought::Same(p.tag), 0);
    search::lemma_first(b.winners, Sought::Like(p.tag), 0);
}

/// What is offered is answered, and what was answered stays so.
proof fn lemma_offered_answers(b: Built, p: Path, single: bool, earlier: Path)
    ensures
        answers(b.offered(p, single).paths, p),
        answers(b.paths, earlier) ==> answers(b.offered(p, single).paths, earlier),
{
    reveal(F32::is_lt);
    let at = search::first(b.paths, Sought::Same(p.tag), 0);
    search::lemma_first(b.paths, Sought::Same(p.tag), 0);
    let after = b.offered(p, single).paths;
    if arrivals::wins(b.paths, at, p) {
        let i = match at {
            Some(i) => i,
            None => b.paths.len() as int,
        };
        assert(after[i] == p);
        if answers(b.paths, earlier) {
            let j = choose|j: int|
                0 <= j < b.paths.len() && (#[trigger] b.paths[j]).tag.same(earlier.tag) && !delays::worse(
                    earlier.tag.mm as int,
                    earlier.arrival,
                    b.paths[j].arrival,
                );
            if at == Some(j) {
                assert(after[j] == p);
                if delays::worse(earlier.tag.mm as int, earlier.arrival, p.arrival) {
                    if earlier.tag.mm == MAX {
                        fuzzy::lemma_greater_is_transitive(earlier.arrival, p.arrival, b.paths[j].arrival);
                    } else {
                        fuzzy::lemma_less_is_transitive(earlier.arrival, p.arrival, b.paths[j].arrival);
                    }
                }
            } else {
                assert(after[j] == b.paths[j]);
            }
        }
    } else {
        assert(after[at->0] == b.paths[at->0]);
    }
}

proof fn lemma_offer_arcs(
    s: SearchView,
    paths: Seq<Seq<Path>>,
    v: int,
    e: int,
    j: int,
    k: int,
    single: bool,
    b: Built,
    earlier: Path,
)
    requires
        0 <= e < s.g.edges.len(),
        s.g.edges[e].to == v,
        s.walks(e),
        0 <= j < paths[s.g.edges[e].from as int].len(),
        0 <= k,
        all_reach(s, paths, v, b.paths),
        all_reach(s, paths, v, b.winners),
    ensures
        ({
            let from = paths[s.g.edges[e].from as int][j];
            let after = s.offer_arcs(s.g.edges[e].from, from, e, k, single, b);
            &&& all_reach(s, paths, v, after.paths)
            &&& all_reach(s, paths, v, after.winners)
            &&& answers(b.paths, earlier) ==> answers(after.paths, earlier)
            &&& forall|x: int|
                k <= x < s.arcs_from(e, from.tag.rf).len() && (#[trigger] s.candidate(paths, e, j, x)) is Some
                    ==> answers(after.paths, s.candidate(paths, e, j, x)->0)
        }),
    decreases s.arcs_from(e, paths[s.g.edges[e].from as int][j].tag.rf).len() - k,
{
    let from_v = s.g.edges[e].from;
    let from = paths[from_v as int][j];
    let arcs = s.arcs_from(e, from.tag.rf);
    if k < arcs.len() {
        let own = s.candidate(paths, e, j, k);
        let next = match own {
            None => b,
            Some(p) => {
                assert(s.offers(paths, v, e, j, k));
                lemma_offered_reach(s, paths, v, b, p, single);
                lemma_offered_answers(b, p, single, earlier);
                b.offered(p, single)
            },
        };
        assert(s.offer_arcs(from_v, from, e, k, single, b) == s.offer_arcs(from_v, from, e, k + 1, single, next));
        lemma_offer_arcs(s, paths, v, e, j, k + 1, single, next, earlier);
        if let Some(p) = own {
            lemma_offer_arcs(s, paths, v, e, j, k + 1, single, next, p);
        }
    }
}

proof fn lemma_offer_paths(
    s: SearchView,
    paths: Seq<Seq<Path>>,
    v: int,
    e: int,
    j: int,
    single: bool,
    b: Built,
    earlier: Path,
)
    requires
        0 <= e < s.g.edges.len(),
        s.g.edges[e].to == v,
        s.walks(e),
        0 <= j,
        all_reach(s, paths, v, b.paths),
        all_reach(s, paths, v, b.winners),
    ensures
        ({
            let from = paths[s.g.edges[e].from as int];
            let after = s.offer_paths(from, e, j, single, b);
            &&& all_reach(s, paths, v, after.paths)
            &&& all_reach(s, paths, v, after.winners)
            &&& answers(b.paths, earlier) ==> answers(after.paths, earlier)
            &&& forall|y: int, x: int|
                j <= y && s.offers(paths, v, e, y, x) && (#[trigger] s.candidate(paths, e, y, x)) is Some ==> answers(
                    after.paths,
                    s.candidate(paths, e, y, x)->0,
                )
        }),
    decreases paths[s.g.edges[e].from as int].len() - j,
{
    let from = paths[s.g.edges[e].from as int];
    if j < from.len() {
        lemma_offer_arcs(s, paths, v, e, j, 0, single, b, earlier);
        let next = s.offer_arcs(s.g.edges[e].from, from[j], e, 0, single, b);
        lemma_offer_paths(s, paths, v, e, j + 1, single, next, earlier);
        let after = s.offer_paths(from, e, j, single, b);
        assert forall|y: int, x: int|
            j <= y && s.offers(paths, v, e, y, x) && (#[trigger] s.candidate(paths, e, y, x)) is Some implies answers(
            after.paths,
            s.candidate(paths, e, y, x)->0,
        ) by {
            if y == j {
                lemma_offer_paths(s, paths, v, e, j + 1, single, next, s.candidate(paths, e, y, x)->0);
            }
        }
    }
}

proof fn lemma_offer_edges(
    s: SearchView,
    paths: Seq<Seq<Path>>,
    v: int,
    ins: Seq<usize>,
    i: int,
    single: bool,
    b: Built,
    earlier: Path,
)
    requires
        0 <= i <= ins.len(),
        forall|x: int|
            0 <= x < ins.len() ==> (#[trigger] ins[x]) < s.g.edges.len() && s.g.edges[ins[x] as int].to == v,
        all_reach(s, paths, v, b.paths),
        all_reach(s, paths, v, b.winners),
    ensures
        ({
            let after = s.offer_edges(paths, ins, i, single, b);
            &&& all_reach(s, paths, v, after.paths)
            &&& all_reach(s, paths, v, after.winners)
            &&& answers(b.paths, earlier) ==> answers(after.paths, earlier)
            &&& forall|z: int, y: int, x: int|
                0 <= z < i && s.offers(paths, v, ins[z] as int, y, x) && (#[trigger] s.candidate(
                    paths,
                    ins[z] as int,
                    y,
                    x,
                )) is Some ==> answers(after.paths, s.candidate(paths, ins[z] as int, y, x)->0)
        }),
    decreases i,
{
    if i > 0 {
        let e = ins[i - 1] as int;
        assert(ins[i - 1] < s.g.edges.len());
        let from = paths[s.g.edges[e].from as int];
        let next = if s.walks(e) {
            lemma_offer_paths(s, paths, v, e, 0, single, b, earlier);
            s.offer_paths(from, e, 0, single, b)
        } else {
            b
        };
        lemma_offer_edges(s, paths, v, ins, i - 1, single, next, earlier);
        let after = s.offer_edges(paths, ins, i, single, b);
        assert forall|z: int, y: int, x: int|
            0 <= z < i && s.offers(paths, v, ins[z] as int, y, x) && (#[trigger] s.candidate(
                paths,
                ins[z] as int,
                y,
                x,
            )) is Some implies answers(after.paths, s.candidate(paths, ins[z] as int, y, x)->0) by {
            if z == i - 1 {
                lemma_offer_edges(s, paths, v, ins, i - 1, single, next, s.candidate(paths, e, y, x)->0);
            }
        }
    }
}

/// Pruning keeps exactly the paths that are not beaten by more than CRPR could restore.
pub proof fn lemma_pruning(s: SearchView, paths: Seq<Seq<Path>>, winners: Seq<Path>, built: Seq<Path>, q: Path)
    ensures
        arrivals::listed(s.kept(paths, winners, built), q) <==> arrivals::listed(built, q) && s.keeps(
            paths,
            winners,
            q,
        ),
    decreases built.len(),
{
    if built.len() > 0 {
        let less = built.drop_last();
        lemma_pruning(s, paths, winners, less, q);
        let (before, all) = (s.kept(paths, winners, less), s.kept(paths, winners, built));
        if arrivals::listed(less, q) {
            let k = choose|k: int| 0 <= k < less.len() && #[trigger] less[k] == q;
            assert(built[k] == q);
        }
        if arrivals::listed(before, q) {
            let k = choose|k: int| 0 <= k < before.len() && #[trigger] before[k] == q;
            assert(all[k] == q);
        }
        if arrivals::listed(built, q) {
            let k = choose|k: int| 0 <= k < built.len() && #[trigger] built[k] == q;
            if k < less.len() {
                assert(less[k] == q);
            } else if s.keeps(paths, winners, q) {
                assert(all[all.len() - 1] == q);
            }
        }
        if arrivals::listed(all, q) {
            let k = choose|k: int| 0 <= k < all.len() && #[trigger] all[k] == q;
            if k < before.len() {
                assert(before[k] == q);
            } else {
                assert(built[built.len() - 1] == q);
            }
        }
        assert(built[built.len() - 1] == built.last());
    }
}

proof fn lemma_inserted_holds(list: Seq<Path>, p: Path, ids: Seq<usize>, q: Path)
    ensures
        arrivals::listed(arrivals::inserted(list, p, ids), q) <==> q == p || arrivals::listed(list, q),
    decreases list.len(),
{
    let all = arrivals::inserted(list, p, ids);
    if list.len() == 0 || search::key_le(list.last().tag.sort_key(ids), p.tag.sort_key(ids)) {
        assert(all[list.len() as int] == p);
        if arrivals::listed(list, q) {
            let k = choose|k: int| 0 <= k < list.len() && #[trigger] list[k] == q;
            assert(all[k] == q);
        }
        if arrivals::listed(all, q) {
            let k = choose|k: int| 0 <= k < all.len() && #[trigger] all[k] == q;
            if k < list.len() {
                assert(list[k] == q);
            }
        }
    } else {
        let less = list.drop_last();
        let before = arrivals::inserted(less, p, ids);
        lemma_inserted_holds(less, p, ids, q);
        lemma_pushed_holds(before, list.last(), q);
        lemma_pushed_holds(less, list.last(), q);
        assert(less.push(list.last()) =~= list);
    }
}

proof fn lemma_pushed_holds(list: Seq<Path>, p: Path, q: Path)
    ensures
        arrivals::listed(list.push(p), q) <==> q == p || arrivals::listed(list, q),
{
    let all = list.push(p);
    assert(all[list.len() as int] == p);
    if arrivals::listed(list, q) {
        let k = choose|k: int| 0 <= k < list.len() && #[trigger] list[k] == q;
        assert(all[k] == q);
    }
    if arrivals::listed(all, q) {
        let k = choose|k: int| 0 <= k < all.len() && #[trigger] all[k] == q;
        if k < list.len() {
            assert(list[k] == q);
        }
    }
}

/// Putting paths in order neither adds one nor drops one.
pub proof fn lemma_order_keeps_paths(list: Seq<Path>, ids: Seq<usize>, q: Path)
    ensures
        arrivals::listed(arrivals::in_tag_order(list, ids), q) <==> arrivals::listed(list, q),
    decreases list.len(),
{
    if list.len() > 0 {
        let less = list.drop_last();
        lemma_order_keeps_paths(less, ids, q);
        lemma_inserted_holds(arrivals::in_tag_order(less, ids), list.last(), ids, q);
        lemma_pushed_holds(less, list.last(), q);
        assert(less.push(list.last()) =~= list);
    }
}

proof fn lemma_put_explained(s: SearchView, paths: Seq<Seq<Path>>, v: int, list: Seq<Path>, p: Path)
    requires
        all_explained(s, paths, v, list),
        s.starts(v, p),
    ensures
        all_explained(s, paths, v, arrivals::put(list, search::first(list, Sought::Same(p.tag), 0), p)),
{
    search::lemma_first(list, Sought::Same(p.tag), 0);
}

proof fn lemma_clock_seeds(s: SearchView, paths: Seq<Seq<Path>>, v: int, c: int, list: Seq<Path>)
    requires
        all_explained(s, paths, v, list),
        s.g.vertices[v].lib is None,
        s.g.vertices[v].name == s.sdc.clock.source,
    ensures
        all_explained(s, paths, v, s.clock_seeds(c, list)),
    decreases 4 - c,
{
    if 0 <= c < 4 {
        let (mm, rf) = ((c / 2) as usize, (c % 2) as usize);
        let tag = Tag { rf, mm, clk_edge: Some(rf), is_clock: true, crpr: None };
        let arrival = F32(0) + s.sdc.clock.waveform[rf as int];
        lemma_put_explained(s, paths, v, list, Path { tag, arrival, required: F32(0), prev: None });
        lemma_clock_seeds(s, paths, v, c + 1, arrivals::seeded_tag(list, tag, arrival));
    }
}

proof fn lemma_input_seeds(s: SearchView, paths: Seq<Seq<Path>>, v: int, c: int, list: Seq<Path>)
    requires
        all_explained(s, paths, v, list),
        s.g.vertices[v].lib is None,
        s.g.vertices[v].name != s.sdc.clock.source,
        search::delay_index(s.sdc.input_delays).contains_key(s.g.vertices[v].name),
    ensures
        all_explained(
            s,
            paths,
            v,
            s.input_seeds(search::delay_index(s.sdc.input_delays)[s.g.vertices[v].name] as int, c, list),
        ),
    decreases 4 - c,
{
    let d = search::delay_index(s.sdc.input_delays)[s.g.vertices[v].name] as int;
    if 0 <= c < 4 {
        let (mm, rf) = ((c / 2) as usize, (c % 2) as usize);
        let tag = Tag { rf, mm, clk_edge: Some(0), is_clock: false, crpr: None };
        let arrival = s.sdc.clock.waveform[0] + s.sdc.input_delays[d].delay[rf as int][mm as int];
        lemma_put_explained(s, paths, v, list, Path { tag, arrival, required: F32(0), prev: None });
        lemma_input_seeds(s, paths, v, c + 1, arrivals::seeded_tag(list, tag, arrival));
    }
}

/// Every path at a vertex either starts there, at the clock's edge or an input delay after it, or is
/// a path at the source of an edge into the vertex taken through an arc: its arrival is theirs plus
/// the arc's delay.
pub proof fn lemma_arrivals_are_sums(s: SearchView, paths: Seq<Seq<Path>>, v: int)
    requires
        s.g.valid(),
        0 <= v < s.g.vertices.len(),
    ensures
        all_explained(s, paths, v, s.arrivals_at(paths, v)),
{
    let ins = s.g.in_edges[v];
    let b = s.fanin(paths, v);
    crate::graph::lemma_edges_at(s.g.edges, v, true);
    let any = Path {
        tag: Tag { rf: 0, mm: 0, clk_edge: None, is_clock: false, crpr: None },
        arrival: F32(0),
        required: F32(0),
        prev: None,
    };
    lemma_offer_edges(s, paths, v, ins, ins.len() as int, ins.len() == 1, Built::none(), any);
    let kept = s.pruned(paths, v, b);
    assert forall|i: int| 0 <= i < kept.len() implies s.reaches(paths, v, #[trigger] kept[i]) by {
        lemma_pruning(s, paths, b.winners, b.paths, kept[i]);
        assert(arrivals::listed(kept, kept[i]));
        let k = choose|k: int| 0 <= k < b.paths.len() && #[trigger] b.paths[k] == kept[i];
        assert(s.reaches(paths, v, b.paths[k]));
    }
    assert(all_explained(s, paths, v, kept));
    let x = s.g.vertices[v];
    if x.lib is None {
        if x.name == s.sdc.clock.source {
            lemma_clock_seeds(s, paths, v, 0, kept);
        } else if search::delay_index(s.sdc.input_delays).contains_key(x.name) {
            lemma_input_seeds(s, paths, v, 0, kept);
        }
    }
    let seeded = s.seeded(v, kept);
    let all = s.arrivals_at(paths, v);
    assert forall|i: int| 0 <= i < all.len() implies s.reaches(paths, v, #[trigger] all[i]) || s.starts(v, all[i]) by {
        lemma_order_keeps_paths(seeded, s.vertex_id, all[i]);
        assert(arrivals::listed(all, all[i]));
        let k = choose|k: int| 0 <= k < seeded.len() && #[trigger] seeded[k] == all[i];
        assert(s.reaches(paths, v, seeded[k]) || s.starts(v, seeded[k]));
    }
}

/// No arrival is lost at an instance pin: for whatever reaches it, it holds a path of the same tag
/// that is not fuzzily beaten, unless that path was pruned.
pub proof fn lemma_no_arrival_is_lost(s: SearchView, paths: Seq<Seq<Path>>, v: int, e: int, j: int, k: int)
    requires
        s.g.valid(),
        0 <= v < s.g.vertices.len(),
        s.g.vertices[v].lib is Some,
        s.offers(paths, v, e, j, k),
        s.candidate(paths, e, j, k) is Some,
    ensures
        ({
            let p = s.candidate(paths, e, j, k)->0;
            let b = s.fanin(paths, v);
            answers(s.arrivals_at(paths, v), p) || exists|i: int|
                0 <= i < b.paths.len() && (#[trigger] b.paths[i]).tag.same(p.tag) && !s.keeps(
                    paths,
                    b.winners,
                    b.paths[i],
                )
        }),
{
    let ins = s.g.in_edges[v];
    let b = s.fanin(paths, v);
    let p = s.candidate(paths, e, j, k)->0;
    crate::graph::lemma_edges_at(s.g.edges, v, true);
    lemma_offer_edges(s, paths, v, ins, ins.len() as int, ins.len() == 1, Built::none(), p);
    assert(ins.contains(e as usize));
    let z = ins.index_of(e as usize);
    assert(s.candidate(paths, ins[z] as int, j, k) == Some(p));
    assert(answers(b.paths, p));
    let i = choose|i: int|
        0 <= i < b.paths.len() && (#[trigger] b.paths[i]).tag.same(p.tag) && !delays::worse(
            p.tag.mm as int,
            p.arrival,
            b.paths[i].arrival,
        );
    let q = b.paths[i];
    if s.keeps(paths, b.winners, q) {
        let kept = s.pruned(paths, v, b);
        assert(arrivals::listed(b.paths, q));
        lemma_pruning(s, paths, b.winners, b.paths, q);
        lemma_order_keeps_paths(kept, s.vertex_id, q);
        let all = s.arrivals_at(paths, v);
        let x = choose|x: int| 0 <= x < all.len() && #[trigger] all[x] == q;
        assert(all[x].tag.same(p.tag));
    }
}

/// The vertices of an order before the `i`th.
pub open spec fn before(order: Seq<usize>, i: int) -> Set<int> {
    Set::new(|u: int| exists|j: int| 0 <= j < i && j < order.len() && #[trigger] order[j] == u)
}

/// A list whose CRPR clock paths are all at vertices of a set.
spec fn clocked_in(list: Seq<Path>, set: Set<int>) -> bool {
    forall|i: int|
        0 <= i < list.len() ==> ((#[trigger] list[i]).tag.crpr matches Some(c) ==> set.contains(c.vertex as int))
}

/// A vertex is reached from a set alone, and so are its paths' CRPR clock paths.
spec fn rests_on(s: SearchView, paths: Seq<Seq<Path>>, v: int, set: Set<int>) -> bool {
    &&& forall|e: int|
        0 <= e < s.g.edges.len() && (#[trigger] s.g.edges[e]).to == v && s.walks(e) ==> set.contains(
            s.g.edges[e].from as int,
        )
    &&& forall|u: int| set.contains(u) ==> clocked_in(#[trigger] paths[u], set)
}

spec fn agree(a: Seq<Seq<Path>>, b: Seq<Seq<Path>>, set: Set<int>) -> bool {
    forall|u: int| set.contains(u) ==> #[trigger] a[u] == b[u]
}

proof fn lemma_offered_clocked(b: Built, p: Path, single: bool, set: Set<int>)
    requires
        clocked_in(b.paths, set),
        clocked_in(b.winners, set),
        p.tag.crpr matches Some(c) ==> set.contains(c.vertex as int),
    ensures
        clocked_in(b.offered(p, single).paths, set),
        clocked_in(b.offered(p, single).winners, set),
{
    search::lemma_first(b.paths, Sought::Same(p.tag), 0);
    search::lemma_first(b.winners, Sought::Like(p.tag), 0);
}

proof fn lemma_offer_arcs_clocked(
    s: SearchView,
    from_v: usize,
    from: Path,
    e: int,
    k: int,
    single: bool,
    b: Built,
    set: Set<int>,
)
    requires
        clocked_in(b.paths, set),
        clocked_in(b.winners, set),
        set.contains(from_v as int),
        from.tag.crpr matches Some(c) ==> set.contains(c.vertex as int),
    ensures
        clocked_in(s.offer_arcs(from_v, from, e, k, single, b).paths, set),
        clocked_in(s.offer_arcs(from_v, from, e, k, single, b).winners, set),
    decreases s.arcs_from(e, from.tag.rf).len() - k,
{
    let arcs = s.arcs_from(e, from.tag.rf);
    if 0 <= k < arcs.len() {
        let next = match s.through(from_v, from, e, arcs[k]) {
            None => b,
            Some((tag, _, arrival)) => {
                let p = Path {
                    tag,
                    arrival,
                    required: F32(0),
                    prev: Some(Prev { vertex: from_v, tag: from.tag, edge: e as usize, arc: arcs[k].index }),
                };
                lemma_offered_clocked(b, p, single, set);
                b.offered(p, single)
            },
        };
        lemma_offer_arcs_clocked(s, from_v, from, e, k + 1, single, next, set);
    }
}

proof fn lemma_offer_paths_clocked(
    s: SearchView,
    from: Seq<Path>,
    e: int,
    j: int,
    single: bool,
    b: Built,
    set: Set<int>,
)
    requires
        clocked_in(b.paths, set),
        clocked_in(b.winners, set),
        set.contains(s.g.edges[e].from as int),
        clocked_in(from, set),
    ensures
        clocked_in(s.offer_paths(from, e, j, single, b).paths, set),
        clocked_in(s.offer_paths(from, e, j, single, b).winners, set),
    decreases from.len() - j,
{
    if 0 <= j < from.len() {
        lemma_offer_arcs_clocked(s, s.g.edges[e].from, from[j], e, 0, single, b, set);
        let next = s.offer_arcs(s.g.edges[e].from, from[j], e, 0, single, b);
        lemma_offer_paths_clocked(s, from, e, j + 1, single, next, set);
    }
}

proof fn lemma_offer_edges_agree(
    s: SearchView,
    p: Seq<Seq<Path>>,
    q: Seq<Seq<Path>>,
    v: int,
    ins: Seq<usize>,
    i: int,
    single: bool,
    b: Built,
    set: Set<int>,
)
    requires
        0 <= i <= ins.len(),
        forall|x: int|
            0 <= x < ins.len() ==> (#[trigger] ins[x]) < s.g.edges.len() && s.g.edges[ins[x] as int].to == v,
        rests_on(s, p, v, set),
        agree(p, q, set),
        clocked_in(b.paths, set),
        clocked_in(b.winners, set),
    ensures
        s.offer_edges(p, ins, i, single, b) == s.offer_edges(q, ins, i, single, b),
        clocked_in(s.offer_edges(p, ins, i, single, b).paths, set),
        clocked_in(s.offer_edges(p, ins, i, single, b).winners, set),
    decreases i,
{
    if i > 0 {
        let e = ins[i - 1] as int;
        assert(ins[i - 1] < s.g.edges.len() && s.g.edges[e].to == v);
        let u = s.g.edges[e].from as int;
        let next = if s.walks(e) {
            assert(set.contains(u));
            assert(clocked_in(p[u], set));
            assert(p[u] == q[u]);
            lemma_offer_paths_clocked(s, p[u], e, 0, single, b, set);
            s.offer_paths(p[u], e, 0, single, b)
        } else {
            b
        };
        lemma_offer_edges_agree(s, p, q, v, ins, i - 1, single, next, set);
    }
}

proof fn lemma_kept_agrees(
    s: SearchView,
    p: Seq<Seq<Path>>,
    q: Seq<Seq<Path>>,
    winners: Seq<Path>,
    built: Seq<Path>,
    set: Set<int>,
)
    requires
        agree(p, q, set),
        clocked_in(winners, set),
        clocked_in(built, set),
    ensures
        s.kept(p, winners, built) == s.kept(q, winners, built),
        clocked_in(s.kept(p, winners, built), set),
    decreases built.len(),
{
    if built.len() > 0 {
        let less = built.drop_last();
        assert forall|i: int| 0 <= i < less.len() implies ((#[trigger] less[i]).tag.crpr matches Some(c)
            ==> set.contains(c.vertex as int)) by {
            assert(less[i] == built[i]);
        }
        lemma_kept_agrees(s, p, q, winners, less, set);
        let last = built.last();
        assert(last == built[built.len() - 1]);
        search::lemma_first(winners, Sought::Like(last.tag), 0);
        if let Some(i) = search::first(winners, Sought::Like(last.tag), 0) {
            let won = winners[i];
            if let Some(c) = won.tag.crpr {
                assert(p[c.vertex as int] == q[c.vertex as int]);
            }
            assert(s.most_crpr(p, won.tag) == s.most_crpr(q, won.tag));
        }
        assert(s.keeps(p, winners, last) == s.keeps(q, winners, last));
    }
}

proof fn lemma_seeds_clocked(s: SearchView, d: int, c: int, list: Seq<Path>, set: Set<int>)
    requires
        clocked_in(list, set),
    ensures
        clocked_in(s.clock_seeds(c, list), set),
        clocked_in(s.input_seeds(d, c, list), set),
    decreases 4 - c,
{
    if 0 <= c < 4 {
        let (mm, rf) = ((c / 2) as usize, (c % 2) as usize);
        let clock = Tag { rf, mm, clk_edge: Some(rf), is_clock: true, crpr: None };
        search::lemma_first(list, Sought::Same(clock), 0);
        let clock_time = F32(0) + s.sdc.clock.waveform[rf as int];
        lemma_seeds_clocked(s, d, c + 1, arrivals::seeded_tag(list, clock, clock_time), set);
        let input = Tag { rf, mm, clk_edge: Some(0), is_clock: false, crpr: None };
        search::lemma_first(list, Sought::Same(input), 0);
        let input_time = s.sdc.clock.waveform[0] + s.sdc.input_delays[d].delay[rf as int][mm as int];
        lemma_seeds_clocked(s, d, c + 1, arrivals::seeded_tag(list, input, input_time), set);
    }
}

/// A vertex's paths depend on nothing but the paths of the vertices it rests on.
proof fn lemma_arrivals_agree(s: SearchView, p: Seq<Seq<Path>>, q: Seq<Seq<Path>>, v: int, set: Set<int>)
    requires
        s.g.valid(),
        0 <= v < s.g.vertices.len(),
        rests_on(s, p, v, set),
        agree(p, q, set),
    ensures
        s.arrivals_at(p, v) == s.arrivals_at(q, v),
        clocked_in(s.arrivals_at(p, v), set),
{
    let ins = s.g.in_edges[v];
    crate::graph::lemma_edges_at(s.g.edges, v, true);
    lemma_offer_edges_agree(s, p, q, v, ins, ins.len() as int, ins.len() == 1, Built::none(), set);
    let b = s.fanin(p, v);
    lemma_kept_agrees(s, p, q, b.winners, b.paths, set);
    let kept = s.pruned(p, v, b);
    let inputs = search::delay_index(s.sdc.input_delays);
    lemma_seeds_clocked(s, inputs[s.g.vertices[v].name] as int, 0, kept, set);
    let seeded = s.seeded(v, kept);
    let all = s.arrivals_at(p, v);
    assert forall|i: int| 0 <= i < all.len() implies ((#[trigger] all[i]).tag.crpr matches Some(c)
        ==> set.contains(c.vertex as int)) by {
        lemma_order_keeps_paths(seeded, s.vertex_id, all[i]);
        assert(arrivals::listed(all, all[i]));
        let k = choose|k: int| 0 <= k < seeded.len() && #[trigger] seeded[k] == all[i];
        assert(seeded[k].tag == all[i].tag);
    }
}

/// The first `i` vertices of an order hold what their paths rest on gives.
spec fn settled(s: SearchView, order: Seq<usize>, i: int, paths: Seq<Seq<Path>>) -> bool {
    forall|j: int|
        0 <= j < i ==> {
            let v = (#[trigger] order[j]) as int;
            &&& paths[v] == s.arrivals_at(paths, v)
            &&& clocked_in(paths[v], before(order, j))
        }
}

proof fn lemma_rests_on(s: SearchView, order: Seq<usize>, i: int, j: int, paths: Seq<Seq<Path>>)
    requires
        topology::topological(s.g, order),
        0 <= j <= i <= order.len(),
        j < order.len(),
        settled(s, order, i, paths),
    ensures
        rests_on(s, paths, order[j] as int, before(order, j)),
{
    let set = before(order, j);
    let v = order[j] as int;
    assert forall|e: int|
        0 <= e < s.g.edges.len() && (#[trigger] s.g.edges[e]).to == v && s.walks(e) implies set.contains(
        s.g.edges[e].from as int,
    ) by {
        assert(s.g.propagates(e));
        let prefix = order.take(j);
        assert(prefix.contains(s.g.edges[e].from));
        let k = choose|k: int| 0 <= k < prefix.len() && prefix[k] == s.g.edges[e].from;
        assert(order[k] == s.g.edges[e].from as int);
    }
    assert forall|u: int| set.contains(u) implies clocked_in(#[trigger] paths[u], set) by {
        let k = choose|k: int| 0 <= k < j && k < order.len() && #[trigger] order[k] == u;
        assert(clocked_in(paths[order[k] as int], before(order, k)));
        assert forall|x: int| 0 <= x < paths[u].len() implies ((#[trigger] paths[u][x]).tag.crpr matches Some(c)
            ==> set.contains(c.vertex as int)) by {
            if let Some(c) = paths[u][x].tag.crpr {
                assert(before(order, k).contains(c.vertex as int));
                let y = choose|y: int| 0 <= y < k && y < order.len() && #[trigger] order[y] == c.vertex as int;
                assert(order[y] == c.vertex as int);
            }
        }
    }
}

proof fn lemma_settle(s: SearchView, order: Seq<usize>, i: int, paths: Seq<Seq<Path>>)
    requires
        s.g.valid(),
        topology::topological(s.g, order),
        paths.len() == s.g.vertices.len(),
        0 <= i <= order.len(),
        settled(s, order, i, paths),
    ensures
        settled(s, order, order.len() as int, s.arrivals_along(order, i, paths)),
        s.arrivals_along(order, i, paths).len() == paths.len(),
    decreases order.len() - i,
{
    if i < order.len() {
        let v = order[i] as int;
        assert(order[i] < s.g.vertices.len());
        let next = paths.update(v, s.arrivals_at(paths, v));
        assert forall|j: int| 0 <= j < i + 1 implies {
            let u = (#[trigger] order[j]) as int;
            &&& next[u] == s.arrivals_at(next, u)
            &&& clocked_in(next[u], before(order, j))
        } by {
            let u = order[j] as int;
            let set = before(order, j);
            assert(order[j] < s.g.vertices.len());
            lemma_rests_on(s, order, i, j, paths);
            assert forall|w: int| set.contains(w) implies #[trigger] paths[w] == next[w] by {
                let k = choose|k: int| 0 <= k < j && k < order.len() && #[trigger] order[k] == w;
                assert(order[k] != order[i]);
                assert(order[k] < s.g.vertices.len());
            }
            lemma_arrivals_agree(s, paths, next, u, set);
            if j < i {
                assert(order[j] != order[i]);
            }
        }
        lemma_settle(s, order, i + 1, next);
    }
}

/// Once the arrivals are found they are settled: every vertex holds exactly what the paths at the
/// sources of its edges give.
pub proof fn lemma_arrivals_settle(s: SearchView, paths: Seq<Seq<Path>>, v: int)
    requires
        s.g.valid(),
        paths.len() == s.g.vertices.len(),
        0 <= v < s.g.vertices.len(),
    ensures
        topology::order_of(s.g) matches Some(order) ==> {
            let found = s.arrivals_along(order, 0, paths);
            found[v] == s.arrivals_at(found, v)
        },
{
    if let Some(order) = topology::order_of(s.g) {
        topology::lemma_order_is_topological(s.g);
        lemma_settle(s, order, 0, paths);
        topology::lemma_all_placed(order, s.g.vertices.len(), v as usize);
        let j = choose|j: int| 0 <= j < order.len() && order[j] == v as usize;
        assert(order[j] as int == v);
    }
}

proof fn lemma_nothing_changes(s: SearchView, order: Seq<usize>, i: int, paths: Seq<Seq<Path>>)
    requires
        crate::graph::all_below(order, paths.len()),
        0 <= i <= order.len(),
        forall|v: int| 0 <= v < paths.len() ==> #[trigger] paths[v] == s.arrivals_at(paths, v),
    ensures
        s.arrivals_along(order, i, paths) == paths,
    decreases order.len() - i,
{
    if i < order.len() {
        let v = order[i] as int;
        assert(order[i] < paths.len());
        assert(paths[v] == s.arrivals_at(paths, v));
        assert(paths.update(v, s.arrivals_at(paths, v)) =~= paths);
        lemma_nothing_changes(s, order, i + 1, paths);
    }
}

/// Finding the arrivals again changes nothing.
pub proof fn lemma_arrivals_again(s: SearchView, paths: Seq<Seq<Path>>)
    requires
        s.g.valid(),
        paths.len() == s.g.vertices.len(),
    ensures
        topology::order_of(s.g) matches Some(order) ==> {
            let found = s.arrivals_along(order, 0, paths);
            s.arrivals_along(order, 0, found) == found
        },
{
    if let Some(order) = topology::order_of(s.g) {
        topology::lemma_order_is_topological(s.g);
        lemma_settle(s, order, 0, paths);
        let found = s.arrivals_along(order, 0, paths);
        assert forall|v: int| 0 <= v < found.len() implies #[trigger] found[v] == s.arrivals_at(found, v) by {
            lemma_arrivals_settle(s, paths, v);
        }
        lemma_nothing_changes(s, order, 0, found);
    }
}

} // verus!

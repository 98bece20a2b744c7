use vstd::prelude::*;
use crate::algorithms::shortest_path::walks::{lemma_walk_weight_bound, walk_weight};
use crate::graph::model::{weight_at, GraphModel};
use crate::graph::{path_cost, path_nodes, Graph, GraphBase, ListGraphBackend, Path, WeightedEdge, WithID};
use super::double_tree::list_takes_all;
use super::shortcut::{dist, metric, tree_trip};
use super::nearest_neighbor::{lemma_rearranged, lemma_start_and_rest};
use super::{arranges, is_tour, joined, lemma_tour_arcs, steps_of, TspResult};

verus! {

/// The best round trip found so far is a round trip from `start`, with its weight.
pub open spec fn tour_ok<V: WithID, E: WeightedEdge>(
    m: GraphModel<V, E>,
    start: usize,
    cost: i128,
    path: Seq<usize>,
) -> bool {
    is_tour(m, start, path) && cost == walk_weight(m, path)
}

/// The vertices and the cost of the path along a trip are those of the trip.
pub proof fn lemma_steps_of<V: WithID, E: WeightedEdge>(m: GraphModel<V, E>, t: Seq<usize>)
    requires
        t.len() > 1,
        forall|i: int| 0 <= i < t.len() - 1 ==> m.has_arc(#[trigger] t[i], t[i + 1]),
    ensures
        path_nodes(steps_of(m, t)) == t,
        path_cost(steps_of(m, t)) == walk_weight(m, t),
    decreases t.len(),
{
    let steps = steps_of(m, t);
    let n = t.len() as int;
    assert(path_nodes(steps) =~= t);
    assert(m.has_arc(t[n - 2], t[n - 2 + 1]));
    assert(steps.last() == (t[n - 2], t[n - 1], m.edge(t[n - 2], t[n - 1])->Some_0));
    assert(m.edge(t[n - 2], t[n - 1]) is Some);
    assert(weight_at(m.arcs, (t[n - 2], t.last())) == steps.last().2.spec_weight());
    if n == 2 {
        assert(steps.drop_last() =~= Seq::empty());
        assert(path_cost(steps.drop_last()) == 0);
        assert(walk_weight(m, t.drop_last()) == 0);
    } else {
        let shorter = t.drop_last();
        assert forall|i: int| 0 <= i < shorter.len() - 1 implies m.has_arc(
            #[trigger] shorter[i],
            shorter[i + 1],
        ) by {
            assert(m.has_arc(t[i], t[i + 1]));
        }
        lemma_steps_of(m, shorter);
        assert(steps.drop_last() =~= steps_of(m, shorter));
    }
}

/// The least weight of an arc from `r` to one of the first `k` vertices of `rem`
/// other than `r`, where there is one.
pub open spec fn least_to<V: WithID, E: WeightedEdge>(
    m: GraphModel<V, E>,
    rem: Seq<usize>,
    r: usize,
    k: int,
) -> Option<int>
    decreases k,
{
    if k <= 0 {
        None
    } else {
        let before = least_to(m, rem, r, k - 1);
        if rem[k - 1] == r {
            before
        } else {
            let w = dist(m, r, rem[k - 1]);
            match before {
                Some(l) => Some(
                    if w < l {
                        w
                    } else {
                        l
                    },
                ),
                None => Some(w),
            }
        }
    }
}

/// The least weight of two arcs together that lead from `r` to two of the first `k`
/// vertices of `rem` other than `r`, where there are two.
pub open spec fn pair_to<V: WithID, E: WeightedEdge>(
    m: GraphModel<V, E>,
    rem: Seq<usize>,
    r: usize,
    k: int,
) -> Option<int>
    decreases k,
{
    if k <= 0 {
        None
    } else {
        let before = pair_to(m, rem, r, k - 1);
        if rem[k - 1] == r {
            before
        } else {
            let w = dist(m, r, rem[k - 1]);
            match (before, least_to(m, rem, r, k - 1)) {
                (Some(p), Some(l)) => Some(
                    if l + w < p {
                        l + w
                    } else {
                        p
                    },
                ),
                (None, Some(l)) => Some(l + w),
                _ => None,
            }
        }
    }
}

/// The two weights that are kept are the lightest and the one that makes the
/// lightest pair with it.
pub open spec fn two_lightest(
    least: Option<int>,
    pair: Option<int>,
    cheapest: Option<i64>,
    second: Option<i64>,
) -> bool {
    match cheapest {
        None => least is None && pair is None && second is None,
        Some(c) => least == Some(c as int) && match second {
            None => pair is None,
            Some(s) => c <= s && pair == Some(c + s),
        },
    }
}

/// Half of `p`, rounded towards 0.
pub open spec fn half(p: int) -> int {
    if p >= 0 {
        p / 2
    } else {
        -((-p) / 2)
    }
}

/// For each of the first `k` vertices of `rem` other than `next`, half the least
/// weight of two of its arcs to other vertices of `rem`, all added up.
pub open spec fn pairs_sum<V: WithID, E: WeightedEdge>(
    m: GraphModel<V, E>,
    rem: Seq<usize>,
    next: usize,
    k: int,
) -> int
    decreases k,
{
    if k <= 0 {
        0
    } else {
        pairs_sum(m, rem, next, k - 1) + (if rem[k - 1] != next {
            match pair_to(m, rem, rem[k - 1], rem.len() as int) {
                Some(p) => half(p),
                None => 0,
            }
        } else {
            0
        })
    }
}

/// The bound for the rest of a trip that goes on with `next` through the vertices
/// `rem`, of which `next` is one: a round trip enters and leaves each vertex, so
/// half the weight of the two lightest arcs of each vertex that is left stands for
/// its part. With fewer than three vertices left the bound is 0.
pub open spec fn rest_bound<V: WithID, E: WeightedEdge>(
    m: GraphModel<V, E>,
    rem: Seq<usize>,
    next: usize,
) -> int {
    if rem.len() <= 2 {
        0
    } else {
        pairs_sum(m, rem, next, rem.len() as int)
    }
}

/// The round trip `t` is left out for `best`: at some vertex of it, from the place
/// `from` on, the cost of the trip as far as that vertex and the bound for the
/// rest, taken for the vertices from there on in some order, reach `best`.
pub open spec fn left_out<V: WithID, E: WeightedEdge>(
    m: GraphModel<V, E>,
    t: Seq<usize>,
    from: int,
    best: int,
) -> bool {
    exists|k: int, rem: Seq<usize>|
        from <= k < t.len() - 1 && #[trigger] arranges(rem, t.subrange(k, t.len() - 1)) && walk_weight(
            m,
            t.take(k + 1),
        ) + rest_bound(m, rem, t[k]) >= best
}

/// `x` is one of the first `upto` members of `rest`.
pub open spec fn among(rest: Seq<usize>, upto: int, x: usize) -> bool {
    exists|i: int| 0 <= i < upto && #[trigger] rest[i] == x
}

/// Every round trip from `start` that begins with `path` and goes on with one of
/// the first `upto` vertices of `rest` weighs `best` at least, or is left out for
/// `best`.
pub open spec fn searched_until<V: WithID, E: WeightedEdge>(
    m: GraphModel<V, E>,
    start: usize,
    path: Seq<usize>,
    rest: Seq<usize>,
    upto: int,
    best: int,
) -> bool {
    forall|t: Seq<usize>|
        #[trigger] is_tour(m, start, t) && t.take(path.len() as int) == path && among(
            rest,
            upto,
            t[path.len() as int],
        ) ==> best <= walk_weight(m, t) || left_out(m, t, path.len() as int, best)
}

/// Every round trip from `start` that begins with `path` weighs `best` at least, or
/// is left out for `best`.
pub open spec fn searched<V: WithID, E: WeightedEdge>(
    m: GraphModel<V, E>,
    start: usize,
    path: Seq<usize>,
    best: int,
) -> bool {
    forall|t: Seq<usize>|
        #[trigger] is_tour(m, start, t) && t.take(path.len() as int) == path ==> best <= walk_weight(
            m,
            t,
        ) || left_out(m, t, path.len() as int, best)
}

/// What is left out for a cost is left out for every lower cost, and from every
/// earlier place on.
pub proof fn lemma_left_out_keeps<V: WithID, E: WeightedEdge>(
    m: GraphModel<V, E>,
    t: Seq<usize>,
    from: int,
    lower: int,
    best: int,
    less: int,
)
    requires
        left_out(m, t, from, best),
        lower <= from,
        less <= best,
    ensures
        left_out(m, t, lower, less),
{
    let (k, rem) = choose|k: int, rem: Seq<usize>|
        from <= k < t.len() - 1 && #[trigger] arranges(rem, t.subrange(k, t.len() - 1)) && walk_weight(
            m,
            t.take(k + 1),
        ) + rest_bound(m, rem, t[k]) >= best;
    assert(lower <= k < t.len() - 1 && arranges(rem, t.subrange(k, t.len() - 1)) && walk_weight(
        m,
        t.take(k + 1),
    ) + rest_bound(m, rem, t[k]) >= less);
}

/// A round trip that begins with `path` goes on through the vertices that `path`
/// leaves.
pub proof fn lemma_rest_arranged<V: WithID, E>(
    m: GraphModel<V, E>,
    start: usize,
    t: Seq<usize>,
    path: Seq<usize>,
    rest: Seq<usize>,
)
    requires
        is_tour(m, start, t),
        t.take(path.len() as int) == path,
        path.len() < t.len(),
        (path + rest).no_duplicates(),
        (path + rest).to_set() == m.vertices.dom(),
    ensures
        path.len() + rest.len() == t.len() - 1,
        arranges(rest, t.subrange(path.len() as int, t.len() - 1)),
        rest.len() > 0 ==> among(rest, rest.len() as int, t[path.len() as int]),
{
    let all = path + rest;
    let inner = t.drop_last();
    let len = path.len() as int;
    let n = inner.len() as int;
    let tail = t.subrange(len, n);
    all.unique_seq_to_set();
    inner.unique_seq_to_set();
    assert(rest.no_duplicates()) by {
        assert forall|a: int, b: int| 0 <= a < rest.len() && 0 <= b < rest.len() && a != b implies rest[a]
            != rest[b] by {
            assert(all[len + a] == rest[a] && all[len + b] == rest[b]);
        }
    }
    assert forall|x: usize| rest.to_set().contains(x) <==> tail.to_set().contains(x) by {
        if rest.contains(x) {
            let a = choose|a: int| 0 <= a < rest.len() && rest[a] == x;
            assert(all[len + a] == x);
            assert(all.to_set().contains(x));
            assert(inner.to_set().contains(x));
            let i = choose|i: int| 0 <= i < inner.len() && inner[i] == x;
            if i < len {
                assert(path[i] == t.take(len)[i]);
                assert(all[i] == path[i]);
                assert(all[i] == all[len + a]);
            }
            assert(tail[i - len] == x);
        }
        if tail.contains(x) {
            let i = choose|i: int| 0 <= i < tail.len() && tail[i] == x;
            assert(inner[len + i] == x);
            assert(inner.to_set().contains(x));
            assert(all.to_set().contains(x));
            let a = choose|a: int| 0 <= a < all.len() && all[a] == x;
            if a < len {
                assert(all[a] == path[a]);
                assert(path[a] == t.take(len)[a]);
                assert(inner[a] == inner[len + i]);
            }
            assert(rest[a - len] == x);
        }
    }
    assert(rest.to_set() =~= tail.to_set());
    if rest.len() > 0 {
        assert(tail[0] == t[len]);
        assert(tail.to_set().contains(t[len]));
        assert(rest.contains(t[len]));
        let a = choose|a: int| 0 <= a < rest.len() && rest[a] == t[len];
        assert(0 <= a < rest.len() && rest[a] == t[len]);
    }
}

/// What was searched for a cost was searched for every lower cost.
pub proof fn lemma_search_keeps<V: WithID, E: WeightedEdge>(
    m: GraphModel<V, E>,
    start: usize,
    path: Seq<usize>,
    rest: Seq<usize>,
    upto: int,
    best: int,
    less: int,
)
    requires
        searched_until(m, start, path, rest, upto, best),
        less <= best,
    ensures
        searched_until(m, start, path, rest, upto, less),
{
    assert forall|t: Seq<usize>|
        #[trigger] is_tour(m, start, t) && t.take(path.len() as int) == path && among(
            rest,
            upto,
            t[path.len() as int],
        ) implies less <= walk_weight(m, t) || left_out(m, t, path.len() as int, less) by {
        if left_out(m, t, path.len() as int, best) {
            lemma_left_out_keeps(m, t, path.len() as int, path.len() as int, best, less);
        }
    }
}

/// The way on with the vertex at `upto` is left out: its cost and the bound for the
/// rest reach `best`.
pub proof fn lemma_search_cut<V: WithID, E: WeightedEdge>(
    m: GraphModel<V, E>,
    start: usize,
    path: Seq<usize>,
    rest: Seq<usize>,
    upto: int,
    best: int,
)
    requires
        searched_until(m, start, path, rest, upto, best),
        0 <= upto < rest.len(),
        (path + rest).no_duplicates(),
        (path + rest).to_set() == m.vertices.dom(),
        walk_weight(m, path.push(rest[upto])) + rest_bound(m, rest, rest[upto]) >= best,
    ensures
        searched_until(m, start, path, rest, upto + 1, best),
{
    let len = path.len() as int;
    assert forall|t: Seq<usize>|
        #[trigger] is_tour(m, start, t) && t.take(len) == path && among(rest, upto + 1, t[len]) implies best
        <= walk_weight(m, t) || left_out(m, t, len, best) by {
        if !among(rest, upto, t[len]) {
            let i = choose|i: int| 0 <= i < upto + 1 && #[trigger] rest[i] == t[len];
            assert(i == upto);
            (path + rest).unique_seq_to_set();
            t.drop_last().unique_seq_to_set();
            lemma_rest_arranged(m, start, t, path, rest);
            assert(t.take(len + 1) =~= path.push(rest[upto])) by {
                assert(t.take(len + 1).drop_last() =~= t.take(len));
            }
            assert(len <= len < t.len() - 1 && arranges(rest, t.subrange(len, t.len() - 1)) && walk_weight(
                m,
                t.take(len + 1),
            ) + rest_bound(m, rest, t[len]) >= best);
        }
    }
}

/// The way on with the vertex at `upto` was searched.
pub proof fn lemma_search_went<V: WithID, E: WeightedEdge>(
    m: GraphModel<V, E>,
    start: usize,
    path: Seq<usize>,
    rest: Seq<usize>,
    upto: int,
    best: int,
)
    requires
        searched_until(m, start, path, rest, upto, best),
        0 <= upto < rest.len(),
        path.len() < m.vertices.dom().len(),
        searched(m, start, path.push(rest[upto]), best),
    ensures
        searched_until(m, start, path, rest, upto + 1, best),
{
    let len = path.len() as int;
    let longer = path.push(rest[upto]);
    assert forall|t: Seq<usize>|
        #[trigger] is_tour(m, start, t) && t.take(len) == path && among(rest, upto + 1, t[len]) implies best
        <= walk_weight(m, t) || left_out(m, t, len, best) by {
        if !among(rest, upto, t[len]) {
            let i = choose|i: int| 0 <= i < upto + 1 && #[trigger] rest[i] == t[len];
            assert(i == upto);
            assert(t.take(len + 1) =~= longer) by {
                assert(t.take(len + 1).drop_last() =~= t.take(len));
            }
            assert(t.take(longer.len() as int) == longer);
            if left_out(m, t, len + 1, best) {
                lemma_left_out_keeps(m, t, len + 1, len, best, best);
            }
        }
    }
}

/// With every way on searched, all is searched that begins with `path`.
pub proof fn lemma_search_done<V: WithID, E: WeightedEdge>(
    m: GraphModel<V, E>,
    start: usize,
    path: Seq<usize>,
    rest: Seq<usize>,
    best: int,
)
    requires
        searched_until(m, start, path, rest, rest.len() as int, best),
        rest.len() > 0,
        (path + rest).no_duplicates(),
        (path + rest).to_set() == m.vertices.dom(),
    ensures
        searched(m, start, path, best),
{
    let len = path.len() as int;
    assert forall|t: Seq<usize>| #[trigger] is_tour(m, start, t) && t.take(len) == path implies best
        <= walk_weight(m, t) || left_out(m, t, len, best) by {
        (path + rest).unique_seq_to_set();
        t.drop_last().unique_seq_to_set();
        assert((path + rest).len() == path.len() + rest.len());
        lemma_rest_arranged(m, start, t, path, rest);
    }
}

/// A trip through all vertices is searched when the round trip that it makes is
/// counted.
pub proof fn lemma_search_leaf<V: WithID, E: WeightedEdge>(
    m: GraphModel<V, E>,
    start: usize,
    path: Seq<usize>,
    best: int,
)
    requires
        path.len() == m.vertices.dom().len(),
        best <= walk_weight(m, path.push(start)),
    ensures
        searched(m, start, path, best),
{
    let len = path.len() as int;
    assert forall|t: Seq<usize>| #[trigger] is_tour(m, start, t) && t.take(len) == path implies best
        <= walk_weight(m, t) || left_out(m, t, len, best) by {
        assert(t =~= path.push(start)) by {
            assert forall|i: int| 0 <= i < t.len() implies t[i] == path.push(start)[i] by {
                if i < len {
                    assert(t.take(len)[i] == t[i]);
                }
            }
        }
    }
}

impl<Backend: GraphBase> Graph<Backend> where
    Backend::Vertex: Copy,
    Backend::Edge: WeightedEdge + Copy,
    ListGraphBackend<Backend::Vertex, Backend::Edge, Backend::Direction>: GraphBase<
        Vertex = Backend::Vertex,
        Edge = Backend::Edge,
        Direction = Backend::Direction,
    >,
 {
    /// A round trip by branch and bound: the search starts with the round trip of the
    /// double-tree rule as the best known, and goes through the ways to continue a
    /// trip as the exhaustive search does, but leaves a way out where the cost so far
    /// and a bound for the rest reach the cost of the best known round trip. The
    /// start vertex is `start_vertex_id` or, without it, the first vertex that the
    /// graph lists; the path is empty where the graph holds no start vertex. The
    /// round trip weighs no more than that of the double-tree rule, and no more than
    /// any round trip that the bound has not left out.
    pub fn tsp_branch_and_bound(&self, start_vertex_id: Option<usize>) -> (r: TspResult<Backend>)
        requires
            self.wf(),
            joined(self.model()),
            list_takes_all::<Backend::Vertex, Backend::Edge, Backend::Direction>(),
        ensures
            r is Ok,
            match start_vertex_id {
                Some(s) => !self.model().has_vertex(s),
                None => self.model().vertices.dom().len() == 0,
            } ==> r->Ok_0@.len() == 0,
            !(match start_vertex_id {
                Some(s) => !self.model().has_vertex(s),
                None => self.model().vertices.dom().len() == 0,
            }) ==> exists|t: Seq<usize>|
                {
                    &&& t.len() > 0
                    &&& #[trigger] is_tour(self.model(), t[0], t)
                    &&& start_vertex_id is Some ==> t[0] == start_vertex_id->Some_0
                    &&& r->Ok_0@ == steps_of(self.model(), t)
                    &&& searched(self.model(), t[0], seq![t[0]], walk_weight(self.model(), t))
                    &&& exists|first: Seq<usize>, tree: GraphModel<Backend::Vertex, Backend::Edge>|
                        #[trigger] tree_trip(self.model(), tree, first) && first[0] == t[0] && is_tour(
                            self.model(),
                            first[0],
                            first,
                        ) && walk_weight(self.model(), t) <= walk_weight(self.model(), first)
                    &&& !self.model().directed && metric(self.model()) ==> forall|
                        s: usize,
                        other: Seq<usize>,
                    | #[trigger]
                        is_tour(self.model(), s, other) ==> walk_weight(self.model(), t) <= 2
                            * walk_weight(self.model(), other)
                },
    {
        let ghost m = self.model();
        proof {
            self.lemma_wf();
        }
        let (start_v, mut remaining) = match self.get_initial_vertex(start_vertex_id) {
            Some(v) => v,
            None => {
                return Ok(Path::default());
            },
        };
        let ghost rest = remaining@;
        // The first best round trip comes from the double-tree rule.
        let best_path = match self.tsp_double_tree(Some(start_v)) {
            Ok(p) => p,
            Err(e) => {
                return Err(e);
            },
        };
        let mut current_best_path = best_path.vertices();
        let mut current_best_cost = best_path.total_cost();
        let ghost mut first: Seq<usize> = Seq::empty();
        proof {
            let t = choose|t: Seq<usize>|
                {
                    &&& t.len() > 0
                    &&& #[trigger] is_tour(m, t[0], t)
                    &&& t[0] == start_v
                    &&& best_path@ == steps_of(m, t)
                    &&& exists|tree: GraphModel<Backend::Vertex, Backend::Edge>| #[trigger]
                        tree_trip(m, tree, t)
                    &&& !m.directed && metric(m) ==> forall|s: usize, other: Seq<usize>| #[trigger]
                        is_tour(m, s, other) ==> walk_weight(m, t) <= 2 * walk_weight(m, other)
                };
            first = t;
            vstd::set_lib::lemma_len_subset(set![start_v], m.vertices.dom());
            assert forall|i: int| 0 <= i < t.len() - 1 implies m.has_arc(#[trigger] t[i], t[i + 1]) by {
                lemma_tour_arcs(m, start_v, t, i);
            }
            lemma_steps_of(m, t);
        }
        let mut initial_path: Vec<usize> = Vec::new();
        initial_path.push(start_v);
        proof {
            lemma_start_and_rest(start_v, rest, m.vertices.dom());
            assert(initial_path@ =~= seq![start_v]);
        }
        self.branch_and_bound(
            start_v,
            &mut initial_path,
            0,
            &mut remaining,
            &mut current_best_cost,
            &mut current_best_path,
        );
        proof {
            let t = current_best_path@;
            assert forall|i: int| 0 <= i < t.len() - 1 implies m.has_arc(#[trigger] t[i], t[i + 1]) by {
                lemma_tour_arcs(m, start_v, t, i);
            }
            let tree = choose|tree: GraphModel<Backend::Vertex, Backend::Edge>| #[trigger]
                tree_trip(m, tree, first);
            assert(tree_trip(m, tree, first) && first[0] == t[0] && is_tour(m, first[0], first)
                && walk_weight(m, t) <= walk_weight(m, first));
        }
        let path = self.path_along(&current_best_path);
        Ok(path)
    }

    /// A bound for the cost of the rest of a trip that goes on with `next`: for every
    /// other vertex that is left, half the weight of the two lightest of its arcs to
    /// vertices that are left; nothing where fewer than three are left.
    fn min_remaining_cost(&self, remaining: &Vec<usize>, next: usize) -> (bound: i128)
        requires
            self.wf(),
            self.model().valid(),
            joined(self.model()),
            remaining@.no_duplicates(),
            forall|i: int| 0 <= i < remaining.len() ==> self.model().has_vertex(#[trigger] remaining[i]),
        ensures
            bound == rest_bound(self.model(), remaining@, next),
            -remaining.len() * 0x8000_0000_0000_0000 <= bound <= remaining.len()
                * 0x8000_0000_0000_0000,
    {
        if remaining.len() <= 2 {
            return 0;
        }
        let ghost m = self.model();
        let ghost rem = remaining@;
        let mut sum: i128 = 0;
        let mut at: usize = 0;
        while at < remaining.len()
            invariant
                0 <= at <= remaining.len(),
                remaining.len() > 2,
                self.wf(),
                m == self.model(),
                m.valid(),
                joined(m),
                rem == remaining@,
                rem.no_duplicates(),
                forall|i: int| 0 <= i < remaining.len() ==> m.has_vertex(#[trigger] remaining[i]),
                sum == pairs_sum(m, rem, next, at as int),
                -at * 0x8000_0000_0000_0000 <= sum <= at * 0x8000_0000_0000_0000,
            decreases remaining.len() - at,
        {
            let r = remaining[at];
            if r != next {
                // The two lightest arcs of this vertex.
                let mut cheapest: Option<i64> = None;
                let mut second_cheapest: Option<i64> = None;
                let ghost mut seen: int = 0;
                let mut other: usize = 0;
                while other < remaining.len()
                    invariant
                        0 <= other <= remaining.len(),
                        0 <= at < remaining.len(),
                        r == remaining[at as int],
                        self.wf(),
                        m == self.model(),
                        m.valid(),
                        joined(m),
                        rem == remaining@,
                        rem.no_duplicates(),
                        forall|i: int|
                            0 <= i < remaining.len() ==> m.has_vertex(#[trigger] remaining[i]),
                        other > at ==> seen + 1 == other,
                        other <= at ==> seen == other,
                        seen >= 1 ==> cheapest is Some,
                        seen >= 2 ==> second_cheapest is Some,
                        two_lightest(
                            least_to(m, rem, r, other as int),
                            pair_to(m, rem, r, other as int),
                            cheapest,
                            second_cheapest,
                        ),
                    decreases remaining.len() - other,
                {
                    let to = remaining[other];
                    if to != r {
                        proof {
                            assert(m.has_vertex(remaining[other as int]));
                            assert(m.has_vertex(remaining[at as int]));
                            assert(m.has_arc(r, to));
                        }
                        let weight = match self.get_edge(r, to) {
                            Some(e) => e.get_weight(),
                            None => {
                                assert(false);
                                0
                            },
                        };
                        match cheapest {
                            None => {
                                cheapest = Some(weight);
                            },
                            Some(least) => {
                                if weight < least {
                                    second_cheapest = cheapest;
                                    cheapest = Some(weight);
                                } else {
                                    match second_cheapest {
                                        None => {
                                            second_cheapest = Some(weight);
                                        },
                                        Some(second) => {
                                            if weight < second {
                                                second_cheapest = Some(weight);
                                            }
                                        },
                                    }
                                }
                            },
                        }
                        proof {
                            seen = seen + 1;
                        }
                    } else {
                        proof {
                            if other != at {
                                assert(remaining[other as int] != remaining[at as int]);
                            }
                        }
                    }
                    other += 1;
                }
                let first = match cheapest {
                    Some(w) => w,
                    None => {
                        assert(false);
                        0
                    },
                };
                let second = match second_cheapest {
                    Some(w) => w,
                    None => {
                        assert(false);
                        0
                    },
                };
                sum = sum + (first as i128 + second as i128) / 2;
            }
            at += 1;
        }
        sum
    }

    /// Goes through the ways to go on from `current_path` through the vertices of
    /// `remaining` and back to the start, but for those that the bound leaves out,
    /// and keeps the lightest round trip that it comes to.
    fn branch_and_bound(
        &self,
        current_v: usize,
        current_path: &mut Vec<usize>,
        current_cost: i128,
        remaining: &mut Vec<usize>,
        current_best_cost: &mut i128,
        current_best_path: &mut Vec<usize>,
    )
        requires
            self.wf(),
            self.model().valid(),
            joined(self.model()),
            old(current_path).len() > 0,
            current_v == old(current_path)[old(current_path).len() - 1],
            current_cost == walk_weight(self.model(), old(current_path)@),
            (old(current_path)@ + old(remaining)@).no_duplicates(),
            (old(current_path)@ + old(remaining)@).to_set() == self.model().vertices.dom(),
            tour_ok(
                self.model(),
                old(current_path)[0],
                *old(current_best_cost),
                old(current_best_path)@,
            ),
        ensures
            final(current_path)@ == old(current_path)@,
            final(remaining)@ == old(remaining)@,
            tour_ok(
                self.model(),
                old(current_path)[0],
                *final(current_best_cost),
                final(current_best_path)@,
            ),
            *final(current_best_cost) <= *old(current_best_cost),
            searched(
                self.model(),
                old(current_path)[0],
                old(current_path)@,
                *final(current_best_cost) as int,
            ),
        decreases old(remaining).len(),
    {
        let ghost m = self.model();
        let ghost path0 = current_path@;
        let ghost rest0 = remaining@;
        let ghost start = current_path@[0];
        let ghost all = current_path@ + remaining@;
        proof {
            all.unique_seq_to_set();
            lemma_walk_weight_bound(m, path0);
            assert(all[0] == start);
            assert(all.to_set().contains(all[0]));
            assert(all[path0.len() - 1] == current_v);
            assert(all.to_set().contains(all[path0.len() - 1]));
        }
        let n = self.vertex_count();
        if current_path.len() == n {
            // All vertices are visited: back to the start.
            let first = current_path[0];
            proof {
                assert(rest0 =~= Seq::<usize>::empty());
                assert(all =~= path0);
                if path0.len() > 1 {
                    assert(path0[0] != path0[path0.len() - 1]);
                }
                assert(m.has_arc(current_v, first));
            }
            let edge_cost = match self.get_edge(current_v, first) {
                Some(e) => e.get_weight(),
                None => {
                    assert(false);
                    0
                },
            };
            let total_cost = current_cost + edge_cost as i128;
            if total_cost < *current_best_cost {
                let mut path: Vec<usize> = Vec::new();
                let mut i: usize = 0;
                while i < current_path.len()
                    invariant
                        0 <= i <= current_path.len(),
                        current_path@ == path0,
                        path@ == path0.take(i as int),
                    decreases current_path.len() - i,
                {
                    path.push(current_path[i]);
                    proof {
                        assert(path@ =~= path0.take(i + 1));
                    }
                    i += 1;
                }
                path.push(first);
                proof {
                    assert(path0.take(path0.len() as int) =~= path0);
                    let t = path0.push(first);
                    assert(t.drop_last() =~= path0);
                    assert(is_tour(m, start, t));
                }
                *current_best_cost = total_cost;
                *current_best_path = path;
            }
            proof {
                assert(walk_weight(m, path0.push(first)) == total_cost) by {
                    assert(path0.push(first).drop_last() =~= path0);
                }
                lemma_search_leaf(m, start, path0, *current_best_cost as int);
            }
            return ;
        }
        proof {
            assert(rest0.len() > 0);
            assert forall|a: int, b: int|
                0 <= a < rest0.len() && 0 <= b < rest0.len() && a != b implies rest0[a] != rest0[b] by {
                assert(rest0[a] == all[path0.len() + a] && rest0[b] == all[path0.len() + b]);
            }
            assert forall|a: int| 0 <= a < rest0.len() implies m.has_vertex(#[trigger] rest0[a]) by {
                assert(rest0[a] == all[path0.len() + a]);
                assert(all.to_set().contains(all[path0.len() + a]));
            }
        }
        let last_remaining_idx = remaining.len() - 1;
        let mut next_i: usize = 0;
        while next_i <= last_remaining_idx
            invariant
                0 <= next_i <= last_remaining_idx + 1,
                last_remaining_idx + 1 == rest0.len(),
                self.wf(),
                m == self.model(),
                m.valid(),
                joined(m),
                n == m.vertices.dom().len(),
                current_path@ == path0,
                remaining@ == rest0,
                path0.len() > 0,
                path0.len() < n,
                start == path0[0],
                current_v == path0[path0.len() - 1],
                current_cost == walk_weight(m, path0),
                all == path0 + rest0,
                all.no_duplicates(),
                all.to_set() == m.vertices.dom(),
                all.len() == n,
                rest0.no_duplicates(),
                forall|a: int| 0 <= a < rest0.len() ==> m.has_vertex(#[trigger] rest0[a]),
                rest0.len() == old(remaining).len(),
                -path0.len() * 0x8000_0000_0000_0000 <= current_cost <= path0.len()
                    * 0x8000_0000_0000_0000,
                tour_ok(m, start, *current_best_cost, current_best_path@),
                *current_best_cost <= *old(current_best_cost),
                searched_until(m, start, path0, rest0, next_i as int, *current_best_cost as int),
            decreases last_remaining_idx + 1 - next_i,
        {
            let next = remaining[next_i];
            proof {
                assert(all[path0.len() + next_i] == next);
                assert(all.to_set().contains(all[path0.len() + next_i]));
                assert(all[path0.len() - 1] != all[path0.len() + next_i]);
                assert(m.has_arc(current_v, next));
            }
            let edge_cost = match self.get_edge(current_v, next) {
                Some(e) => e.get_weight(),
                None => {
                    assert(false);
                    0
                },
            };
            let new_cost = current_cost + edge_cost as i128;
            let ghost best0 = *current_best_cost;
            proof {
                assert(walk_weight(m, path0.push(next)) == new_cost) by {
                    assert(path0.push(next).drop_last() =~= path0);
                }
            }
            // Is this way worth going?
            let min_remaining_cost = self.min_remaining_cost(remaining, next);
            if new_cost + min_remaining_cost < *current_best_cost {
                let moved = remaining[last_remaining_idx];
                remaining.set(next_i, moved);
                remaining.pop();
                current_path.push(next);
                let ghost path1 = current_path@;
                let ghost rest1 = remaining@;
                proof {
                    let after = path1 + rest1;
                    assert(after.len() == all.len());
                    assert forall|a: int| 0 <= a < path0.len() implies after[a] == all[a] by {}
                    assert(after[path0.len() as int] == all[path0.len() + next_i]);
                    assert forall|k: int|
                        0 <= k < all.len() - path0.len() - 1 && k != next_i implies #[trigger] after[path0.len()
                        + 1 + k] == all[path0.len() + k] by {
                        assert(after[path0.len() + 1 + k] == rest1[k]);
                    }
                    if next_i < all.len() - path0.len() - 1 {
                        assert(after[path0.len() + 1 + next_i] == rest1[next_i as int]);
                    }
                    lemma_rearranged(all, after, path0.len() as int, next_i as int);
                    assert(path1.drop_last() =~= path0);
                }
                self.branch_and_bound(
                    next,
                    current_path,
                    new_cost,
                    remaining,
                    current_best_cost,
                    current_best_path,
                );
                // Put `next` back where it was.
                current_path.pop();
                remaining.push(moved);
                remaining.set(next_i, next);
                proof {
                    assert(current_path@ =~= path0);
                    assert(remaining@ =~= rest0);
                    lemma_search_keeps(
                        m,
                        start,
                        path0,
                        rest0,
                        next_i as int,
                        best0 as int,
                        *current_best_cost as int,
                    );
                    lemma_search_went(m, start, path0, rest0, next_i as int, *current_best_cost as int);
                }
            } else {
                proof {
                    lemma_search_cut(m, start, path0, rest0, next_i as int, *current_best_cost as int);
                }
            }
            next_i += 1;
        }
        proof {
            lemma_search_done(m, start, path0, rest0, *current_best_cost as int);
        }
    }
}

} // verus!

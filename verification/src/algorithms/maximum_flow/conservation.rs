//! What flows in and out of a vertex when paths from a source to a sink carry their
//! amounts: as much in as out at every other vertex, and as much out of the source
//! as into the sink.

use vstd::prelude::*;
use crate::algorithms::reach::{is_walk, lemma_walk_vertices};
use crate::graph::model::GraphModel;
use crate::graph::WithID;
use super::edmonds_karp::{augmenting, carried, on_path};

verus! {

/// The sum of `f` over a finite set of vertices.
pub open spec fn sum_over(s: Set<usize>, f: spec_fn(usize) -> int) -> int
    decreases s.len(),
    when s.finite()
{
    if s.len() == 0 {
        0
    } else {
        let x = s.choose();
        f(x) + sum_over(s.remove(x), f)
    }
}

/// The sum over a set is the value at any one of its members plus the sum over the
/// others.
pub proof fn lemma_sum_remove(s: Set<usize>, f: spec_fn(usize) -> int, x: usize)
    requires
        s.finite(),
        s.contains(x),
    ensures
        sum_over(s, f) == f(x) + sum_over(s.remove(x), f),
    decreases s.len(),
{
    let a = s.choose();
    if a != x {
        lemma_sum_remove(s.remove(a), f, x);
        lemma_sum_remove(s.remove(x), f, a);
        assert(s.remove(a).remove(x) =~= s.remove(x).remove(a));
    }
}

/// The sum of a function that is the sum of two others is the sum of their sums.
pub proof fn lemma_sum_add(
    s: Set<usize>,
    f: spec_fn(usize) -> int,
    g: spec_fn(usize) -> int,
    h: spec_fn(usize) -> int,
)
    requires
        s.finite(),
        forall|x: usize| s.contains(x) ==> #[trigger] h(x) == f(x) + g(x),
    ensures
        sum_over(s, h) == sum_over(s, f) + sum_over(s, g),
    decreases s.len(),
{
    if s.len() > 0 {
        let x = s.choose();
        lemma_sum_add(s.remove(x), f, g, h);
    }
}

/// The sum of a function that is 0 but at one member of the set is its value there.
pub proof fn lemma_sum_point(s: Set<usize>, f: spec_fn(usize) -> int, x: usize)
    requires
        s.finite(),
        forall|y: usize| s.contains(y) && y != x ==> #[trigger] f(y) == 0,
    ensures
        sum_over(s, f) == (if s.contains(x) {
            f(x)
        } else {
            0
        }),
    decreases s.len(),
{
    if s.len() > 0 {
        if s.contains(x) {
            lemma_sum_remove(s, f, x);
            lemma_sum_point(s.remove(x), f, x);
        } else {
            lemma_sum_point(s.remove(s.choose()), f, x);
        }
    }
}

/// What the paths carry into `x` from the vertices `v`.
pub open spec fn flow_in(v: Set<usize>, paths: Seq<(Seq<usize>, int)>, x: usize) -> int {
    sum_over(v, |u: usize| carried(paths, u, x))
}

/// What the paths carry out of `x` to the vertices `v`.
pub open spec fn flow_out(v: Set<usize>, paths: Seq<(Seq<usize>, int)>, x: usize) -> int {
    sum_over(v, |w: usize| carried(paths, x, w))
}

/// What the paths carry in all.
pub open spec fn flow_value(paths: Seq<(Seq<usize>, int)>) -> int
    decreases paths.len(),
{
    if paths.len() == 0 {
        0
    } else {
        flow_value(paths.drop_last()) + paths.last().1
    }
}

/// What the paths carry into each vertex but `s` and `t` they carry out of it, and
/// what they carry out of `s` they carry into `t`; they carry nothing into `s` and
/// nothing out of `t`.
pub open spec fn conserved(v: Set<usize>, s: usize, t: usize, paths: Seq<(Seq<usize>, int)>) -> bool {
    &&& forall|x: usize| x != s && x != t ==> #[trigger] flow_in(v, paths, x) == flow_out(v, paths, x)
    &&& flow_out(v, paths, s) == flow_value(paths)
    &&& flow_in(v, paths, t) == flow_value(paths)
    &&& flow_in(v, paths, s) == 0
    &&& flow_out(v, paths, t) == 0
}

/// What `p` carries along the arc from `u` to `v` with the amount `amount`.
pub open spec fn along(p: Seq<usize>, amount: int, u: usize, v: usize) -> int {
    if on_path(p, u, v) {
        amount
    } else {
        0
    }
}

/// One path that visits no vertex twice carries its amount into each of its
/// vertices but the first, out of each but the last, and nothing elsewhere.
pub proof fn lemma_path_flow<V: WithID, E>(g: GraphModel<V, E>, p: Seq<usize>, amount: int, x: usize)
    requires
        g.valid(),
        is_walk(g, p),
        p.no_duplicates(),
    ensures
        sum_over(g.vertices.dom(), |u: usize| along(p, amount, u, x)) == (if exists|i: int|
            0 < i < p.len() && p[i] == x {
            amount
        } else {
            0
        }),
        sum_over(g.vertices.dom(), |w: usize| along(p, amount, x, w)) == (if exists|i: int|
            0 <= i < p.len() - 1 && p[i] == x {
            amount
        } else {
            0
        }),
{
    let v = g.vertices.dom();
    let into = |u: usize| along(p, amount, u, x);
    let out = |w: usize| along(p, amount, x, w);
    if exists|i: int| 0 < i < p.len() && p[i] == x {
        let i = choose|i: int| 0 < i < p.len() && p[i] == x;
        let before = p[i - 1];
        lemma_walk_vertices(g, p, i - 1);
        assert forall|u: usize| v.contains(u) && u != before implies #[trigger] into(u) == 0 by {
            if on_path(p, u, x) {
                let k = choose|k: int| 0 <= k < p.len() - 1 && #[trigger] p[k] == u && p[k + 1] == x;
                assert(k + 1 == i);
            }
        }
        lemma_sum_point(v, into, before);
        assert(p[i - 1] == before && p[i - 1 + 1] == x);
        assert(on_path(p, before, x));
    } else {
        assert forall|u: usize| v.contains(u) && u != x implies #[trigger] into(u) == 0 by {
            if on_path(p, u, x) {
                let k = choose|k: int| 0 <= k < p.len() - 1 && #[trigger] p[k] == u && p[k + 1] == x;
                assert(0 < k + 1 < p.len() && p[k + 1] == x);
            }
        }
        lemma_sum_point(v, into, x);
        if on_path(p, x, x) {
            let k = choose|k: int| 0 <= k < p.len() - 1 && #[trigger] p[k] == x && p[k + 1] == x;
            assert(0 < k + 1 < p.len() && p[k + 1] == x);
        }
    }
    if exists|i: int| 0 <= i < p.len() - 1 && p[i] == x {
        let i = choose|i: int| 0 <= i < p.len() - 1 && p[i] == x;
        let after = p[i + 1];
        lemma_walk_vertices(g, p, i + 1);
        assert forall|w: usize| v.contains(w) && w != after implies #[trigger] out(w) == 0 by {
            if on_path(p, x, w) {
                let k = choose|k: int| 0 <= k < p.len() - 1 && #[trigger] p[k] == x && p[k + 1] == w;
                assert(k == i);
            }
        }
        lemma_sum_point(v, out, after);
        assert(on_path(p, x, after));
    } else {
        assert forall|w: usize| v.contains(w) && w != x implies #[trigger] out(w) == 0 by {
            if on_path(p, x, w) {
                let k = choose|k: int| 0 <= k < p.len() - 1 && #[trigger] p[k] == x && p[k + 1] == w;
                assert(0 <= k < p.len() - 1 && p[k] == x);
            }
        }
        lemma_sum_point(v, out, x);
        if on_path(p, x, x) {
            let k = choose|k: int| 0 <= k < p.len() - 1 && #[trigger] p[k] == x && p[k + 1] == x;
            assert(0 <= k < p.len() - 1 && p[k] == x);
        }
    }
}

/// Paths from `s` to `t` that visit no vertex twice carry as much into every other
/// vertex as out of it. They carry nothing into `s` and nothing out of `t`, and out
/// of `s` and into `t` all that they carry.
pub proof fn lemma_conservation<V: WithID, E>(
    g: GraphModel<V, E>,
    s: usize,
    t: usize,
    paths: Seq<(Seq<usize>, int)>,
    x: usize,
)
    requires
        g.valid(),
        s != t,
        forall|j: int| 0 <= j < paths.len() ==> augmenting(g, s, t, #[trigger] paths[j]),
    ensures
        x != s && x != t ==> flow_in(g.vertices.dom(), paths, x) == flow_out(g.vertices.dom(), paths, x),
        flow_in(g.vertices.dom(), paths, s) == 0,
        flow_out(g.vertices.dom(), paths, s) == flow_value(paths),
        flow_in(g.vertices.dom(), paths, t) == flow_value(paths),
        flow_out(g.vertices.dom(), paths, t) == 0,
    decreases paths.len(),
{
    let v = g.vertices.dom();
    if paths.len() == 0 {
        lemma_sum_point(v, |u: usize| carried(paths, u, x), x);
        lemma_sum_point(v, |w: usize| carried(paths, x, w), x);
        lemma_sum_point(v, |u: usize| carried(paths, u, s), s);
        lemma_sum_point(v, |w: usize| carried(paths, s, w), s);
        lemma_sum_point(v, |u: usize| carried(paths, u, t), t);
        lemma_sum_point(v, |w: usize| carried(paths, t, w), t);
    } else {
        let rest = paths.drop_last();
        let p = paths.last().0;
        let amount = paths.last().1;
        assert forall|j: int| 0 <= j < rest.len() implies augmenting(g, s, t, #[trigger] rest[j]) by {
            assert(rest[j] == paths[j]);
        }
        assert(augmenting(g, s, t, paths[paths.len() - 1]));
        lemma_conservation(g, s, t, rest, x);
        lemma_flow_more(g, rest, p, amount, x);
        lemma_flow_more(g, rest, p, amount, s);
        lemma_flow_more(g, rest, p, amount, t);
        assert(paths =~= rest.push((p, amount)));
        assert(p[0] == s && p[p.len() - 1] == t);
        assert(p.len() > 1);
        if x != s && x != t {
            if exists|i: int| 0 < i < p.len() && p[i] == x {
                let i = choose|i: int| 0 < i < p.len() && p[i] == x;
                assert(0 <= i < p.len() - 1 && p[i] == x);
            }
            if exists|i: int| 0 <= i < p.len() - 1 && p[i] == x {
                let i = choose|i: int| 0 <= i < p.len() - 1 && p[i] == x;
                assert(0 < i < p.len() && p[i] == x);
            }
        }
        assert(!exists|i: int| 0 < i < p.len() && p[i] == s);
        assert(0 <= 0 < p.len() - 1 && p[0] == s);
        assert(!exists|i: int| 0 <= i < p.len() - 1 && p[i] == t);
        assert(0 < p.len() - 1 < p.len() && p[p.len() - 1] == t);
    }
}

/// One more path adds to what flows in and out of `x` what it carries there.
pub proof fn lemma_flow_more<V: WithID, E>(
    g: GraphModel<V, E>,
    paths: Seq<(Seq<usize>, int)>,
    p: Seq<usize>,
    amount: int,
    x: usize,
)
    requires
        g.valid(),
        is_walk(g, p),
        p.no_duplicates(),
    ensures
        flow_in(g.vertices.dom(), paths.push((p, amount)), x) == flow_in(g.vertices.dom(), paths, x) + (
        if exists|i: int| 0 < i < p.len() && p[i] == x {
            amount
        } else {
            0
        }),
        flow_out(g.vertices.dom(), paths.push((p, amount)), x) == flow_out(g.vertices.dom(), paths, x)
            + (if exists|i: int| 0 <= i < p.len() - 1 && p[i] == x {
            amount
        } else {
            0
        }),
{
    let v = g.vertices.dom();
    let more = paths.push((p, amount));
    assert(more.drop_last() =~= paths);
    lemma_path_flow(g, p, amount, x);
    lemma_sum_add(
        v,
        |u: usize| carried(paths, u, x),
        |u: usize| along(p, amount, u, x),
        |u: usize| carried(more, u, x),
    );
    lemma_sum_add(
        v,
        |w: usize| carried(paths, x, w),
        |w: usize| along(p, amount, x, w),
        |w: usize| carried(more, x, w),
    );
}

} // verus!

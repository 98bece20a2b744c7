//! Sets of edges as undirected graphs: which vertices a set of edges links, into
//! how many classes of linked vertices it parts a set of vertices, and how that
//! number changes as edges come in.

use vstd::prelude::*;

verus! {

/// An edge of `c` joins `a` and `b`, whichever way it is written.
pub open spec fn joins(c: Set<(usize, usize)>, a: usize, b: usize) -> bool {
    c.contains((a, b)) || c.contains((b, a))
}

/// `p` is a chain: a sequence of vertices, each joined to the next by an edge.
pub open spec fn is_chain(c: Set<(usize, usize)>, p: Seq<usize>) -> bool {
    &&& p.len() > 0
    &&& forall|i: int| 0 <= i < p.len() - 1 ==> joins(c, #[trigger] p[i], p[i + 1])
}

/// A chain leads from `x` to `y`.
pub open spec fn linked(c: Set<(usize, usize)>, x: usize, y: usize) -> bool {
    exists|p: Seq<usize>| #[trigger] is_chain(c, p) && p[0] == x && p.last() == y
}

/// What `x` is linked to.
pub open spec fn class_of(c: Set<(usize, usize)>, x: usize) -> Set<usize> {
    Set::new(|y: usize| linked(c, x, y))
}

/// The classes into which the edges of `c` part the vertices `v`.
pub open spec fn classes(v: Set<usize>, c: Set<(usize, usize)>) -> Set<Set<usize>> {
    Set::new(|k: Set<usize>| exists|x: usize| v.contains(x) && k == #[trigger] class_of(c, x))
}

/// The ends of every edge of `c` are in `v`.
pub open spec fn within(v: Set<usize>, c: Set<(usize, usize)>) -> bool {
    forall|e: (usize, usize)| #[trigger] c.contains(e) ==> v.contains(e.0) && v.contains(e.1)
}

/// Everything is linked to itself.
pub proof fn lemma_linked_self(c: Set<(usize, usize)>, x: usize)
    ensures
        linked(c, x, x),
{
    let p = seq![x];
    assert(is_chain(c, p) && p[0] == x && p.last() == x);
}

/// A chain goes on over one more edge.
pub proof fn lemma_linked_step(c: Set<(usize, usize)>, x: usize, u: usize, w: usize)
    requires
        linked(c, x, u),
        joins(c, u, w),
    ensures
        linked(c, x, w),
{
    let p = choose|p: Seq<usize>| #[trigger] is_chain(c, p) && p[0] == x && p.last() == u;
    let r = p.push(w);
    assert forall|i: int| 0 <= i < r.len() - 1 implies joins(c, #[trigger] r[i], r[i + 1]) by {
        if i < p.len() - 1 {
            assert(joins(c, p[i], p[i + 1]));
        }
    }
    assert(is_chain(c, r) && r[0] == x && r.last() == w);
}

proof fn lemma_chain_stays(c: Set<(usize, usize)>, set: Set<usize>, p: Seq<usize>, i: int)
    requires
        is_chain(c, p),
        set.contains(p[0]),
        forall|u: usize, w: usize| set.contains(u) && #[trigger] joins(c, u, w) ==> set.contains(w),
        0 <= i < p.len(),
    ensures
        set.contains(p[i]),
    decreases i,
{
    if i > 0 {
        lemma_chain_stays(c, set, p, i - 1);
        assert(joins(c, p[i - 1], p[i - 1 + 1]));
    }
}

/// A set that holds `x` and with each vertex what the edges join it to holds
/// everything that `x` is linked to.
pub proof fn lemma_linked_closed(c: Set<(usize, usize)>, set: Set<usize>, x: usize, y: usize)
    requires
        set.contains(x),
        forall|u: usize, w: usize| set.contains(u) && #[trigger] joins(c, u, w) ==> set.contains(w),
        linked(c, x, y),
    ensures
        set.contains(y),
{
    let p = choose|p: Seq<usize>| #[trigger] is_chain(c, p) && p[0] == x && p.last() == y;
    lemma_chain_stays(c, set, p, p.len() - 1);
}

/// A chain that ends in a set and does not start in it enters it somewhere: the
/// result is the place of a vertex outside the set whose next vertex is in it.
pub proof fn lemma_crossing(c: Set<(usize, usize)>, p: Seq<usize>, set: Set<usize>, k: int) -> (i: int)
    requires
        is_chain(c, p),
        0 <= k < p.len(),
        !set.contains(p[0]),
        set.contains(p[k]),
    ensures
        0 <= i < k,
        !set.contains(p[i]),
        set.contains(p[i + 1]),
    decreases k,
{
    if !set.contains(p[k - 1]) {
        k - 1
    } else {
        lemma_crossing(c, p, set, k - 1)
    }
}

/// Two chains, the second from where the first ends, make one chain.
pub proof fn lemma_linked_trans(c: Set<(usize, usize)>, x: usize, y: usize, z: usize)
    requires
        linked(c, x, y),
        linked(c, y, z),
    ensures
        linked(c, x, z),
{
    let set = class_of(c, x);
    assert forall|u: usize, w: usize| set.contains(u) && #[trigger] joins(c, u, w) implies set.contains(
        w,
    ) by {
        lemma_linked_step(c, x, u, w);
    }
    lemma_linked_closed(c, set, y, z);
}

/// A chain can be walked back.
pub proof fn lemma_linked_back(c: Set<(usize, usize)>, x: usize, y: usize)
    requires
        linked(c, x, y),
    ensures
        linked(c, y, x),
{
    let set = Set::new(|z: usize| linked(c, z, x));
    lemma_linked_self(c, x);
    assert forall|u: usize, w: usize| set.contains(u) && #[trigger] joins(c, u, w) implies set.contains(
        w,
    ) by {
        lemma_linked_self(c, w);
        lemma_linked_step(c, w, w, u);
        lemma_linked_trans(c, w, u, x);
    }
    lemma_linked_closed(c, set, x, y);
}

/// What is linked stays linked when edges come in.
pub proof fn lemma_linked_grows(a: Set<(usize, usize)>, b: Set<(usize, usize)>, x: usize, y: usize)
    requires
        a.subset_of(b),
        linked(a, x, y),
    ensures
        linked(b, x, y),
{
    let p = choose|p: Seq<usize>| #[trigger] is_chain(a, p) && p[0] == x && p.last() == y;
    assert forall|i: int| 0 <= i < p.len() - 1 implies joins(b, #[trigger] p[i], p[i + 1]) by {
        assert(joins(a, p[i], p[i + 1]));
    }
    assert(is_chain(b, p));
}

/// Linked vertices have the same class.
pub proof fn lemma_same_class(c: Set<(usize, usize)>, x: usize, y: usize)
    requires
        linked(c, x, y),
    ensures
        class_of(c, x) == class_of(c, y),
{
    lemma_linked_back(c, x, y);
    assert forall|z: usize| linked(c, x, z) <==> linked(c, y, z) by {
        if linked(c, x, z) {
            lemma_linked_trans(c, y, x, z);
        }
        if linked(c, y, z) {
            lemma_linked_trans(c, x, y, z);
        }
    }
    assert(class_of(c, x) =~= class_of(c, y));
}

/// `x` and `y` are linked, or become so once `a` and `b` are joined.
pub open spec fn linked_over(c: Set<(usize, usize)>, a: usize, b: usize, x: usize, y: usize) -> bool {
    ||| linked(c, x, y)
    ||| linked(c, x, a) && linked(c, b, y)
    ||| linked(c, x, b) && linked(c, a, y)
}

/// What is linked after an edge has come in: what was linked before, and what is
/// linked over the new edge.
pub proof fn lemma_linked_insert(c: Set<(usize, usize)>, a: usize, b: usize, x: usize, y: usize)
    ensures
        linked(c.insert((a, b)), x, y) <==> linked_over(c, a, b, x, y),
{
    let d = c.insert((a, b));
    lemma_linked_self(c, a);
    lemma_linked_self(c, b);
    lemma_linked_self(c, x);
    assert(joins(d, a, b) && joins(d, b, a));
    if linked_over(c, a, b, x, y) {
        if linked(c, x, y) {
            lemma_linked_grows(c, d, x, y);
        } else if linked(c, x, a) && linked(c, b, y) {
            lemma_linked_grows(c, d, x, a);
            lemma_linked_grows(c, d, b, y);
            lemma_linked_step(d, x, a, b);
            lemma_linked_trans(d, x, b, y);
        } else {
            lemma_linked_grows(c, d, x, b);
            lemma_linked_grows(c, d, a, y);
            lemma_linked_step(d, x, b, a);
            lemma_linked_trans(d, x, a, y);
        }
    }
    if linked(d, x, y) {
        let set = Set::new(|z: usize| linked_over(c, a, b, x, z));
        assert(set.contains(x));
        assert forall|u: usize, w: usize| set.contains(u) && #[trigger] joins(d, u, w) implies set.contains(
            w,
        ) by {
            if joins(c, u, w) {
                if linked(c, x, u) {
                    lemma_linked_step(c, x, u, w);
                } else if linked(c, x, a) && linked(c, b, u) {
                    lemma_linked_step(c, b, u, w);
                } else {
                    lemma_linked_step(c, a, u, w);
                }
            } else if u == a && w == b {
                if linked(c, x, a) && linked(c, b, a) {
                } else if linked(c, x, b) && linked(c, a, a) {
                }
            } else {
                assert(u == b && w == a);
            }
        }
        lemma_linked_closed(d, set, x, y);
    }
}

/// Without edges nothing is linked but to itself.
pub proof fn lemma_linked_alone(x: usize, y: usize)
    requires
        linked(Set::<(usize, usize)>::empty(), x, y),
    ensures
        x == y,
{
    lemma_linked_closed(Set::<(usize, usize)>::empty(), set![x], x, y);
}

/// Where the vertices make one class at most, each is linked to each.
pub proof fn lemma_one_class(v: Set<usize>, c: Set<(usize, usize)>, x: usize, y: usize)
    requires
        v.finite(),
        classes(v, c).len() <= 1,
        v.contains(x),
        v.contains(y),
    ensures
        linked(c, x, y),
{
    lemma_classes_finite(v, c);
    let kx = class_of(c, x);
    let ky = class_of(c, y);
    assert(classes(v, c).contains(kx));
    assert(classes(v, c).contains(ky));
    lemma_linked_self(c, y);
    assert(ky.contains(y));
    if kx != ky {
        assert(set![kx, ky].subset_of(classes(v, c)));
        vstd::set_lib::lemma_len_subset(set![kx, ky], classes(v, c));
        assert(set![kx, ky].len() == 2) by {
            assert(set![kx, ky] =~= set![kx].insert(ky));
            assert(!set![kx].contains(ky));
        }
    }
}

/// Finitely many vertices have finitely many classes, no more than there are
/// vertices.
pub proof fn lemma_classes_finite(v: Set<usize>, c: Set<(usize, usize)>)
    requires
        v.finite(),
    ensures
        classes(v, c).finite(),
        classes(v, c).len() <= v.len(),
{
    let f = |x: usize| class_of(c, x);
    assert(v.map(f) =~= classes(v, c)) by {
        assert forall|k: Set<usize>| v.map(f).contains(k) <==> classes(v, c).contains(k) by {
            if v.map(f).contains(k) {
                let x = choose|x: usize| v.contains(x) && k == f(x);
                assert(v.contains(x) && k == class_of(c, x));
            }
            if classes(v, c).contains(k) {
                let x = choose|x: usize| v.contains(x) && k == #[trigger] class_of(c, x);
                assert(v.contains(x) && k == f(x));
            }
        }
    }
    vstd::set_lib::lemma_map_size_bound(v, classes(v, c), f);
}

/// Without edges every vertex is a class of its own.
pub proof fn lemma_classes_alone(v: Set<usize>)
    requires
        v.finite(),
    ensures
        classes(v, Set::<(usize, usize)>::empty()).len() == v.len(),
{
    let c = Set::<(usize, usize)>::empty();
    let f = |x: usize| class_of(c, x);
    assert forall|x: usize| #[trigger] class_of(c, x) =~= set![x] by {
        lemma_linked_self(c, x);
        assert forall|y: usize| linked(c, x, y) implies y == x by {
            lemma_linked_alone(x, y);
        }
    }
    assert(v.map(f) =~= classes(v, c)) by {
        assert forall|k: Set<usize>| v.map(f).contains(k) <==> classes(v, c).contains(k) by {
            if v.map(f).contains(k) {
                let x = choose|x: usize| v.contains(x) && k == f(x);
                assert(v.contains(x) && k == class_of(c, x));
            }
            if classes(v, c).contains(k) {
                let x = choose|x: usize| v.contains(x) && k == #[trigger] class_of(c, x);
                assert(v.contains(x) && k == f(x));
            }
        }
    }
    assert(vstd::relations::injective_on(f, v)) by {
        assert forall|x: usize, y: usize| v.contains(x) && v.contains(y) && #[trigger] f(x) == #[trigger] f(
            y,
        ) implies x == y by {
            assert(class_of(c, x) =~= set![x]);
            assert(class_of(c, y) =~= set![y]);
            assert(set![x].contains(x));
        }
    }
    vstd::set_lib::lemma_map_size(v, classes(v, c), f);
}

/// An edge between two classes makes one class of them, and an edge inside a class
/// changes nothing.
pub proof fn lemma_classes_insert(v: Set<usize>, c: Set<(usize, usize)>, a: usize, b: usize)
    requires
        v.finite(),
        v.contains(a),
        v.contains(b),
    ensures
        linked(c, a, b) ==> classes(v, c.insert((a, b))) == classes(v, c),
        !linked(c, a, b) ==> classes(v, c.insert((a, b))).len() + 1 == classes(v, c).len(),
{
    let d = c.insert((a, b));
    lemma_classes_finite(v, c);
    lemma_classes_finite(v, d);
    lemma_linked_self(c, a);
    lemma_linked_self(c, b);
    let ka = class_of(c, a);
    let kb = class_of(c, b);
    let both = ka + kb;
    assert forall|x: usize| #[trigger] class_of(d, x) == (if linked(c, x, a) || linked(c, x, b) {
        both
    } else {
        class_of(c, x)
    }) by {
        assert forall|y: usize| class_of(d, x).contains(y) <==> (if linked(c, x, a) || linked(c, x, b) {
            both
        } else {
            class_of(c, x)
        }).contains(y) by {
            lemma_linked_insert(c, a, b, x, y);
            if linked(c, x, a) {
                lemma_linked_back(c, x, a);
                if linked(c, x, y) {
                    lemma_linked_trans(c, a, x, y);
                }
                if linked(c, a, y) {
                    lemma_linked_trans(c, x, a, y);
                }
            }
            if linked(c, x, b) {
                lemma_linked_back(c, x, b);
                if linked(c, x, y) {
                    lemma_linked_trans(c, b, x, y);
                }
                if linked(c, b, y) {
                    lemma_linked_trans(c, x, b, y);
                }
            }
        }
        assert(class_of(d, x) =~= (if linked(c, x, a) || linked(c, x, b) {
            both
        } else {
            class_of(c, x)
        }));
    }
    if linked(c, a, b) {
        lemma_same_class(c, a, b);
        assert(both =~= ka);
        assert forall|x: usize| #[trigger] class_of(d, x) == class_of(c, x) by {
            if linked(c, x, a) {
                lemma_same_class(c, x, a);
            }
            if linked(c, x, b) {
                lemma_same_class(c, x, b);
            }
        }
        assert(classes(v, d) =~= classes(v, c)) by {
            assert forall|k: Set<usize>| classes(v, d).contains(k) <==> classes(v, c).contains(k) by {
                if classes(v, d).contains(k) {
                    let x = choose|x: usize| v.contains(x) && k == #[trigger] class_of(d, x);
                    assert(v.contains(x) && k == class_of(c, x));
                }
                if classes(v, c).contains(k) {
                    let x = choose|x: usize| v.contains(x) && k == #[trigger] class_of(c, x);
                    assert(v.contains(x) && k == class_of(d, x));
                }
            }
        }
    } else {
        let rest = classes(v, c).remove(ka).remove(kb);
        assert(classes(v, c).contains(ka));
        assert(classes(v, c).contains(kb));
        assert(ka != kb) by {
            assert(kb.contains(b));
        }
        assert(classes(v, d) =~= rest.insert(both)) by {
            assert forall|k: Set<usize>| classes(v, d).contains(k) <==> rest.insert(both).contains(k) by {
                if classes(v, d).contains(k) {
                    let x = choose|x: usize| v.contains(x) && k == #[trigger] class_of(d, x);
                    if !(linked(c, x, a) || linked(c, x, b)) {
                        assert(classes(v, c).contains(class_of(c, x)));
                        lemma_linked_self(c, x);
                        if class_of(c, x) == ka {
                            assert(ka.contains(x));
                            lemma_linked_back(c, a, x);
                        }
                        if class_of(c, x) == kb {
                            assert(kb.contains(x));
                            lemma_linked_back(c, b, x);
                        }
                    }
                }
                if rest.insert(both).contains(k) {
                    if k == both {
                        assert(class_of(d, a) == both);
                    } else {
                        let x = choose|x: usize| v.contains(x) && k == #[trigger] class_of(c, x);
                        if linked(c, x, a) {
                            lemma_same_class(c, x, a);
                        }
                        if linked(c, x, b) {
                            lemma_same_class(c, x, b);
                        }
                        assert(v.contains(x) && k == class_of(d, x));
                    }
                }
            }
        }
        assert(!rest.contains(both)) by {
            if rest.contains(both) {
                let x = choose|x: usize| v.contains(x) && both == #[trigger] class_of(c, x);
                assert(both.contains(a));
                assert(linked(c, x, a));
                lemma_same_class(c, x, a);
            }
        }
    }
}

/// Each edge that comes in takes away one class at most: a set of edges leaves no
/// more classes than a larger set does and the number of edges between them.
pub proof fn lemma_classes_bound(v: Set<usize>, s: Set<(usize, usize)>, f: Set<(usize, usize)>)
    requires
        v.finite(),
        f.finite(),
        s.subset_of(f),
        within(v, f),
    ensures
        s.finite(),
        classes(v, s).len() + s.len() <= classes(v, f).len() + f.len(),
    decreases f.len() - s.len(),
{
    vstd::set_lib::lemma_set_subset_finite(f, s);
    vstd::set_lib::lemma_len_subset(s, f);
    if s.len() == f.len() {
        vstd::set_lib::lemma_subset_equality(s, f);
    } else {
        let rest = f.difference(s);
        vstd::set_lib::lemma_set_difference_len(f, s);
        assert(f.intersect(s) =~= s);
        assert(rest.len() > 0);
        let e = rest.choose();
        assert(rest.contains(e));
        assert(f.contains(e) && !s.contains(e));
        lemma_classes_insert(v, s, e.0, e.1);
        assert(s.insert((e.0, e.1)) == s.insert(e));
        lemma_classes_bound(v, s.insert(e), f);
    }
}

/// Where one set of edges links all that another links, it leaves no more classes.
pub proof fn lemma_classes_coarser(v: Set<usize>, a: Set<(usize, usize)>, b: Set<(usize, usize)>)
    requires
        v.finite(),
        forall|x: usize, y: usize| v.contains(x) && v.contains(y) && #[trigger] linked(a, x, y) ==> linked(b, x, y),
    ensures
        classes(v, b).len() <= classes(v, a).len(),
{
    lemma_classes_finite(v, a);
    let f = |k: Set<usize>| class_of(b, choose|x: usize| v.contains(x) && k == #[trigger] class_of(a, x));
    assert(classes(v, a).map(f) =~= classes(v, b)) by {
        assert forall|k: Set<usize>| classes(v, a).map(f).contains(k) <==> classes(v, b).contains(k) by {
            if classes(v, a).map(f).contains(k) {
                let j = choose|j: Set<usize>| classes(v, a).contains(j) && k == f(j);
                let x = choose|x: usize| v.contains(x) && j == #[trigger] class_of(a, x);
                assert(v.contains(x) && k == class_of(b, x));
            }
            if classes(v, b).contains(k) {
                let y = choose|y: usize| v.contains(y) && k == #[trigger] class_of(b, y);
                let j = class_of(a, y);
                assert(classes(v, a).contains(j));
                let x = choose|x: usize| v.contains(x) && j == #[trigger] class_of(a, x);
                lemma_linked_self(a, y);
                assert(class_of(a, x).contains(y));
                assert(linked(a, x, y));
                lemma_same_class(b, x, y);
                assert(k == f(j));
            }
        }
    }
    vstd::set_lib::lemma_map_size_bound(classes(v, a), classes(v, b), f);
}

} // verus!

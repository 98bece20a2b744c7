use vstd::prelude::*;
use crate::graph::{lemma_listing_covers, lists_vertices, Graph, GraphBase, WithID};

verus! {

/// The members of `ids` other than `x`, in their order.
pub open spec fn without(ids: Seq<usize>, x: usize) -> Seq<usize>
    decreases ids.len(),
{
    if ids.len() == 0 {
        Seq::empty()
    } else if ids.last() == x {
        without(ids.drop_last(), x)
    } else {
        without(ids.drop_last(), x).push(ids.last())
    }
}

/// The start and the others among the ids `ids`: with `start` that id, if it is
/// among them, and without it the first of them, if there is any.
pub open spec fn initial_of(ids: Seq<usize>, start: Option<usize>) -> Option<(usize, Seq<usize>)> {
    match start {
        Some(s) => if ids.contains(s) {
            Some((s, without(ids, s)))
        } else {
            None
        },
        None => if ids.len() == 0 {
            None
        } else {
            Some((ids[0], without(ids, ids[0])))
        },
    }
}

/// `r` is the start and the others as `initial_of` gives them.
pub open spec fn is_initial(r: Option<(usize, Vec<usize>)>, ids: Seq<usize>, start: Option<usize>) -> bool {
    match (r, initial_of(ids, start)) {
        (Some((s, rest)), Some((first, others))) => s == first && rest@ == others,
        (None, None) => true,
        _ => false,
    }
}

/// The ids of the listed vertices.
pub open spec fn ids_of<V: WithID>(listing: Seq<&V>) -> Seq<usize> {
    Seq::new(listing.len(), |i: int| listing[i].spec_id())
}

/// What is left without `x` holds the others, and holds nothing twice where `ids`
/// does not.
pub proof fn lemma_without(ids: Seq<usize>, x: usize)
    ensures
        forall|y: usize| without(ids, x).contains(y) <==> ids.contains(y) && y != x,
        ids.no_duplicates() ==> without(ids, x).no_duplicates(),
    decreases ids.len(),
{
    if ids.len() > 0 {
        let shorter = ids.drop_last();
        let last = ids.last();
        lemma_without(shorter, x);
        let w = without(shorter, x);
        assert forall|y: usize| without(ids, x).contains(y) <==> ids.contains(y) && y != x by {
            if ids.contains(y) {
                let i = choose|i: int| 0 <= i < ids.len() && ids[i] == y;
                if i < shorter.len() {
                    assert(shorter[i] == y);
                }
            }
            if shorter.contains(y) {
                let i = choose|i: int| 0 <= i < shorter.len() && shorter[i] == y;
                assert(ids[i] == y);
            }
            assert(ids[ids.len() - 1] == last);
            if last != x {
                let longer = w.push(last);
                if w.contains(y) {
                    let i = choose|i: int| 0 <= i < w.len() && w[i] == y;
                    assert(longer[i] == y);
                }
                assert(longer[w.len() as int] == last);
                if longer.contains(y) {
                    let i = choose|i: int| 0 <= i < longer.len() && longer[i] == y;
                    if i < w.len() {
                        assert(w[i] == y);
                    }
                }
            }
        }
        if ids.no_duplicates() {
            assert(shorter.no_duplicates());
            if last != x {
                let longer = w.push(last);
                assert(!w.contains(last)) by {
                    if shorter.contains(last) {
                        let i = choose|i: int| 0 <= i < shorter.len() && shorter[i] == last;
                        assert(ids[i] == ids[ids.len() - 1]);
                    }
                }
                assert forall|i: int, j: int| 0 <= i < longer.len() && 0 <= j < longer.len() && i
                    != j implies longer[i] != longer[j] by {
                    if i < w.len() {
                        assert(w.contains(w[i]));
                    }
                    if j < w.len() {
                        assert(w.contains(w[j]));
                    }
                }
            }
        }
    }
}

/// The start and the others among `ids`: with `start` that id, if it is among
/// them, and without it the first of them; the others follow in their order.
pub fn initial_vertex_of(ids: &Vec<usize>, start: Option<usize>) -> (r: Option<(usize, Vec<usize>)>)
    ensures
        is_initial(r, ids@, start),
{
    let first = match start {
        Some(s) => {
            let mut found = false;
            let mut i: usize = 0;
            while i < ids.len()
                invariant
                    0 <= i <= ids.len(),
                    found <==> ids@.take(i as int).contains(s),
                decreases ids.len() - i,
            {
                proof {
                    let before = ids@.take(i as int);
                    let after = ids@.take(i + 1);
                    assert(after.drop_last() =~= before);
                    if before.contains(s) {
                        let k = choose|k: int| 0 <= k < before.len() && before[k] == s;
                        assert(after[k] == s);
                    }
                    if after.contains(s) && ids[i as int] != s {
                        let k = choose|k: int| 0 <= k < after.len() && after[k] == s;
                        assert(before[k] == s);
                    }
                    if ids[i as int] == s {
                        assert(after[i as int] == s);
                    }
                }
                if ids[i] == s {
                    found = true;
                }
                i += 1;
            }
            proof {
                assert(ids@.take(ids.len() as int) =~= ids@);
            }
            if !found {
                return None;
            }
            s
        },
        None => {
            if ids.len() == 0 {
                return None;
            }
            ids[0]
        },
    };
    let mut rest: Vec<usize> = Vec::new();
    let mut i: usize = 0;
    while i < ids.len()
        invariant
            0 <= i <= ids.len(),
            rest@ == without(ids@.take(i as int), first),
        decreases ids.len() - i,
    {
        proof {
            assert(ids@.take(i + 1).drop_last() =~= ids@.take(i as int));
        }
        if ids[i] != first {
            rest.push(ids[i]);
        }
        i += 1;
    }
    proof {
        assert(ids@.take(ids.len() as int) =~= ids@);
    }
    Some((first, rest))
}

impl<Backend: GraphBase> Graph<Backend> {
    /// The vertex to start from and the other vertices, in the order in which the
    /// graph lists them: with `start_vertex_id` that vertex, if the graph holds it,
    /// and without it the first vertex that the graph lists, if it holds any.
    pub fn get_initial_vertex(&self, start_vertex_id: Option<usize>) -> (r: Option<
        (usize, Vec<usize>),
    >)
        requires
            self.wf(),
        ensures
            exists|listing: Seq<&Backend::Vertex>| #[trigger]
                lists_vertices(listing, self.model()) && is_initial(r, ids_of(listing), start_vertex_id),
            r is Some <==> (match start_vertex_id {
                Some(s) => self.model().has_vertex(s),
                None => self.model().vertices.dom().len() > 0,
            }),
            match r {
                Some((start, rest)) => {
                    &&& self.model().has_vertex(start)
                    &&& start_vertex_id is Some ==> start == start_vertex_id->Some_0
                    &&& rest@.no_duplicates()
                    &&& rest@.to_set() == self.model().vertices.dom().remove(start)
                    &&& rest.len() + 1 == self.model().vertices.dom().len()
                },
                None => true,
            },
    {
        proof {
            self.lemma_wf();
        }
        let ghost m = self.model();
        let vertices = self.get_all_vertices();
        let mut ids: Vec<usize> = Vec::new();
        let mut i: usize = 0;
        while i < vertices.len()
            invariant
                0 <= i <= vertices.len(),
                ids@ == ids_of(vertices@).take(i as int),
            decreases vertices.len() - i,
        {
            ids.push(vertices[i].get_id());
            proof {
                assert(ids@ =~= ids_of(vertices@).take(i + 1));
            }
            i += 1;
        }
        let r = initial_vertex_of(&ids, start_vertex_id);
        proof {
            let all = ids_of(vertices@);
            assert(all.take(vertices.len() as int) =~= all);
            assert(all.no_duplicates()) by {
                assert forall|a: int, b: int| 0 <= a < all.len() && 0 <= b < all.len() && a != b implies all[a]
                    != all[b] by {
                    if a < b {
                        assert(vertices[a].spec_id() != vertices[b].spec_id());
                    } else {
                        assert(vertices[b].spec_id() != vertices[a].spec_id());
                    }
                }
            }
            assert forall|x: usize| all.contains(x) <==> m.has_vertex(x) by {
                if all.contains(x) {
                    let a = choose|a: int| 0 <= a < all.len() && all[a] == x;
                    assert(m.has_vertex(vertices[a].spec_id()));
                }
                if m.has_vertex(x) {
                    lemma_listing_covers(vertices@, m, x);
                    let a = choose|a: int| 0 <= a < vertices.len() && (#[trigger] vertices[a]).spec_id() == x;
                    assert(all[a] == x);
                }
            }
            assert(all.to_set() =~= m.vertices.dom());
            all.unique_seq_to_set();
            if all.len() > 0 {
                assert(all.contains(all[0]));
            }
            if r is Some {
                let start = r->Some_0.0;
                let rest = r->Some_0.1@;
                lemma_without(all, start);
                assert(rest.to_set() =~= m.vertices.dom().remove(start));
                rest.unique_seq_to_set();
            }
            assert(lists_vertices(vertices@, m) && is_initial(r, ids_of(vertices@), start_vertex_id));
        }
        r
    }
}

} // verus!

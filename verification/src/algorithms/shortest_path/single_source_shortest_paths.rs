use vstd::prelude::*;
use rustc_hash::FxHashMap;
use crate::fx::{map_contains_key, map_get, map_len};

verus! {

/// The vertices from `start` to `current` along the predecessors, in at most `fuel`
/// steps back; nothing where the chain ends before it comes to `start`.
pub open spec fn chain(
    predecessors: Map<usize, usize>,
    start: usize,
    current: usize,
    fuel: nat,
) -> Option<Seq<usize>>
    decreases fuel,
{
    if current == start {
        Some(seq![start])
    } else if fuel == 0 || !predecessors.contains_key(current) {
        None
    } else {
        match chain(predecessors, start, predecessors[current], (fuel - 1) as nat) {
            Some(p) => Some(p.push(current)),
            None => None,
        }
    }
}

/// What is known of the shortest paths from one vertex: the cost of the path to
/// each vertex that was reached, and for each of them but the start the vertex
/// before it on its path.
#[derive(Debug, Clone)]
pub struct SingleSourceShortestPaths<Cost> {
    start: usize,
    costs: FxHashMap<usize, Cost>,
    predecessors: FxHashMap<usize, usize>,
}

impl<Cost: Copy> SingleSourceShortestPaths<Cost> {
    /// The costs by vertex.
    pub closed spec fn costs(&self) -> Map<usize, Cost> {
        self.costs@
    }

    /// The predecessors by vertex.
    pub closed spec fn predecessors(&self) -> Map<usize, usize> {
        self.predecessors@
    }

    /// The start vertex.
    pub closed spec fn spec_start(&self) -> usize {
        self.start
    }

    /// The path to `target`: the vertices from the start to `target` along the
    /// predecessors; empty where `target` has no cost or its chain of predecessors
    /// does not lead to the start within as many steps as there are predecessors.
    pub open spec fn path(&self, target: usize) -> Seq<usize> {
        if !self.costs().contains_key(target) {
            Seq::empty()
        } else {
            match chain(
                self.predecessors(),
                self.spec_start(),
                target,
                self.predecessors().dom().len(),
            ) {
                Some(p) => p,
                None => Seq::empty(),
            }
        }
    }

    pub fn new(start: usize, costs: FxHashMap<usize, Cost>, predecessors: FxHashMap<usize, usize>) -> (r: Self)
        ensures
            r.spec_start() == start,
            r.costs() == costs@,
            r.predecessors() == predecessors@,
    {
        Self { start, costs, predecessors }
    }

    pub fn start(&self) -> (s: usize)
        ensures
            s == self.spec_start(),
    {
        self.start
    }

    /// The cost of the path from the start to `target`, if `target` was reached.
    pub fn get_cost(&self, target: usize) -> (c: Option<Cost>)
        ensures
            c == (if self.costs().contains_key(target) {
                Some(self.costs()[target])
            } else {
                None
            }),
    {
        match map_get(&self.costs, target) {
            Some(c) => Some(*c),
            None => None,
        }
    }

    /// The path from the start to `target`.
    pub fn get_path(&self, target: usize) -> (r: Vec<usize>)
        ensures
            r@ == self.path(target),
    {
        if !map_contains_key(&self.costs, target) {
            return Vec::new();
        }
        let total = map_len(&self.predecessors);
        let ghost preds = self.predecessors@;
        // Walk backwards from the target to the start.
        let mut back: Vec<usize> = Vec::new();
        let mut current = target;
        let mut fuel = total;
        while current != self.start
            invariant
                preds == self.predecessors@,
                self.costs@.contains_key(target),
                total == preds.dom().len(),
                fuel <= total,
                chain(preds, self.start, target, total as nat) == (match chain(
                    preds,
                    self.start,
                    current,
                    fuel as nat,
                ) {
                    Some(p) => Some(p + back@.reverse()),
                    None => None,
                }),
            decreases fuel,
        {
            if fuel == 0 {
                proof {
                    assert(chain(preds, self.start, current, fuel as nat) is None);
                }
                return Vec::new();
            }
            let pred = match map_get(&self.predecessors, current) {
                Some(p) => *p,
                None => {
                    proof {
                        assert(chain(preds, self.start, current, fuel as nat) is None);
                    }
                    return Vec::new();
                },
            };
            proof {
                let after = back@.push(current);
                assert(after.reverse() =~= seq![current] + back@.reverse());
                match chain(preds, self.start, pred, (fuel - 1) as nat) {
                    Some(p) => {
                        assert(p.push(current) + back@.reverse() =~= p + after.reverse());
                    },
                    None => {},
                }
            }
            back.push(current);
            current = pred;
            fuel -= 1;
        }
        back.push(self.start);
        let ghost full = back@;
        proof {
            assert(full.reverse() =~= seq![self.start] + full.drop_last().reverse());
            assert(full.drop_last() =~= back@.drop_last());
            assert(chain(preds, self.start, current, fuel as nat) == Some(seq![self.start]));
        }
        // Turn the vertices round.
        let mut path: Vec<usize> = Vec::new();
        let mut i: usize = back.len();
        while i > 0
            invariant
                0 <= i <= back.len(),
                back@ == full,
                self.path(target) == full.reverse(),
                path@ == full.reverse().take(full.len() - i),
            decreases i,
        {
            i -= 1;
            path.push(back[i]);
            proof {
                assert(path@ =~= full.reverse().take(full.len() - i));
            }
        }
        proof {
            assert(full.reverse().take(full.len() as int) =~= full.reverse());
        }
        path
    }
}

} // verus!

use vstd::prelude::*;
use vstd::string::StringExecFns;
use std::fmt::Debug;
use crate::text::{decimal, decimal_text};
use super::traits::WeightedEdge;

verus! {

/// The sum of the weights of a sequence of steps.
pub open spec fn path_cost<Edge: WeightedEdge>(steps: Seq<(usize, usize, Edge)>) -> int
    decreases steps.len(),
{
    if steps.len() == 0 {
        0
    } else {
        path_cost(steps.drop_last()) + steps.last().2.spec_weight()
    }
}

/// The vertices that a sequence of steps passes: where the first step starts, then
/// where each step ends.
pub open spec fn path_nodes<Edge>(steps: Seq<(usize, usize, Edge)>) -> Seq<usize> {
    if steps.len() == 0 {
        Seq::empty()
    } else {
        seq![steps[0].0] + Seq::new(steps.len(), |i: int| steps[i].1)
    }
}

/// The sum of the weights of `n` steps is at most `n` times the largest weight.
pub proof fn lemma_path_cost_bound<Edge: WeightedEdge>(steps: Seq<(usize, usize, Edge)>)
    ensures
        -steps.len() * 0x8000_0000_0000_0000 <= path_cost(steps) <= steps.len()
            * 0x8000_0000_0000_0000,
    decreases steps.len(),
{
    if steps.len() > 0 {
        lemma_path_cost_bound(steps.drop_last());
    }
}

/// The line that describes the step at position `i`, with `edge` for the text of
/// its edge.
pub open spec fn step_text(i: int, from: usize, to: usize, edge: Seq<char>) -> Seq<char> {
    decimal_text((i + 1) as nat) + ": "@ + decimal_text(from as nat) + " -> "@ + decimal_text(
        to as nat,
    ) + " via "@ + edge + "\n"@
}

/// The lines that describe the first `n` steps, with `edges` for the texts of their
/// edges.
pub open spec fn steps_text<Edge>(steps: Seq<(usize, usize, Edge)>, edges: Seq<Seq<char>>, n: int) -> Seq<
    char,
>
    decreases n,
{
    if n <= 0 {
        Seq::empty()
    } else {
        steps_text(steps, edges, n - 1) + step_text(
            n - 1,
            steps[n - 1].0,
            steps[n - 1].1,
            edges[n - 1],
        )
    }
}

/// `Debug` of the value, as `format!` writes it with `{:?}`. What the text holds is
/// up to the type.
#[verifier::external_body]
fn debug_text<T: Debug>(value: &T) -> (text: String) {
    format!("{:?}", value)
}

/// A sequence of steps `(from, to, edge)`.
#[derive(Debug, Clone, PartialEq)]
pub struct Path<Edge> {
    edges: Vec<(usize, usize, Edge)>,
}

impl<Edge> View for Path<Edge> {
    type V = Seq<(usize, usize, Edge)>;

    closed spec fn view(&self) -> Seq<(usize, usize, Edge)> {
        self.edges@
    }
}

impl<Edge> Path<Edge> {
    /// The vertices that the path passes, the start of the first step first.
    pub fn nodes(&self) -> (r: Vec<usize>)
        ensures
            r@ == path_nodes(self@),
    {
        let mut nodes: Vec<usize> = Vec::new();
        if self.edges.len() > 0 {
            nodes.push(self.edges[0].0);
        }
        let mut i: usize = 0;
        while i < self.edges.len()
            invariant
                0 <= i <= self.edges.len(),
                self.edges.len() > 0 ==> nodes@ == seq![self.edges[0].0] + Seq::new(
                    i as nat,
                    |k: int| self.edges[k].1,
                ),
                self.edges.len() == 0 ==> nodes@ == Seq::<usize>::empty(),
            decreases self.edges.len() - i,
        {
            nodes.push(self.edges[i].1);
            proof {
                assert(nodes@ =~= seq![self.edges[0].0] + Seq::new(
                    (i + 1) as nat,
                    |k: int| self.edges[k].1,
                ));
            }
            i += 1;
        }
        nodes
    }

    /// Appends a step.
    pub fn push(&mut self, from: usize, to: usize, edge: Edge)
        ensures
            final(self)@ == old(self)@.push((from, to, edge)),
    {
        self.edges.push((from, to, edge));
    }

    /// The steps in order.
    pub fn edges(&self) -> (r: &Vec<(usize, usize, Edge)>)
        ensures
            r@ == self@,
    {
        &self.edges
    }

    /// The vertices that the path passes: `nodes` under its other name.
    pub fn vertices(&self) -> (r: Vec<usize>)
        ensures
            r@ == path_nodes(self@),
    {
        self.nodes()
    }

    pub fn len(&self) -> (n: usize)
        ensures
            n == self@.len(),
    {
        self.edges.len()
    }

    pub fn is_empty(&self) -> (b: bool)
        ensures
            b == (self@.len() == 0),
    {
        self.edges.len() == 0
    }
}

impl<Edge: WeightedEdge> Path<Edge> {
    /// The sum of the weights of the steps.
    pub fn total_cost(&self) -> (c: i128)
        ensures
            c == path_cost(self@),
    {
        let mut total: i128 = 0;
        let mut i: usize = 0;
        while i < self.edges.len()
            invariant
                0 <= i <= self.edges.len(),
                total == path_cost(self.edges@.take(i as int)),
            decreases self.edges.len() - i,
        {
            proof {
                lemma_path_cost_bound(self.edges@.take(i as int));
                assert(self.edges@.take(i + 1).drop_last() =~= self.edges@.take(i as int));
            }
            total = total + self.edges[i].2.get_weight() as i128;
            i += 1;
        }
        proof {
            assert(self.edges@.take(self.edges.len() as int) =~= self.edges@);
        }
        total
    }
}

impl<Edge: Debug> Path<Edge> {
    /// The path as text, a line for each step: its number from 1, where it starts,
    /// where it ends and its edge, the edge as its `Debug` text.
    pub fn to_string(&self) -> (s: String)
        ensures
            exists|edges: Seq<Seq<char>>|
                edges.len() == self@.len() && s@ == #[trigger] steps_text(
                    self@,
                    edges,
                    self@.len() as int,
                ),
    {
        let mut s = String::from_str("");
        let ghost mut edges: Seq<Seq<char>> = Seq::empty();
        let mut i: usize = 0;
        proof {
            reveal_strlit("");
            assert(s@ =~= Seq::<char>::empty());
        }
        while i < self.edges.len()
            invariant
                0 <= i <= self.edges.len(),
                edges.len() == i,
                s@ == steps_text(self.edges@, edges, i as int),
            decreases self.edges.len() - i,
        {
            let edge = debug_text(&self.edges[i].2);
            let ghost before = edges;
            proof {
                edges = edges.push(edge@);
                lemma_steps_text_prefix(self.edges@, before, edges, i as int);
            }
            s.append(decimal(i + 1).as_str());
            s.append(": ");
            s.append(decimal(self.edges[i].0).as_str());
            s.append(" -> ");
            s.append(decimal(self.edges[i].1).as_str());
            s.append(" via ");
            s.append(edge.as_str());
            s.append("\n");
            proof {
                let line = step_text(i as int, self.edges[i as int].0, self.edges[i as int].1, edge@);
                let start = steps_text(self.edges@, before, i as int);
                assert(s@ =~= start + line);
            }
            i += 1;
        }
        proof {
            assert(edges.len() == self@.len() && s@ == steps_text(self@, edges, self@.len() as int));
        }
        s
    }
}

/// The text of the first `n` steps depends on the texts of their edges alone.
pub proof fn lemma_steps_text_prefix<Edge>(
    steps: Seq<(usize, usize, Edge)>,
    a: Seq<Seq<char>>,
    b: Seq<Seq<char>>,
    n: int,
)
    requires
        n <= a.len(),
        n <= b.len(),
        forall|i: int| 0 <= i < n ==> a[i] == b[i],
    ensures
        steps_text(steps, a, n) == steps_text(steps, b, n),
    decreases n,
{
    if n > 0 {
        lemma_steps_text_prefix(steps, a, b, n - 1);
    }
}

impl<Edge> Default for Path<Edge> {
    fn default() -> (p: Self)
        ensures
            p@ == Seq::<(usize, usize, Edge)>::empty(),
    {
        Path { edges: Vec::new() }
    }
}

} // verus!

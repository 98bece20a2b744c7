//! Disjoint sets of vertex ids as a forest: every element points to a parent, and
//! the element of a tree that points to itself stands for the tree's set.

use vstd::prelude::*;
use vstd::string::StringExecFns;
use rustc_hash::FxHashMap;
use crate::text::{decimal, decimal_text};
use crate::fx::{map_contains_key, map_get, map_insert, map_len, map_new};

verus! {

/// What holds at an element of a forest: its parent is an element, and it ranks
/// below its parent unless it is its own parent.
pub open spec fn node_ok(parent: Map<usize, usize>, rank: Map<usize, nat>, top: nat, x: usize) -> bool {
    &&& parent.dom().contains(parent[x])
    &&& rank[x] <= top
    &&& rank[parent[x]] <= top
    &&& (parent[x] != x ==> rank[x] < rank[parent[x]])
}

/// The parents form a forest: `rank` grows along every step to a parent and is at
/// most `top`.
pub open spec fn is_forest(parent: Map<usize, usize>, rank: Map<usize, nat>, top: nat) -> bool {
    &&& parent.dom().finite()
    &&& rank.dom() == parent.dom()
    &&& forall|x: usize| parent.dom().contains(x) ==> #[trigger] node_ok(parent, rank, top, x)
}

/// The root of the tree that holds `x`.
pub open spec fn root_of(parent: Map<usize, usize>, rank: Map<usize, nat>, top: nat, x: usize) -> usize
    decreases top - rank[x],
    when is_forest(parent, rank, top) && parent.dom().contains(x) && node_ok(parent, rank, top, x)
{
    if parent[x] == x {
        x
    } else {
        root_of(parent, rank, top, parent[x])
    }
}

/// The root of a tree is an element that is its own parent, and no element ranks
/// above its root.
pub proof fn lemma_root(parent: Map<usize, usize>, rank: Map<usize, nat>, top: nat, x: usize)
    requires
        is_forest(parent, rank, top),
        parent.dom().contains(x),
    ensures
        parent.dom().contains(root_of(parent, rank, top, x)),
        parent[root_of(parent, rank, top, x)] == root_of(parent, rank, top, x),
        rank[x] <= rank[root_of(parent, rank, top, x)],
        parent[x] != x ==> rank[x] < rank[root_of(parent, rank, top, x)],
        parent.dom().contains(parent[x]),
        root_of(parent, rank, top, parent[x]) == root_of(parent, rank, top, x),
        parent[x] == x ==> root_of(parent, rank, top, x) == x,
        node_ok(parent, rank, top, x),
    decreases top - rank[x],
{
    assert(node_ok(parent, rank, top, x));
    assert(node_ok(parent, rank, top, parent[x]));
    if parent[x] != x {
        lemma_root(parent, rank, top, parent[x]);
    }
}

/// Making the root of `v` the parent of `v` keeps the forest and every root.
pub proof fn lemma_compress(
    parent: Map<usize, usize>,
    rank: Map<usize, nat>,
    top: nat,
    v: usize,
    z: usize,
)
    requires
        is_forest(parent, rank, top),
        parent.dom().contains(v),
        parent.dom().contains(z),
    ensures
        is_forest(parent.insert(v, root_of(parent, rank, top, v)), rank, top),
        root_of(parent.insert(v, root_of(parent, rank, top, v)), rank, top, z) == root_of(
            parent,
            rank,
            top,
            z,
        ),
    decreases top - rank[z],
{
    let r = root_of(parent, rank, top, v);
    let other = parent.insert(v, r);
    lemma_root(parent, rank, top, v);
    assert(other.dom() =~= parent.dom());
    assert forall|x: usize| other.dom().contains(x) implies #[trigger] node_ok(
        other,
        rank,
        top,
        x,
    ) by {
        assert(node_ok(parent, rank, top, x));
        assert(node_ok(parent, rank, top, r));
    }
    lemma_root(parent, rank, top, z);
    assert(node_ok(other, rank, top, z));
    if parent[z] == z {
        assert(other[z] == z);
    } else if z == v {
        lemma_root(parent, rank, top, r);
        assert(node_ok(other, rank, top, r));
        assert(other[r] == r);
        assert(root_of(other, rank, top, r) == r);
    } else {
        lemma_compress(parent, rank, top, v, parent[z]);
    }
}

/// The rank of the root `b` after the root `a` has been hung under it.
pub open spec fn raised(rank: Map<usize, nat>, a: usize, b: usize) -> nat {
    if rank[b] > rank[a] {
        rank[b]
    } else {
        rank[a] + 1
    }
}

/// The larger of two numbers.
pub open spec fn larger(a: nat, b: nat) -> nat {
    if a > b {
        a
    } else {
        b
    }
}

/// Hanging the root `a` under another root `b` moves the elements of the tree of
/// `a` to the root `b` and leaves every other root as it is.
pub proof fn lemma_link(
    parent: Map<usize, usize>,
    rank: Map<usize, nat>,
    top: nat,
    a: usize,
    b: usize,
    z: usize,
)
    requires
        is_forest(parent, rank, top),
        parent.dom().contains(a),
        parent.dom().contains(b),
        parent.dom().contains(z),
        parent[a] == a,
        parent[b] == b,
        a != b,
    ensures
        is_forest(
            parent.insert(a, b),
            rank.insert(b, raised(rank, a, b)),
            larger(top, raised(rank, a, b)),
        ),
        root_of(
            parent.insert(a, b),
            rank.insert(b, raised(rank, a, b)),
            larger(top, raised(rank, a, b)),
            z,
        ) == (if root_of(parent, rank, top, z) == a {
            b
        } else {
            root_of(parent, rank, top, z)
        }),
    decreases top - rank[z],
{
    let high = raised(rank, a, b);
    let peak = larger(top, high);
    let hung = parent.insert(a, b);
    let ranks = rank.insert(b, high);
    assert(hung.dom() =~= parent.dom());
    assert(ranks.dom() =~= rank.dom());
    assert(node_ok(parent, rank, top, a));
    assert(node_ok(parent, rank, top, b));
    assert forall|x: usize| hung.dom().contains(x) implies #[trigger] node_ok(hung, ranks, peak, x) by {
        assert(node_ok(parent, rank, top, x));
        assert(node_ok(parent, rank, top, parent[x]));
    }
    lemma_root(parent, rank, top, z);
    assert(node_ok(hung, ranks, peak, z));
    assert(node_ok(hung, ranks, peak, b));
    if parent[z] == z {
        if z == a {
            assert(hung[b] == b);
            assert(root_of(hung, ranks, peak, b) == b);
            assert(root_of(hung, ranks, peak, a) == root_of(hung, ranks, peak, b));
        } else {
            assert(hung[z] == z);
        }
    } else {
        lemma_link(parent, rank, top, a, b, parent[z]);
    }
}

/// A new element that is its own parent is a tree of its own and changes no root.
pub proof fn lemma_fresh(
    parent: Map<usize, usize>,
    rank: Map<usize, nat>,
    top: nat,
    x: usize,
    z: usize,
)
    requires
        is_forest(parent, rank, top),
        !parent.dom().contains(x),
        parent.dom().contains(z),
    ensures
        is_forest(parent.insert(x, x), rank.insert(x, 0), top),
        root_of(parent.insert(x, x), rank.insert(x, 0), top, x) == x,
        root_of(parent.insert(x, x), rank.insert(x, 0), top, z) == root_of(parent, rank, top, z),
    decreases top - rank[z],
{
    let hung = parent.insert(x, x);
    let ranks = rank.insert(x, 0);
    assert(hung.dom() =~= ranks.dom());
    assert forall|y: usize| hung.dom().contains(y) implies #[trigger] node_ok(hung, ranks, top, y) by {
        if y != x {
            assert(node_ok(parent, rank, top, y));
        }
    }
    assert(node_ok(hung, ranks, top, x));
    assert(node_ok(hung, ranks, top, z));
    lemma_root(parent, rank, top, z);
    if parent[z] != z {
        lemma_fresh(parent, rank, top, x, parent[z]);
    }
}

/// A new element that is its own parent keeps the forest.
pub proof fn lemma_fresh_forest(parent: Map<usize, usize>, rank: Map<usize, nat>, top: nat, x: usize)
    requires
        is_forest(parent, rank, top),
        !parent.dom().contains(x),
    ensures
        is_forest(parent.insert(x, x), rank.insert(x, 0), top),
        root_of(parent.insert(x, x), rank.insert(x, 0), top, x) == x,
{
    let hung = parent.insert(x, x);
    let ranks = rank.insert(x, 0);
    assert(hung.dom() =~= ranks.dom());
    assert forall|y: usize| hung.dom().contains(y) implies #[trigger] node_ok(hung, ranks, top, y) by {
        if y != x {
            assert(node_ok(parent, rank, top, y));
        }
    }
    assert(node_ok(hung, ranks, top, x));
}

/// What `make_set`, `find` and `union` report when they cannot go on.
#[derive(Debug)]
pub enum UnionFindError {
    /// The element is in no set.
    VertexNotFound(usize),
    /// The element is in a set already.
    DuplicateVertex(usize),
}

impl UnionFindError {
    /// The text of the error.
    pub open spec fn text(&self) -> Seq<char> {
        match self {
            UnionFindError::VertexNotFound(id) => "Vertex with ID "@ + decimal_text(*id as nat)
                + " not found"@,
            UnionFindError::DuplicateVertex(id) => "Vertex with ID "@ + decimal_text(*id as nat)
                + " already exists"@,
        }
    }

    /// The error as text.
    pub fn to_string(&self) -> (s: String)
        ensures
            s@ == self.text(),
    {
        match self {
            UnionFindError::VertexNotFound(id) => {
                let mut s = String::from_str("Vertex with ID ");
                s.append(decimal(*id).as_str());
                s.append(" not found");
                s
            },
            UnionFindError::DuplicateVertex(id) => {
                let mut s = String::from_str("Vertex with ID ");
                s.append(decimal(*id).as_str());
                s.append(" already exists");
                s
            },
        }
    }
}

/// Disjoint sets of vertex ids, with path compression and union by size.
pub struct UnionFind {
    sets: FxHashMap<usize, usize>,
    set_sizes: FxHashMap<usize, usize>,
    rank: Ghost<Map<usize, nat>>,
    top: Ghost<nat>,
}

impl UnionFind {
    /// The elements.
    pub closed spec fn elements(&self) -> Set<usize> {
        self.sets@.dom()
    }

    /// The element that stands for the set of `x`.
    pub closed spec fn rep(&self, x: usize) -> usize {
        root_of(self.sets@, self.rank@, self.top@, x)
    }

    /// Whether `x` and `y` are in the same set.
    pub open spec fn same_set(&self, x: usize, y: usize) -> bool {
        self.elements().contains(x) && self.elements().contains(y) && self.rep(x) == self.rep(y)
    }

    /// The set of `x`.
    pub open spec fn set_of(&self, x: usize) -> Set<usize> {
        Set::new(|y: usize| self.same_set(x, y))
    }

    /// The recorded size of the set that `r` stands for.
    pub closed spec fn size(&self, r: usize) -> nat {
        self.set_sizes@[r] as nat
    }

    /// The invariant: the parents form a forest, and with each representative the
    /// size of its set is recorded.
    pub closed spec fn wf(&self) -> bool {
        &&& is_forest(self.sets@, self.rank@, self.top@)
        &&& forall|r: usize| #[trigger]
            self.sets@.dom().contains(r) && self.sets@[r] == r ==> self.set_sizes@.contains_key(r)
                && self.set_sizes@[r] == self.set_of(r).len()
    }

    /// A representative is an element and stands for itself, and the elements of one
    /// set have one representative.
    pub proof fn lemma_rep(&self, x: usize)
        requires
            self.wf(),
            self.elements().contains(x),
        ensures
            self.elements().contains(self.rep(x)),
            self.rep(self.rep(x)) == self.rep(x),
            self.same_set(x, self.rep(x)),
            self.elements().finite(),
            self.set_of(x).finite(),
            self.set_of(x).subset_of(self.elements()),
            self.set_of(x) == self.set_of(self.rep(x)),
            self.size(self.rep(x)) == self.set_of(x).len(),
    {
        lemma_root(self.sets@, self.rank@, self.top@, x);
        let r = self.rep(x);
        lemma_root(self.sets@, self.rank@, self.top@, r);
        assert(self.set_of(x).subset_of(self.elements()));
        vstd::set_lib::lemma_set_subset_finite(self.elements(), self.set_of(x));
        assert(self.set_of(x) =~= self.set_of(r));
    }

    /// Two elements have the same representative exactly where they are in the same
    /// set, and then their sets are the same.
    pub proof fn lemma_same_representative(&self, x: usize, y: usize)
        requires
            self.wf(),
            self.elements().contains(x),
            self.elements().contains(y),
        ensures
            self.rep(x) == self.rep(y) <==> self.set_of(x).contains(y),
            self.rep(x) == self.rep(y) <==> self.set_of(x) == self.set_of(y),
            self.rep(x) != self.rep(y) ==> self.set_of(x).disjoint(self.set_of(y)),
    {
        if self.rep(x) == self.rep(y) {
            assert(self.set_of(x) =~= self.set_of(y));
        }
        if self.set_of(x) == self.set_of(y) {
            assert(self.set_of(y).contains(y));
        }
    }

    /// After a union that merged the sets of `x` and `y`, two elements are in one set
    /// where they were before, or where one was with `x` and the other with `y`.
    pub proof fn lemma_union_joins(&self, after: Self, x: usize, y: usize, a: usize, b: usize)
        requires
            self.wf(),
            self.elements().contains(x),
            self.elements().contains(y),
            self.elements().contains(a),
            self.elements().contains(b),
            after.elements() == self.elements(),
            forall|w: usize|
                self.elements().contains(w) ==> #[trigger] after.rep(w) == (if self.same_set(w, x)
                    || self.same_set(w, y) {
                    self.merged_rep(x, y)
                } else {
                    self.rep(w)
                }),
        ensures
            after.same_set(a, b) <==> self.same_set(a, b) || (self.same_set(a, x) && self.same_set(
                b,
                y,
            )) || (self.same_set(a, y) && self.same_set(b, x)),
    {
        self.lemma_rep(x);
        self.lemma_rep(y);
        assert(after.rep(a) == (if self.same_set(a, x) || self.same_set(a, y) {
            self.merged_rep(x, y)
        } else {
            self.rep(a)
        }));
        assert(after.rep(b) == (if self.same_set(b, x) || self.same_set(b, y) {
            self.merged_rep(x, y)
        } else {
            self.rep(b)
        }));
    }

    /// What a union that merged the sets of `x` and `y` has done to the sets: the
    /// set of every element of the two is both together, and every other set is as
    /// it was.
    pub proof fn lemma_union_sets(&self, after: Self, x: usize, y: usize, z: usize)
        requires
            self.wf(),
            self.elements().contains(x),
            self.elements().contains(y),
            self.elements().contains(z),
            after.elements() == self.elements(),
            forall|w: usize|
                self.elements().contains(w) ==> #[trigger] after.rep(w) == (if self.same_set(w, x)
                    || self.same_set(w, y) {
                    self.merged_rep(x, y)
                } else {
                    self.rep(w)
                }),
        ensures
            after.set_of(z) == (if self.same_set(z, x) || self.same_set(z, y) {
                self.set_of(x) + self.set_of(y)
            } else {
                self.set_of(z)
            }),
    {
        self.lemma_rep(x);
        self.lemma_rep(y);
        let merged = self.merged_rep(x, y);
        assert(after.rep(z) == (if self.same_set(z, x) || self.same_set(z, y) {
            merged
        } else {
            self.rep(z)
        }));
        assert forall|w: usize| after.set_of(z).contains(w) <==> (if self.same_set(z, x)
            || self.same_set(z, y) {
            self.set_of(x) + self.set_of(y)
        } else {
            self.set_of(z)
        }).contains(w) by {
            if self.elements().contains(w) {
                assert(after.rep(w) == (if self.same_set(w, x) || self.same_set(w, y) {
                    merged
                } else {
                    self.rep(w)
                }));
            }
        }
        assert(after.set_of(z) =~= (if self.same_set(z, x) || self.same_set(z, y) {
            self.set_of(x) + self.set_of(y)
        } else {
            self.set_of(z)
        }));
    }

    pub fn new() -> (uf: Self)
        ensures
            uf.wf(),
            uf.elements() == Set::<usize>::empty(),
    {
        let uf = UnionFind {
            sets: map_new(),
            set_sizes: map_new(),
            rank: Ghost(Map::empty()),
            top: Ghost(0),
        };
        proof {
            assert(uf.sets@.dom() =~= uf.rank@.dom());
        }
        uf
    }

    /// Adds `x` as a set of its own.
    pub fn make_set(&mut self, x: usize) -> (r: Result<(), UnionFindError>)
        requires
            old(self).wf(),
        ensures
            final(self).wf(),
            r is Ok <==> !old(self).elements().contains(x),
            r is Err ==> r == Err::<(), UnionFindError>(UnionFindError::DuplicateVertex(x))
                && final(self).elements() == old(self).elements() && forall|z: usize|
                old(self).elements().contains(z) ==> final(self).rep(z) == old(self).rep(z),
            r is Ok ==> {
                &&& final(self).elements() == old(self).elements().insert(x)
                &&& final(self).rep(x) == x
                &&& forall|z: usize|
                    old(self).elements().contains(z) ==> #[trigger] final(self).rep(z) == old(
                        self,
                    ).rep(z)
            },
    {
        if map_contains_key(&self.sets, x) {
            return Err(UnionFindError::DuplicateVertex(x));
        }
        map_insert(&mut self.sets, x, x);
        map_insert(&mut self.set_sizes, x, 1);
        proof {
            let p = old(self).sets@;
            let rk = old(self).rank@;
            let t = old(self).top@;
            self.rank = Ghost(rk.insert(x, 0nat));
            lemma_fresh_forest(p, rk, t, x);
            assert forall|z: usize| old(self).elements().contains(z) implies #[trigger] self.rep(z)
                == old(self).rep(z) by {
                lemma_fresh(p, rk, t, x, z);
            }
            assert forall|r: usize| #[trigger]
                self.sets@.dom().contains(r) && self.sets@[r] == r implies self.set_sizes@.contains_key(
                r,
            ) && self.set_sizes@[r] == self.set_of(r).len() by {
                if r == x {
                    assert(self.set_of(x) =~= set![x]) by {
                        assert forall|y: usize| self.set_of(x).contains(y) implies y == x by {
                            if y != x {
                                lemma_root(p, rk, t, y);
                                assert(self.rep(y) == old(self).rep(y));
                            }
                        }
                    }
                } else {
                    assert(old(self).sets@.dom().contains(r));
                    assert(self.set_of(r) =~= old(self).set_of(r)) by {
                        assert forall|y: usize| self.set_of(r).contains(y) <==> old(self).set_of(
                            r,
                        ).contains(y) by {
                            lemma_root(p, rk, t, r);
                            if y != x && self.sets@.dom().contains(y) {
                                assert(self.rep(y) == old(self).rep(y));
                            }
                            assert(self.rep(r) == old(self).rep(r));
                        }
                    }
                }
            }
        }
        Ok(())
    }

    /// The representative of the set of `x`. On the way every element that is
    /// passed is made a child of the representative, which changes no set.
    pub fn find(&mut self, x: usize) -> (r: Result<usize, UnionFindError>)
        requires
            old(self).wf(),
        ensures
            final(self).wf(),
            final(self).elements() == old(self).elements(),
            forall|z: usize|
                old(self).elements().contains(z) ==> #[trigger] final(self).rep(z) == old(self).rep(
                    z,
                ),
            r == (if old(self).elements().contains(x) {
                Ok::<usize, UnionFindError>(old(self).rep(x))
            } else {
                Err::<usize, UnionFindError>(UnionFindError::VertexNotFound(x))
            }),
    {
        let mut visited: Vec<usize> = Vec::new();
        let mut current = x;
        let mut parent = match map_get(&self.sets, x) {
            Some(p) => *p,
            None => {
                return Err(UnionFindError::VertexNotFound(x));
            },
        };
        proof {
            lemma_root(self.sets@, self.rank@, self.top@, x);
        }
        // Walk up the chain to the root.
        while current != parent
            invariant
                self.wf(),
                *self == *old(self),
                self.sets@.dom().contains(current),
                parent == self.sets@[current],
                self.rep(current) == self.rep(x),
                forall|k: int|
                    0 <= k < visited.len() ==> self.sets@.dom().contains(#[trigger] visited[k])
                        && self.rep(visited[k]) == self.rep(x),
            decreases self.top@ - self.rank@[current],
        {
            proof {
                lemma_root(self.sets@, self.rank@, self.top@, current);
                lemma_root(self.sets@, self.rank@, self.top@, parent);
            }
            visited.push(current);
            current = parent;
            parent = match map_get(&self.sets, parent) {
                Some(p) => *p,
                None => {
                    assert(false);
                    parent
                },
            };
        }
        let root = parent;
        proof {
            lemma_root(self.sets@, self.rank@, self.top@, current);
        }
        // Path compression.
        let mut i: usize = 0;
        while i < visited.len()
            invariant
                0 <= i <= visited.len(),
                self.wf(),
                self.elements() == old(self).elements(),
                forall|z: usize|
                    old(self).elements().contains(z) ==> #[trigger] self.rep(z) == old(self).rep(z),
                old(self).elements().contains(x),
                root == old(self).rep(x),
                forall|k: int|
                    0 <= k < visited.len() ==> old(self).elements().contains(#[trigger] visited[k])
                        && old(self).rep(visited[k]) == root,
            decreases visited.len() - i,
        {
            let v = visited[i];
            let ghost before = *self;
            proof {
                assert(before.rep(v) == root);
            }
            map_insert(&mut self.sets, v, root);
            proof {
                lemma_compress(before.sets@, before.rank@, before.top@, v, v);
                assert(self.sets@.dom() =~= before.sets@.dom());
                assert forall|z: usize| before.elements().contains(z) implies #[trigger] self.rep(z)
                    == before.rep(z) by {
                    lemma_compress(before.sets@, before.rank@, before.top@, v, z);
                }
                lemma_root(before.sets@, before.rank@, before.top@, v);
                before.lemma_sizes_follow(*self);
            }
            i += 1;
        }
        Ok(root)
    }

    /// Merges the sets of `x` and `y`: the representative of the smaller set becomes
    /// a child of that of the larger, which then stands for both. The result says
    /// whether there was anything to merge.
    pub fn union(&mut self, x: usize, y: usize) -> (r: Result<bool, UnionFindError>)
        requires
            old(self).wf(),
        ensures
            final(self).wf(),
            final(self).elements() == old(self).elements(),
            r == (if !old(self).elements().contains(x) {
                Err::<bool, UnionFindError>(UnionFindError::VertexNotFound(x))
            } else if !old(self).elements().contains(y) {
                Err::<bool, UnionFindError>(UnionFindError::VertexNotFound(y))
            } else {
                Ok::<bool, UnionFindError>(!old(self).same_set(x, y))
            }),
            r != Ok::<bool, UnionFindError>(true) ==> forall|z: usize|
                old(self).elements().contains(z) ==> #[trigger] final(self).rep(z) == old(self).rep(
                    z,
                ),
            r == Ok::<bool, UnionFindError>(true) ==> forall|z: usize|
                old(self).elements().contains(z) ==> #[trigger] final(self).rep(z) == (if old(
                    self,
                ).same_set(z, x) || old(self).same_set(z, y) {
                    old(self).merged_rep(x, y)
                } else {
                    old(self).rep(z)
                }),
            forall|a: usize, b: usize| #[trigger]
                old(self).same_set(a, b) ==> final(self).same_set(a, b),
            r is Ok ==> final(self).same_set(x, y),
    {
        let parent_x = match self.find(x) {
            Ok(p) => p,
            Err(e) => {
                return Err(e);
            },
        };
        let ghost mid = *self;
        let parent_y = match self.find(y) {
            Ok(p) => p,
            Err(e) => {
                return Err(e);
            },
        };
        if parent_x == parent_y {
            return Ok(false);
        }
        let ghost before = *self;
        proof {
            before.lemma_rep(x);
            before.lemma_rep(y);
            old(self).lemma_rep(x);
            old(self).lemma_rep(y);
            lemma_root(before.sets@, before.rank@, before.top@, x);
            lemma_root(before.sets@, before.rank@, before.top@, y);
            old(self).lemma_same_sets(before, x);
            old(self).lemma_same_sets(before, y);
        }
        let total = map_len(&self.sets);
        let size_x = match map_get(&self.set_sizes, parent_x) {
            Some(n) => *n,
            None => {
                assert(false);
                0
            },
        };
        let size_y = match map_get(&self.set_sizes, parent_y) {
            Some(n) => *n,
            None => {
                assert(false);
                0
            },
        };
        proof {
            let both = before.set_of(parent_x) + before.set_of(parent_y);
            assert(before.set_of(parent_x).disjoint(before.set_of(parent_y)));
            vstd::set_lib::lemma_set_disjoint_lens(
                before.set_of(parent_x),
                before.set_of(parent_y),
            );
            assert(both.subset_of(before.elements()));
            vstd::set_lib::lemma_len_subset(both, before.elements());
        }
        if size_x <= size_y {
            map_insert(&mut self.sets, parent_x, parent_y);
            map_insert(&mut self.set_sizes, parent_y, size_x + size_y);
            proof {
                self.rank = Ghost(
                    before.rank@.insert(parent_y, raised(before.rank@, parent_x, parent_y)),
                );
                self.top = Ghost(larger(before.top@, raised(before.rank@, parent_x, parent_y)));
                before.lemma_linked(*self, parent_x, parent_y);
            }
        } else {
            map_insert(&mut self.sets, parent_y, parent_x);
            map_insert(&mut self.set_sizes, parent_x, size_x + size_y);
            proof {
                self.rank = Ghost(
                    before.rank@.insert(parent_x, raised(before.rank@, parent_y, parent_x)),
                );
                self.top = Ghost(larger(before.top@, raised(before.rank@, parent_y, parent_x)));
                before.lemma_linked(*self, parent_y, parent_x);
            }
        }
        Ok(true)
    }

    /// The element that stands for the sets of `x` and `y` once they are merged: the
    /// representative of the larger set, and that of `y` where they are as large.
    pub open spec fn merged_rep(&self, x: usize, y: usize) -> usize {
        if self.set_of(x).len() <= self.set_of(y).len() {
            self.rep(y)
        } else {
            self.rep(x)
        }
    }

    /// With the same elements and representatives, the sets are the same.
    proof fn lemma_same_sets(&self, after: Self, x: usize)
        requires
            after.elements() == self.elements(),
            forall|z: usize| self.elements().contains(z) ==> #[trigger] after.rep(z) == self.rep(z),
        ensures
            after.set_of(x) == self.set_of(x),
    {
        assert(after.set_of(x) =~= self.set_of(x));
    }

    /// Where only parents of elements that are no representatives change, and no
    /// representative of an element changes, the recorded sizes stay right.
    proof fn lemma_sizes_follow(&self, after: Self)
        requires
            self.wf(),
            is_forest(after.sets@, after.rank@, after.top@),
            after.elements() == self.elements(),
            after.set_sizes == self.set_sizes,
            forall|z: usize| self.elements().contains(z) ==> #[trigger] after.rep(z) == self.rep(z),
        ensures
            after.wf(),
    {
        assert forall|r: usize| #[trigger]
            after.sets@.dom().contains(r) && after.sets@[r] == r implies after.set_sizes@.contains_key(
            r,
        ) && after.set_sizes@[r] == after.set_of(r).len() by {
            lemma_root(after.sets@, after.rank@, after.top@, r);
            assert(after.rep(r) == r);
            assert(self.rep(r) == r);
            lemma_root(self.sets@, self.rank@, self.top@, r);
            self.lemma_rep(r);
            self.lemma_same_sets(after, r);
            // r stands for itself before as well
            assert(self.set_sizes@[r] == self.set_of(r).len()) by {
                let rr = self.rep(r);
                assert(self.sets@[rr] == rr);
            }
        }
    }

    /// The state after the representative `a` has become a child of the
    /// representative `b`, with the two sizes added up at `b`.
    proof fn lemma_linked(&self, after: Self, a: usize, b: usize)
        requires
            self.wf(),
            self.elements().contains(a),
            self.elements().contains(b),
            self.sets@[a] == a,
            self.sets@[b] == b,
            a != b,
            after.sets@ == self.sets@.insert(a, b),
            after.rank@ == self.rank@.insert(b, raised(self.rank@, a, b)),
            after.top@ == larger(self.top@, raised(self.rank@, a, b)),
            after.set_sizes@ == self.set_sizes@.insert(
                b,
                (self.set_sizes@[a] + self.set_sizes@[b]) as usize,
            ),
            self.set_sizes@[a] + self.set_sizes@[b] <= usize::MAX,
        ensures
            after.wf(),
            after.elements() == self.elements(),
            forall|z: usize|
                self.elements().contains(z) ==> #[trigger] after.rep(z) == (if self.rep(z) == a {
                    b
                } else {
                    self.rep(z)
                }),
    {
        assert(after.elements() =~= self.elements());
        lemma_link(self.sets@, self.rank@, self.top@, a, b, a);
        assert forall|z: usize| self.elements().contains(z) implies #[trigger] after.rep(z) == (if self.rep(
            z,
        ) == a {
            b
        } else {
            self.rep(z)
        }) by {
            lemma_link(self.sets@, self.rank@, self.top@, a, b, z);
        }
        lemma_root(self.sets@, self.rank@, self.top@, a);
        lemma_root(self.sets@, self.rank@, self.top@, b);
        self.lemma_rep(a);
        self.lemma_rep(b);
        assert forall|r: usize| #[trigger]
            after.sets@.dom().contains(r) && after.sets@[r] == r implies after.set_sizes@.contains_key(
            r,
        ) && after.set_sizes@[r] == after.set_of(r).len() by {
            lemma_root(self.sets@, self.rank@, self.top@, r);
            lemma_root(after.sets@, after.rank@, after.top@, r);
            assert(r != a);
            assert(self.sets@[r] == r);
            assert(self.rep(r) == r);
            if r == b {
                assert(after.set_of(b) =~= self.set_of(a) + self.set_of(b)) by {
                    assert forall|y: usize| after.set_of(b).contains(y) <==> (self.set_of(a)
                        + self.set_of(b)).contains(y) by {
                        if self.elements().contains(y) {
                            lemma_root(self.sets@, self.rank@, self.top@, y);
                            assert(after.rep(y) == (if self.rep(y) == a {
                                b
                            } else {
                                self.rep(y)
                            }));
                        }
                    }
                }
                assert(self.set_of(a).disjoint(self.set_of(b)));
                vstd::set_lib::lemma_set_disjoint_lens(self.set_of(a), self.set_of(b));
            } else {
                assert(after.set_of(r) =~= self.set_of(r)) by {
                    assert forall|y: usize| after.set_of(r).contains(y) <==> self.set_of(r).contains(
                        y,
                    ) by {
                        if self.elements().contains(y) {
                            assert(after.rep(y) == (if self.rep(y) == a {
                                b
                            } else {
                                self.rep(y)
                            }));
                        }
                    }
                }
            }
        }
    }
}

} // verus!

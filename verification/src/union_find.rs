//! A disjoint-set forest over the elements `0..n`, with path compression and union by rank.
//!
//! The structure remembers, as ghost state, every pair that `union` was called with.
//! Its invariant ties the forest to that history: two elements have the same root
//! exactly when the pairs united so far join them.

use vstd::prelude::*;
use vstd::set_lib::*;
use crate::connectivity::{adds_edge, lemma_linked_add_edge, lemma_linked_without_edges, linked};

verus! {

/// Whether one of `pairs` holds `a` and `b`, in either order.
pub open spec fn paired(pairs: Seq<(int, int)>, a: int, b: int) -> bool {
    exists|k: int| 0 <= k < pairs.len() && (#[trigger] pairs[k] == (a, b) || pairs[k] == (b, a))
}

/// The graph whose edges are `pairs`.
pub open spec fn pairing(pairs: Seq<(int, int)>) -> spec_fn(int, int) -> bool {
    |a: int, b: int| paired(pairs, a, b)
}

/// Whether a chain of `pairs` leads from `a` to `b`: the reflexive, symmetric and
/// transitive closure of the pairs.
pub open spec fn joined(pairs: Seq<(int, int)>, a: int, b: int) -> bool {
    linked(pairing(pairs), a, b)
}

/// The elements that are their own parent.
spec fn roots(parent: Seq<usize>) -> Set<int> {
    Set::new(|i: int| 0 <= i < parent.len() && parent[i] == i)
}

/// The shape of the forest: parents stay in range, ranks grow strictly towards the
/// root, and a rank never exceeds the number of elements that are no longer roots.
spec fn forest(parent: Seq<usize>, rank: Seq<usize>) -> bool {
    &&& rank.len() == parent.len()
    &&& forall|i: int| 0 <= i < parent.len() ==> #[trigger] parent[i] < parent.len()
    &&& forall|i: int|
        0 <= i < parent.len() && #[trigger] parent[i] != i ==> rank[i] < rank[parent[i] as int]
    &&& forall|i: int|
        0 <= i < parent.len() ==> #[trigger] rank[i] + roots(parent).len() <= parent.len()
}

spec fn root_of(parent: Seq<usize>, rank: Seq<usize>, x: int) -> int
    decreases parent.len() - rank[x],
    when forest(parent, rank) && 0 <= x < parent.len()
{
    if parent[x] == x {
        x
    } else {
        root_of(parent, rank, parent[x] as int)
    }
}

spec fn on_path_of(parent: Seq<usize>, rank: Seq<usize>, x: int, i: int) -> bool
    decreases parent.len() - rank[x],
    when forest(parent, rank) && 0 <= x < parent.len()
{
    i == x || (parent[x] != x && on_path_of(parent, rank, parent[x] as int, i))
}

proof fn lemma_roots_finite(parent: Seq<usize>)
    ensures
        roots(parent).finite(),
        roots(parent).len() <= parent.len(),
{
    let all = set_int_range(0, parent.len() as int);
    lemma_int_range(0, parent.len() as int);
    assert(roots(parent).subset_of(all));
    lemma_len_subset(roots(parent), all);
}

proof fn lemma_root_facts(parent: Seq<usize>, rank: Seq<usize>, x: int)
    requires
        forest(parent, rank),
        0 <= x < parent.len(),
    ensures
        0 <= root_of(parent, rank, x) < parent.len(),
        parent[root_of(parent, rank, x)] == root_of(parent, rank, x),
        rank[x] <= rank[root_of(parent, rank, x)],
        root_of(parent, rank, x) != x ==> rank[x] < rank[root_of(parent, rank, x)],
        parent[x] == x ==> root_of(parent, rank, x) == x,
        root_of(parent, rank, parent[x] as int) == root_of(parent, rank, x),
    decreases parent.len() - rank[x],
{
    if parent[x] != x {
        lemma_root_facts(parent, rank, parent[x] as int);
    }
}

proof fn lemma_path_facts(parent: Seq<usize>, rank: Seq<usize>, x: int, i: int)
    requires
        forest(parent, rank),
        0 <= x < parent.len(),
        on_path_of(parent, rank, x, i),
    ensures
        0 <= i < parent.len(),
        i != x ==> rank[x] < rank[i],
        root_of(parent, rank, i) == root_of(parent, rank, x),
    decreases parent.len() - rank[x],
{
    if i != x {
        lemma_path_facts(parent, rank, parent[x] as int, i);
    }
}

/// Pointing `x` straight at its root keeps the forest and every root.
proof fn lemma_compress(parent: Seq<usize>, rank: Seq<usize>, x: int, after: Seq<usize>)
    requires
        forest(parent, rank),
        0 <= x < parent.len(),
        after == parent.update(x, root_of(parent, rank, x) as usize),
    ensures
        forest(after, rank),
        forall|i: int|
            0 <= i < parent.len() ==> #[trigger] root_of(after, rank, i) == root_of(
                parent,
                rank,
                i,
            ),
{
    lemma_root_facts(parent, rank, x);
    assert(roots(after) =~= roots(parent));
    assert forall|i: int| 0 <= i < after.len() && #[trigger] after[i] != i implies rank[i]
        < rank[after[i] as int] by {
        assert(parent[i] != i);
    }
    assert(forest(after, rank));
    assert forall|i: int| 0 <= i < parent.len() implies #[trigger] root_of(after, rank, i)
        == root_of(parent, rank, i) by {
        lemma_compress_root(parent, rank, x, after, i);
    }
}

proof fn lemma_compress_root(
    parent: Seq<usize>,
    rank: Seq<usize>,
    x: int,
    after: Seq<usize>,
    i: int,
)
    requires
        forest(parent, rank),
        forest(after, rank),
        0 <= x < parent.len(),
        after == parent.update(x, root_of(parent, rank, x) as usize),
        0 <= i < parent.len(),
    ensures
        root_of(after, rank, i) == root_of(parent, rank, i),
    decreases parent.len() - rank[i],
{
    lemma_root_facts(parent, rank, x);
    lemma_root_facts(parent, rank, i);
    let r = root_of(parent, rank, x);
    if i == x {
        if r != x {
            assert(after[r] == r);
            assert(root_of(after, rank, r) == r);
        }
    } else if parent[i] != i {
        lemma_compress_root(parent, rank, x, after, parent[i] as int);
    }
}

/// Hanging the root `lose` under the root `keep` sends every element of the first
/// tree to `keep` and leaves the other roots alone.
proof fn lemma_attach(
    parent: Seq<usize>,
    rank: Seq<usize>,
    lose: int,
    keep: int,
    after: Seq<usize>,
    ranked: Seq<usize>,
)
    requires
        forest(parent, rank),
        0 <= lose < parent.len(),
        0 <= keep < parent.len(),
        lose != keep,
        parent[lose] == lose,
        parent[keep] == keep,
        after == parent.update(lose, keep as usize),
        ranked.len() == rank.len(),
        forall|i: int| 0 <= i < rank.len() && i != keep ==> ranked[i] == rank[i],
        rank[keep] <= ranked[keep] <= rank[keep] + 1,
        rank[lose] < ranked[keep],
    ensures
        forest(after, ranked),
        forall|i: int|
            0 <= i < parent.len() ==> #[trigger] root_of(after, ranked, i) == (if root_of(
                parent,
                rank,
                i,
            ) == lose {
                keep
            } else {
                root_of(parent, rank, i)
            }),
{
    lemma_roots_finite(parent);
    assert(roots(parent).contains(lose));
    assert(roots(after) =~= roots(parent).remove(lose));
    assert forall|i: int| 0 <= i < after.len() && #[trigger] after[i] != i implies ranked[i]
        < ranked[after[i] as int] by {
        if i != lose {
            assert(parent[i] != i);
        }
    }
    assert forall|i: int| 0 <= i < after.len() implies #[trigger] ranked[i] + roots(after).len()
        <= after.len() by {
        assert(rank[i] + roots(parent).len() <= parent.len());
    }
    assert(forest(after, ranked));
    assert forall|i: int| 0 <= i < parent.len() implies #[trigger] root_of(after, ranked, i) == (
    if root_of(parent, rank, i) == lose {
        keep
    } else {
        root_of(parent, rank, i)
    }) by {
        lemma_attach_root(parent, rank, lose, keep, after, ranked, i);
    }
}

proof fn lemma_attach_root(
    parent: Seq<usize>,
    rank: Seq<usize>,
    lose: int,
    keep: int,
    after: Seq<usize>,
    ranked: Seq<usize>,
    i: int,
)
    requires
        forest(parent, rank),
        forest(after, ranked),
        0 <= lose < parent.len(),
        0 <= keep < parent.len(),
        lose != keep,
        parent[lose] == lose,
        parent[keep] == keep,
        after == parent.update(lose, keep as usize),
        0 <= i < parent.len(),
    ensures
        root_of(after, ranked, i) == (if root_of(parent, rank, i) == lose {
            keep
        } else {
            root_of(parent, rank, i)
        }),
    decreases parent.len() - rank[i],
{
    lemma_root_facts(parent, rank, i);
    if i == lose {
        assert(after[keep] == keep);
        assert(root_of(after, ranked, keep) == keep);
    } else if parent[i] != i {
        lemma_attach_root(parent, rank, lose, keep, after, ranked, parent[i] as int);
    }
}

/// One more pair adds its edge, in both directions, to the graph of the pairs.
proof fn lemma_pairing_push(pairs: Seq<(int, int)>, x: int, y: int)
    ensures
        adds_edge(pairing(pairs), pairing(pairs.push((x, y))), x, y),
{
    let fewer = pairing(pairs);
    let longer = pairs.push((x, y));
    let more = pairing(longer);
    assert forall|u: int, v: int| #[trigger]
        more(u, v) <==> (fewer(u, v) || (u == x && v == y) || (u == y && v == x)) by {
        if more(u, v) {
            let k = choose|k: int|
                0 <= k < longer.len() && (#[trigger] longer[k] == (u, v) || longer[k] == (v, u));
            if k < pairs.len() {
                assert(pairs[k] == longer[k]);
            }
        }
        if fewer(u, v) {
            let k = choose|k: int|
                0 <= k < pairs.len() && (#[trigger] pairs[k] == (u, v) || pairs[k] == (v, u));
            assert(longer[k] == pairs[k]);
        }
        if (u == x && v == y) || (u == y && v == x) {
            assert(longer[pairs.len() as int] == (x, y));
        }
    }
}

/// A disjoint-set forest over `0..n`.
pub struct UnionFind {
    parent: Vec<usize>,
    rank: Vec<usize>,
    unions: Ghost<Seq<(int, int)>>,
}

impl UnionFind {
    /// The number of elements.
    pub closed spec fn len(&self) -> nat {
        self.parent@.len()
    }

    /// The pairs that `union` was called with, oldest first.
    pub closed spec fn history(&self) -> Seq<(int, int)> {
        self.unions@
    }

    /// The representative of the set that holds `x`.
    pub closed spec fn root(&self, x: int) -> int {
        root_of(self.parent@, self.rank@, x)
    }

    /// The element that `x` points at; a root points at itself.
    pub closed spec fn parent_of(&self, x: int) -> int {
        self.parent@[x] as int
    }

    /// The rank of `x`: a bound on the height of the tree below it.
    pub closed spec fn rank_of(&self, x: int) -> nat {
        self.rank@[x] as nat
    }

    /// Whether `i` lies on the way from `x` to its root, both ends included.
    pub closed spec fn on_path(&self, x: int, i: int) -> bool {
        on_path_of(self.parent@, self.rank@, x, i)
    }

    /// Whether `x` and `y` are in the same set.
    pub open spec fn same_set(&self, x: int, y: int) -> bool {
        self.root(x) == self.root(y)
    }

    /// The invariant: the forest is sound, the history speaks of elements only, and two
    /// elements share a root exactly when the history joins them.
    pub closed spec fn wf(&self) -> bool {
        &&& forest(self.parent@, self.rank@)
        &&& forall|k: int|
            0 <= k < self.unions@.len() ==> 0 <= (#[trigger] self.unions@[k]).0 < self.parent@.len()
                && 0 <= self.unions@[k].1 < self.parent@.len()
        &&& forall|x: int, y: int|
            0 <= x < self.parent@.len() && 0 <= y < self.parent@.len() ==> ((root_of(
                self.parent@,
                self.rank@,
                x,
            ) == root_of(self.parent@, self.rank@, y)) <==> #[trigger] joined(self.unions@, x, y))
    }

    /// A root represents itself, and every representative is a root in range.
    pub proof fn lemma_root_is_fixed(&self, x: int)
        requires
            self.wf(),
            0 <= x < self.len(),
        ensures
            0 <= self.root(x) < self.len(),
            self.root(self.root(x)) == self.root(x),
            self.parent_of(self.root(x)) == self.root(x),
            self.parent_of(x) == x ==> self.root(x) == x,
            self.on_path(x, x),
            self.on_path(x, self.root(x)),
    {
        lemma_root_facts(self.parent@, self.rank@, x);
        lemma_root_facts(self.parent@, self.rank@, self.root(x));
        lemma_root_on_path(self.parent@, self.rank@, x);
    }

    /// Two elements yield the same representative exactly when the pairs united so far
    /// join them.
    pub proof fn lemma_same_root_iff_joined(&self, x: int, y: int)
        requires
            self.wf(),
            0 <= x < self.len(),
            0 <= y < self.len(),
        ensures
            self.root(x) == self.root(y) <==> joined(self.history(), x, y),
    {
    }

    /// `n` sets of one element each.
    pub fn new(n: usize) -> (uf: UnionFind)
        ensures
            uf.wf(),
            uf.len() == n,
            uf.history() == Seq::<(int, int)>::empty(),
            forall|i: int|
                0 <= i < n ==> #[trigger] uf.root(i) == i && uf.parent_of(i) == i && uf.rank_of(i)
                    == 0,
    {
        let mut parent: Vec<usize> = Vec::new();
        let mut rank: Vec<usize> = Vec::new();
        let mut i: usize = 0;
        while i < n
            invariant
                i <= n,
                parent@.len() == i,
                rank@.len() == i,
                forall|k: int| 0 <= k < i ==> parent@[k] == k && rank@[k] == 0,
            decreases n - i,
        {
            parent.push(i);
            rank.push(0);
            i += 1;
        }
        let uf = UnionFind { parent, rank, unions: Ghost(Seq::empty()) };
        proof {
            lemma_int_range(0, n as int);
            assert(roots(uf.parent@) =~= set_int_range(0, n as int));
            assert(forest(uf.parent@, uf.rank@));
            assert forall|x: int, y: int| 0 <= x < n && 0 <= y < n implies ((root_of(
                uf.parent@,
                uf.rank@,
                x,
            ) == root_of(uf.parent@, uf.rank@, y)) <==> #[trigger] joined(uf.unions@, x, y)) by {
                lemma_linked_without_edges(pairing(uf.unions@), x, y);
            }
        }
        uf
    }

    /// The number of elements.
    pub fn size(&self) -> (n: usize)
        ensures
            n == self.len(),
    {
        self.parent.len()
    }

    /// The representative of the set that holds `x`. Every element on the way from `x`
    /// to the root is made to point straight at the root; no set changes.
    pub fn find(&mut self, x: usize) -> (r: usize)
        requires
            old(self).wf(),
            x < old(self).len(),
        ensures
            final(self).wf(),
            final(self).len() == old(self).len(),
            final(self).history() == old(self).history(),
            r == old(self).root(x as int),
            r < old(self).len(),
            forall|i: int|
                0 <= i < old(self).len() ==> #[trigger] final(self).root(i) == old(self).root(i),
            forall|i: int|
                0 <= i < old(self).len() ==> #[trigger] final(self).rank_of(i) == old(self).rank_of(
                    i,
                ),
            forall|i: int|
                0 <= i < old(self).len() ==> #[trigger] final(self).parent_of(i) == (if old(
                    self,
                ).on_path(x as int, i) {
                    r as int
                } else {
                    old(self).parent_of(i)
                }),
        decreases old(self).len() - old(self).rank_of(x as int),
    {
        proof {
            lemma_root_facts(self.parent@, self.rank@, x as int);
            lemma_root_on_path(self.parent@, self.rank@, x as int);
        }
        let p = self.parent[x];
        if p != x {
            let ghost before = *self;
            let r = self.find(p);
            let ghost between = *self;
            proof {
                let rank = before.rank@;
                assert(between.rank@ =~= rank) by {
                    assert forall|i: int| 0 <= i < rank.len() implies between.rank@[i]
                        == rank[i] by {
                        assert(between.rank_of(i) == before.rank_of(i));
                    }
                }
                lemma_root_facts(before.parent@, rank, p as int);
                assert(!on_path_of(before.parent@, rank, p as int, x as int)) by {
                    if on_path_of(before.parent@, rank, p as int, x as int) {
                        lemma_path_facts(before.parent@, rank, p as int, x as int);
                    }
                }
                assert(between.parent_of(x as int) == before.parent_of(x as int));
                assert(between.root(x as int) == before.root(x as int));
                lemma_root_facts(between.parent@, rank, x as int);
            }
            self.parent[x] = r;
            proof {
                let rank = before.rank@;
                lemma_compress(between.parent@, rank, x as int, self.parent@);
                assert forall|i: int| 0 <= i < before.len() implies #[trigger] self.root(i)
                    == before.root(i) by {
                    assert(between.root(i) == before.root(i));
                    assert(root_of(self.parent@, rank, i) == root_of(between.parent@, rank, i));
                }
                assert forall|i: int| 0 <= i < before.len() implies #[trigger] self.parent_of(i)
                    == (if before.on_path(x as int, i) {
                    r as int
                } else {
                    before.parent_of(i)
                }) by {
                    assert(between.parent_of(i) == (if before.on_path(p as int, i) {
                        r as int
                    } else {
                        before.parent_of(i)
                    }));
                }
            }
        }
        self.parent[x]
    }

    /// Merges the sets that hold `x` and `y`. The root of lower rank is hung under the
    /// other; on equal ranks the root of `y` is hung under the root of `x`, whose rank
    /// grows by one. Nothing but the history changes when both are in one set already.
    pub fn union(&mut self, x: usize, y: usize)
        requires
            old(self).wf(),
            x < old(self).len(),
            y < old(self).len(),
        ensures
            final(self).wf(),
            final(self).len() == old(self).len(),
            final(self).history() == old(self).history().push((x as int, y as int)),
            forall|i: int|
                0 <= i < old(self).len() ==> #[trigger] final(self).root(i) == (if old(self).root(i)
                    == old(self).absorbed(x as int, y as int) {
                    old(self).surviving(x as int, y as int)
                } else {
                    old(self).root(i)
                }),
            forall|i: int|
                0 <= i < old(self).len() ==> #[trigger] final(self).rank_of(i) == (if old(
                    self,
                ).grows(x as int, y as int, i) {
                    old(self).rank_of(i) + 1
                } else {
                    old(self).rank_of(i)
                }),
            forall|a: int, b: int|
                #![trigger final(self).root(a), final(self).root(b)]
                0 <= a < old(self).len() && 0 <= b < old(self).len() ==> (final(self).same_set(a, b)
                    <==> (old(self).same_set(a, b) || (old(self).same_set(a, x as int) && old(
                    self,
                ).same_set(y as int, b)) || (old(self).same_set(a, y as int) && old(self).same_set(
                    x as int,
                    b,
                )))),
    {
        let ghost start = *self;
        let root_x = self.find(x);
        let ghost first = *self;
        let root_y = self.find(y);
        let ghost parent = self.parent@;
        let ghost rank = self.rank@;
        let ghost pairs = self.unions@;
        proof {
            assert forall|i: int| 0 <= i < parent.len() implies #[trigger] root_of(parent, rank, i)
                == start.root(i) by {
                assert(first.root(i) == start.root(i));
                assert(self.root(i) == first.root(i));
            }
            assert(rank =~= start.rank@) by {
                assert forall|i: int| 0 <= i < rank.len() implies rank[i] == start.rank@[i] by {
                    assert(first.rank_of(i) == start.rank_of(i));
                    assert(self.rank_of(i) == first.rank_of(i));
                }
            }
            assert(root_of(parent, rank, x as int) == root_x);
            assert(root_of(parent, rank, y as int) == root_y);
            lemma_root_facts(parent, rank, x as int);
            lemma_root_facts(parent, rank, y as int);
            lemma_roots_finite(parent);
        }
        if root_x != root_y {
            proof {
                assert(roots(parent).contains(root_x as int));
                assert(roots(parent).contains(root_y as int));
                assert(roots(parent).remove(root_x as int).contains(root_y as int));
                assert(roots(parent).remove(root_x as int).remove(root_y as int).len() + 2
                    == roots(parent).len());
                assert(rank[root_x as int] + roots(parent).len() <= parent.len());
                assert(parent.len() == self.parent.len());
                assert(rank[root_x as int] < usize::MAX);
            }
            if self.rank[root_x] < self.rank[root_y] {
                self.parent[root_x] = root_y;
                proof {
                    lemma_attach(parent, rank, root_x as int, root_y as int, self.parent@, rank);
                }
            } else if self.rank[root_x] > self.rank[root_y] {
                self.parent[root_y] = root_x;
                proof {
                    lemma_attach(parent, rank, root_y as int, root_x as int, self.parent@, rank);
                }
            } else {
                self.parent[root_y] = root_x;
                self.rank[root_x] += 1;
                proof {
                    lemma_attach(
                        parent,
                        rank,
                        root_y as int,
                        root_x as int,
                        self.parent@,
                        self.rank@,
                    );
                }
            }
        }
        self.unions = Ghost(pairs.push((x as int, y as int)));
        proof {
            let longer = self.unions@;
            lemma_pairing_push(pairs, x as int, y as int);
            assert forall|k: int| 0 <= k < longer.len() implies 0 <= (#[trigger] longer[k]).0
                < parent.len() && 0 <= longer[k].1 < parent.len() by {
                if k < pairs.len() {
                    assert(longer[k] == pairs[k]);
                }
            }
            assert forall|a: int, b: int| 0 <= a < parent.len() && 0 <= b < parent.len() implies ((
            root_of(self.parent@, self.rank@, a) == root_of(self.parent@, self.rank@, b))
                <==> #[trigger] joined(longer, a, b)) by {
                lemma_linked_add_edge(pairing(pairs), pairing(longer), x as int, y as int, a, b);
                assert(joined(pairs, a, b) <==> root_of(parent, rank, a) == root_of(
                    parent,
                    rank,
                    b,
                ));
                assert(joined(pairs, a, x as int) <==> root_of(parent, rank, a) == root_x);
                assert(joined(pairs, a, y as int) <==> root_of(parent, rank, a) == root_y);
                assert(joined(pairs, x as int, b) <==> root_of(parent, rank, b) == root_x);
                assert(joined(pairs, y as int, b) <==> root_of(parent, rank, b) == root_y);
            }
            assert forall|i: int| 0 <= i < parent.len() implies #[trigger] self.root(i) == (
            if start.root(i) == start.absorbed(x as int, y as int) {
                start.surviving(x as int, y as int)
            } else {
                start.root(i)
            }) by {
                assert(root_of(parent, rank, i) == start.root(i));
            }
            assert forall|i: int| 0 <= i < parent.len() implies #[trigger] self.rank_of(i) == (
            if start.grows(x as int, y as int, i) {
                start.rank_of(i) + 1
            } else {
                start.rank_of(i)
            }) by {
                assert(rank[i] == start.rank@[i]);
            }
        }
    }

    /// The root that `union(x, y)` keeps: the one of higher rank, and the root of `x`
    /// where the ranks are equal.
    pub open spec fn surviving(&self, x: int, y: int) -> int {
        if self.rank_of(self.root(x)) < self.rank_of(self.root(y)) {
            self.root(y)
        } else {
            self.root(x)
        }
    }

    /// The root that `union(x, y)` hangs under the surviving one.
    pub open spec fn absorbed(&self, x: int, y: int) -> int {
        if self.rank_of(self.root(x)) < self.rank_of(self.root(y)) {
            self.root(x)
        } else {
            self.root(y)
        }
    }

    /// Whether `union(x, y)` raises the rank of `i`: `i` is the surviving root of two
    /// distinct roots of equal rank.
    pub open spec fn grows(&self, x: int, y: int, i: int) -> bool {
        &&& self.root(x) != self.root(y)
        &&& self.rank_of(self.root(x)) == self.rank_of(self.root(y))
        &&& i == self.root(x)
    }
}

proof fn lemma_root_on_path(parent: Seq<usize>, rank: Seq<usize>, x: int)
    requires
        forest(parent, rank),
        0 <= x < parent.len(),
    ensures
        on_path_of(parent, rank, x, x),
        on_path_of(parent, rank, x, root_of(parent, rank, x)),
    decreases parent.len() - rank[x],
{
    if parent[x] != x {
        lemma_root_on_path(parent, rank, parent[x] as int);
    }
}

} // verus!

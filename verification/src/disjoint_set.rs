//! The connectivity tracker: a disjoint-set forest over the numbers `0..n`,
//! with path compression and union by rank.

use vstd::prelude::*;
use vstd::set_lib::*;

verus! {

/// Every link stays inside the forest and leads to a position of higher rank.
spec fn links_ascend(parent: Seq<usize>, rank: Seq<usize>) -> bool {
    &&& parent.len() == rank.len()
    &&& forall|i: int|
        0 <= i < parent.len() ==> {
            let p = #[trigger] parent[i];
            p < parent.len() && (p != i ==> rank[i] < rank[p as int])
        }
}

/// The position reached from `i` by following the links until one points to itself.
spec fn root_from(parent: Seq<usize>, rank: Seq<usize>, i: int) -> int
    decreases usize::MAX - rank[i],
    when links_ascend(parent, rank) && 0 <= i < parent.len()
{
    if parent[i] == i {
        i
    } else {
        root_from(parent, rank, parent[i] as int)
    }
}

/// The positions that point to themselves.
spec fn roots(parent: Seq<usize>) -> Set<int> {
    Set::new(|i: int| 0 <= i < parent.len() && parent[i] == i)
}

proof fn lemma_root(parent: Seq<usize>, rank: Seq<usize>, i: int)
    requires
        links_ascend(parent, rank),
        0 <= i < parent.len(),
    ensures
        0 <= root_from(parent, rank, i) < parent.len(),
        parent[root_from(parent, rank, i)] == root_from(parent, rank, i),
        root_from(parent, rank, root_from(parent, rank, i)) == root_from(parent, rank, i),
        rank[i] <= rank[root_from(parent, rank, i)],
        parent[i] != i ==> rank[i] < rank[root_from(parent, rank, i)],
        parent[i] == i <==> root_from(parent, rank, i) == i,
    decreases usize::MAX - rank[i],
{
    if parent[i] != i {
        lemma_root(parent, rank, parent[i] as int);
    }
}

/// Pointing `x` straight at its root moves no position to another root.
proof fn lemma_compress(parent: Seq<usize>, rank: Seq<usize>, x: int, i: int)
    requires
        links_ascend(parent, rank),
        0 <= x < parent.len(),
        0 <= i < parent.len(),
    ensures
        links_ascend(parent.update(x, root_from(parent, rank, x) as usize), rank),
        root_from(parent.update(x, root_from(parent, rank, x) as usize), rank, i) == root_from(
            parent,
            rank,
            i,
        ),
    decreases usize::MAX - rank[i],
{
    let r = root_from(parent, rank, x);
    let after = parent.update(x, r as usize);
    lemma_root(parent, rank, x);
    assert(links_ascend(after, rank)) by {
        assert forall|j: int| 0 <= j < after.len() implies ({
            let p = #[trigger] after[j];
            p < after.len() && (p != j ==> rank[j] < rank[p as int])
        }) by {
            let p = parent[j];
        }
    }
    if parent[i] == i {
        assert(after[i] == i);
    } else if i == x {
        lemma_compress(parent, rank, x, r);
        assert(after[r] == r);
    } else {
        lemma_compress(parent, rank, x, parent[i] as int);
    }
}

/// Hanging the root `x` below another root `y` moves the positions under `x` to `y`
/// and leaves the others where they are.
proof fn lemma_link(
    parent: Seq<usize>,
    rank: Seq<usize>,
    x: int,
    y: int,
    raised: Seq<usize>,
    i: int,
)
    requires
        links_ascend(parent, rank),
        0 <= x < parent.len(),
        0 <= y < parent.len(),
        x != y,
        parent[x] == x,
        parent[y] == y,
        links_ascend(parent.update(x, y as usize), raised),
        0 <= i < parent.len(),
    ensures
        root_from(parent.update(x, y as usize), raised, i) == if root_from(parent, rank, i) == x {
            y
        } else {
            root_from(parent, rank, i)
        },
    decreases usize::MAX - rank[i],
{
    let after = parent.update(x, y as usize);
    if parent[i] == i {
        if i == x {
            assert(after[y] == y);
            assert(root_from(after, raised, y) == y);
        } else {
            assert(after[i] == i);
        }
    } else {
        assert(after[i] == parent[i]);
        lemma_link(parent, rank, x, y, raised, parent[i] as int);
    }
}

proof fn lemma_roots_finite(parent: Seq<usize>)
    ensures
        roots(parent).finite(),
        roots(parent).len() <= parent.len(),
{
    lemma_int_range(0, parent.len() as int);
    lemma_len_subset(roots(parent), set_int_range(0, parent.len() as int));
}

/// A partition of the numbers `0..n` into disjoint sets, each with one of its
/// members as its representative.
#[derive(Debug)]
pub struct DisjointSet {
    parent: Vec<usize>,
    rank: Vec<usize>,
    sets: usize,
}

impl DisjointSet {
    /// The invariant of the forest. Every constructor establishes it and every
    /// method keeps it.
    pub closed spec fn wf(&self) -> bool {
        &&& links_ascend(self.parent@, self.rank@)
        &&& self.sets == roots(self.parent@).len()
        &&& forall|i: int|
            0 <= i < self.rank@.len() ==> #[trigger] self.rank@[i] + self.sets <= self.rank@.len()
    }

    /// How many numbers the partition covers.
    pub closed spec fn spec_len(&self) -> nat {
        self.parent@.len()
    }

    /// The representative of the set that holds `i`.
    pub closed spec fn representative(&self, i: int) -> int {
        root_from(self.parent@, self.rank@, i)
    }

    /// The rank of `i`: a bound on the number of links that lead up to `i`. Of
    /// two sets that are merged, the representative of higher rank stays.
    pub closed spec fn rank(&self, i: int) -> nat {
        self.rank@[i] as nat
    }

    /// Whether `a` and `b` are in one set.
    pub open spec fn same_set(&self, a: int, b: int) -> bool {
        self.representative(a) == self.representative(b)
    }

    /// The numbers that represent their own set: one for each set.
    pub open spec fn representatives(&self) -> Set<int> {
        Set::new(|i: int| 0 <= i < self.spec_len() && self.representative(i) == i)
    }

    /// How many sets the partition has.
    pub open spec fn spec_set_count(&self) -> nat {
        self.representatives().len()
    }

    /// A representative is a member of the partition and represents itself.
    pub proof fn lemma_representative(&self, i: int)
        requires
            self.wf(),
            0 <= i < self.spec_len(),
        ensures
            0 <= self.representative(i) < self.spec_len(),
            self.representative(self.representative(i)) == self.representative(i),
    {
        lemma_root(self.parent@, self.rank@, i);
    }

    /// There are no more sets than numbers.
    pub proof fn lemma_set_count(&self)
        requires
            self.wf(),
        ensures
            self.representatives().finite(),
            self.spec_set_count() <= self.spec_len(),
    {
        self.lemma_representatives_are_roots();
        lemma_roots_finite(self.parent@);
    }

    proof fn lemma_representatives_are_roots(&self)
        requires
            links_ascend(self.parent@, self.rank@),
        ensures
            self.representatives() == roots(self.parent@),
    {
        assert forall|i: int| self.representatives().contains(i) <==> roots(self.parent@).contains(
            i,
        ) by {
            if 0 <= i < self.parent@.len() {
                lemma_root(self.parent@, self.rank@, i);
            }
        }
        assert(self.representatives() =~= roots(self.parent@));
    }

    /// The partition of `0..n` into `n` sets of one number each.
    pub fn new(n: usize) -> (s: DisjointSet)
        ensures
            s.wf(),
            s.spec_len() == n,
            s.spec_set_count() == n,
            forall|i: int| 0 <= i < n ==> s.representative(i) == i && s.rank(i) == 0,
    {
        let mut parent: Vec<usize> = Vec::new();
        let mut rank: Vec<usize> = Vec::new();
        let mut i: usize = 0;
        while i < n
            invariant
                i <= n,
                parent@.len() == i,
                rank@.len() == i,
                forall|j: int| 0 <= j < i ==> parent@[j] == j && rank@[j] == 0,
            decreases n - i,
        {
            parent.push(i);
            rank.push(0);
            i += 1;
        }
        let s = DisjointSet { parent, rank, sets: n };
        proof {
            lemma_int_range(0, n as int);
            assert(roots(s.parent@) =~= set_int_range(0, n as int));
            s.lemma_representatives_are_roots();
        }
        s
    }

    /// How many numbers the partition covers.
    pub fn len(&self) -> (n: usize)
        ensures
            n == self.spec_len(),
    {
        self.parent.len()
    }

    /// How many sets the partition has.
    pub fn set_count(&self) -> (n: usize)
        requires
            self.wf(),
        ensures
            n == self.spec_set_count(),
    {
        proof {
            self.lemma_representatives_are_roots();
        }
        self.sets
    }

    /// The representative of the set that holds `v`.
    ///
    /// The partition stays as it is; the positions on the way from `v` to the
    /// representative are pointed straight at it, which shortens later searches.
    pub fn find(&mut self, v: usize) -> (r: usize)
        requires
            old(self).wf(),
            v < old(self).spec_len(),
        ensures
            final(self).wf(),
            final(self).spec_len() == old(self).spec_len(),
            r == old(self).representative(v as int),
            r < old(self).spec_len(),
            forall|i: int|
                0 <= i < old(self).spec_len() ==> {
                    &&& final(self).representative(i) == old(self).representative(i)
                    &&& final(self).rank(i) == old(self).rank(i)
                },
            final(self).representatives() == old(self).representatives(),
    {
        let mut root = v;
        while self.parent[root] != root
            invariant
                *self == *old(self),
                self.wf(),
                root < self.parent@.len(),
                root_from(self.parent@, self.rank@, root as int) == root_from(
                    self.parent@,
                    self.rank@,
                    v as int,
                ),
            decreases usize::MAX - self.rank@[root as int],
        {
            root = self.parent[root];
        }
        let mut cur = v;
        while cur != root
            invariant
                links_ascend(self.parent@, self.rank@),
                self.rank@ == old(self).rank@,
                self.sets == old(self).sets,
                self.parent@.len() == old(self).parent@.len(),
                roots(self.parent@) == roots(old(self).parent@),
                cur < self.parent@.len(),
                root < self.parent@.len(),
                root_from(self.parent@, self.rank@, cur as int) == root,
                root == root_from(old(self).parent@, old(self).rank@, v as int),
                forall|i: int|
                    0 <= i < self.parent@.len() ==> root_from(self.parent@, self.rank@, i)
                        == root_from(old(self).parent@, old(self).rank@, i),
            decreases usize::MAX - self.rank@[cur as int],
        {
            let next = self.parent[cur];
            proof {
                let before = self.parent@;
                lemma_root(before, self.rank@, cur as int);
                assert(root_from(before, self.rank@, next as int) == root);
                assert forall|i: int| 0 <= i < before.len() implies root_from(
                    before.update(cur as int, root),
                    self.rank@,
                    i,
                ) == root_from(before, self.rank@, i) by {
                    lemma_compress(before, self.rank@, cur as int, i);
                }
                lemma_compress(before, self.rank@, cur as int, cur as int);
                assert(roots(before.update(cur as int, root)) =~= roots(before));
            }
            self.parent.set(cur, root);
            cur = next;
        }
        proof {
            self.lemma_representatives_are_roots();
            old(self).lemma_representatives_are_roots();
        }
        root
    }

    /// Whether `a` and `b` are in one set.
    pub fn connected(&mut self, a: usize, b: usize) -> (joined: bool)
        requires
            old(self).wf(),
            a < old(self).spec_len(),
            b < old(self).spec_len(),
        ensures
            final(self).wf(),
            final(self).spec_len() == old(self).spec_len(),
            joined == old(self).same_set(a as int, b as int),
            forall|i: int|
                0 <= i < old(self).spec_len() ==> {
                    &&& final(self).representative(i) == old(self).representative(i)
                    &&& final(self).rank(i) == old(self).rank(i)
                },
            final(self).representatives() == old(self).representatives(),
    {
        let ra = self.find(a);
        let rb = self.find(b);
        ra == rb
    }

    /// Merges the set that holds `a` with the set that holds `b`.
    ///
    /// Where the two are one set already, the partition stays as it is. The
    /// representative of the merged set is one of the two earlier ones: that of
    /// higher rank, and that of `a` where the ranks are equal.
    pub fn union(&mut self, a: usize, b: usize)
        requires
            old(self).wf(),
            a < old(self).spec_len(),
            b < old(self).spec_len(),
        ensures
            final(self).wf(),
            final(self).spec_len() == old(self).spec_len(),
            ({
                let ra = old(self).representative(a as int);
                let rb = old(self).representative(b as int);
                let (below, above) = if old(self).rank(ra) < old(self).rank(rb) {
                    (ra, rb)
                } else {
                    (rb, ra)
                };
                &&& forall|i: int|
                    0 <= i < old(self).spec_len() ==> #[trigger] final(self).representative(i)
                        == if old(self).representative(i) == below {
                        above
                    } else {
                        old(self).representative(i)
                    }
                &&& forall|i: int|
                    0 <= i < old(self).spec_len() ==> #[trigger] final(self).rank(i) == if ra != rb
                        && i == ra && old(self).rank(ra) == old(self).rank(rb) {
                        old(self).rank(i) + 1
                    } else {
                        old(self).rank(i)
                    }
            }),
            forall|i: int, j: int|
                0 <= i < old(self).spec_len() && 0 <= j < old(self).spec_len() ==> (
                #[trigger] final(self).same_set(i, j) <==> {
                    ||| old(self).same_set(i, j)
                    ||| old(self).same_set(i, a as int) && old(self).same_set(j, b as int)
                    ||| old(self).same_set(i, b as int) && old(self).same_set(j, a as int)
                }),
            final(self).spec_set_count() == if old(self).same_set(a as int, b as int) {
                old(self).spec_set_count()
            } else {
                (old(self).spec_set_count() - 1) as nat
            },
    {
        let ra = self.find(a);
        let rb = self.find(b);
        if ra == rb {
            return ;
        }
        let ghost before = *self;
        proof {
            old(self).lemma_representative(a as int);
            old(self).lemma_representative(b as int);
        }
        let rank_a = self.rank[ra];
        let rank_b = self.rank[rb];
        let ghost (x, y) = if rank_a < rank_b {
            (ra as int, rb as int)
        } else {
            (rb as int, ra as int)
        };
        proof {
            lemma_root(before.parent@, before.rank@, a as int);
            lemma_root(before.parent@, before.rank@, b as int);
            lemma_roots_finite(before.parent@);
            assert(roots(before.parent@).contains(ra as int));
            assert(roots(before.parent@).remove(ra as int).contains(rb as int));
            assert(roots(before.parent@).remove(ra as int).len() >= 1) by {
                if roots(before.parent@).remove(ra as int).len() == 0 {
                    assert(roots(before.parent@).remove(ra as int) =~= Set::<int>::empty());
                }
            }
            assert(before.sets >= 2);
            assert(before.rank@[ra as int] + before.sets <= before.rank.len());
        }
        if rank_a < rank_b {
            self.parent.set(ra, rb);
        } else {
            self.parent.set(rb, ra);
            if rank_a == rank_b {
                self.rank.set(ra, rank_a + 1);
            }
        }
        self.sets = self.sets - 1;
        proof {
            before.lemma_linked(x, y, *self);
            self.lemma_representatives_are_roots();
            before.lemma_representatives_are_roots();
            assert forall|i: int| 0 <= i < self.rank@.len() implies #[trigger] self.rank@[i]
                + self.sets <= self.rank@.len() by {
                assert(before.rank@[i] + before.sets <= before.rank@.len());
            }
            assert forall|i: int, j: int|
                0 <= i < old(self).spec_len() && 0 <= j < old(self).spec_len() implies (
            #[trigger] self.same_set(i, j) <==> {
                ||| old(self).same_set(i, j)
                ||| old(self).same_set(i, a as int) && old(self).same_set(j, b as int)
                ||| old(self).same_set(i, b as int) && old(self).same_set(j, a as int)
            }) by {
                let _ = self.representative(i);
                let _ = self.representative(j);
                assert(before.representative(i) == old(self).representative(i));
                assert(before.representative(j) == old(self).representative(j));
                assert(before.representative(a as int) == ra);
                assert(before.representative(b as int) == rb);
            }
        }
    }

    /// What holds after the root `x` was hung below the root `y`.
    proof fn lemma_linked(&self, x: int, y: int, after: DisjointSet)
        requires
            links_ascend(self.parent@, self.rank@),
            0 <= x < self.parent@.len(),
            0 <= y < self.parent@.len(),
            x != y,
            self.parent@[x] == x,
            self.parent@[y] == y,
            after.parent@ == self.parent@.update(x, y as usize),
            after.rank@.len() == self.rank@.len(),
            forall|i: int| 0 <= i < self.rank@.len() && i != y ==> after.rank@[i] == self.rank@[i],
            self.rank@[y] <= after.rank@[y],
            self.rank@[x] < after.rank@[y],
        ensures
            links_ascend(after.parent@, after.rank@),
            roots(after.parent@) == roots(self.parent@).remove(x),
            roots(after.parent@).len() == roots(self.parent@).len() - 1,
            forall|i: int|
                0 <= i < self.parent@.len() ==> #[trigger] after.representative(i)
                    == if self.representative(i) == x {
                    y
                } else {
                    self.representative(i)
                },
    {
        assert(links_ascend(after.parent@, after.rank@)) by {
            assert forall|j: int| 0 <= j < after.parent@.len() implies ({
                let p = #[trigger] after.parent@[j];
                p < after.parent@.len() && (p != j ==> after.rank@[j] < after.rank@[p as int])
            }) by {
                let p = self.parent@[j];
            }
        }
        assert(roots(after.parent@) =~= roots(self.parent@).remove(x));
        lemma_roots_finite(self.parent@);
        assert(roots(self.parent@).contains(x));
        assert forall|i: int| 0 <= i < self.parent@.len() implies #[trigger] after.representative(i)
            == if self.representative(i) == x {
            y
        } else {
            self.representative(i)
        } by {
            lemma_link(self.parent@, self.rank@, x, y, after.rank@, i);
        }
    }
}

} // verus!

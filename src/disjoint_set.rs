//! A disjoint-set forest with path compression and union by rank.
use vstd::prelude::*;

verus! {

/// Number of indices `v < k` that are their own representative.
pub open spec fn count_roots(root: Seq<int>, k: int) -> nat
    decreases k,
{
    if k <= 0 {
        0
    } else {
        count_roots(root, k - 1) + if root[k - 1] == k - 1 {
            1nat
        } else {
            0nat
        }
    }
}

/// `root` maps every element to a representative that maps to itself.
pub open spec fn valid_roots(root: Seq<int>) -> bool {
    forall|v: int|
        0 <= v < root.len() ==> 0 <= #[trigger] root[v] < root.len() && root[root[v]] == root[v]
}

/// Representatives after merging the classes of `a` and `b`: the root of higher
/// rank wins, the root of `a` on equal ranks.
pub open spec fn union_roots(root: Seq<int>, rank: Seq<int>, a: int, b: int) -> Seq<int> {
    let r1 = root[a];
    let r2 = root[b];
    if r1 == r2 {
        root
    } else {
        let winner = if rank[r1] >= rank[r2] {
            r1
        } else {
            r2
        };
        root.map(|x: int, r: int| if r == r1 || r == r2 { winner } else { r })
    }
}

/// Ranks after merging the classes of `a` and `b`: only a merge of two roots of
/// equal rank raises the rank of the root that wins.
pub open spec fn union_ranks(root: Seq<int>, rank: Seq<int>, a: int, b: int) -> Seq<int> {
    let r1 = root[a];
    let r2 = root[b];
    if r1 != r2 && rank[r1] == rank[r2] {
        rank.update(r1, rank[r1] + 1)
    } else {
        rank
    }
}

/// What `find_parent` leaves behind: the same classes and ranks, and the
/// representative of `v` as its result.
pub open spec fn find_outcome(before: DisjointSet, after: DisjointSet, v: int, r: int) -> bool {
    &&& after.wf()
    &&& after.len() == before.len()
    &&& after.roots() == before.roots()
    &&& after.ranks() == before.ranks()
    &&& r == before.roots()[v]
}

/// What `merge_path` leaves behind: the classes of `a` and `b` merged by rank.
pub open spec fn merge_outcome(before: DisjointSet, after: DisjointSet, a: int, b: int) -> bool {
    &&& after.wf()
    &&& after.len() == before.len()
    &&& after.roots() == union_roots(before.roots(), before.ranks(), a, b)
    &&& after.ranks() == union_ranks(before.roots(), before.ranks(), a, b)
}

/// A forest over the elements `0..n`: `parents[v]` is the parent of `v`, a root
/// is its own parent, and `ranks[v]` bounds the height of the tree under `v`.
pub struct DisjointSet {
    parents: Vec<usize>,
    ranks: Vec<usize>,
    root: Ghost<Seq<int>>,
}

impl DisjointSet {
    /// Number of elements.
    pub closed spec fn len(&self) -> nat {
        self.parents@.len()
    }

    /// The representative of each element.
    pub closed spec fn roots(&self) -> Seq<int> {
        self.root@
    }

    /// The rank of each element.
    pub closed spec fn ranks(&self) -> Seq<int> {
        self.ranks@.map_values(|r: usize| r as int)
    }

    pub closed spec fn wf(&self) -> bool {
        let n = self.parents@.len();
        &&& self.ranks@.len() == n
        &&& self.root@.len() == n
        &&& valid_roots(self.root@)
        &&& forall|v: int|
            0 <= v < n ==> {
                let p = #[trigger] self.parents@[v] as int;
                &&& 0 <= p < n
                &&& self.root@[p] == self.root@[v]
                &&& (p == v) == (self.root@[v] == v)
                &&& p != v ==> self.ranks@[p] > self.ranks@[v]
                &&& self.ranks@[v] + count_roots(self.root@, n as int) <= n
            }
    }

    /// What a well-formed forest gives its users: a representative for each
    /// element, and one rank per element.
    pub proof fn lemma_wf(&self)
        requires
            self.wf(),
        ensures
            self.roots().len() == self.len(),
            self.ranks().len() == self.len(),
            valid_roots(self.roots()),
    {
    }

    /// `n` singleton sets, each element its own root with rank 0.
    pub fn new(n: usize) -> (r: DisjointSet)
        ensures
            r.wf(),
            r.len() == n,
            r.roots() == Seq::new(n as nat, |v: int| v),
            r.ranks() == Seq::new(n as nat, |v: int| 0int),
    {
        let mut parents: Vec<usize> = Vec::new();
        let mut ranks: Vec<usize> = Vec::new();
        let mut i: usize = 0;
        while i < n
            invariant
                i <= n,
                parents@.len() == i,
                ranks@.len() == i,
                forall|v: int| 0 <= v < i ==> parents@[v] == v && ranks@[v] == 0,
            decreases n - i,
        {
            parents.push(i);
            ranks.push(0);
            i = i + 1;
        }
        let ghost root = Seq::new(n as nat, |v: int| v);
        proof {
            lemma_count_identity(n as int);
        }
        let r = DisjointSet { parents, ranks, root: Ghost(root) };
        assert(r.ranks() =~= Seq::new(n as nat, |v: int| 0int));
        r
    }

    proof fn lemma_root_rank(&self, v: int)
        requires
            self.wf(),
            0 <= v < self.len(),
        ensures
            self.root@[v] != v ==> self.ranks@[self.root@[v]] > self.ranks@[v],
        decreases self.len() - self.ranks@[v],
    {
        let p = self.parents@[v] as int;
        if p != v {
            assert(self.parents@[p] < self.len());
            self.lemma_root_rank(p);
        }
    }

    /// The representative of `v`; every element on the way to it is attached
    /// directly to it.
    pub fn find_parent(&mut self, v: usize) -> (r: usize)
        requires
            old(self).wf(),
            v < old(self).len(),
        ensures
            find_outcome(*old(self), *final(self), v as int, r as int),
        decreases old(self).len() - old(self).ranks()[v as int],
    {
        let p = self.parents[v];
        if p == v {
            return v;
        }
        assert(self.parents@[p as int] < self.len());
        assert(self.ranks()[p as int] > self.ranks()[v as int]);
        let r = self.find_parent(p);
        proof {
            self.lemma_root_rank(v as int);
        }
        self.parents.set(v, r);
        r
    }

    /// Merges the classes of `v1` and `v2`: the root of lower rank goes under the
    /// other, and on equal ranks the root of `v2` goes under that of `v1`, whose
    /// rank grows by one. Nothing changes where they already share a class.
    #[verifier::spinoff_prover]
    #[verifier::rlimit(40)]
    pub fn merge_path(&mut self, v1: usize, v2: usize)
        requires
            old(self).wf(),
            v1 < old(self).len(),
            v2 < old(self).len(),
        ensures
            merge_outcome(*old(self), *final(self), v1 as int, v2 as int),
    {
        let ghost before = *self;
        let p1 = self.find_parent(v1);
        let p2 = self.find_parent(v2);
        if p1 == p2 {
            return;
        }
        let ghost mid = *self;
        let size = self.parents.len();
        let ghost n = size as int;
        let ghost root = self.root@;
        let k1 = self.ranks[p1];
        let k2 = self.ranks[p2];
        let ghost loser = if k1 >= k2 {
            p2 as int
        } else {
            p1 as int
        };
        proof {
            assert(root[v1 as int] == p1 && root[v2 as int] == p2);
            assert(root[p1 as int] == p1 && root[p2 as int] == p2);
            lemma_count_two(root, n, p1 as int, p2 as int);
            assert(self.parents@[p1 as int] < n);
            assert(k1 + count_roots(root, n) <= n);
        }
        if k1 == k2 {
            self.parents.set(p2, p1);
            self.ranks.set(p1, k1 + 1);
        } else if k1 > k2 {
            self.parents.set(p2, p1);
        } else {
            self.parents.set(p1, p2);
        }
        let ghost new_root = union_roots(root, before.ranks(), v1 as int, v2 as int);
        self.root = Ghost(new_root);
        proof {
            lemma_union_classes(root, before.ranks(), v1 as int, v2 as int);
            assert(self.ranks() =~= union_ranks(before.roots(), before.ranks(), v1 as int, v2 as int));
            let winner = if loser == p2 as int {
                p1 as int
            } else {
                p2 as int
            };
            assert forall|v: int| 0 <= v < n implies {
                let p = #[trigger] self.parents@[v] as int;
                &&& 0 <= p < n
                &&& self.root@[p] == self.root@[v]
                &&& (p == v) == (self.root@[v] == v)
                &&& p != v ==> self.ranks@[p] > self.ranks@[v]
                &&& self.ranks@[v] + count_roots(self.root@, n) <= n
            } by {
                let q = mid.parents@[v] as int;
                assert(0 <= q < n && root[q] == root[v]);
                assert(mid.ranks@[v] + count_roots(root, n) <= n);
                if v == loser {
                    assert(self.parents@[v] as int == winner);
                    assert(root[winner] == winner && root[loser] == loser);
                } else {
                    assert(self.parents@[v] as int == q);
                    if q == v {
                        assert(root[v] == v);
                    } else {
                        assert(mid.ranks@[q] > mid.ranks@[v]);
                    }
                }
            }
        }
    }
}

/// A union merges exactly the two classes of `a` and `b`: afterwards `x` and `y`
/// share a class iff they did before, or one was with `a` and the other with
/// `b`. Where the two classes differed, there is one class fewer.
pub proof fn lemma_union_classes(root: Seq<int>, rank: Seq<int>, a: int, b: int)
    requires
        valid_roots(root),
        rank.len() == root.len(),
        0 <= a < root.len(),
        0 <= b < root.len(),
    ensures
        valid_roots(union_roots(root, rank, a, b)),
        union_roots(root, rank, a, b).len() == root.len(),
        union_ranks(root, rank, a, b).len() == rank.len(),
        forall|x: int, y: int|
            0 <= x < root.len() && 0 <= y < root.len() ==> (#[trigger] union_roots(root, rank, a, b)[x]
                == #[trigger] union_roots(root, rank, a, b)[y] <==> (root[x] == root[y] || (root[x]
                == root[a] && root[y] == root[b]) || (root[x] == root[b] && root[y] == root[a]))),
        count_roots(union_roots(root, rank, a, b), root.len() as int) + (if root[a] != root[b] {
            1int
        } else {
            0int
        }) == count_roots(root, root.len() as int),
{
    let u = union_roots(root, rank, a, b);
    let n = root.len() as int;
    if root[a] != root[b] {
        let r1 = root[a];
        let r2 = root[b];
        let loser = if rank[r1] >= rank[r2] {
            r2
        } else {
            r1
        };
        assert forall|x: int| 0 <= x < n && x != loser implies (root[x] == x) == (u[x] == x) by {
            if root[x] == x && (x == r1 || x == r2) {
                assert(u[x] == x);
            }
        }
        lemma_count_remove(root, u, loser, n);
    }
}

/// Finding twice gives the same representative, and leaves the classes as they
/// were.
pub proof fn lemma_find_twice(
    s0: DisjointSet,
    s1: DisjointSet,
    s2: DisjointSet,
    v: int,
    r1: int,
    r2: int,
)
    requires
        s0.wf(),
        0 <= v < s0.len(),
        find_outcome(s0, s1, v, r1),
        find_outcome(s1, s2, v, r2),
    ensures
        r1 == r2,
        s2.roots() == s0.roots(),
{
}

/// Two distinct roots below `k` count twice.
pub proof fn lemma_count_two(root: Seq<int>, k: int, a: int, b: int)
    requires
        0 <= a < k,
        0 <= b < k,
        a != b,
        root[a] == a,
        root[b] == b,
    ensures
        count_roots(root, k) >= 2,
    decreases k,
{
    if k - 1 != a && k - 1 != b {
        lemma_count_two(root, k - 1, a, b);
    } else if k - 1 == a {
        lemma_count_one(root, k - 1, b);
    } else {
        lemma_count_one(root, k - 1, a);
    }
}

pub proof fn lemma_count_one(root: Seq<int>, k: int, a: int)
    requires
        0 <= a < k,
        root[a] == a,
    ensures
        count_roots(root, k) >= 1,
    decreases k,
{
    if k - 1 != a {
        lemma_count_one(root, k - 1, a);
    }
}

/// `x` is the least element of its class.
pub open spec fn is_first(root: Seq<int>, x: int) -> bool {
    forall|y: int| 0 <= y < x ==> root[y] != root[x]
}

/// Number of classes met below `k`, each counted at its least element; unlike
/// `count_roots`, this does not depend on which element represents a class.
pub open spec fn count_classes(root: Seq<int>, k: int) -> nat
    decreases k,
{
    if k <= 0 {
        0
    } else {
        count_classes(root, k - 1) + if is_first(root, k - 1) {
            1nat
        } else {
            0nat
        }
    }
}

/// Two labellings with the same classes count the same number of them.
pub proof fn lemma_count_classes_same(s: Seq<int>, t: Seq<int>, k: int)
    requires
        0 <= k <= s.len(),
        s.len() == t.len(),
        forall|x: int, y: int|
            0 <= x < s.len() && 0 <= y < s.len() ==> (s[x] == s[y] <==> t[x] == t[y]),
    ensures
        count_classes(s, k) == count_classes(t, k),
    decreases k,
{
    if k > 0 {
        lemma_count_classes_same(s, t, k - 1);
        assert(is_first(s, k - 1) == is_first(t, k - 1));
    }
}

/// Singletons: every element is the least of its class.
pub proof fn lemma_count_classes_identity(n: int, k: int)
    requires
        0 <= k <= n,
    ensures
        count_classes(Seq::new(n as nat, |v: int| v), k) == k,
    decreases k,
{
    if k > 0 {
        lemma_count_classes_identity(n, k - 1);
        assert(is_first(Seq::new(n as nat, |v: int| v), k - 1));
    }
}

/// Every element has a least element of its class at or below it.
proof fn lemma_first_exists(root: Seq<int>, x: int) -> (f: int)
    requires
        0 <= x < root.len(),
    ensures
        0 <= f <= x,
        root[f] == root[x],
        is_first(root, f),
    decreases x,
{
    if is_first(root, x) {
        x
    } else {
        let y = choose|y: int| 0 <= y < x && root[y] == root[x];
        lemma_first_exists(root, y)
    }
}

proof fn lemma_count_classes_remove(s: Seq<int>, t: Seq<int>, l: int, k: int)
    requires
        0 <= l < s.len(),
        k <= s.len(),
        forall|x: int| 0 <= x < k && x != l ==> is_first(s, x) == is_first(t, x),
        is_first(s, l),
        !is_first(t, l),
    ensures
        count_classes(t, k) + (if l < k { 1int } else { 0int }) == count_classes(s, k),
    decreases k,
{
    if k > 0 {
        lemma_count_classes_remove(s, t, l, k - 1);
    }
}

/// A union of two different classes leaves one class fewer.
#[verifier::spinoff_prover]
pub proof fn lemma_union_count_classes(root: Seq<int>, rank: Seq<int>, a: int, b: int)
    requires
        valid_roots(root),
        rank.len() == root.len(),
        0 <= a < root.len(),
        0 <= b < root.len(),
        root[a] != root[b],
    ensures
        count_classes(union_roots(root, rank, a, b), root.len() as int) + 1 == count_classes(
            root,
            root.len() as int,
        ),
{
    let n = root.len() as int;
    let u = union_roots(root, rank, a, b);
    lemma_union_classes(root, rank, a, b);
    let f1 = lemma_first_exists(root, a);
    let f2 = lemma_first_exists(root, b);
    let (lo, hi) = if f1 < f2 {
        (f1, f2)
    } else {
        (f2, f1)
    };
    assert(f1 != f2);
    assert forall|x: int| 0 <= x < n && x != hi implies is_first(root, x) == is_first(u, x) by {
        if is_first(root, x) && !is_first(u, x) {
            let y = choose|y: int| 0 <= y < x && u[y] == u[x];
            assert(root[y] != root[x]);
            assert(root[x] == root[a] || root[x] == root[b]);
            if root[x] == root[a] {
                assert(x == f1 || f1 < x);
                assert(root[y] == root[b]);
                assert(f2 <= y);
            } else {
                assert(root[y] == root[a]);
                assert(f1 <= y);
            }
        }
        if !is_first(root, x) && is_first(u, x) {
            let y = choose|y: int| 0 <= y < x && root[y] == root[x];
            assert(u[y] == u[x]);
        }
    }
    assert(!is_first(u, hi)) by {
        assert(u[lo] == u[hi]);
    }
    lemma_count_classes_remove(root, u, hi, n);
}

/// With no root below `k` but `c`, at most one root is counted.
pub proof fn lemma_count_at_most_one(root: Seq<int>, k: int, c: int)
    requires
        forall|x: int| 0 <= x < k && #[trigger] root[x] == x ==> x == c,
    ensures
        count_roots(root, k) <= 1,
        c >= k ==> count_roots(root, k) == 0,
    decreases k,
{
    if k > 0 {
        lemma_count_at_most_one(root, k - 1, c);
        if k - 1 != c {
            assert(root[k - 1] != k - 1);
        }
    }
}

/// Losing exactly one root `l` lowers the count by one.
proof fn lemma_count_remove(s: Seq<int>, t: Seq<int>, l: int, k: int)
    requires
        0 <= l,
        k <= s.len(),
        k <= t.len(),
        forall|x: int| 0 <= x < k && x != l ==> (s[x] == x) == (t[x] == x),
        l < s.len() && l < t.len() ==> s[l] == l && t[l] != l,
    ensures
        count_roots(t, k) + (if l < k { 1int } else { 0int }) == count_roots(s, k),
    decreases k,
{
    if k > 0 {
        lemma_count_remove(s, t, l, k - 1);
    }
}

pub proof fn lemma_count_identity(n: int)
    requires
        n >= 0,
    ensures
        count_roots(Seq::new(n as nat, |v: int| v), n) == n,
{
    lemma_count_identity_prefix(Seq::new(n as nat, |v: int| v), n, n);
}

proof fn lemma_count_identity_prefix(s: Seq<int>, n: int, k: int)
    requires
        s == Seq::new(n as nat, |v: int| v),
        0 <= k <= n,
    ensures
        count_roots(s, k) == k,
    decreases k,
{
    if k > 0 {
        lemma_count_identity_prefix(s, n, k - 1);
    }
}

} // verus!

//! Prim's algorithm: a tree grown from vertex 0, each round taking the vertex
//! outside the tree that the cheapest known edge reaches.
use vstd::prelude::*;
use crate::graph::{MstError, check_square, connected, is_square, rows};

verus! {

/// `a` is a better key than `b`, where `None` stands for infinity.
pub open spec fn key_lt(a: Option<usize>, b: Option<usize>) -> bool {
    match a {
        Some(x) => match b {
            Some(y) => x < y,
            None => true,
        },
        None => false,
    }
}

/// `u` is the vertex outside the tree with the least key, the lowest index
/// among equal keys.
pub open spec fn is_selected(key: Seq<Option<usize>>, in_tree: Seq<bool>, n: int, u: int) -> bool {
    &&& 0 <= u < n
    &&& !in_tree[u]
    &&& forall|v: int| 0 <= v < n && !#[trigger] in_tree[v] ==> !key_lt(key[v], key[u])
    &&& forall|v: int| 0 <= v < u && !#[trigger] in_tree[v] ==> key_lt(key[u], key[v])
}

/// The state of a run: the best known key and tree neighbour of each vertex,
/// and which vertices are in the tree.
pub struct PrimRun {
    pub key: Seq<Option<usize>>,
    pub parent: Seq<Option<usize>>,
    pub in_tree: Seq<bool>,
}

/// Vertex 0 with key 0, every other vertex unreached; nothing in the tree.
pub open spec fn prim_start(n: nat) -> PrimRun {
    PrimRun {
        key: Seq::new(n, |v: int| if v == 0 { Some(0usize) } else { None }),
        parent: Seq::new(n, |v: int| None),
        in_tree: Seq::new(n, |v: int| false),
    }
}

/// The edge from `u` improves the key of `v`, which is outside the tree `t`.
pub open spec fn relaxes(g: Seq<Seq<usize>>, t: Seq<bool>, key: Seq<Option<usize>>, u: int, v: int) -> bool {
    !t[v] && g[u][v] != 0 && key_lt(Some(g[u][v]), key[v])
}

/// One round on `n` vertices: the selected vertex `u` joins the tree, and each
/// vertex outside it that an edge from `u` reaches more cheaply than before
/// takes that edge.
pub open spec fn prim_round(g: Seq<Seq<usize>>, s: PrimRun, n: nat) -> PrimRun {
    let u = choose|u: int| is_selected(s.key, s.in_tree, n as int, u);
    let t = s.in_tree.update(u, true);
    PrimRun {
        key: Seq::new(n, |v: int| if relaxes(g, t, s.key, u, v) { Some(g[u][v]) } else { s.key[v] }),
        parent: Seq::new(n, |v: int| if relaxes(g, t, s.key, u, v) { Some(u as usize) } else { s.parent[v] }),
        in_tree: t,
    }
}

/// The state after `k` rounds.
pub open spec fn prim_run(g: Seq<Seq<usize>>, n: nat, k: int) -> PrimRun
    decreases k,
{
    if k <= 0 {
        prim_start(n)
    } else {
        prim_round(g, prim_run(g, n, k - 1), n)
    }
}

/// For each vertex `v` in `1..k` that has a tree neighbour `p`, in order: `p`,
/// and the weight `g[v][p]`.
pub open spec fn prim_output(g: Seq<Seq<usize>>, parent: Seq<Option<usize>>, k: int) -> (Seq<usize>, Seq<usize>)
    decreases k,
{
    if k <= 1 {
        (seq![], seq![])
    } else {
        let prev = prim_output(g, parent, k - 1);
        match parent[k - 1] {
            Some(p) => (prev.0.push(p), prev.1.push(g[k - 1][p as int])),
            None => prev,
        }
    }
}

/// What Prim's algorithm gives on an `n x n` matrix: `n - 1` rounds, then the
/// tree neighbour and edge weight of each vertex but 0 that was reached.
pub open spec fn prim_result(g: Seq<Seq<usize>>, n: nat) -> (Seq<usize>, Seq<usize>) {
    if n == 0 {
        (seq![], seq![])
    } else {
        prim_output(g, prim_run(g, n, n - 1).parent, n as int)
    }
}

/// The vertex outside the tree with the least key, the lowest index among
/// equal keys; `None` keys count as infinite.
pub fn get_min_vertice(keys: &Vec<Option<usize>>, mst_path: &Vec<bool>, vert: usize) -> (r: usize)
    requires
        keys@.len() == vert,
        mst_path@.len() == vert,
        exists|v: int| 0 <= v < vert && !#[trigger] mst_path@[v],
    ensures
        is_selected(keys@, mst_path@, vert as int, r as int),
{
    let mut best: Option<usize> = None;
    let mut i: usize = 0;
    while i < vert
        invariant
            keys@.len() == vert,
            mst_path@.len() == vert,
            i <= vert,
            match best {
                None => forall|v: int| 0 <= v < i ==> #[trigger] mst_path@[v],
                Some(b) => is_selected(keys@, mst_path@, i as int, b as int),
            },
        decreases vert - i,
    {
        if !mst_path[i] {
            match best {
                None => {
                    best = Some(i);
                },
                Some(b) => {
                    let better = match keys[i] {
                        Some(x) => match keys[b] {
                            Some(y) => x < y,
                            None => true,
                        },
                        None => false,
                    };
                    if better {
                        best = Some(i);
                    }
                },
            }
        }
        i = i + 1;
    }
    match best {
        Some(b) => b,
        None => {
            assert(false);
            0
        },
    }
}

/// Every tree neighbour lies in `0..n`.
spec fn parents_below(parent: Seq<Option<usize>>, n: int) -> bool {
    forall|x: int|
        0 <= x < parent.len() ==> match #[trigger] parent[x] {
            Some(p) => p < n,
            None => true,
        }
}

/// At most one vertex is selected.
proof fn lemma_selected_unique(key: Seq<Option<usize>>, in_tree: Seq<bool>, n: int, u1: int, u2: int)
    requires
        is_selected(key, in_tree, n, u1),
        is_selected(key, in_tree, n, u2),
    ensures
        u1 == u2,
{
    if u1 < u2 {
        assert(!in_tree[u1]);
    } else if u2 < u1 {
        assert(!in_tree[u2]);
    }
}

/// Number of vertices below `k` in the tree.
spec fn count_in(t: Seq<bool>, k: int) -> nat
    decreases k,
{
    if k <= 0 {
        0
    } else {
        count_in(t, k - 1) + if t[k - 1] {
            1nat
        } else {
            0nat
        }
    }
}

proof fn lemma_count_in_full(t: Seq<bool>, k: int)
    requires
        0 <= k <= t.len(),
        forall|v: int| 0 <= v < k ==> #[trigger] t[v],
    ensures
        count_in(t, k) == k,
    decreases k,
{
    if k > 0 {
        lemma_count_in_full(t, k - 1);
    }
}

proof fn lemma_count_in_add(t: Seq<bool>, u: int, k: int)
    requires
        0 <= u < t.len(),
        !t[u],
        0 <= k <= t.len(),
    ensures
        count_in(t.update(u, true), k) == count_in(t, k) + if u < k {
            1int
        } else {
            0int
        },
    decreases k,
{
    if k > 0 {
        lemma_count_in_add(t, u, k - 1);
    }
}

proof fn lemma_count_in_empty(n: nat, k: int)
    requires
        0 <= k <= n,
    ensures
        count_in(Seq::new(n, |v: int| false), k) == 0,
    decreases k,
{
    if k > 0 {
        lemma_count_in_empty(n, k - 1);
    }
}

/// Facts that hold after each round: keys, once known, stay known; a vertex
/// outside the tree next to one inside has a key; every vertex but 0 with a key
/// has a tree neighbour; tree neighbours lie in the tree and joined it before
/// the vertices that point to them (`time`, the round each vertex joined in,
/// `n` for those outside). On a connected matrix every vertex in the tree but 0
/// has a tree neighbour.
#[verifier::spinoff_prover]
proof fn lemma_prim_rounds(g: Seq<Seq<usize>>, n: nat, k: int) -> (time: Seq<int>)
    requires
        is_square(g, n as int),
        0 < n <= usize::MAX,
        0 <= k <= n - 1,
    ensures
        prim_run(g, n, k).key.len() == n,
        prim_run(g, n, k).parent.len() == n,
        prim_run(g, n, k).in_tree.len() == n,
        count_in(prim_run(g, n, k).in_tree, n as int) == k,
        time.len() == n,
        k >= 1 ==> prim_run(g, n, k).in_tree[0],
        forall|v: int|
            0 <= v < n ==> (#[trigger] prim_run(g, n, k).in_tree[v] ==> 0 <= time[v] < k) && (
            !prim_run(g, n, k).in_tree[v] ==> time[v] == n),
        forall|a: int, v: int|
            0 <= a < n && 0 <= v < n && #[trigger] prim_run(g, n, k).in_tree[a]
                && !#[trigger] prim_run(g, n, k).in_tree[v] && g[a][v] != 0 ==> prim_run(
                g,
                n,
                k,
            ).key[v] is Some,
        forall|v: int|
            0 <= v < n && v != 0 && #[trigger] prim_run(g, n, k).key[v] is Some ==> prim_run(
                g,
                n,
                k,
            ).parent[v] is Some,
        forall|v: int|
            0 <= v < n ==> match #[trigger] prim_run(g, n, k).parent[v] {
                Some(p) => p < n && prim_run(g, n, k).in_tree[p as int] && time[p as int] < time[v],
                None => true,
            },
        connected(g, n as int) ==> forall|v: int|
            0 <= v < n && v != 0 && #[trigger] prim_run(g, n, k).in_tree[v] ==> prim_run(
                g,
                n,
                k,
            ).parent[v] is Some,
    decreases k,
{
    if k == 0 {
        lemma_count_in_empty(n, n as int);
        Seq::new(n, |v: int| n as int)
    } else {
        let time0 = lemma_prim_rounds(g, n, k - 1);
        let s = prim_run(g, n, k - 1);
        if forall|v: int| 0 <= v < n ==> #[trigger] s.in_tree[v] {
            lemma_count_in_full(s.in_tree, n as int);
        }
        let w = choose|w: int| 0 <= w < n && !#[trigger] s.in_tree[w];
        let u = choose|u: int| is_selected(s.key, s.in_tree, n as int, u);
        assert(is_selected(s.key, s.in_tree, n as int, u)) by {
            lemma_selection_exists(s.key, s.in_tree, n as int, n as int, w);
        }
        lemma_count_in_add(s.in_tree, u, n as int);
        let t = prim_run(g, n, k);
        let time = time0.update(u, k - 1);
        if k == 1 {
            assert(s == prim_start(n));
            assert(u == 0) by {
                if u != 0 {
                    assert(!s.in_tree[0]);
                    assert(key_lt(s.key[0], s.key[u]));
                }
            }
        }
        if connected(g, n as int) && k >= 2 {
            let part = Set::new(|x: int| 0 <= x < n && s.in_tree[x]);
            assert(part.contains(0));
            assert(!part.contains(w));
            let (a, b) = choose|a: int, b: int|
                0 <= a < n && 0 <= b < n && #[trigger] part.contains(a) && !#[trigger] part.contains(b)
                    && g[a][b] != 0;
            assert(s.key[b] is Some);
            assert(!s.in_tree[b]);
            assert(s.key[u] is Some);
        }
        assert forall|v: int| 0 <= v < n implies match #[trigger] t.parent[v] {
            Some(p) => p < n && t.in_tree[p as int] && time[p as int] < time[v],
            None => true,
        } by {
            if relaxes(g, t.in_tree, s.key, u, v) {
                assert(t.parent[v] == Some(u as usize));
                assert(!s.in_tree[v] && v != u);
                assert(time[v] == n);
            } else {
                assert(t.parent[v] == s.parent[v]);
                match s.parent[v] {
                    Some(p) => {
                        assert(s.in_tree[p as int]);
                        assert(p != u);
                        assert(time[p as int] == time0[p as int]);
                        if v == u {
                            assert(time0[p as int] < k - 1);
                        } else {
                            assert(time[v] == time0[v]);
                        }
                    },
                    None => {},
                }
            }
        }
        time
    }
}

/// The tree neighbours that Prim's algorithm reports form a forest: the
/// vertices can be numbered (by the round they joined the tree in) so that each
/// tree neighbour comes before the vertex that points to it, which no cycle
/// allows.
pub proof fn lemma_prim_acyclic(g: Seq<Seq<usize>>, n: nat)
    requires
        is_square(g, n as int),
        0 < n <= usize::MAX,
    ensures
        exists|time: Seq<int>|
            {
                &&& time.len() == n
                &&& forall|v: int|
                    0 <= v < n ==> match #[trigger] prim_run(g, n, n - 1).parent[v] {
                        Some(p) => p < n && time[p as int] < time[v],
                        None => true,
                    }
            },
{
    let time = lemma_prim_rounds(g, n, n - 1);
    assert(forall|v: int|
        0 <= v < n ==> match #[trigger] prim_run(g, n, n - 1).parent[v] {
            Some(p) => p < n && time[p as int] < time[v],
            None => true,
        });
}

/// On a connected `n x n` matrix Prim's algorithm reaches every vertex: each
/// vertex but 0 gets a tree neighbour, and the result has `n - 1` entries.
#[verifier::spinoff_prover]
pub proof fn lemma_prim_spans(g: Seq<Seq<usize>>, n: nat)
    requires
        is_square(g, n as int),
        0 < n <= usize::MAX,
        connected(g, n as int),
    ensures
        forall|v: int| 0 < v < n ==> #[trigger] prim_run(g, n, n - 1).parent[v] is Some,
        prim_result(g, n).0.len() == n - 1,
        prim_result(g, n).1.len() == n - 1,
{
    let s = prim_run(g, n, n - 1);
    let time = lemma_prim_rounds(g, n, n - 1);
    assert forall|v: int| 0 < v < n implies #[trigger] s.parent[v] is Some by {
        if !s.in_tree[v] {
            assert forall|x: int| 0 <= x < n && x != v implies #[trigger] s.in_tree[x] by {
                if !s.in_tree[x] {
                    lemma_count_in_two_out(s.in_tree, n as int, v, x);
                }
            }
            let part = Set::new(|x: int| x != v);
            assert(part.contains(0) && !part.contains(v));
            let (a, b) = choose|a: int, b: int|
                0 <= a < n && 0 <= b < n && #[trigger] part.contains(a) && !#[trigger] part.contains(b)
                    && g[a][b] != 0;
            assert(b == v && s.in_tree[a]);
            assert(s.key[v] is Some);
        }
    }
    lemma_output_len(g, s.parent, n as int);
}

/// Two vertices outside the tree leave at most `k - 2` inside.
proof fn lemma_count_in_two_out(t: Seq<bool>, k: int, a: int, b: int)
    requires
        0 <= a < k,
        0 <= b < k,
        a != b,
        !t[a],
        !t[b],
    ensures
        count_in(t, k) <= k - 2,
    decreases k,
{
    if k - 1 != a && k - 1 != b {
        lemma_count_in_two_out(t, k - 1, a, b);
    } else if k - 1 == a {
        lemma_count_in_one_out(t, k - 1, b);
    } else {
        lemma_count_in_one_out(t, k - 1, a);
    }
}

proof fn lemma_count_in_one_out(t: Seq<bool>, k: int, a: int)
    requires
        0 <= a < k,
        !t[a],
    ensures
        count_in(t, k) <= k - 1,
    decreases k,
{
    if k - 1 != a {
        lemma_count_in_one_out(t, k - 1, a);
    } else {
        lemma_count_in_le(t, k - 1);
    }
}

proof fn lemma_count_in_le(t: Seq<bool>, k: int)
    requires
        0 <= k,
    ensures
        count_in(t, k) <= k,
    decreases k,
{
    if k > 0 {
        lemma_count_in_le(t, k - 1);
    }
}

/// Where every vertex of `1..k` has a tree neighbour, the output has `k - 1`
/// entries.
proof fn lemma_output_len(g: Seq<Seq<usize>>, parent: Seq<Option<usize>>, k: int)
    requires
        1 <= k <= parent.len(),
        forall|v: int| 0 < v < k ==> #[trigger] parent[v] is Some,
    ensures
        prim_output(g, parent, k).0.len() == k - 1,
        prim_output(g, parent, k).1.len() == k - 1,
    decreases k,
{
    if k > 1 {
        lemma_output_len(g, parent, k - 1);
        assert(parent[k - 1] is Some);
    }
}

/// Where some vertex below `k` lies outside the tree, one is selected among
/// those below `k`.
proof fn lemma_selection_exists(key: Seq<Option<usize>>, in_tree: Seq<bool>, n: int, k: int, w: int)
    requires
        0 <= w < k <= n,
        in_tree.len() == n,
        key.len() == n,
        !in_tree[w],
    ensures
        exists|u: int| is_selected(key, in_tree, k, u),
    decreases k,
{
    if w == k - 1 && forall|v: int| 0 <= v < k - 1 ==> #[trigger] in_tree[v] {
        assert(is_selected(key, in_tree, k, k - 1));
    } else {
        let w2 = if w < k - 1 {
            w
        } else {
            choose|v: int| 0 <= v < k - 1 && !#[trigger] in_tree[v]
        };
        lemma_selection_exists(key, in_tree, n, k - 1, w2);
        let b = choose|u: int| #[trigger] is_selected(key, in_tree, k - 1, u);
        if !in_tree[k - 1] && key_lt(key[k - 1], key[b]) {
            assert(is_selected(key, in_tree, k, k - 1));
        } else {
            assert(is_selected(key, in_tree, k, b));
        }
    }
}

/// Prim's algorithm on the `vert x vert` matrix `graph`, from vertex 0: `vert - 1`
/// rounds, each taking into the tree the vertex outside it with the least key
/// (the lowest index on ties, an unreached one only where no reached one is
/// left) and lowering the keys of its neighbours outside the tree. The result
/// holds, for each vertex `v != 0` that was reached and in vertex order, its
/// tree neighbour `p` and the weight `graph[v][p]`. A matrix of another shape
/// is refused.
#[verifier::spinoff_prover]
pub fn prim_mst(graph: Vec<Vec<usize>>, vert: usize) -> (r: Result<(Vec<usize>, Vec<usize>), MstError>)
    ensures
        match r {
            Ok((parents, weights)) => is_square(rows(graph@), vert as int) && (parents@, weights@)
                == prim_result(rows(graph@), vert as nat),
            Err(e) => !is_square(rows(graph@), vert as int) && e == MstError::NotSquare,
        },
{
    if !check_square(&graph, vert) {
        return Err(MstError::NotSquare);
    }
    let ghost g = rows(graph@);
    if vert == 0 {
        return Ok((Vec::new(), Vec::new()));
    }
    let mut parents: Vec<Option<usize>> = Vec::new();
    let mut keys: Vec<Option<usize>> = Vec::new();
    let mut mst_path: Vec<bool> = Vec::new();
    let mut i: usize = 0;
    while i < vert
        invariant
            i <= vert,
            parents@ == Seq::new(i as nat, |v: int| None::<usize>),
            keys@ == Seq::new(i as nat, |v: int| if v == 0 { Some(0usize) } else { None }),
            mst_path@ == Seq::new(i as nat, |v: int| false),
        decreases vert - i,
    {
        parents.push(None);
        if i == 0 {
            keys.push(Some(0));
        } else {
            keys.push(None);
        }
        mst_path.push(false);
        proof {
            assert(parents@ =~= Seq::new((i + 1) as nat, |v: int| None::<usize>));
            assert(keys@ =~= Seq::new((i + 1) as nat, |v: int| if v == 0 { Some(0usize) } else { None }));
            assert(mst_path@ =~= Seq::new((i + 1) as nat, |v: int| false));
        }
        i = i + 1;
    }
    proof {
        lemma_count_in_empty(vert as nat, vert as int);
    }
    let mut round: usize = 0;
    while round < vert - 1
        invariant
            g == rows(graph@),
            is_square(g, vert as int),
            vert > 0,
            round <= vert - 1,
            keys@ == prim_run(g, vert as nat, round as int).key,
            parents@ == prim_run(g, vert as nat, round as int).parent,
            mst_path@ == prim_run(g, vert as nat, round as int).in_tree,
            keys@.len() == vert,
            parents@.len() == vert,
            mst_path@.len() == vert,
            count_in(mst_path@, vert as int) == round,
            parents_below(parents@, vert as int),
        decreases vert - 1 - round,
    {
        let ghost s = prim_run(g, vert as nat, round as int);
        proof {
            if forall|v: int| 0 <= v < vert ==> #[trigger] mst_path@[v] {
                lemma_count_in_full(mst_path@, vert as int);
            }
        }
        let u = get_min_vertice(&keys, &mst_path, vert);
        proof {
            let c = choose|c: int| is_selected(s.key, s.in_tree, vert as int, c);
            lemma_selected_unique(s.key, s.in_tree, vert as int, c, u as int);
            lemma_count_in_add(mst_path@, u as int, vert as int);
        }
        mst_path.set(u, true);
        let ghost t = mst_path@;
        let row = &graph[u];
        assert(row@ == g[u as int]);
        let mut v: usize = 0;
        while v < vert
            invariant
                g == rows(graph@),
                is_square(g, vert as int),
                u < vert,
                row@ == g[u as int],
                v <= vert,
                mst_path@ == t,
                t.len() == vert,
                keys@ == Seq::new(vert as nat, |x: int| if x < v && relaxes(g, t, s.key, u as int, x) { Some(g[u as int][x]) } else { s.key[x] }),
                parents@ == Seq::new(vert as nat, |x: int| if x < v && relaxes(g, t, s.key, u as int, x) { Some(u) } else { s.parent[x] }),
                s.key.len() == vert,
                s.parent.len() == vert,
                parents_below(s.parent, vert as int),
            decreases vert - v,
        {
            let w = row[v];
            let better = match keys[v] {
                Some(x) => w < x,
                None => true,
            };
            if !mst_path[v] && w != 0 && better {
                keys.set(v, Some(w));
                parents.set(v, Some(u));
            }
            proof {
                assert(keys@ =~= Seq::new(vert as nat, |x: int| if x < v + 1 && relaxes(g, t, s.key, u as int, x) { Some(g[u as int][x]) } else { s.key[x] }));
                assert(parents@ =~= Seq::new(vert as nat, |x: int| if x < v + 1 && relaxes(g, t, s.key, u as int, x) { Some(u) } else { s.parent[x] }));
            }
            v = v + 1;
        }
        proof {
            let next = prim_run(g, vert as nat, round + 1);
            assert(keys@ =~= next.key);
            assert(parents@ =~= next.parent);
            assert forall|x: int| 0 <= x < vert implies match #[trigger] parents@[x] {
                Some(p) => p < vert,
                None => true,
            } by {
                if x < vert {
                    assert(parents@[x] == s.parent[x] || parents@[x] == Some(u));
                }
            }
        }
        round = round + 1;
    }
    let ghost parent = parents@;
    let mut result_vertices: Vec<usize> = Vec::new();
    let mut result_weights: Vec<usize> = Vec::new();
    let mut v: usize = 1;
    while v < vert
        invariant
            g == rows(graph@),
            is_square(g, vert as int),
            1 <= v <= vert,
            parents@ == parent,
            parent.len() == vert,
            parents_below(parent, vert as int),
            (result_vertices@, result_weights@) == prim_output(g, parent, v as int),
        decreases vert - v,
    {
        match parents[v] {
            Some(p) => {
                assert(p < vert);
                assert(graph@[v as int]@ == g[v as int]);
                result_vertices.push(p);
                result_weights.push(graph[v][p]);
            },
            None => {},
        }
        v = v + 1;
    }
    Ok((result_vertices, result_weights))
}

} // verus!

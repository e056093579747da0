//! Kruskal's algorithm: edges by ascending weight, each kept where it joins two
//! components of the forest built so far.
use vstd::prelude::*;
use crate::disjoint_set::{
    DisjointSet, count_classes, count_roots, lemma_count_at_most_one, lemma_count_classes_identity,
    lemma_count_classes_same, lemma_union_count_classes, lemma_count_one, lemma_count_identity,
    lemma_count_two, lemma_union_classes, union_ranks, union_roots, valid_roots,
};
use crate::graph::{
    MstError, all_triples, check_edges, check_square, connected, convert_to_edges, edge_list,
    is_square, lemma_edge_list_entries, lemma_edge_list_valid, rows,
    valid_edges,
};

verus! {

/// The state of a run: the classes and ranks of the disjoint-set forest, and the
/// output so far (the root of the first endpoint, and the weight, of each edge
/// kept).
pub struct KruskalRun {
    pub root: Seq<int>,
    pub rank: Seq<int>,
    pub from: Seq<usize>,
    pub weights: Seq<usize>,
}

/// `n` singletons and no edge kept.
pub open spec fn kruskal_start(n: nat) -> KruskalRun {
    KruskalRun {
        root: Seq::new(n, |v: int| v),
        rank: Seq::new(n, |v: int| 0int),
        from: seq![],
        weights: seq![],
    }
}

/// One edge `(a, b, w)`: kept, and its classes merged, where `a` and `b` lie
/// in different classes; dropped otherwise.
pub open spec fn kruskal_step(s: KruskalRun, e: Seq<usize>) -> KruskalRun {
    let a = e[0] as int;
    let b = e[1] as int;
    if s.root[a] != s.root[b] {
        KruskalRun {
            root: union_roots(s.root, s.rank, a, b),
            rank: union_ranks(s.root, s.rank, a, b),
            from: s.from.push(s.root[a] as usize),
            weights: s.weights.push(e[2]),
        }
    } else {
        s
    }
}

/// The run over the first `k` edges in the order `order`.
pub open spec fn kruskal_run(edges: Seq<Seq<usize>>, order: Seq<int>, n: nat, k: int) -> KruskalRun
    decreases k,
{
    if k <= 0 {
        kruskal_start(n)
    } else {
        kruskal_step(kruskal_run(edges, order, n, k - 1), edges[order[k - 1]])
    }
}

/// `from` and `weights` are what Kruskal's algorithm gives on `edges` over the
/// vertices `0..n`, taken by ascending weight and equal weights in list order.
pub open spec fn is_kruskal_result(
    edges: Seq<Seq<usize>>,
    n: nat,
    from: Seq<usize>,
    weights: Seq<usize>,
) -> bool {
    exists|order: Seq<int>|
        {
            &&& weight_order(edges, order)
            &&& from == kruskal_run(edges, order, n, order.len() as int).from
            &&& weights == kruskal_run(edges, order, n, order.len() as int).weights
        }
}

/// `(w, i)` comes before `(x, j)`: by weight, then by position.
pub open spec fn pair_le(p: (usize, usize), q: (usize, usize)) -> bool {
    p.0 < q.0 || (p.0 == q.0 && p.1 <= q.1)
}

/// `order` lists the positions of all edges, by ascending weight, and equal
/// weights in the order of the list.
pub open spec fn weight_order(edges: Seq<Seq<usize>>, order: Seq<int>) -> bool {
    &&& order.len() == edges.len()
    &&& forall|i: int| 0 <= i < order.len() ==> 0 <= #[trigger] order[i] < edges.len()
    &&& forall|i: int, j: int|
        0 <= i < j < order.len() ==> {
            let (a, b) = (#[trigger] order[i], #[trigger] order[j]);
            edges[a][2] < edges[b][2] || (edges[a][2] == edges[b][2] && a < b)
        }
}

/// The classes of a run form a forest of the edges kept: each kept edge joined
/// two classes into one, so the number of edges kept is `n` less the number of
/// classes, and no kept edge closes a cycle. Every edge taken so far, kept or
/// not, lies within one class.
pub proof fn lemma_kruskal_forest(edges: Seq<Seq<usize>>, order: Seq<int>, n: nat, k: int)
    requires
        valid_edges(edges, n as int),
        forall|i: int| 0 <= i < order.len() ==> 0 <= #[trigger] order[i] < edges.len(),
        0 <= k <= order.len(),
    ensures
        valid_roots(kruskal_run(edges, order, n, k).root),
        kruskal_run(edges, order, n, k).root.len() == n,
        kruskal_run(edges, order, n, k).rank.len() == n,
        kruskal_run(edges, order, n, k).from.len() == kruskal_run(edges, order, n, k).weights.len(),
        kruskal_run(edges, order, n, k).from.len() + count_roots(
            kruskal_run(edges, order, n, k).root,
            n as int,
        ) == n,
        forall|j: int|
            0 <= j < k ==> {
                let e = edges[#[trigger] order[j]];
                kruskal_run(edges, order, n, k).root[e[0] as int] == kruskal_run(
                    edges,
                    order,
                    n,
                    k,
                ).root[e[1] as int]
            },
    decreases k,
{
    if k == 0 {
        lemma_count_identity(n as int);
    } else {
        lemma_kruskal_forest(edges, order, n, k - 1);
        let s = kruskal_run(edges, order, n, k - 1);
        let e = edges[order[k - 1]];
        let i = order[k - 1];
        assert(0 <= i < edges.len());
        assert(edges[i].len() == 3);
        assert(e.len() == 3 && e[0] < n && e[1] < n);
        lemma_union_classes(s.root, s.rank, e[0] as int, e[1] as int);
        let t = kruskal_run(edges, order, n, k);
        assert forall|j: int| 0 <= j < k implies {
            let f = edges[#[trigger] order[j]];
            t.root[f[0] as int] == t.root[f[1] as int]
        } by {
            let f = edges[order[j]];
            let i = order[j];
            assert(0 <= i < edges.len());
            assert(edges[i].len() == 3);
            assert(f.len() == 3 && f[0] < n && f[1] < n);
        }
    }
}

/// The classes of `comp` are the connected components of the edge list over
/// `0..n`: no edge joins two classes, and however a class is split in two, an
/// edge crosses between the parts.
pub open spec fn is_components(edges: Seq<Seq<usize>>, n: nat, comp: Seq<int>) -> bool {
    &&& comp.len() == n
    &&& forall|t: int|
        0 <= t < edges.len() ==> comp[#[trigger] edges[t][0] as int] == comp[edges[t][1] as int]
    &&& forall|part: Set<int>, x: int, y: int|
        0 <= x < n && 0 <= y < n && comp[x] == comp[y] && #[trigger] part.contains(x)
            && !#[trigger] part.contains(y) ==> exists|t: int|
            0 <= t < edges.len() && comp[#[trigger] edges[t][0] as int] == comp[x] && part.contains(
                edges[t][0] as int,
            ) != part.contains(edges[t][1] as int)
}

/// Classes of a run lie within the classes of `comp` where no edge joins two of
/// those.
proof fn lemma_kruskal_within(
    edges: Seq<Seq<usize>>,
    order: Seq<int>,
    n: nat,
    k: int,
    comp: Seq<int>,
)
    requires
        valid_edges(edges, n as int),
        forall|i: int| 0 <= i < order.len() ==> 0 <= #[trigger] order[i] < edges.len(),
        0 <= k <= order.len(),
        comp.len() == n,
        forall|t: int|
            0 <= t < edges.len() ==> comp[#[trigger] edges[t][0] as int] == comp[edges[t][1] as int],
    ensures
        forall|x: int, y: int|
            0 <= x < n && 0 <= y < n && #[trigger] kruskal_run(edges, order, n, k).root[x]
                == #[trigger] kruskal_run(edges, order, n, k).root[y] ==> comp[x] == comp[y],
        count_classes(kruskal_run(edges, order, n, k).root, n as int) + kruskal_run(
            edges,
            order,
            n,
            k,
        ).from.len() == n,
    decreases k,
{
    if k == 0 {
        lemma_count_classes_identity(n as int, n as int);
    } else {
        lemma_kruskal_within(edges, order, n, k - 1, comp);
        lemma_kruskal_forest(edges, order, n, k - 1);
        let s = kruskal_run(edges, order, n, k - 1);
        let i = order[k - 1];
        assert(0 <= i < edges.len());
        assert(edges[i].len() == 3);
        let e = edges[i];
        assert(comp[e[0] as int] == comp[e[1] as int]);
        lemma_union_classes(s.root, s.rank, e[0] as int, e[1] as int);
        if s.root[e[0] as int] != s.root[e[1] as int] {
            lemma_union_count_classes(s.root, s.rank, e[0] as int, e[1] as int);
        }
    }
}

/// On an edge list whose connected components are the classes of `comp`,
/// Kruskal's algorithm keeps `n - c` edges, `c` the number of components: a
/// spanning forest.
#[verifier::spinoff_prover]
pub proof fn lemma_kruskal_components(
    edges: Seq<Seq<usize>>,
    n: nat,
    comp: Seq<int>,
    from: Seq<usize>,
    weights: Seq<usize>,
)
    requires
        valid_edges(edges, n as int),
        is_components(edges, n, comp),
        is_kruskal_result(edges, n, from, weights),
    ensures
        from.len() + count_classes(comp, n as int) == n,
        weights.len() == from.len(),
{
    let order = choose|order: Seq<int>|
        {
            &&& weight_order(edges, order)
            &&& from == kruskal_run(edges, order, n, order.len() as int).from
            &&& weights == kruskal_run(edges, order, n, order.len() as int).weights
        };
    let m = order.len() as int;
    lemma_kruskal_forest(edges, order, n, m);
    lemma_kruskal_within(edges, order, n, m, comp);
    lemma_order_covers(edges, order);
    let root = kruskal_run(edges, order, n, m).root;
    assert forall|x: int, y: int| 0 <= x < n && 0 <= y < n implies (root[x] == root[y] <==> comp[x]
        == comp[y]) by {
        if comp[x] == comp[y] && root[x] != root[y] {
            let part = Set::new(|z: int| 0 <= z < n && root[z] == root[x]);
            assert(part.contains(x) && !part.contains(y));
            let t = choose|t: int|
                0 <= t < edges.len() && comp[#[trigger] edges[t][0] as int] == comp[x] && part.contains(
                    edges[t][0] as int,
                ) != part.contains(edges[t][1] as int);
            assert(order.contains(t));
            let j = choose|j: int| 0 <= j < order.len() && order[j] == t;
            assert(edges[order[j]] == edges[t]);
            assert(edges[t].len() == 3);
        }
    }
    lemma_count_classes_same(root, comp, n as int);
}

/// A weight order lists every position of the edge list.
proof fn lemma_order_covers(edges: Seq<Seq<usize>>, order: Seq<int>)
    requires
        weight_order(edges, order),
    ensures
        forall|t: int| 0 <= t < edges.len() ==> #[trigger] order.contains(t),
{
    let m = edges.len() as int;
    assert forall|i: int, j: int| 0 <= i < order.len() && 0 <= j < order.len() && i != j implies order[i]
        != order[j] by {
        if i < j {
            assert(order[i] < order[j] || edges[order[i]][2] < edges[order[j]][2]);
        } else {
            assert(order[j] < order[i] || edges[order[j]][2] < edges[order[i]][2]);
        }
    }
    order.unique_seq_to_set();
    vstd::set_lib::lemma_int_range(0, m);
    let range = vstd::set_lib::set_int_range(0, m);
    assert(order.to_set().subset_of(range));
    vstd::set_lib::lemma_len_subset(order.to_set(), range);
    vstd::set_lib::lemma_subset_equality(order.to_set(), range);
    assert forall|t: int| 0 <= t < m implies #[trigger] order.contains(t) by {
        assert(range.contains(t));
        assert(order.to_set().contains(t));
    }
}

/// On a connected `n x n` matrix Kruskal's algorithm keeps `n - 1` edges: a
/// spanning tree.
#[verifier::spinoff_prover]
pub proof fn lemma_kruskal_spans(g: Seq<Seq<usize>>, n: nat, from: Seq<usize>, weights: Seq<usize>)
    requires
        is_square(g, n as int),
        0 < n <= usize::MAX,
        connected(g, n as int),
        is_kruskal_result(edge_list(g), n, from, weights),
    ensures
        from.len() == n - 1,
        weights.len() == n - 1,
{
    let edges = edge_list(g);
    let order = choose|order: Seq<int>|
        {
            &&& weight_order(edges, order)
            &&& from == kruskal_run(edges, order, n, order.len() as int).from
            &&& weights == kruskal_run(edges, order, n, order.len() as int).weights
        };
    lemma_edge_list_valid(g, n as int);
    lemma_kruskal_forest(edges, order, n, order.len() as int);
    lemma_order_covers(edges, order);
    lemma_edge_list_entries(g);
    let root = kruskal_run(edges, order, n, order.len() as int).root;
    let c = root[0];
    lemma_count_one(root, n as int, c);
    assert forall|x: int| 0 <= x < n && #[trigger] root[x] == x implies x == c by {
        if x != c {
            let part = Set::new(|y: int| 0 <= y < n && root[y] == c);
            assert(part.contains(0));
            assert(!part.contains(x));
            let (a, b) = choose|a: int, b: int|
                0 <= a < n && 0 <= b < n && #[trigger] part.contains(a) && !#[trigger] part.contains(b)
                    && g[a][b] != 0;
            assert(a != b);
            assert(edges.contains(seq![a as usize, b as usize, g[a][b]]));
            let t = choose|t: int| 0 <= t < edges.len() && edges[t] == seq![a as usize, b as usize, g[a][b]];
            assert(order.contains(t));
            let j = choose|j: int| 0 <= j < order.len() && order[j] == t;
            assert(edges[order[j]] == seq![a as usize, b as usize, g[a][b]]);
            assert(root[a] == root[b]);
        }
    }
    lemma_count_at_most_one(root, n as int, c);
}

/// Relies on `slice::sort_unstable`: the same elements, in ascending order,
/// tuples compared field by field.
#[verifier::external_body]
fn sort_pairs(v: &mut Vec<(usize, usize)>)
    ensures
        final(v)@.to_multiset() == old(v)@.to_multiset(),
        forall|i: int, j: int|
            0 <= i < j < final(v)@.len() ==> pair_le(#[trigger] final(v)@[i], #[trigger] final(v)@[j]),
{
    v.sort_unstable();
}

/// The pairs `(weight, position)` of `edges`, sorted: the positions in weight
/// order.
#[verifier::spinoff_prover]
fn sorted_positions(edges: &Vec<Vec<usize>>) -> (r: Vec<(usize, usize)>)
    requires
        forall|i: int| 0 <= i < edges@.len() ==> #[trigger] edges@[i]@.len() == 3,
    ensures
        weight_order(rows(edges@), r@.map_values(|p: (usize, usize)| p.1 as int)),
{
    let ghost g = rows(edges@);
    let mut keyed: Vec<(usize, usize)> = Vec::new();
    let mut i: usize = 0;
    while i < edges.len()
        invariant
            i <= edges@.len(),
            keyed@.len() == i,
            forall|k: int| 0 <= k < i ==> #[trigger] keyed@[k] == (edges@[k]@[2], k as usize),
            forall|k: int| 0 <= k < edges@.len() ==> #[trigger] edges@[k]@.len() == 3,
        decreases edges@.len() - i,
    {
        keyed.push((edges[i][2], i));
        i = i + 1;
    }
    let ghost orig = keyed@;
    proof {
        assert(orig.no_duplicates());
        orig.lemma_multiset_has_no_duplicates();
    }
    sort_pairs(&mut keyed);
    let ghost s = keyed@;
    proof {
        s.to_multiset_ensures();
        orig.to_multiset_ensures();
        assert(s.to_multiset() == orig.to_multiset());
        assert(s.len() == orig.len());
        s.lemma_multiset_has_no_duplicates_conv();
        assert forall|k: int| 0 <= k < s.len() implies s[k].1 < orig.len() && s[k].0 == g[s[k].1 as int][2] by {
            assert(s.contains(s[k]));
            assert(s.to_multiset().count(s[k]) > 0);
            assert(orig.contains(s[k]));
            let j = choose|j: int| 0 <= j < orig.len() && orig[j] == s[k];
        }
        let order = s.map_values(|p: (usize, usize)| p.1 as int);
        assert forall|a: int, b: int| 0 <= a < b < order.len() implies {
            let (x, y) = (#[trigger] order[a], #[trigger] order[b]);
            g[x][2] < g[y][2] || (g[x][2] == g[y][2] && x < y)
        } by {
            assert(pair_le(s[a], s[b]));
            assert(s[a] != s[b]);
        }
    }
    keyed
}

/// Kruskal's algorithm on an edge list over the vertices `0..vert`: the edges
/// by ascending weight, equal weights in list order; each kept where its two
/// endpoints lie in different classes, which it then merges. The result holds,
/// for each edge kept, the root of its source's class before the merge, and its
/// weight.
#[verifier::spinoff_prover]
pub fn kruskal_edges(edges: &Vec<Vec<usize>>, vert: usize) -> (r: (Vec<usize>, Vec<usize>))
    requires
        valid_edges(rows(edges@), vert as int),
    ensures
        is_kruskal_result(rows(edges@), vert as nat, r.0@, r.1@),
{
    let ghost g = rows(edges@);
    proof {
        assert forall|i: int| 0 <= i < edges@.len() implies #[trigger] edges@[i]@.len() == 3 by {
            assert(g[i] == edges@[i]@);
        }
    }
    let keyed = sorted_positions(edges);
    let ghost order = keyed@.map_values(|p: (usize, usize)| p.1 as int);
    let mut ds = DisjointSet::new(vert);
    let mut from: Vec<usize> = Vec::new();
    let mut weights: Vec<usize> = Vec::new();
    let mut k: usize = 0;
    while k < keyed.len()
        invariant
            g == rows(edges@),
            valid_edges(g, vert as int),
            weight_order(g, order),
            order == keyed@.map_values(|p: (usize, usize)| p.1 as int),
            k <= keyed@.len(),
            ds.wf(),
            ds.len() == vert,
            ds.roots() == kruskal_run(g, order, vert as nat, k as int).root,
            ds.ranks() == kruskal_run(g, order, vert as nat, k as int).rank,
            from@ == kruskal_run(g, order, vert as nat, k as int).from,
            weights@ == kruskal_run(g, order, vert as nat, k as int).weights,
        decreases keyed@.len() - k,
    {
        let idx = keyed[k].1;
        proof {
            assert(order[k as int] == idx as int);
            assert(g[idx as int] == edges@[idx as int]@);
            ds.lemma_wf();
        }
        let e = &edges[idx];
        let a = e[0];
        let b = e[1];
        let v1 = ds.find_parent(a);
        let v2 = ds.find_parent(b);
        if v1 != v2 {
            proof {
                ds.lemma_wf();
            }
            ds.merge_path(v1, v2);
            weights.push(e[2]);
            from.push(v1);
        }
        k = k + 1;
    }
    assert(keyed@.len() == order.len());
    (from, weights)
}

/// Kruskal's algorithm on `graph` over the vertices `0..vert`. Where
/// `convert_graph` holds, `graph` is an adjacency matrix, taken as its edge list
/// (see `convert_to_edges`); otherwise it is the edge list itself, triples
/// `(source, destination, weight)`. Malformed input is refused.
pub fn kruskal_mst(graph: Vec<Vec<usize>>, vert: usize, convert_graph: bool) -> (r: Result<
    (Vec<usize>, Vec<usize>),
    MstError,
>)
    ensures
        convert_graph ==> match r {
            Ok((from, weights)) => is_square(rows(graph@), vert as int) && is_kruskal_result(
                edge_list(rows(graph@)),
                vert as nat,
                from@,
                weights@,
            ),
            Err(e) => !is_square(rows(graph@), vert as int) && e == MstError::NotSquare,
        },
        !convert_graph ==> match r {
            Ok((from, weights)) => valid_edges(rows(graph@), vert as int) && is_kruskal_result(
                rows(graph@),
                vert as nat,
                from@,
                weights@,
            ),
            Err(e) => !valid_edges(rows(graph@), vert as int) && (e == MstError::MalformedEdge
                <==> !all_triples(rows(graph@))) && (e == MstError::VertexOutOfRange
                <==> all_triples(rows(graph@))),
        },
{
    if convert_graph {
        if !check_square(&graph, vert) {
            return Err(MstError::NotSquare);
        }
        let ghost g = rows(graph@);
        let edges = convert_to_edges(graph);
        proof {
            lemma_edge_list_valid(g, vert as int);
        }
        Ok(kruskal_edges(&edges, vert))
    } else {
        match check_edges(&graph, vert) {
            Ok(()) => Ok(kruskal_edges(&graph, vert)),
            Err(e) => Err(e),
        }
    }
}

} // verus!

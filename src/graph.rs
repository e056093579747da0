//! Graphs as adjacency matrices, and their edge lists.
use vstd::prelude::*;

verus! {

/// Why an input was refused.
#[derive(Debug, Clone, Copy, PartialEq, Eq, Structural)]
pub enum MstError {
    /// The matrix does not have as many rows as vertices, or a row has
    /// another length.
    NotSquare,
    /// An edge is not a triple `(source, destination, weight)`.
    MalformedEdge,
    /// An edge names a vertex outside `0..n`.
    VertexOutOfRange,
}

/// `g` is an `n x n` matrix.
pub open spec fn is_square(g: Seq<Seq<usize>>, n: int) -> bool {
    &&& g.len() == n
    &&& forall|i: int| 0 <= i < n ==> #[trigger] g[i].len() == n
}

/// Every way of splitting the vertices `0..n` into a part that holds 0 and a
/// non-empty rest is crossed by an edge leaving the first part. On a symmetric
/// matrix this holds exactly when every vertex can be reached from 0.
pub open spec fn connected(g: Seq<Seq<usize>>, n: int) -> bool {
    forall|part: Set<int>|
        part.contains(0) && (exists|b: int| 0 <= b < n && !part.contains(b)) ==> exists|a: int, b: int|
            0 <= a < n && 0 <= b < n && #[trigger] part.contains(a) && !#[trigger] part.contains(b)
                && g[a][b] != 0
}

/// Every edge is a triple.
pub open spec fn all_triples(e: Seq<Seq<usize>>) -> bool {
    forall|i: int| 0 <= i < e.len() ==> #[trigger] e[i].len() == 3
}

/// Every edge is a triple whose two endpoints lie in `0..n`.
pub open spec fn valid_edges(e: Seq<Seq<usize>>, n: int) -> bool {
    forall|i: int|
        0 <= i < e.len() ==> #[trigger] e[i].len() == 3 && e[i][0] < n && e[i][1] < n
}

/// Whether `graph` is a `n x n` matrix.
pub fn check_square(graph: &Vec<Vec<usize>>, n: usize) -> (r: bool)
    ensures
        r == is_square(rows(graph@), n as int),
{
    if graph.len() != n {
        return false;
    }
    let mut i: usize = 0;
    while i < n
        invariant
            graph@.len() == n,
            i <= n,
            forall|k: int| 0 <= k < i ==> #[trigger] graph@[k]@.len() == n,
        decreases n - i,
    {
        if graph[i].len() != n {
            assert(rows(graph@)[i as int].len() != n);
            return false;
        }
        i = i + 1;
    }
    assert forall|k: int| 0 <= k < n implies #[trigger] rows(graph@)[k].len() == n by {
        assert(graph@[k]@.len() == n);
    }
    true
}

/// `Ok` where every edge is a triple with both endpoints in `0..n`; otherwise
/// `MalformedEdge` where some edge is not a triple, else `VertexOutOfRange`.
pub fn check_edges(edges: &Vec<Vec<usize>>, n: usize) -> (r: Result<(), MstError>)
    ensures
        r == Ok::<(), MstError>(()) <==> valid_edges(rows(edges@), n as int),
        r == Err::<(), MstError>(MstError::MalformedEdge) <==> !all_triples(rows(edges@)),
        r == Err::<(), MstError>(MstError::VertexOutOfRange) <==> all_triples(rows(edges@))
            && !valid_edges(rows(edges@), n as int),
{
    let ghost e = rows(edges@);
    let mut i: usize = 0;
    while i < edges.len()
        invariant
            e == rows(edges@),
            i <= edges@.len(),
            forall|k: int| 0 <= k < i ==> #[trigger] e[k].len() == 3,
        decreases edges@.len() - i,
    {
        if edges[i].len() != 3 {
            assert(e[i as int].len() != 3);
            return Err(MstError::MalformedEdge);
        }
        i = i + 1;
    }
    let mut i: usize = 0;
    while i < edges.len()
        invariant
            e == rows(edges@),
            all_triples(e),
            i <= edges@.len(),
            forall|k: int| 0 <= k < i ==> #[trigger] e[k][0] < n && e[k][1] < n,
        decreases edges@.len() - i,
    {
        assert(e[i as int] == edges@[i as int]@);
        assert(e[i as int].len() == 3);
        if edges[i][0] >= n || edges[i][1] >= n {
            assert(!(e[i as int][0] < n && e[i as int][1] < n));
            return Err(MstError::VertexOutOfRange);
        }
        i = i + 1;
    }
    Ok(())
}

/// The rows of a matrix, each as a sequence.
pub open spec fn rows(g: Seq<Vec<usize>>) -> Seq<Seq<usize>> {
    g.map_values(|r: Vec<usize>| r@)
}

/// Edges `(i, j, w)` of row `i` of `g`, for columns below `k`, where `j != i`
/// and the weight `w` is not zero.
pub open spec fn row_edges(g: Seq<Seq<usize>>, i: int, k: int) -> Seq<Seq<usize>>
    decreases k,
{
    if k <= 0 {
        seq![]
    } else {
        let prev = row_edges(g, i, k - 1);
        let w = g[i][k - 1];
        if k - 1 != i && w != 0 {
            prev.push(seq![i as usize, (k - 1) as usize, w])
        } else {
            prev
        }
    }
}

/// Edges of the rows below `m`, row after row.
pub open spec fn edges_upto(g: Seq<Seq<usize>>, m: int) -> Seq<Seq<usize>>
    decreases m,
{
    if m <= 0 {
        seq![]
    } else {
        edges_upto(g, m - 1) + row_edges(g, m - 1, g[m - 1].len() as int)
    }
}

/// The edge list of a matrix: one `(i, j, w)` for each off-diagonal non-zero
/// entry, in row-major order.
pub open spec fn edge_list(g: Seq<Seq<usize>>) -> Seq<Seq<usize>> {
    edges_upto(g, g.len() as int)
}

/// Some entry of `es` joins `i` to `c`.
pub open spec fn lists(es: Seq<Seq<usize>>, i: int, c: int) -> bool {
    exists|t: int| 0 <= t < es.len() && #[trigger] es[t][0] == i && es[t][1] == c
}

/// An entry `e` is an off-diagonal non-zero entry of `g`.
pub open spec fn is_entry_of(g: Seq<Seq<usize>>, e: Seq<usize>) -> bool {
    &&& e.len() == 3
    &&& 0 <= e[0] < g.len()
    &&& 0 <= e[1] < g[e[0] as int].len()
    &&& e[0] != e[1]
    &&& e[2] == g[e[0] as int][e[1] as int]
    &&& e[2] != 0
}

/// Each entry of `row_edges(g, i, k)` is an off-diagonal non-zero entry of row
/// `i` below column `k`, the columns ascending; each such entry is listed.
#[verifier::spinoff_prover]
proof fn lemma_row_edges(g: Seq<Seq<usize>>, i: int, k: int)
    requires
        0 <= i < g.len(),
        i <= usize::MAX,
        g[i].len() <= usize::MAX,
        0 <= k <= g[i].len(),
    ensures
        forall|t: int|
            0 <= t < row_edges(g, i, k).len() ==> is_entry_of(g, #[trigger] row_edges(g, i, k)[t])
                && row_edges(g, i, k)[t][0] == i && row_edges(g, i, k)[t][1] < k,
        forall|t1: int, t2: int|
            0 <= t1 < t2 < row_edges(g, i, k).len() ==> #[trigger] row_edges(g, i, k)[t1][1]
                < #[trigger] row_edges(g, i, k)[t2][1],
        forall|c: int|
            0 <= c < k && c != i && #[trigger] g[i][c] != 0 ==> lists(row_edges(g, i, k), i, c),
    decreases k,
{
    if k > 0 {
        lemma_row_edges(g, i, k - 1);
        let prev = row_edges(g, i, k - 1);
        let cur = row_edges(g, i, k);
        if k - 1 != i && g[i][k - 1] != 0 {
            let x = seq![i as usize, (k - 1) as usize, g[i][k - 1]];
            assert(cur == prev.push(x));
            assert(x[0] == i && x[1] == k - 1 && x[2] == g[i][k - 1]);
            assert forall|t: int| 0 <= t < cur.len() implies is_entry_of(g, #[trigger] cur[t])
                && cur[t][0] == i && cur[t][1] < k by {
                if t < prev.len() {
                    assert(cur[t] == prev[t]);
                }
            }
            assert forall|t1: int, t2: int| 0 <= t1 < t2 < cur.len() implies #[trigger] cur[t1][1]
                < #[trigger] cur[t2][1] by {
                assert(cur[t1] == prev[t1]);
                if t2 < prev.len() {
                    assert(cur[t2] == prev[t2]);
                }
            }
            assert forall|c: int| 0 <= c < k && c != i && #[trigger] g[i][c] != 0 implies lists(
                cur,
                i,
                c,
            ) by {
                if c < k - 1 {
                    let t = choose|t: int| 0 <= t < prev.len() && #[trigger] prev[t][0] == i && prev[t][1] == c;
                    assert(cur[t] == prev[t]);
                } else {
                    assert(cur[prev.len() as int] == x);
                }
            }
        } else {
            assert(cur == prev);
        }
    }
}

/// Each entry of `edges_upto(g, m)` is an off-diagonal non-zero entry of a row
/// below `m`, in row-major order without repeats; each such entry is listed.
#[verifier::spinoff_prover]
proof fn lemma_edges_upto(g: Seq<Seq<usize>>, m: int)
    requires
        0 <= m <= g.len(),
        g.len() <= usize::MAX,
        forall|r: int| 0 <= r < g.len() ==> #[trigger] g[r].len() <= usize::MAX,
    ensures
        forall|t: int|
            0 <= t < edges_upto(g, m).len() ==> is_entry_of(g, #[trigger] edges_upto(g, m)[t])
                && edges_upto(g, m)[t][0] < m,
        edges_upto(g, m).no_duplicates(),
        forall|i: int, c: int|
            0 <= i < m && 0 <= c < g[i].len() && c != i && #[trigger] g[i][c] != 0 ==> lists(
                edges_upto(g, m),
                i,
                c,
            ),
    decreases m,
{
    if m > 0 {
        lemma_edges_upto(g, m - 1);
        lemma_row_edges(g, m - 1, g[m - 1].len() as int);
        let prev = edges_upto(g, m - 1);
        let row = row_edges(g, m - 1, g[m - 1].len() as int);
        let cur = edges_upto(g, m);
        assert(cur == prev + row);
        assert forall|t: int| 0 <= t < cur.len() implies is_entry_of(g, #[trigger] cur[t])
            && cur[t][0] < m by {
            if t < prev.len() {
                assert(cur[t] == prev[t]);
            } else {
                assert(cur[t] == row[t - prev.len()]);
            }
        }
        assert forall|t1: int, t2: int| 0 <= t1 < cur.len() && 0 <= t2 < cur.len() && t1 != t2
            implies cur[t1] != cur[t2] by {
            if t1 < prev.len() && t2 < prev.len() {
                assert(cur[t1] == prev[t1] && cur[t2] == prev[t2]);
            } else if t1 >= prev.len() && t2 >= prev.len() {
                assert(cur[t1] == row[t1 - prev.len()] && cur[t2] == row[t2 - prev.len()]);
                if t1 < t2 {
                    assert(row[t1 - prev.len()][1] < row[t2 - prev.len()][1]);
                } else {
                    assert(row[t2 - prev.len()][1] < row[t1 - prev.len()][1]);
                }
            } else if t1 < prev.len() {
                assert(cur[t1] == prev[t1] && cur[t2] == row[t2 - prev.len()]);
                assert(cur[t1][0] < m - 1 && cur[t2][0] == m - 1);
            } else {
                assert(cur[t2] == prev[t2] && cur[t1] == row[t1 - prev.len()]);
                assert(cur[t2][0] < m - 1 && cur[t1][0] == m - 1);
            }
        }
        assert forall|i: int, c: int|
            0 <= i < m && 0 <= c < g[i].len() && c != i && #[trigger] g[i][c] != 0 implies lists(
            cur,
            i,
            c,
        ) by {
            if i < m - 1 {
                let t = choose|t: int| 0 <= t < prev.len() && #[trigger] prev[t][0] == i && prev[t][1] == c;
                assert(cur[t] == prev[t]);
            } else {
                let t = choose|t: int| 0 <= t < row.len() && #[trigger] row[t][0] == i && row[t][1] == c;
                assert(cur[prev.len() + t] == row[t]);
            }
        }
    }
}

/// The edge list of a matrix holds exactly its off-diagonal non-zero entries,
/// each once: one entry per ordered pair `(i, j)`, so two per undirected edge of
/// a symmetric matrix, none a self-loop and none of weight zero.
pub proof fn lemma_edge_list_entries(g: Seq<Seq<usize>>)
    requires
        g.len() <= usize::MAX,
        forall|r: int| 0 <= r < g.len() ==> #[trigger] g[r].len() <= usize::MAX,
    ensures
        edge_list(g).no_duplicates(),
        forall|t: int| 0 <= t < edge_list(g).len() ==> is_entry_of(g, #[trigger] edge_list(g)[t]),
        forall|i: int, j: int|
            0 <= i < g.len() && 0 <= j < g[i].len() && i != j && #[trigger] g[i][j] != 0
                ==> edge_list(g).contains(seq![i as usize, j as usize, g[i][j]]),
{
    let es = edge_list(g);
    lemma_edges_upto(g, g.len() as int);
    assert forall|i: int, j: int|
        0 <= i < g.len() && 0 <= j < g[i].len() && i != j && #[trigger] g[i][j] != 0 implies es.contains(
        seq![i as usize, j as usize, g[i][j]],
    ) by {
        let t = choose|t: int| 0 <= t < es.len() && #[trigger] es[t][0] == i && es[t][1] == j;
        assert(is_entry_of(g, es[t]));
        assert(es[t] =~= seq![i as usize, j as usize, g[i][j]]);
    }
}

/// The edge list of an `n x n` matrix is a valid edge list over `0..n`.
pub proof fn lemma_edge_list_valid(g: Seq<Seq<usize>>, n: int)
    requires
        is_square(g, n),
        n <= usize::MAX,
    ensures
        valid_edges(edge_list(g), n),
{
    lemma_edge_list_entries(g);
}

/// A triple for each ordered pair `i != j` with `graph[i][j] != 0`, that is two
/// for each undirected edge of a symmetric matrix. Self-loops and zero entries
/// are left out.
pub fn convert_to_edges(graph: Vec<Vec<usize>>) -> (edges: Vec<Vec<usize>>)
    ensures
        rows(edges@) == edge_list(rows(graph@)),
{
    let ghost g = rows(graph@);
    let mut edges: Vec<Vec<usize>> = Vec::new();
    let mut i: usize = 0;
    while i < graph.len()
        invariant
            g == rows(graph@),
            i <= graph@.len(),
            rows(edges@) == edges_upto(g, i as int),
        decreases graph@.len() - i,
    {
        let row = &graph[i];
        let mut j: usize = 0;
        while j < row.len()
            invariant
                g == rows(graph@),
                i < graph@.len(),
                row@ == g[i as int],
                j <= row@.len(),
                rows(edges@) == edges_upto(g, i as int) + row_edges(g, i as int, j as int),
            decreases row@.len() - j,
        {
            let weight = row[j];
            if j != i && weight != 0 {
                let e: Vec<usize> = vec![i, j, weight];
                assert(e@ =~= seq![i, j, weight]);
                let ghost before = edges@;
                edges.push(e);
                proof {
                    assert(rows(edges@) =~= rows(before).push(e@));
                    assert(rows(edges@) =~= edges_upto(g, i as int) + row_edges(g, i as int, j + 1));
                }
            }
            j = j + 1;
        }
        proof {
            assert(rows(edges@) =~= edges_upto(g, i + 1));
        }
        i = i + 1;
    }
    edges
}

} // verus!

//! The co-expression network: graph construction from a filtered
//! correlation matrix, and community detection.

use vstd::prelude::*;

verus! {

use crate::NetworkError;
use crate::matrix::FilteredMatrix;
use vstd::set_lib::lemma_int_range;
use vstd::set_lib::lemma_len_subset;
use vstd::set_lib::set_int_range;

/// One undirected edge between the genes at node indices `a` and `b`; the
/// weight is the retained fixed-point correlation. Built graphs keep
/// `b < a`: the edge is recorded when the later row looks back.
#[derive(Clone, Copy, Debug, PartialEq, Eq, Structural)]
pub struct Edge {
    pub a: usize,
    pub b: usize,
    pub weight: i64,
}

/// An arena-style undirected weighted graph: node k is the gene whose
/// label is `labels[k]`, and edges address nodes by those stable indices.
pub struct Graph {
    pub labels: Vec<String>,
    pub edges: Vec<Edge>,
}

impl Graph {
    /// Number of nodes.
    pub open spec fn n(&self) -> nat {
        self.labels@.len()
    }

    /// Every edge joins two distinct valid nodes.
    pub open spec fn wf(&self) -> bool {
        forall|k: int|
            0 <= k < self.edges@.len() ==> (#[trigger] self.edges@[k]).a < self.n()
                && self.edges@[k].b < self.n() && self.edges@[k].a != self.edges@[k].b
    }

    /// Some edge joins i and j (in either orientation).
    pub open spec fn edge_between(&self, i: int, j: int) -> bool {
        exists|k: int|
            0 <= k < self.edges@.len() && (((#[trigger] self.edges@[k]).a == i && self.edges@[k].b == j)
                || (self.edges@[k].a == j && self.edges@[k].b == i))
    }

    /// A walk through the graph: consecutive entries are joined by edges.
    pub open spec fn is_path(&self, p: Seq<int>) -> bool {
        &&& p.len() >= 1
        &&& forall|t: int| 0 <= t < p.len() ==> 0 <= #[trigger] p[t] < self.n()
        &&& forall|t: int| 0 <= t < p.len() - 1 ==> self.edge_between(#[trigger] p[t], p[t + 1])
    }

    /// Nodes i and j lie in the same connected component.
    pub open spec fn connected(&self, i: int, j: int) -> bool {
        exists|p: Seq<int>| self.is_path(p) && p.first() == i && p.last() == j
    }

    /// Node i touches no edge.
    pub open spec fn isolated(&self, i: int) -> bool {
        forall|j: int| !self.edge_between(i, j)
    }
}

/// An edge joins its endpoints in either direction.
pub proof fn lemma_edge_sym(g: &Graph, i: int, j: int)
    requires
        g.edge_between(i, j),
    ensures
        g.edge_between(j, i),
{
    let k = choose|k: int|
        0 <= k < g.edges@.len() && ((g.edges@[k].a == i && g.edges@[k].b == j) || (g.edges@[k].a
            == j && g.edges@[k].b == i));
    assert(0 <= k < g.edges@.len() && ((g.edges@[k].a == j && g.edges@[k].b == i) || (g.edges@[k].a
        == i && g.edges@[k].b == j)));
}

/// An edge's endpoints are valid nodes.
pub proof fn lemma_edge_valid(g: &Graph, i: int, j: int)
    requires
        g.wf(),
        g.edge_between(i, j),
    ensures
        0 <= i < g.n(),
        0 <= j < g.n(),
{
    let k = choose|k: int|
        0 <= k < g.edges@.len() && ((g.edges@[k].a == i && g.edges@[k].b == j) || (g.edges@[k].a
            == j && g.edges@[k].b == i));
    assert(g.edges@[k].a < g.n() && g.edges@[k].b < g.n());
}

/// Every valid node is connected to itself (by the one-node walk).
pub proof fn lemma_connected_refl(g: &Graph, i: int)
    requires
        0 <= i < g.n(),
    ensures
        g.connected(i, i),
{
    let p = seq![i];
    assert(g.is_path(p));
    assert(p.first() == i && p.last() == i);
}

/// Extending a walk by one edge keeps its endpoints connected.
pub proof fn lemma_connected_step(g: &Graph, i: int, j: int, l: int)
    requires
        g.wf(),
        g.connected(i, j),
        g.edge_between(j, l),
    ensures
        g.connected(i, l),
{
    let p = choose|p: Seq<int>| g.is_path(p) && p.first() == i && p.last() == j;
    lemma_edge_valid(g, j, l);
    let q = p.push(l);
    assert forall|t: int| 0 <= t < q.len() - 1 implies g.edge_between(#[trigger] q[t], q[t + 1]) by {
        if t < p.len() - 1 {
            assert(q[t] == p[t] && q[t + 1] == p[t + 1]);
        } else {
            assert(q[t] == p[p.len() - 1] && q[t + 1] == l);
        }
    }
    assert(g.is_path(q));
    assert(q.first() == i && q.last() == l);
}

/// Connectivity is symmetric: the walk can be read backwards.
pub proof fn lemma_connected_sym(g: &Graph, i: int, j: int)
    requires
        g.connected(i, j),
    ensures
        g.connected(j, i),
{
    let p = choose|p: Seq<int>| g.is_path(p) && p.first() == i && p.last() == j;
    let len = p.len() as int;
    let q = Seq::new(p.len(), |t: int| p[len - 1 - t]);
    assert forall|t: int| 0 <= t < q.len() - 1 implies g.edge_between(#[trigger] q[t], q[t + 1]) by {
        assert(g.edge_between(p[len - 2 - t], p[len - 1 - t]));
        lemma_edge_sym(g, p[len - 2 - t], p[len - 1 - t]);
    }
    assert(g.is_path(q));
    assert(q.first() == j && q.last() == i);
}

/// Connectivity is transitive: two walks sharing an endpoint concatenate.
pub proof fn lemma_connected_trans(g: &Graph, i: int, j: int, l: int)
    requires
        g.connected(i, j),
        g.connected(j, l),
    ensures
        g.connected(i, l),
{
    let p1 = choose|p: Seq<int>| g.is_path(p) && p.first() == i && p.last() == j;
    let p2 = choose|p: Seq<int>| g.is_path(p) && p.first() == j && p.last() == l;
    let q = p1 + p2.skip(1);
    assert(q.len() == p1.len() + p2.len() - 1);
    assert forall|t: int| 0 <= t < q.len() implies 0 <= #[trigger] q[t] < g.n() by {
        if t < p1.len() {
            assert(q[t] == p1[t]);
        } else {
            assert(q[t] == p2[t - p1.len() + 1]);
        }
    }
    assert forall|t: int| 0 <= t < q.len() - 1 implies g.edge_between(#[trigger] q[t], q[t + 1]) by {
        if t < p1.len() - 1 {
            assert(q[t] == p1[t] && q[t + 1] == p1[t + 1]);
        } else if t == p1.len() - 1 {
            if p2.len() >= 2 {
                assert(q[t] == p1[p1.len() - 1]);
                assert(q[t + 1] == p2[1]);
                assert(g.edge_between(p2[0], p2[1]));
            }
        } else {
            assert(q[t] == p2[t - p1.len() + 1] && q[t + 1] == p2[t - p1.len() + 2]);
        }
    }
    assert(g.is_path(q));
    assert(q.first() == i && q.last() == l);
}

/// A walk that starts inside an edge-closed set of nodes ends inside it.
pub proof fn lemma_closed_reach(g: &Graph, s: Set<int>, p: Seq<int>)
    requires
        g.is_path(p),
        s.contains(p.first()),
        forall|x: int, y: int| s.contains(x) && #[trigger] g.edge_between(x, y) ==> s.contains(y),
    ensures
        s.contains(p.last()),
    decreases p.len(),
{
    if p.len() > 1 {
        let q = p.drop_last();
        assert(g.is_path(q));
        assert(q.first() == p.first());
        lemma_closed_reach(g, s, q);
        assert(g.edge_between(p[p.len() - 2], p[p.len() - 1]));
        assert(q.last() == p[p.len() - 2]);
    }
}

/// Everything connected to a node of an edge-closed set lies in the set.
pub proof fn lemma_closed_component(g: &Graph, s: Set<int>, root: int, x: int)
    requires
        s.contains(root),
        g.connected(root, x),
        forall|a: int, b: int| s.contains(a) && #[trigger] g.edge_between(a, b) ==> s.contains(b),
    ensures
        s.contains(x),
{
    let p = choose|p: Seq<int>| g.is_path(p) && p.first() == root && p.last() == x;
    lemma_closed_reach(g, s, p);
}

/// The set of node indices whose entry in `v` is true.
pub open spec fn true_set(v: Seq<bool>) -> Set<int> {
    Set::new(|x: int| 0 <= x < v.len() && v[x])
}

/// The set of node indices a sequence holds.
pub open spec fn elems(s: Seq<usize>) -> Set<int> {
    Set::new(|x: int| exists|t: int| 0 <= t < s.len() && (#[trigger] s[t]) as int == x)
}

/// An edge-closed node set: no edge leaves it.
pub open spec fn closed(g: &Graph, s: Set<int>) -> bool {
    forall|a: int, b: int| s.contains(a) && #[trigger] g.edge_between(a, b) ==> s.contains(b)
}

/// Appending to a sequence inserts into its element set.
pub proof fn lemma_elems_push(s: Seq<usize>, v: usize)
    ensures
        elems(s.push(v)) =~= elems(s).insert(v as int),
{
    assert forall|x: int| elems(s.push(v)).contains(x) implies elems(s).insert(v as int).contains(x) by {
        let t = choose|t: int| 0 <= t < s.push(v).len() && (#[trigger] s.push(v)[t]) as int == x;
        if t < s.len() {
            assert(s[t] as int == x);
        }
    }
    assert forall|x: int| elems(s).insert(v as int).contains(x) implies elems(s.push(v)).contains(x) by {
        if x == v as int {
            assert(s.push(v)[s.len() as int] as int == x);
        } else {
            let t = choose|t: int| 0 <= t < s.len() && (#[trigger] s[t]) as int == x;
            assert(s.push(v)[t] as int == x);
        }
    }
}

/// Dropping the last entry of a duplicate-free sequence removes exactly it
/// from the element set.
pub proof fn lemma_elems_drop_last(s: Seq<usize>)
    requires
        s.len() > 0,
        forall|t1: int, t2: int| 0 <= t1 < t2 < s.len() ==> (#[trigger] s[t1]) != (#[trigger] s[t2]),
    ensures
        elems(s) =~= elems(s.drop_last()).insert(s.last() as int),
        !elems(s.drop_last()).contains(s.last() as int),
{
    assert forall|x: int| elems(s).contains(x) implies elems(s.drop_last()).insert(
        s.last() as int,
    ).contains(x) by {
        let t = choose|t: int| 0 <= t < s.len() && (#[trigger] s[t]) as int == x;
        if t < s.len() - 1 {
            assert(s.drop_last()[t] as int == x);
        }
    }
    assert forall|x: int| elems(s.drop_last()).insert(s.last() as int).contains(x) implies elems(
        s,
    ).contains(x) by {
        if x == s.last() as int {
            assert(s[s.len() - 1] as int == x);
        } else {
            let t = choose|t: int| 0 <= t < s.drop_last().len() && (#[trigger] s.drop_last()[t]) as int == x;
            assert(s[t] as int == x);
        }
    }
    if elems(s.drop_last()).contains(s.last() as int) {
        let t = choose|t: int| 0 <= t < s.drop_last().len() && (#[trigger] s.drop_last()[t]) as int
            == s.last() as int;
        assert(s[t] == s[s.len() - 1]);
    }
}

/// A duplicate-free sequence has as many elements as entries.
pub proof fn lemma_elems_card(s: Seq<usize>)
    requires
        forall|t1: int, t2: int| 0 <= t1 < t2 < s.len() ==> (#[trigger] s[t1]) != (#[trigger] s[t2]),
    ensures
        elems(s).finite(),
        elems(s).len() == s.len(),
    decreases s.len(),
{
    if s.len() == 0 {
        assert(elems(s) =~= Set::empty());
    } else {
        lemma_elems_card(s.drop_last());
        lemma_elems_drop_last(s);
        vstd::set::axiom_set_insert_len(elems(s.drop_last()), s.last() as int);
    }
}

/// A duplicate-free sequence of valid node indices has at most n entries.
pub proof fn lemma_distinct_bound(s: Seq<usize>, n: nat)
    requires
        forall|t1: int, t2: int| 0 <= t1 < t2 < s.len() ==> (#[trigger] s[t1]) != (#[trigger] s[t2]),
        forall|t: int| 0 <= t < s.len() ==> (#[trigger] s[t]) < n,
    ensures
        s.len() <= n,
{
    lemma_elems_card(s);
    assert forall|x: int| elems(s).contains(x) implies set_int_range(0, n as int).contains(x) by {
        let t = choose|t: int| 0 <= t < s.len() && (#[trigger] s[t]) as int == x;
    }
    lemma_int_range(0, n as int);
    lemma_len_subset(elems(s), set_int_range(0, n as int));
}

/// The graph that materializes a filtered matrix: node k carries label k,
/// and the edges are exactly the nonzero cells below the diagonal, in
/// row-major order, each weighted by its cell.
pub open spec fn graph_of(g: Graph, m: FilteredMatrix, names: Seq<String>) -> bool {
    &&& g.labels@ == names
    &&& names.len() == m.n()
    &&& forall|k: int|
        0 <= k < g.edges@.len() ==> (#[trigger] g.edges@[k]).b < g.edges@[k].a < m.n()
            && g.edges@[k].weight == m.at(g.edges@[k].a as int, g.edges@[k].b as int)
            && g.edges@[k].weight != 0
    &&& forall|i: int, j: int|
        0 <= j < i < m.n() && m.at(i, j) != 0 ==> exists|k: int|
            0 <= k < g.edges@.len() && (#[trigger] g.edges@[k]).a == i && g.edges@[k].b == j
    &&& forall|k1: int, k2: int|
        0 <= k1 < k2 < g.edges@.len() ==> ((#[trigger] g.edges@[k1]).a < (#[trigger] g.edges@[k2]).a
            || (g.edges@[k1].a == g.edges@[k2].a && g.edges@[k1].b < g.edges@[k2].b))
}

/// Law: in a built graph over a symmetric filtered matrix, an edge joins
/// two distinct nodes exactly when their matrix cell is nonzero.
pub proof fn lemma_graph_edge_iff_cell(
    g: &Graph,
    m: &FilteredMatrix,
    names: Seq<String>,
    i: int,
    j: int,
)
    requires
        graph_of(*g, *m, names),
        forall|a: int, b: int|
            0 <= a < m.n() && 0 <= b < m.n() ==> #[trigger] m.at(a, b) == m.at(b, a),
        0 <= i < m.n(),
        0 <= j < m.n(),
        i != j,
    ensures
        g.edge_between(i, j) <==> m.at(i, j) != 0,
{
    if m.at(i, j) != 0 {
        if j < i {
            let k = choose|k: int|
                0 <= k < g.edges@.len() && (#[trigger] g.edges@[k]).a == i && g.edges@[k].b == j;
            assert(g.edge_between(i, j));
        } else {
            assert(m.at(j, i) != 0);
            let k = choose|k: int|
                0 <= k < g.edges@.len() && (#[trigger] g.edges@[k]).a == j && g.edges@[k].b == i;
            assert(g.edge_between(i, j));
        }
    }
    if g.edge_between(i, j) {
        let k = choose|k: int|
            0 <= k < g.edges@.len() && (((#[trigger] g.edges@[k]).a == i && g.edges@[k].b == j) || (
            g.edges@[k].a == j && g.edges@[k].b == i));
        assert(g.edges@[k].weight != 0);
        assert(g.edges@[k].weight == m.at(g.edges@[k].a as int, g.edges@[k].b as int));
        assert(m.at(i, j) == m.at(j, i));
    }
}

/// The gene labels hold pairwise distinct strings.
pub open spec fn labels_unique(names: Seq<String>) -> bool {
    forall|i: int, j: int| 0 <= i < j < names.len() ==> (#[trigger] names[i])@ != (#[trigger] names[j])@
}

/// An undirected weighted gene network, together with the communities
/// found in it (none until community detection has run).
pub struct CoexpressionNetwork {
    pub network: Graph,
    pub communities: Option<Vec<Vec<usize>>>,
}

impl CoexpressionNetwork {
    /// Creates a new, empty network.
    pub fn new() -> (out: Self)
        ensures
            out.network.n() == 0,
            out.network.edges@.len() == 0,
            out.communities is None,
    {
        CoexpressionNetwork { network: Graph { labels: Vec::new(), edges: Vec::new() }, communities: None }
    }

    /// Materializes a filtered correlation matrix and its gene labels into
    /// the graph. Rows are visited in index order; row i first creates
    /// node i, then adds one undirected edge to every earlier node j < i
    /// whose cell is nonzero, weighted by that cell. Because a filtered
    /// matrix is symmetric whenever its inputs are, looking back at
    /// earlier rows records each significant pair exactly once. A label
    /// sequence of the wrong length or with a repeated label aborts
    /// construction before any node is created.
    pub fn create_graph(&mut self, correlation: FilteredMatrix, gene_names: Vec<String>) -> (r: Result<
        (),
        NetworkError,
    >)
        requires
            old(self).network.n() == 0,
            old(self).network.edges@.len() == 0,
            correlation.wf(),
        ensures
            final(self).communities == old(self).communities,
            match r {
                Ok(()) => labels_unique(gene_names@) && final(self).network.wf() && graph_of(
                    final(self).network,
                    correlation,
                    gene_names@,
                ),
                Err(NetworkError::DimensionMismatch) => gene_names@.len() != correlation.n()
                    && *final(self) == *old(self),
                Err(NetworkError::DuplicateLabel) => gene_names@.len() == correlation.n()
                    && !labels_unique(gene_names@) && *final(self) == *old(self),
                Err(NetworkError::InvalidConfiguration) => false,
            },
    {
        let n = correlation.cells.len();
        if gene_names.len() != n {
            return Err(NetworkError::DimensionMismatch);
        }
        let mut i: usize = 0;
        while i < n
            invariant
                n == gene_names@.len(),
                n == correlation.n(),
                i <= n,
                forall|a: int, b: int|
                    0 <= a < b < n && a < i ==> (#[trigger] gene_names@[a])@ != (#[trigger] gene_names@[b])@,
            decreases n - i,
        {
            let mut j: usize = i + 1;
            while j < n
                invariant
                    n == gene_names@.len(),
                    n == correlation.n(),
                    i < n,
                    i < j,
                    forall|b: int| i < b < j ==> (#[trigger] gene_names@[b])@ != gene_names@[i as int]@,
                decreases n - j,
            {
                if gene_names[i] == gene_names[j] {
                    proof {
                        assert(gene_names@[i as int]@ == gene_names@[j as int]@);
                        assert(!labels_unique(gene_names@));
                    }
                    return Err(NetworkError::DuplicateLabel);
                }
                j = j + 1;
            }
            i = i + 1;
        }
        let mut edges: Vec<Edge> = Vec::new();
        let mut i: usize = 0;
        while i < n
            invariant
                correlation.wf(),
                n == correlation.n(),
                i <= n,
                forall|k: int|
                    0 <= k < edges@.len() ==> (#[trigger] edges@[k]).b < edges@[k].a < i
                        && edges@[k].weight == correlation.at(edges@[k].a as int, edges@[k].b as int)
                        && edges@[k].weight != 0,
                forall|a: int, b: int|
                    0 <= b < a < i && correlation.at(a, b) != 0 ==> exists|k: int|
                        0 <= k < edges@.len() && (#[trigger] edges@[k]).a == a && edges@[k].b == b,
                forall|k1: int, k2: int|
                    0 <= k1 < k2 < edges@.len() ==> ((#[trigger] edges@[k1]).a < (#[trigger] edges@[k2]).a
                        || (edges@[k1].a == edges@[k2].a && edges@[k1].b < edges@[k2].b)),
            decreases n - i,
        {
            let mut j: usize = 0;
            while j < i
                invariant
                    correlation.wf(),
                    n == correlation.n(),
                    i < n,
                    j <= i,
                    forall|k: int|
                        0 <= k < edges@.len() ==> ((#[trigger] edges@[k]).b < edges@[k].a < i || (
                        edges@[k].a == i && edges@[k].b < j)) && edges@[k].b < edges@[k].a
                            && edges@[k].weight == correlation.at(edges@[k].a as int, edges@[k].b as int)
                            && edges@[k].weight != 0,
                    forall|a: int, b: int|
                        0 <= b < a < i && correlation.at(a, b) != 0 ==> exists|k: int|
                            0 <= k < edges@.len() && (#[trigger] edges@[k]).a == a && edges@[k].b == b,
                    forall|b: int|
                        0 <= b < j && correlation.at(i as int, b) != 0 ==> exists|k: int|
                            0 <= k < edges@.len() && (#[trigger] edges@[k]).a == i && edges@[k].b == b,
                    forall|k1: int, k2: int|
                        0 <= k1 < k2 < edges@.len() ==> ((#[trigger] edges@[k1]).a < (#[trigger] edges@[k2]).a
                            || (edges@[k1].a == edges@[k2].a && edges@[k1].b < edges@[k2].b)),
                decreases i - j,
            {
                let w = correlation.cells[i][j];
                if w != 0 {
                    let ghost pre = edges@;
                    edges.push(Edge { a: i, b: j, weight: w });
                    proof {
                        assert(edges@ == pre.push(Edge { a: i, b: j, weight: w }));
                        assert forall|a: int, b: int|
                            0 <= b < a < i && correlation.at(a, b) != 0 implies exists|k: int|
                            0 <= k < edges@.len() && (#[trigger] edges@[k]).a == a && edges@[k].b
                                == b by {
                            let k = choose|k: int|
                                0 <= k < pre.len() && (#[trigger] pre[k]).a == a && pre[k].b == b;
                            assert(edges@[k] == pre[k]);
                        }
                        assert forall|b: int|
                            0 <= b < j + 1 && correlation.at(i as int, b) != 0 implies exists|k: int|
                            0 <= k < edges@.len() && (#[trigger] edges@[k]).a == i && edges@[k].b
                                == b by {
                            if b == j {
                                assert(edges@[pre.len() as int].a == i && edges@[pre.len() as int].b
                                    == b);
                            } else {
                                let k = choose|k: int|
                                    0 <= k < pre.len() && (#[trigger] pre[k]).a == i && pre[k].b == b;
                                assert(edges@[k] == pre[k]);
                            }
                        }
                    }
                }
                j = j + 1;
            }
            i = i + 1;
        }
        self.network = Graph { labels: gene_names, edges };
        Ok(())
    }
}

/// One community: at least two pairwise distinct valid nodes, holding
/// exactly the nodes connected to its first member.
pub open spec fn community_ok(g: &Graph, c: Seq<usize>) -> bool {
    &&& c.len() >= 2
    &&& forall|t: int| 0 <= t < c.len() ==> (#[trigger] c[t]) < g.n()
    &&& forall|t1: int, t2: int| 0 <= t1 < t2 < c.len() ==> (#[trigger] c[t1]) != (#[trigger] c[t2])
    &&& forall|x: int|
        0 <= x < g.n() ==> ((#[trigger] g.connected(c[0] as int, x)) <==> elems(c).contains(x))
}

/// The full result of community detection: every entry is one maximal
/// connected node set of two or more genes, distinct entries are not even
/// connected (hence pairwise disjoint), and every node that touches an
/// edge lies in exactly one entry.
pub open spec fn communities_ok(g: &Graph, cs: Seq<Vec<usize>>) -> bool {
    &&& forall|k: int| 0 <= k < cs.len() ==> community_ok(g, (#[trigger] cs[k])@)
    &&& forall|k1: int, k2: int|
        0 <= k1 < k2 < cs.len() ==> !g.connected(
            (#[trigger] cs[k1])@[0] as int,
            (#[trigger] cs[k2])@[0] as int,
        )
    &&& forall|k1: int, k2: int, x: int|
        #![trigger elems(cs[k1]@).contains(x), elems(cs[k2]@).contains(x)]
        0 <= k1 < k2 < cs.len() ==> !(elems(cs[k1]@).contains(x) && elems(cs[k2]@).contains(x))
    &&& forall|x: int|
        0 <= x < g.n() && !(#[trigger] g.isolated(x)) ==> exists|k: int|
            0 <= k < cs.len() && elems((#[trigger] cs[k])@).contains(x)
}

/// Breadth-first exploration of one connected component: marks and returns
/// every node connected to `root` (the component is returned with `root`
/// first, without duplicates).
#[verifier::loop_isolation(false)]
#[verifier::rlimit(100)]
fn explore(g: &Graph, visited: &mut Vec<bool>, root: usize) -> (comp: Vec<usize>)
    requires
        g.wf(),
        old(visited)@.len() == g.n(),
        root < g.n(),
        !old(visited)@[root as int],
        closed(g, true_set(old(visited)@)),
    ensures
        final(visited)@.len() == g.n(),
        forall|z: int|
            #![trigger true_set(final(visited)@).contains(z)]
            true_set(final(visited)@).contains(z) <==> (true_set(old(visited)@).contains(z)
                || elems(comp@).contains(z)),
        closed(g, true_set(final(visited)@)),
        comp@.len() >= 1,
        comp@[0] == root,
        forall|t: int| 0 <= t < comp@.len() ==> (#[trigger] comp@[t]) < g.n(),
        forall|t1: int, t2: int|
            0 <= t1 < t2 < comp@.len() ==> (#[trigger] comp@[t1]) != (#[trigger] comp@[t2]),
        forall|x: int| elems(comp@).contains(x) ==> !true_set(old(visited)@).contains(x),
        forall|x: int|
            0 <= x < g.n() ==> ((#[trigger] g.connected(root as int, x)) <==> elems(comp@).contains(
                x,
            )),
{
    let ghost pre = true_set(old(visited)@);
    let mut comp: Vec<usize> = Vec::new();
    let mut stack: Vec<usize> = Vec::new();
    visited.set(root, true);
    stack.push(root);
    proof {
        lemma_connected_refl(g, root as int);
        assert(elems(Seq::<usize>::empty()) =~= Set::empty());
        assert(elems(seq![root]) =~= Set::empty().insert(root as int)) by {
            lemma_elems_push(Seq::<usize>::empty(), root);
            assert(Seq::<usize>::empty().push(root) =~= seq![root]);
        }
    }
    while stack.len() > 0
        invariant
            visited@.len() == g.n(),
            forall|z: int|
                #![trigger true_set(visited@).contains(z)]
                true_set(visited@).contains(z) <==> (pre.contains(z) || elems(comp@).contains(z)
                    || elems(stack@).contains(z)),
            forall|t: int| 0 <= t < comp@.len() ==> (#[trigger] comp@[t]) < g.n(),
            forall|t: int| 0 <= t < stack@.len() ==> (#[trigger] stack@[t]) < g.n(),
            forall|t1: int, t2: int|
                0 <= t1 < t2 < comp@.len() ==> (#[trigger] comp@[t1]) != (#[trigger] comp@[t2]),
            forall|t1: int, t2: int|
                0 <= t1 < t2 < stack@.len() ==> (#[trigger] stack@[t1]) != (#[trigger] stack@[t2]),
            forall|t1: int, t2: int|
                0 <= t1 < comp@.len() && 0 <= t2 < stack@.len() ==> (#[trigger] comp@[t1]) != (
                #[trigger] stack@[t2]),
            forall|t: int| 0 <= t < comp@.len() ==> !pre.contains((#[trigger] comp@[t]) as int),
            forall|t: int| 0 <= t < stack@.len() ==> !pre.contains((#[trigger] stack@[t]) as int),
            forall|t: int|
                0 <= t < comp@.len() ==> g.connected(root as int, (#[trigger] comp@[t]) as int),
            forall|t: int|
                0 <= t < stack@.len() ==> g.connected(root as int, (#[trigger] stack@[t]) as int),
            comp@.len() == 0 ==> stack@ =~= seq![root],
            comp@.len() > 0 ==> comp@[0] == root,
            forall|a: int, b: int|
                elems(comp@).contains(a) && #[trigger] g.edge_between(a, b) ==> true_set(
                    visited@,
                ).contains(b),
        decreases g.n() - comp@.len(),
    {
        let ghost pre_stack0 = stack@;
        let x = stack.pop().unwrap();
        proof {
            assert(x == pre_stack0.last());
            assert(stack@ =~= pre_stack0.drop_last());
            lemma_elems_drop_last(pre_stack0);
            assert(elems(pre_stack0) == elems(stack@).insert(x as int));
            assert(elems(pre_stack0).contains(x as int)) by {
                assert(pre_stack0[pre_stack0.len() - 1] as int == x as int);
            }
            assert(g.connected(root as int, x as int)) by {
                assert(pre_stack0[pre_stack0.len() - 1] == x);
            }
            assert(x < g.n() && !pre.contains(x as int)) by {
                assert(pre_stack0[pre_stack0.len() - 1] == x);
            }
            assert(comp@.len() == 0 ==> x == root) by {
                if comp@.len() == 0 {
                    assert(pre_stack0 =~= seq![root]);
                }
            }
            assert(forall|t: int| 0 <= t < comp@.len() ==> (#[trigger] comp@[t]) != x) by {
                assert(forall|t: int|
                    0 <= t < comp@.len() ==> (#[trigger] comp@[t]) != pre_stack0[pre_stack0.len()
                        - 1]);
            }
            assert forall|z: int|
                #![trigger true_set(visited@).contains(z)]
                true_set(visited@).contains(z) <==> (pre.contains(z) || elems(comp@).contains(z)
                    || z == x as int || elems(stack@).contains(z)) by {
                assert(true_set(visited@).contains(z) <==> (pre.contains(z) || elems(
                    comp@,
                ).contains(z) || elems(pre_stack0).contains(z)));
                assert(elems(pre_stack0).contains(z) <==> elems(stack@).insert(x as int).contains(
                    z,
                ));
            }
            assert(true_set(visited@).contains(x as int));
        }
        let mut e: usize = 0;
        while e < g.edges.len()
            invariant
                e <= g.edges@.len(),
                visited@.len() == g.n(),
                x < g.n(),
                true_set(visited@).contains(x as int),
                g.connected(root as int, x as int),
                forall|z: int|
                    #![trigger true_set(visited@).contains(z)]
                    true_set(visited@).contains(z) <==> (pre.contains(z) || elems(comp@).contains(z)
                        || z == x as int || elems(stack@).contains(z)),
                forall|t: int| 0 <= t < stack@.len() ==> (#[trigger] stack@[t]) < g.n(),
                forall|t1: int, t2: int|
                    0 <= t1 < t2 < stack@.len() ==> (#[trigger] stack@[t1]) != (#[trigger] stack@[t2]),
                forall|t1: int, t2: int|
                    0 <= t1 < comp@.len() && 0 <= t2 < stack@.len() ==> (#[trigger] comp@[t1]) != (
                    #[trigger] stack@[t2]),
                forall|t: int| 0 <= t < stack@.len() ==> (#[trigger] stack@[t]) != x,
                forall|t: int| 0 <= t < stack@.len() ==> !pre.contains((#[trigger] stack@[t]) as int),
                forall|t: int|
                    0 <= t < stack@.len() ==> g.connected(root as int, (#[trigger] stack@[t]) as int),
                forall|a: int, b: int|
                    elems(comp@).contains(a) && #[trigger] g.edge_between(a, b) ==> true_set(
                        visited@,
                    ).contains(b),
                forall|k: int|
                    0 <= k < e ==> (((#[trigger] g.edges@[k]).a == x ==> true_set(visited@).contains(
                        g.edges@[k].b as int,
                    )) && (g.edges@[k].b == x ==> true_set(visited@).contains(g.edges@[k].a as int))),
            decreases g.edges@.len() - e,
        {
            let ed = g.edges[e];
            if ed.a == x || ed.b == x {
                let y = if ed.a == x {
                    ed.b
                } else {
                    ed.a
                };
                if !visited[y] {
                    let ghost pre_stack = stack@;
                    let ghost pre_vis = visited@;
                    visited.set(y, true);
                    stack.push(y);
                    proof {
                        lemma_elems_push(pre_stack, y);
                        assert(g.edge_between(x as int, y as int)) by {
                            assert((g.edges@[e as int].a == x as int && g.edges@[e as int].b
                                == y as int) || (g.edges@[e as int].a == y as int
                                && g.edges@[e as int].b == x as int));
                        }
                        lemma_connected_step(g, root as int, x as int, y as int);
                        assert(visited@ == pre_vis.update(y as int, true));
                        assert(!true_set(pre_vis).contains(y as int));
                        assert(!pre.contains(y as int) && !elems(comp@).contains(y as int)
                            && !elems(pre_stack).contains(y as int) && y != x);
                        assert forall|z: int|
                            #![trigger true_set(pre_vis).contains(z)]
                            true_set(pre_vis).contains(z) implies true_set(visited@).contains(
                            z,
                        ) by {}
                        assert forall|z: int|
                            #![trigger true_set(visited@).contains(z)]
                            true_set(visited@).contains(z) <==> (pre.contains(z) || elems(
                            comp@,
                        ).contains(z) || z == x as int || elems(stack@).contains(z)) by {
                            assert(elems(stack@) == elems(pre_stack).insert(y as int));
                            if z == y as int {
                                assert(true_set(visited@).contains(z));
                                assert(elems(stack@).contains(z));
                            } else {
                                assert(true_set(visited@).contains(z) <==> true_set(
                                    pre_vis,
                                ).contains(z));
                                assert(elems(stack@).contains(z) <==> elems(pre_stack).contains(z));
                            }
                        }
                        assert forall|t1: int, t2: int|
                            0 <= t1 < t2 < stack@.len() implies (#[trigger] stack@[t1]) != (
                        #[trigger] stack@[t2]) by {
                            if t2 == stack@.len() - 1 {
                                assert(stack@[t1] == pre_stack[t1] && stack@[t2] == y);
                                if pre_stack[t1] == y {
                                    assert(elems(pre_stack).contains(y as int)) by {
                                        assert(pre_stack[t1] as int == y as int);
                                    }
                                }
                            } else {
                                assert(stack@[t1] == pre_stack[t1] && stack@[t2] == pre_stack[t2]);
                            }
                        }
                        assert forall|t1: int, t2: int|
                            0 <= t1 < comp@.len() && 0 <= t2 < stack@.len() implies (
                        #[trigger] comp@[t1]) != (#[trigger] stack@[t2]) by {
                            if t2 == stack@.len() - 1 {
                                assert(stack@[t2] == y);
                                if comp@[t1] == y {
                                    assert(elems(comp@).contains(y as int)) by {
                                        assert(comp@[t1] as int == y as int);
                                    }
                                }
                            } else {
                                assert(stack@[t2] == pre_stack[t2]);
                            }
                        }
                        assert forall|t: int| 0 <= t < stack@.len() implies (#[trigger] stack@[t])
                            != x && !pre.contains(stack@[t] as int) && stack@[t] < g.n()
                            && g.connected(root as int, stack@[t] as int) by {
                            if t == stack@.len() - 1 {
                                assert(stack@[t] == y);
                            } else {
                                assert(stack@[t] == pre_stack[t]);
                            }
                        }
                        assert forall|a: int, b: int|
                            elems(comp@).contains(a) && #[trigger] g.edge_between(a, b)
                            implies true_set(visited@).contains(b) by {
                            assert(true_set(pre_vis).contains(b));
                        }
                        assert forall|k: int|
                            0 <= k < e + 1 implies (((#[trigger] g.edges@[k]).a == x ==> true_set(
                            visited@,
                        ).contains(g.edges@[k].b as int)) && (g.edges@[k].b == x ==> true_set(
                            visited@,
                        ).contains(g.edges@[k].a as int))) by {
                            if k < e {
                                if g.edges@[k].a == x {
                                    assert(true_set(pre_vis).contains(g.edges@[k].b as int));
                                }
                                if g.edges@[k].b == x {
                                    assert(true_set(pre_vis).contains(g.edges@[k].a as int));
                                }
                            } else {
                                assert(true_set(visited@).contains(y as int));
                            }
                        }
                    }
                } else {
                    proof {
                        assert(true_set(visited@).contains(y as int));
                    }
                }
            }
            e = e + 1;
        }
        let ghost pre_comp = comp@;
        comp.push(x);
        proof {
            lemma_elems_push(pre_comp, x);
            assert forall|z: int|
                #![trigger true_set(visited@).contains(z)]
                true_set(visited@).contains(z) <==> (pre.contains(z) || elems(comp@).contains(z)
                    || elems(stack@).contains(z)) by {
                assert(elems(comp@).contains(z) <==> elems(pre_comp).insert(x as int).contains(z));
            }
            assert forall|a: int, b: int|
                elems(comp@).contains(a) && #[trigger] g.edge_between(a, b) implies true_set(
                visited@,
            ).contains(b) by {
                if a == x as int {
                    let k = choose|k: int|
                        0 <= k < g.edges@.len() && (((#[trigger] g.edges@[k]).a == a && g.edges@[k].b
                            == b) || (g.edges@[k].a == b && g.edges@[k].b == a));
                    assert(g.edges@[k].a < g.n() && g.edges@[k].b < g.n());
                } else {
                    assert(elems(pre_comp).contains(a));
                }
            }
            lemma_distinct_bound(comp@, g.n());
        }
    }
    proof {
        assert(elems(stack@) =~= Set::empty());
        let s = elems(comp@);
        assert(s.contains(root as int)) by {
            assert(comp@[0] as int == root as int);
        }
        assert(closed(g, s)) by {
            assert forall|a: int, b: int| s.contains(a) && #[trigger] g.edge_between(a, b) implies
                s.contains(b) by {
                assert(true_set(visited@).contains(b));
                if pre.contains(b) {
                    lemma_edge_sym(g, a, b);
                    assert(pre.contains(a));
                }
            }
        }
        assert forall|x: int|
            0 <= x < g.n() && (#[trigger] g.connected(root as int, x)) implies elems(comp@).contains(
            x,
        ) by {
            lemma_closed_component(g, s, root as int, x);
        }
        assert forall|x: int| 0 <= x < g.n() && elems(comp@).contains(x) implies g.connected(
            root as int,
            x,
        ) by {
            let t = choose|t: int| 0 <= t < comp@.len() && (#[trigger] comp@[t]) as int == x;
        }
        assert forall|x: int| elems(comp@).contains(x) implies 0 <= x < g.n() by {
            let t = choose|t: int| 0 <= t < comp@.len() && (#[trigger] comp@[t]) as int == x;
        }
    }
    comp
}

impl CoexpressionNetwork {
    /// Partitions the network into communities: the maximal connected node
    /// sets, discarding every set of a single gene. Since edges are
    /// undirected, these are exactly the graph's (strongly) connected
    /// components of two or more nodes.
    pub fn find_communities(&mut self)
        requires
            old(self).network.wf(),
        ensures
            final(self).network == old(self).network,
            final(self).communities matches Some(cs) && communities_ok(&final(self).network, cs@),
    {
        let n = self.network.labels.len();
        let mut visited: Vec<bool> = Vec::new();
        let mut t: usize = 0;
        while t < n
            invariant
                t <= n,
                visited@.len() == t,
                forall|z: int| 0 <= z < t ==> !(#[trigger] visited@[z]),
            decreases n - t,
        {
            visited.push(false);
            t = t + 1;
        }
        let mut comps: Vec<Vec<usize>> = Vec::new();
        let mut root: usize = 0;
        proof {
            assert(true_set(visited@) =~= Set::empty());
        }
        while root < n
            invariant
                *self == *old(self),
                self.network.wf(),
                n == self.network.n(),
                visited@.len() == n,
                root <= n,
                forall|z: int| 0 <= z < root ==> true_set(visited@).contains(z),
                closed(&self.network, true_set(visited@)),
                forall|k: int|
                    0 <= k < comps@.len() ==> community_ok(&self.network, (#[trigger] comps@[k])@),
                forall|k: int, x: int|
                    #![trigger elems(comps@[k]@).contains(x)]
                    0 <= k < comps@.len() && elems(comps@[k]@).contains(x) ==> true_set(
                        visited@,
                    ).contains(x),
                forall|x: int|
                    true_set(visited@).contains(x) && !(#[trigger] self.network.isolated(x))
                        ==> exists|k: int|
                        0 <= k < comps@.len() && elems((#[trigger] comps@[k])@).contains(x),
                forall|k1: int, k2: int|
                    0 <= k1 < k2 < comps@.len() ==> !self.network.connected(
                        (#[trigger] comps@[k1])@[0] as int,
                        (#[trigger] comps@[k2])@[0] as int,
                    ),
            decreases n - root,
        {
            if !visited[root] {
                let ghost pre = true_set(visited@);
                let ghost pre_comps = comps@;
                let comp = explore(&self.network, &mut visited, root);
                proof {
                    assert forall|k1: int, k2: int|
                        0 <= k1 < k2 < pre_comps.len() + 1 implies !self.network.connected(
                        if k1 < pre_comps.len() {
                            pre_comps[k1]@[0] as int
                        } else {
                            root as int
                        },
                        if k2 < pre_comps.len() {
                            pre_comps[k2]@[0] as int
                        } else {
                            root as int
                        },
                    ) by {
                        if k2 == pre_comps.len() {
                            let r1 = pre_comps[k1]@[0] as int;
                            if self.network.connected(r1, root as int) {
                                assert(elems(pre_comps[k1]@).contains(root as int));
                                assert(pre.contains(root as int));
                            }
                        }
                    }
                }
                if comp.len() > 1 {
                    let ghost cseq = comp@;
                    comps.push(comp);
                    proof {
                        assert(community_ok(&self.network, cseq));
                        assert forall|k: int|
                            0 <= k < comps@.len() implies community_ok(
                            &self.network,
                            (#[trigger] comps@[k])@,
                        ) by {
                            if k < pre_comps.len() {
                                assert(comps@[k] == pre_comps[k]);
                            }
                        }
                        assert forall|k: int, x: int|
                            #![trigger elems(comps@[k]@).contains(x)]
                            0 <= k < comps@.len() && elems(comps@[k]@).contains(x) implies true_set(
                            visited@,
                        ).contains(x) by {
                            if k < pre_comps.len() {
                                assert(comps@[k] == pre_comps[k]);
                                assert(pre.contains(x));
                            }
                        }
                        assert forall|x: int|
                            true_set(visited@).contains(x) && !(#[trigger] self.network.isolated(x))
                            implies exists|k: int|
                            0 <= k < comps@.len() && elems((#[trigger] comps@[k])@).contains(x) by {
                            if elems(cseq).contains(x) {
                                assert(comps@[pre_comps.len() as int] == comp);
                                assert(elems(comps@[pre_comps.len() as int]@).contains(x));
                            } else {
                                assert(pre.contains(x));
                                let k = choose|k: int|
                                    0 <= k < pre_comps.len() && elems(
                                        (#[trigger] pre_comps[k])@,
                                    ).contains(x);
                                assert(comps@[k] == pre_comps[k]);
                                assert(elems(comps@[k]@).contains(x));
                            }
                        }
                        assert forall|k1: int, k2: int|
                            0 <= k1 < k2 < comps@.len() implies !self.network.connected(
                            (#[trigger] comps@[k1])@[0] as int,
                            (#[trigger] comps@[k2])@[0] as int,
                        ) by {
                            if k2 < pre_comps.len() {
                                assert(comps@[k1] == pre_comps[k1]);
                                assert(comps@[k2] == pre_comps[k2]);
                            } else {
                                assert(comps@[k1] == pre_comps[k1]);
                                assert(comps@[k2] == comp);
                                assert(cseq[0] == root);
                            }
                        }
                    }
                } else {
                    proof {
                        assert(comp@.len() == 1);
                        assert(comp@[0] == root);
                        assert forall|y: int| !(#[trigger] self.network.edge_between(
                            root as int,
                            y,
                        )) by {
                            if self.network.edge_between(root as int, y) {
                                lemma_edge_valid(&self.network, root as int, y);
                                lemma_connected_refl(&self.network, root as int);
                                lemma_connected_step(&self.network, root as int, root as int, y);
                                assert(elems(comp@).contains(y));
                                let t = choose|t: int|
                                    0 <= t < comp@.len() && (#[trigger] comp@[t]) as int == y;
                                assert(y == root as int);
                                let k = choose|k: int|
                                    0 <= k < self.network.edges@.len() && (((
                                    #[trigger] self.network.edges@[k]).a == root as int
                                        && self.network.edges@[k].b == y) || (
                                    self.network.edges@[k].a == y && self.network.edges@[k].b
                                        == root as int));
                            }
                        }
                        assert(self.network.isolated(root as int));
                        assert forall|x: int|
                            true_set(visited@).contains(x) && !(#[trigger] self.network.isolated(x))
                            implies exists|k: int|
                            0 <= k < comps@.len() && elems((#[trigger] comps@[k])@).contains(x) by {
                            if elems(comp@).contains(x) {
                                let t = choose|t: int|
                                    0 <= t < comp@.len() && (#[trigger] comp@[t]) as int == x;
                                assert(x == root as int);
                            } else {
                                assert(pre.contains(x));
                            }
                        }
                    }
                }
            }
            root = root + 1;
        }
        proof {
            assert forall|k1: int, k2: int, x: int|
                #![trigger elems(comps@[k1]@).contains(x), elems(comps@[k2]@).contains(x)]
                0 <= k1 < k2 < comps@.len() implies !(elems(comps@[k1]@).contains(x) && elems(
                comps@[k2]@,
            ).contains(x)) by {
                if elems(comps@[k1]@).contains(x) && elems(comps@[k2]@).contains(x) {
                    let g = &self.network;
                    let r1 = comps@[k1]@[0] as int;
                    let r2 = comps@[k2]@[0] as int;
                    let t = choose|t: int|
                        0 <= t < comps@[k1]@.len() && (#[trigger] comps@[k1]@[t]) as int == x;
                    assert(g.connected(r1, x));
                    assert(g.connected(r2, x));
                    lemma_connected_sym(g, r2, x);
                    lemma_connected_trans(g, r1, x, r2);
                }
            }
            assert forall|x: int|
                0 <= x < self.network.n() && !(#[trigger] self.network.isolated(x)) implies exists|k: int|
                0 <= k < comps@.len() && elems((#[trigger] comps@[k])@).contains(x) by {
                assert(true_set(visited@).contains(x));
            }
        }
        self.communities = Some(comps);
    }

    /// The communities as collections of gene labels rather than node
    /// indices, the form the external over-representation analysis
    /// collaborator consumes.
    pub fn community_labels(&self) -> (out: Vec<Vec<String>>)
        requires
            self.communities matches Some(cs) && forall|k: int, t: int|
                0 <= k < cs@.len() && 0 <= t < cs@[k]@.len() ==> (#[trigger] cs@[k]@[t])
                    < self.network.n(),
        ensures
            match self.communities {
                Some(cs) => {
                    &&& out@.len() == cs@.len()
                    &&& forall|k: int|
                        0 <= k < cs@.len() ==> (#[trigger] out@[k])@.len() == cs@[k]@.len()
                    &&& forall|k: int, t: int|
                        0 <= k < cs@.len() && 0 <= t < cs@[k]@.len() ==> ((#[trigger] out@[k]@[t])@
                            == self.network.labels@[cs@[k]@[t] as int]@)
                },
                None => false,
            },
    {
        match &self.communities {
            Some(cs) => {
                let mut out: Vec<Vec<String>> = Vec::new();
                let mut k: usize = 0;
                while k < cs.len()
                    invariant
                        self.communities matches Some(csx) && csx == cs,
                        forall|a: int, t: int|
                            0 <= a < cs@.len() && 0 <= t < cs@[a]@.len() ==> (#[trigger] cs@[a]@[t])
                                < self.network.n(),
                        k <= cs@.len(),
                        out@.len() == k,
                        forall|a: int|
                            0 <= a < k ==> (#[trigger] out@[a])@.len() == cs@[a]@.len(),
                        forall|a: int, t: int|
                            0 <= a < k && 0 <= t < cs@[a]@.len() ==> ((#[trigger] out@[a]@[t])@
                                == self.network.labels@[cs@[a]@[t] as int]@),
                    decreases cs@.len() - k,
                {
                    let row = &cs[k];
                    let mut labels: Vec<String> = Vec::new();
                    let mut t: usize = 0;
                    while t < row.len()
                        invariant
                            self.communities matches Some(csx) && csx == cs,
                            forall|a: int, u: int|
                                0 <= a < cs@.len() && 0 <= u < cs@[a]@.len() ==> (
                                #[trigger] cs@[a]@[u]) < self.network.n(),
                            k < cs@.len(),
                            row == cs@[k as int],
                            t <= row@.len(),
                            labels@.len() == t,
                            forall|u: int|
                                0 <= u < t ==> ((#[trigger] labels@[u])@
                                    == self.network.labels@[row@[u] as int]@),
                        decreases row@.len() - t,
                    {
                        let idx = row[t];
                        labels.push(self.network.labels[idx].clone());
                        t = t + 1;
                    }
                    out.push(labels);
                    k = k + 1;
                }
                out
            },
            None => vstd::pervasive::unreached(),
        }
    }
}

} // verus!

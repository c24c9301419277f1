//! A small undirected graph kept as an adjacency table.
//!
//! Nodes are named by strings; each node maps to the list of its outgoing
//! half-edges `(neighbour, weight)`. The table is an association list in
//! insertion order whose keys are pairwise distinct, and an undirected edge
//! is stored as one half-edge on each endpoint.

use vstd::prelude::*;

verus! {

/// The mathematical value of an adjacency table: each row is a node name and
/// its sequence of `(neighbour, weight)` half-edges.
pub type TableView = Seq<(Seq<char>, Seq<(Seq<char>, int)>)>;

/// The abstraction of one stored row.
pub open spec fn row_view(row: (String, Vec<(String, i32)>)) -> (Seq<char>, Seq<(Seq<char>, int)>) {
    (row.0@, row.1@.map_values(|e: (String, i32)| (e.0@, e.1 as int)))
}

/// The abstraction of a stored adjacency table.
pub open spec fn table_view(t: Seq<(String, Vec<(String, i32)>)>) -> TableView {
    t.map_values(|row: (String, Vec<(String, i32)>)| row_view(row))
}

/// Well-formedness of a table: no node name owns two rows.
pub open spec fn table_wf(v: TableView) -> bool {
    forall|p: int, q: int| 0 <= p < q < v.len() ==> v[p].0 != v[q].0
}

/// The table has a row for node `name`.
pub open spec fn has_node(v: TableView, name: Seq<char>) -> bool {
    exists|p: int| 0 <= p < v.len() && v[p].0 == name
}

/// Adding a node: a new empty row at the end, or no change when the node is
/// already present.
pub open spec fn add_node_view(v: TableView, name: Seq<char>) -> TableView {
    if has_node(v, name) {
        v
    } else {
        v.push((name, Seq::<(Seq<char>, int)>::empty()))
    }
}

/// Appending the half-edge `(to, weight)` to the row of node `from`; rows of
/// other nodes are untouched.
pub open spec fn push_edge_view(v: TableView, from: Seq<char>, to: Seq<char>, weight: int) -> TableView {
    Seq::new(
        v.len(),
        |k: int|
            if v[k].0 == from {
                (v[k].0, v[k].1.push((to, weight)))
            } else {
                v[k]
            },
    )
}

/// The whole effect of inserting an undirected edge: both endpoints gain a
/// row when missing, then each endpoint's row gains the half-edge towards
/// the other endpoint, the one of `n1` first.
pub open spec fn add_edge_view(v: TableView, n1: Seq<char>, n2: Seq<char>, weight: int) -> TableView {
    push_edge_view(
        push_edge_view(add_node_view(add_node_view(v, n1), n2), n1, n2, weight),
        n2,
        n1,
        weight,
    )
}

/// All half-edges of one row, as `(from, to, weight)` triples.
pub open spec fn row_edges(row: (Seq<char>, Seq<(Seq<char>, int)>)) -> Seq<
    (Seq<char>, Seq<char>, int),
> {
    row.1.map_values(|e: (Seq<char>, int)| (row.0, e.0, e.1))
}

/// All half-edges of the table, row by row in table order.
pub open spec fn table_edges(v: TableView) -> Seq<(Seq<char>, Seq<char>, int)>
    decreases v.len(),
{
    if v.len() == 0 {
        Seq::<(Seq<char>, Seq<char>, int)>::empty()
    } else {
        table_edges(v.drop_last()) + row_edges(v.last())
    }
}

/// The abstraction of a produced list of edge triples.
pub open spec fn edge_views(s: Seq<(String, String, i32)>) -> Seq<(Seq<char>, Seq<char>, int)> {
    s.map_values(|e: (String, String, i32)| (e.0@, e.1@, e.2 as int))
}

/// Adding a node keeps the table well formed, keeps every present node with
/// its row unchanged, and makes the added node present.
pub proof fn lemma_add_node_props(v: TableView, n: Seq<char>)
    requires
        table_wf(v),
    ensures
        table_wf(add_node_view(v, n)),
        has_node(add_node_view(v, n), n),
        forall|m: Seq<char>| has_node(v, m) ==> has_node(add_node_view(v, n), m),
        v.len() <= add_node_view(v, n).len(),
        forall|k: int| 0 <= k < v.len() ==> add_node_view(v, n)[k] == v[k],
{
    if has_node(v, n) {
    } else {
        let w = v.push((n, Seq::<(Seq<char>, int)>::empty()));
        assert(w[v.len() as int].0 == n);
        assert forall|m: Seq<char>| has_node(v, m) implies has_node(w, m) by {
            let p = choose|p: int| 0 <= p < v.len() && v[p].0 == m;
            assert(w[p].0 == m);
        }
        assert forall|p: int, q: int| 0 <= p < q < w.len() implies w[p].0 != w[q].0 by {
            if q < v.len() {
            } else if w[p].0 == n {
                assert(v[p].0 == n);
                assert(has_node(v, n));
            }
        }
    }
}

/// Appending a half-edge keeps the table well formed and leaves every key in
/// place.
pub proof fn lemma_push_edge_props(v: TableView, from: Seq<char>, to: Seq<char>, weight: int)
    requires
        table_wf(v),
    ensures
        table_wf(push_edge_view(v, from, to, weight)),
        push_edge_view(v, from, to, weight).len() == v.len(),
        forall|k: int| 0 <= k < v.len() ==> (#[trigger] push_edge_view(v, from, to, weight)[k]).0
            == v[k].0,
        forall|m: Seq<char>| has_node(v, m) ==> has_node(push_edge_view(v, from, to, weight), m),
{
    let u = push_edge_view(v, from, to, weight);
    assert forall|m: Seq<char>| has_node(v, m) implies has_node(u, m) by {
        let p = choose|p: int| 0 <= p < v.len() && v[p].0 == m;
        assert(u[p].0 == m);
    }
}

/// Error value for naming a node that the graph does not hold.
#[derive(Debug, Clone)]
pub struct NodeNotInGraph;

impl NodeNotInGraph {
    /// The rendering of this error as text.
    pub fn message(&self) -> (r: String)
        ensures
            r@ == "accessing a node that is not in the graph"@,
    {
        <String as vstd::string::StringExecFns>::from_str("accessing a node that is not in the graph")
    }
}

/// An adjacency structure: a table of node rows, reached through `table()`.
pub trait Graph: Sized {
    /// The stored adjacency table.
    spec fn table(&self) -> Seq<(String, Vec<(String, i32)>)>;

    /// An empty graph.
    fn new() -> (r: Self)
        ensures
            r.table() == Seq::<(String, Vec<(String, i32)>)>::empty(),
    ;

    /// Read access to the stored table.
    fn adjacency_table(&self) -> (t: &Vec<(String, Vec<(String, i32)>)>)
        ensures
            t@ == self.table(),
    ;

    /// Write access to the stored table.
    fn adjacency_table_mutable(&mut self) -> (t: &mut Vec<(String, Vec<(String, i32)>)>)
        ensures
            (*t)@ == old(self).table(),
            final(self).table() == (*final(t))@,
    ;

    /// Inserts a row for `node` when it has none; reports whether it did.
    fn add_node(&mut self, node: &str) -> (r: bool)
        requires
            table_wf(table_view(old(self).table())),
        ensures
            table_wf(table_view(final(self).table())),
            r == !has_node(table_view(old(self).table()), node@),
            table_view(final(self).table()) == add_node_view(
                table_view(old(self).table()),
                node@,
            ),
    ;

    /// Inserts the undirected edge `(node, node, weight)`: both endpoints
    /// get a row when missing, and each row gains the half-edge towards the
    /// other endpoint.
    fn add_edge(&mut self, edge: (&str, &str, i32))
        requires
            table_wf(table_view(old(self).table())),
        ensures
            table_wf(table_view(final(self).table())),
            table_view(final(self).table()) == add_edge_view(
                table_view(old(self).table()),
                edge.0@,
                edge.1@,
                edge.2 as int,
            ),
    ;

    /// Whether `node` has a row.
    fn contains(&self, node: &str) -> (r: bool)
        ensures
            r == has_node(table_view(self.table()), node@),
    ;

    /// The node names, in table order.
    fn nodes(&self) -> (r: Vec<String>)
        ensures
            r@.len() == self.table().len(),
            forall|k: int| 0 <= k < r@.len() ==> r@[k]@ == table_view(self.table())[k].0,
    ;

    /// Every half-edge as a `(from, to, weight)` triple, row by row.
    fn edges(&self) -> (r: Vec<(String, String, i32)>)
        ensures
            edge_views(r@) == table_edges(table_view(self.table())),
    ;
}

/// The one graph of this crate: an association-list adjacency table.
pub struct UndirectedGraph {
    pub adjacency_table: Vec<(String, Vec<(String, i32)>)>,
}

impl UndirectedGraph {
    /// The row index holding `name`, by linear search.
    fn row_index(&self, name: &String) -> (r: usize)
        requires
            has_node(table_view(self.adjacency_table@), name@),
        ensures
            r < self.adjacency_table@.len(),
            self.adjacency_table@[r as int].0@ == name@,
    {
        let ghost v = table_view(self.adjacency_table@);
        let n = self.adjacency_table.len();
        let mut k: usize = 0;
        while k < n
            invariant
                n == self.adjacency_table@.len(),
                v == table_view(self.adjacency_table@),
                has_node(v, name@),
                0 <= k <= n,
                forall|p: int| 0 <= p < k ==> v[p].0 != name@,
            decreases n - k,
        {
            if self.adjacency_table[k].0.eq(name) {
                return k;
            }
            k = k + 1;
        }
        proof {
            let p = choose|p: int| 0 <= p < v.len() && v[p].0 == name@;
            assert(false);
        }
        0
    }
}

impl Graph for UndirectedGraph {
    open spec fn table(&self) -> Seq<(String, Vec<(String, i32)>)> {
        self.adjacency_table@
    }

    fn new() -> (r: UndirectedGraph) {
        let r = UndirectedGraph { adjacency_table: Vec::new() };
        proof {
            assert(r.adjacency_table@ =~= Seq::<(String, Vec<(String, i32)>)>::empty());
        }
        r
    }

    fn adjacency_table(&self) -> (t: &Vec<(String, Vec<(String, i32)>)>) {
        &self.adjacency_table
    }

    fn adjacency_table_mutable(&mut self) -> (t: &mut Vec<(String, Vec<(String, i32)>)>) {
        &mut self.adjacency_table
    }

    fn add_node(&mut self, node: &str) -> (r: bool) {
        if self.contains(node) {
            false
        } else {
            let name = <String as vstd::string::StringExecFns>::from_str(node);
            let ghost nv = name@;
            let row: Vec<(String, i32)> = Vec::new();
            self.adjacency_table.push((name, row));
            proof {
                assert(table_view(self.adjacency_table@) =~~= add_node_view(
                    table_view(old(self).adjacency_table@),
                    nv,
                ));
            }
            true
        }
    }

    fn add_edge(&mut self, edge: (&str, &str, i32)) {
        let (node1, node2, weight) = edge;
        let ghost v0 = table_view(self.adjacency_table@);
        self.add_node(node1);
        let ghost v1 = table_view(self.adjacency_table@);
        self.add_node(node2);
        let ghost v2 = table_view(self.adjacency_table@);
        proof {
            lemma_add_node_props(v0, node1@);
            lemma_add_node_props(v1, node2@);
        }
        let name1 = <String as vstd::string::StringExecFns>::from_str(node1);
        let name2 = <String as vstd::string::StringExecFns>::from_str(node2);
        let i1 = self.row_index(&name1);
        let i2 = self.row_index(&name2);
        let ghost t2 = self.adjacency_table@;
        let ghost nv2 = name2@;
        self.adjacency_table[i1].1.push((name2, weight));
        let ghost t3 = self.adjacency_table@;
        let ghost v3 = table_view(t3);
        proof {
            assert forall|k: int| 0 <= k < v2.len() && k != i1 implies v2[k].0 != node1@ by {
                if k < i1 {
                    assert(v2[k].0 != v2[i1 as int].0);
                } else {
                    assert(v2[i1 as int].0 != v2[k].0);
                }
            }
            assert(row_view(t3[i1 as int]).1 =~= row_view(t2[i1 as int]).1.push(
                (nv2, weight as int),
            ));
            assert(v3 =~~= push_edge_view(v2, node1@, node2@, weight as int));
            lemma_push_edge_props(v2, node1@, node2@, weight as int);
        }
        let name1b = <String as vstd::string::StringExecFns>::from_str(node1);
        let ghost nv1 = name1b@;
        self.adjacency_table[i2].1.push((name1b, weight));
        proof {
            let t4 = self.adjacency_table@;
            let v4 = table_view(t4);
            assert forall|k: int| 0 <= k < v3.len() && k != i2 implies v3[k].0 != node2@ by {
                if k < i2 {
                    assert(v2[k].0 != v2[i2 as int].0);
                } else {
                    assert(v2[i2 as int].0 != v2[k].0);
                }
            }
            assert(row_view(t4[i2 as int]).1 =~= row_view(t3[i2 as int]).1.push(
                (nv1, weight as int),
            ));
            assert(v4 =~~= push_edge_view(v3, node2@, node1@, weight as int));
            lemma_push_edge_props(v3, node2@, node1@, weight as int);
        }
    }

    fn contains(&self, node: &str) -> (r: bool) {
        let name = <String as vstd::string::StringExecFns>::from_str(node);
        let ghost v = table_view(self.adjacency_table@);
        let n = self.adjacency_table.len();
        let mut k: usize = 0;
        while k < n
            invariant
                n == self.adjacency_table@.len(),
                v == table_view(self.adjacency_table@),
                name@ == node@,
                0 <= k <= n,
                forall|p: int| 0 <= p < k ==> v[p].0 != node@,
            decreases n - k,
        {
            if self.adjacency_table[k].0.eq(&name) {
                proof {
                    assert(v[k as int].0 == node@);
                    assert(has_node(v, node@));
                }
                return true;
            }
            k = k + 1;
        }
        false
    }

    fn nodes(&self) -> (r: Vec<String>) {
        let ghost v = table_view(self.adjacency_table@);
        let n = self.adjacency_table.len();
        let mut r: Vec<String> = Vec::new();
        let mut k: usize = 0;
        while k < n
            invariant
                n == self.adjacency_table@.len(),
                v == table_view(self.adjacency_table@),
                0 <= k <= n,
                r@.len() == k,
                forall|p: int| 0 <= p < k ==> r@[p]@ == v[p].0,
            decreases n - k,
        {
            r.push(self.adjacency_table[k].0.clone());
            k = k + 1;
        }
        r
    }

    fn edges(&self) -> (r: Vec<(String, String, i32)>) {
        let ghost v = table_view(self.adjacency_table@);
        let n = self.adjacency_table.len();
        let mut r: Vec<(String, String, i32)> = Vec::new();
        let mut k: usize = 0;
        proof {
            assert(v.take(0) =~= Seq::<(Seq<char>, Seq<(Seq<char>, int)>)>::empty());
            assert(edge_views(r@) =~= Seq::<(Seq<char>, Seq<char>, int)>::empty());
        }
        while k < n
            invariant
                n == self.adjacency_table@.len(),
                v == table_view(self.adjacency_table@),
                0 <= k <= n,
                edge_views(r@) == table_edges(v.take(k as int)),
            decreases n - k,
        {
            let m = self.adjacency_table[k].1.len();
            proof {
                assert(row_edges(v[k as int]).take(0) =~= Seq::<
                    (Seq<char>, Seq<char>, int),
                >::empty());
                assert(edge_views(r@) + row_edges(v[k as int]).take(0) =~= edge_views(r@));
            }
            let mut c: usize = 0;
            while c < m
                invariant
                    n == self.adjacency_table@.len(),
                    v == table_view(self.adjacency_table@),
                    0 <= k < n,
                    m == self.adjacency_table@[k as int].1@.len(),
                    0 <= c <= m,
                    edge_views(r@) == table_edges(v.take(k as int)) + row_edges(
                        v[k as int],
                    ).take(c as int),
                decreases m - c,
            {
                let from = self.adjacency_table[k].0.clone();
                let to = self.adjacency_table[k].1[c].0.clone();
                let w = self.adjacency_table[k].1[c].1;
                let ghost prev = r@;
                r.push((from, to, w));
                proof {
                    let e = row_edges(v[k as int])[c as int];
                    assert(v[k as int].1[c as int] == (
                        self.adjacency_table@[k as int].1@[c as int].0@,
                        self.adjacency_table@[k as int].1@[c as int].1 as int,
                    ));
                    assert(edge_views(r@) =~= edge_views(prev).push(e));
                    assert(row_edges(v[k as int]).take(c + 1) =~= row_edges(v[k as int]).take(
                        c as int,
                    ).push(e));
                    assert(edge_views(prev).push(e) =~= table_edges(v.take(k as int)) + row_edges(
                        v[k as int],
                    ).take(c + 1));
                }
                c = c + 1;
            }
            proof {
                assert(row_edges(v[k as int]).take(m as int) =~= row_edges(v[k as int]));
                assert(v.take(k + 1).drop_last() =~= v.take(k as int));
                assert(v.take(k + 1).last() == v[k as int]);
                assert(table_edges(v.take(k + 1)) == table_edges(v.take(k as int)) + row_edges(
                    v[k as int],
                ));
            }
            k = k + 1;
        }
        proof {
            assert(v.take(n as int) =~= v);
        }
        r
    }
}

} // verus!

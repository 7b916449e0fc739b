//! The `Graph` type: node names mapped to dense zero-based indices, with one
//! adjacency list per index. Edges are undirected and inserted symmetrically;
//! duplicate insertions are kept as multi-edges, and self-loops are permitted.

use vstd::prelude::*;

verus! {

/// Sum of the lengths of all adjacency lists. Every edge insertion appends
/// one entry on each side, so this total is always even and equals twice the
/// number of inserted edges.
pub open spec fn total_len(adj: Seq<Seq<usize>>) -> int
    decreases adj.len(),
{
    if adj.len() == 0 {
        0
    } else {
        total_len(adj.drop_last()) + adj.last().len()
    }
}

/// All node names are pairwise distinct.
pub open spec fn names_distinct(names: Seq<Seq<char>>) -> bool {
    forall|i: int, j: int| 0 <= i < j < names.len() ==> names[i] != names[j]
}

/// Every index stored in any adjacency list refers to an existing node.
pub open spec fn adj_wf(adj: Seq<Seq<usize>>) -> bool {
    forall|i: int, k: int|
        0 <= i < adj.len() && 0 <= k < adj[i].len() ==> #[trigger] adj[i][k] < adj.len()
}

/// Some node already carries this name.
pub open spec fn has_name(names: Seq<Seq<char>>, name: Seq<char>) -> bool {
    exists|i: int| 0 <= i < names.len() && names[i] == name
}

/// The index of the node carrying this name (meaningful when `has_name` holds
/// and the names are distinct).
pub open spec fn name_index(names: Seq<Seq<char>>, name: Seq<char>) -> int {
    choose|i: int| 0 <= i < names.len() && names[i] == name
}

/// The name sequence after resolving a name: unchanged if present, else the
/// name is appended and receives the next index.
pub open spec fn insert_name(names: Seq<Seq<char>>, name: Seq<char>) -> Seq<Seq<char>> {
    if has_name(names, name) {
        names
    } else {
        names.push(name)
    }
}

/// The adjacency sequence after resolving a name: a fresh node starts with an
/// empty adjacency list.
pub open spec fn insert_adj(adj: Seq<Seq<usize>>, names: Seq<Seq<char>>, name: Seq<char>) -> Seq<
    Seq<usize>,
> {
    if has_name(names, name) {
        adj
    } else {
        adj.push(Seq::empty())
    }
}

/// The names and adjacency lists after one undirected edge insertion between
/// two names: each name is resolved (creating a node if unseen), then each
/// endpoint's index is appended to the other endpoint's list. A self-loop
/// appends the node's own index to its list twice.
pub open spec fn spec_add_edge(
    names: Seq<Seq<char>>,
    adj: Seq<Seq<usize>>,
    a: Seq<char>,
    b: Seq<char>,
) -> (Seq<Seq<char>>, Seq<Seq<usize>>) {
    let names1 = insert_name(names, a);
    let adj1 = insert_adj(adj, names, a);
    let names2 = insert_name(names1, b);
    let adj2 = insert_adj(adj1, names1, b);
    let ia = name_index(names2, a);
    let ib = name_index(names2, b);
    let adj3 = adj2.update(ia, adj2[ia].push(ib as usize));
    let adj4 = adj3.update(ib, adj3[ib].push(ia as usize));
    (names2, adj4)
}

/// An undirected multigraph. Node names map to dense indices; the list at
/// position `i` holds the indices of all nodes adjacent to node `i`, with
/// multiplicity.
pub struct Graph {
    names: Vec<String>,
    adjacency: Vec<Vec<usize>>,
}

impl Graph {
    /// The node names, in index order.
    pub closed spec fn names_seq(&self) -> Seq<Seq<char>> {
        self.names@.map_values(|s: String| s@)
    }

    /// The adjacency lists, in index order.
    pub closed spec fn adj(&self) -> Seq<Seq<usize>> {
        self.adjacency@.map_values(|v: Vec<usize>| v@)
    }

    /// Structural invariant: one adjacency list per name, distinct names,
    /// all stored indices in range, and an even total adjacency length that
    /// fits the machine word (so that the edge count can be computed).
    pub open spec fn wf(&self) -> bool {
        &&& self.names_seq().len() == self.adj().len()
        &&& names_distinct(self.names_seq())
        &&& adj_wf(self.adj())
        &&& total_len(self.adj()) % 2 == 0
        &&& total_len(self.adj()) <= usize::MAX
    }

    /// Creates a new empty graph.
    pub fn new() -> (g: Graph)
        ensures
            g.wf(),
            g.names_seq() == Seq::<Seq<char>>::empty(),
            g.adj() == Seq::<Seq<usize>>::empty(),
    {
        let g = Graph { names: Vec::new(), adjacency: Vec::new() };
        proof {
            assert(g.names_seq() =~= Seq::<Seq<char>>::empty());
            assert(g.adj() =~= Seq::<Seq<usize>>::empty());
        }
        g
    }

    /// Resolves a name to its index, appending a fresh node (with an empty
    /// adjacency list) if the name is unseen.
    #[verifier::loop_isolation(false)]
    fn get_or_insert_node(&mut self, node: &str) -> (idx: usize)
        requires
            old(self).wf(),
        ensures
            final(self).wf(),
            final(self).names_seq() == insert_name(old(self).names_seq(), node@),
            final(self).adj() == insert_adj(old(self).adj(), old(self).names_seq(), node@),
            total_len(final(self).adj()) == total_len(old(self).adj()),
            idx < final(self).names_seq().len(),
            final(self).names_seq()[idx as int] == node@,
            idx as int == name_index(final(self).names_seq(), node@),
    {
        let owned: String = node.to_owned();
        let n = self.names.len();
        let mut i: usize = 0;
        while i < n
            invariant
                i <= n,
                forall|k: int| 0 <= k < i ==> self.names_seq()[k] != node@,
            decreases n - i,
        {
            if self.names[i] == owned {
                proof {
                    lemma_name_index_unique(self.names_seq(), node@, i as int);
                }
                return i;
            }
            i += 1;
        }
        proof {
            assert(!has_name(self.names_seq(), node@));
        }
        let idx = self.adjacency.len();
        self.names.push(owned);
        self.adjacency.push(Vec::new());
        proof {
            let onames = old(self).names_seq();
            let oadj = old(self).adj();
            assert(self.names_seq() =~= onames.push(node@));
            assert(self.adj() =~= oadj.push(Seq::empty()));
            assert(oadj.push(Seq::<usize>::empty()).drop_last() =~= oadj);
            lemma_name_index_unique(self.names_seq(), node@, onames.len() as int);
        }
        idx
    }

    /// Adds an undirected edge between two nodes, creating either node if its
    /// name is unseen. Duplicate edges and self-loops are kept. The resulting
    /// state is exactly `spec_add_edge` of the old state. The bound on the
    /// total adjacency length is a machine limit: each insertion appends two
    /// entries.
    pub fn add_edge(&mut self, node1: &str, node2: &str)
        requires
            old(self).wf(),
            total_len(old(self).adj()) + 2 <= usize::MAX,
        ensures
            final(self).wf(),
            (final(self).names_seq(), final(self).adj()) == spec_add_edge(
                old(self).names_seq(),
                old(self).adj(),
                node1@,
                node2@,
            ),
            total_len(final(self).adj()) == total_len(old(self).adj()) + 2,
    {
        let idx1 = self.get_or_insert_node(node1);
        let idx2 = self.get_or_insert_node(node2);
        let ghost names2 = self.names_seq();
        let ghost adj2 = self.adj();
        proof {
            lemma_name_index_unique(names2, node1@, idx1 as int);
            lemma_total_len_update_push(adj2, idx1 as int, idx2);
        }
        self.adjacency[idx1].push(idx2);
        proof {
            assert(self.adj() =~= adj2.update(idx1 as int, adj2[idx1 as int].push(idx2)));
            lemma_total_len_update_push(self.adj(), idx2 as int, idx1);
        }
        let ghost adj3 = self.adj();
        self.adjacency[idx2].push(idx1);
        proof {
            assert(self.adj() =~= adj3.update(idx2 as int, adj3[idx2 as int].push(idx1)));
            assert((self.names_seq(), self.adj()) == spec_add_edge(
                old(self).names_seq(),
                old(self).adj(),
                node1@,
                node2@,
            ));
        }
    }

    /// Returns the number of distinct node names seen.
    pub fn node_count(&self) -> (r: usize)
        ensures
            r == self.names_seq().len(),
    {
        self.names.len()
    }

    /// Returns the number of inserted edges: half the total adjacency length.
    /// The total is always even, so the division is exact.
    #[verifier::loop_isolation(false)]
    pub fn edge_count(&self) -> (r: usize)
        requires
            self.wf(),
        ensures
            2 * r == total_len(self.adj()),
    {
        let n = self.adjacency.len();
        let mut sum: usize = 0;
        let mut i: usize = 0;
        proof {
            lemma_total_len_take_le(self.adj(), 0);
            assert(self.adj().take(0) =~= Seq::<Seq<usize>>::empty());
        }
        while i < n
            invariant
                i <= n,
                sum == total_len(self.adj().take(i as int)),
            decreases n - i,
        {
            proof {
                assert(self.adj().take(i + 1).drop_last() =~= self.adj().take(i as int));
                lemma_total_len_take_le(self.adj(), i + 1);
                lemma_total_len_nonneg(self.adj().take(i as int));
            }
            sum += self.adjacency[i].len();
            i += 1;
        }
        proof {
            assert(self.adj().take(n as int) =~= self.adj());
        }
        sum / 2
    }

    /// Returns the adjacency list of a node index. The index must have been
    /// assigned by this graph.
    pub fn neighbors(&self, node: usize) -> (r: &[usize])
        requires
            self.wf(),
            (node as int) < self.adj().len(),
        ensures
            r@ == self.adj()[node as int],
    {
        self.adjacency[node].as_slice()
    }

    /// Returns all (name, index) pairs, one per node, with no duplicates.
    #[verifier::loop_isolation(false)]
    pub fn nodes(&self) -> (r: Vec<(String, usize)>)
        requires
            self.wf(),
        ensures
            r@.len() == self.names_seq().len(),
            forall|i: int|
                0 <= i < r@.len() ==> (#[trigger] r@[i]).0@ == self.names_seq()[i] && r@[i].1 == i,
            forall|i: int, j: int|
                0 <= i < j < r@.len() ==> r@[i].0@ != r@[j].0@ && r@[i].1 != r@[j].1,
    {
        let n = self.names.len();
        let mut r: Vec<(String, usize)> = Vec::new();
        let mut i: usize = 0;
        while i < n
            invariant
                i <= n,
                r@.len() == i,
                forall|k: int|
                    0 <= k < i ==> (#[trigger] r@[k]).0@ == self.names_seq()[k] && r@[k].1 == k,
            decreases n - i,
        {
            let name = self.names[i].clone();
            r.push((name, i));
            i += 1;
        }
        r
    }
}

/// With distinct names, any position holding a name is the unique one, so it
/// equals `name_index`.
pub proof fn lemma_name_index_unique(names: Seq<Seq<char>>, name: Seq<char>, i: int)
    requires
        names_distinct(names),
        0 <= i < names.len(),
        names[i] == name,
    ensures
        has_name(names, name),
        name_index(names, name) == i,
{
    assert(has_name(names, name));
    let j = name_index(names, name);
    assert(0 <= j < names.len() && names[j] == name);
}

/// The total adjacency length is never negative.
proof fn lemma_total_len_nonneg(adj: Seq<Seq<usize>>)
    ensures
        total_len(adj) >= 0,
    decreases adj.len(),
{
    if adj.len() > 0 {
        lemma_total_len_nonneg(adj.drop_last());
    }
}

/// The total adjacency length of a prefix is at most the total of the whole.
proof fn lemma_total_len_take_le(adj: Seq<Seq<usize>>, i: int)
    requires
        0 <= i <= adj.len(),
    ensures
        total_len(adj.take(i)) <= total_len(adj),
    decreases adj.len() - i,
{
    if i < adj.len() {
        lemma_total_len_take_le(adj, i + 1);
        assert(adj.take(i + 1).drop_last() =~= adj.take(i));
    } else {
        assert(adj.take(i) =~= adj);
    }
}

/// Appending one entry to one adjacency list raises the total length by one.
proof fn lemma_total_len_update_push(adj: Seq<Seq<usize>>, i: int, x: usize)
    requires
        0 <= i < adj.len(),
    ensures
        total_len(adj.update(i, adj[i].push(x))) == total_len(adj) + 1,
    decreases adj.len(),
{
    let updated = adj.update(i, adj[i].push(x));
    if i == adj.len() - 1 {
        assert(updated.drop_last() =~= adj.drop_last());
        assert(updated.last() == adj.last().push(x));
    } else {
        lemma_total_len_update_push(adj.drop_last(), i, x);
        assert(updated.drop_last() =~= adj.drop_last().update(i, adj.drop_last()[i].push(x)));
        assert(updated.last() == adj.last());
    }
}

/// Law: the summed adjacency length of a well-formed graph is even, so the
/// edge count is an exact integer.
pub proof fn lemma_edge_total_even(g: Graph)
    requires
        g.wf(),
    ensures
        total_len(g.adj()) % 2 == 0,
{
}

} // verus!

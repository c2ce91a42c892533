use ordered_multimap::ListOrderedMultimap;
use vstd::prelude::*;

verus! {

#[verifier::external_type_specification]
#[verifier::external_body]
#[verifier::reject_recursive_types(Key)]
#[verifier::reject_recursive_types(Value)]
#[verifier::reject_recursive_types(State)]
pub struct ExListOrderedMultimap<Key, Value, State>(ListOrderedMultimap<Key, Value, State>);

/// What a multimap holds: for each key, its values in the order they were appended. A key
/// is present exactly when at least one value was appended under it.
pub uninterp spec fn multimap_contents(m: ListOrderedMultimap<u64, u64>) -> Map<u64, Seq<u64>>;

/// Relies on `ListOrderedMultimap::new`: the new multimap holds nothing.
#[verifier::external_body]
fn multimap_new() -> (r: ListOrderedMultimap<u64, u64>)
    ensures
        multimap_contents(r) == no_edges(),
{
    ListOrderedMultimap::new()
}

/// Relies on `ListOrderedMultimap::append`: the value goes after the key's earlier values,
/// and a key seen for the first time gets this one value.
#[verifier::external_body]
fn multimap_append(m: &mut ListOrderedMultimap<u64, u64>, key: u64, value: u64)
    ensures
        multimap_contents(*final(m)) == multimap_contents(*old(m)).insert(
            key,
            if multimap_contents(*old(m)).dom().contains(key) {
                multimap_contents(*old(m))[key].push(value)
            } else {
                seq![value]
            },
        ),
{
    m.append(key, value);
}

/// Relies on `ListOrderedMultimap::contains_key`: whether the key is present.
#[verifier::external_body]
fn multimap_contains_key(m: &ListOrderedMultimap<u64, u64>, key: u64) -> (r: bool)
    ensures
        r == multimap_contents(*m).dom().contains(key),
{
    m.contains_key(&key)
}

/// Relies on `ListOrderedMultimap::get_all`: the key's values in insertion order, none for
/// an absent key.
#[verifier::external_body]
fn multimap_get_all(m: &ListOrderedMultimap<u64, u64>, key: u64) -> (r: Vec<u64>)
    ensures
        r@ == if multimap_contents(*m).dom().contains(key) {
            multimap_contents(*m)[key]
        } else {
            Seq::<u64>::empty()
        },
{
    m.get_all(&key).copied().collect()
}

/// The adjacency map of a graph without edges.
pub open spec fn no_edges() -> Map<u64, Seq<u64>> {
    Map::empty()
}

/// Relies on `ListOrderedMultimap::get_all`, whose iterator knows its length: the number of
/// values under the key.
#[verifier::external_body]
fn multimap_count(m: &ListOrderedMultimap<u64, u64>, key: u64) -> (r: usize)
    ensures
        r == (if multimap_contents(*m).dom().contains(key) {
            multimap_contents(*m)[key]
        } else {
            Seq::<u64>::empty()
        }).len(),
{
    m.get_all(&key).len()
}

/// The out-neighbours of `v` in an adjacency map, empty for a vertex with no edges.
pub open spec fn out_edges(g: Map<u64, Seq<u64>>, v: u64) -> Seq<u64> {
    if g.dom().contains(v) {
        g[v]
    } else {
        Seq::empty()
    }
}

/// A directed multigraph over addresses, stored as an adjacency list: the edges of each
/// source vertex keep the order in which they were added, duplicates included.
pub struct Graph {
    adj: ListOrderedMultimap<u64, u64>,
    max_deg: usize,
    reached: Ghost<Set<u64>>,
}

impl View for Graph {
    type V = Map<u64, Seq<u64>>;

    closed spec fn view(&self) -> Map<u64, Seq<u64>> {
        multimap_contents(self.adj)
    }
}

impl Graph {
    /// A finite set holding every target of an edge.
    pub closed spec fn targets(&self) -> Set<u64> {
        self.reached@
    }

    /// The largest out-degree.
    pub closed spec fn max_degree_spec(&self) -> nat {
        self.max_deg as nat
    }

    /// Every target of an edge lies in the finite set `targets`, and no vertex has more
    /// out-edges than the recorded maximum.
    pub closed spec fn wf(&self) -> bool {
        &&& self.reached@.finite()
        &&& self@.dom().finite()
        &&& forall|a: u64| #[trigger] out_edges(self@, a).len() <= self.max_deg
        &&& forall|a: u64, i: int|
            self@.dom().contains(a) && 0 <= i < self@[a].len() ==> self.reached@.contains(
                #[trigger] self@[a][i],
            )
    }

    /// The targets of the out-edges of `v` lie in `targets`.
    pub proof fn lemma_targets(&self, v: u64)
        requires
            self.wf(),
        ensures
            self.targets().finite(),
            self@.dom().finite(),
            out_edges(self@, v).len() <= self.max_degree_spec(),
            forall|i: int|
                0 <= i < out_edges(self@, v).len() ==> self.targets().contains(
                    #[trigger] out_edges(self@, v)[i],
                ),
    {
    }

    /// Creates a new empty graph.
    pub fn new() -> (r: Self)
        ensures
            r.wf(),
            r@ == no_edges(),
            r.max_degree_spec() == 0,
    {
        proof {
            assert(no_edges().dom() =~= Set::<u64>::empty());
        }
        Graph { adj: multimap_new(), max_deg: 0, reached: Ghost(Set::empty()) }
    }

    /// Returns the largest out-degree of a vertex.
    pub fn max_degree(&self) -> (r: usize)
        ensures
            r == self.max_degree_spec(),
    {
        self.max_deg
    }

    /// Returns the out-degree of `a`.
    pub fn degree(&self, a: u64) -> (r: usize)
        ensures
            r == out_edges(self@, a).len(),
    {
        multimap_count(&self.adj, a)
    }

    /// Adds an edge from `a` to `b` after the earlier edges of `a`.
    pub fn add_edge(&mut self, a: u64, b: u64)
        requires
            old(self).wf(),
            out_edges(old(self)@, a).len() < usize::MAX,
        ensures
            final(self).wf(),
            final(self)@ == old(self)@.insert(a, out_edges(old(self)@, a).push(b)),
            final(self).max_degree_spec() == if out_edges(old(self)@, a).len() + 1
                > old(self).max_degree_spec() {
                out_edges(old(self)@, a).len() + 1
            } else {
                old(self).max_degree_spec()
            },
    {
        let ghost before = self@;
        let count = multimap_count(&self.adj, a);
        if count + 1 > self.max_deg {
            self.max_deg = count + 1;
        }
        multimap_append(&mut self.adj, a, b);
        self.reached = Ghost(self.reached@.insert(b));
        proof {
            assert(out_edges(before, a).push(b) == if before.dom().contains(a) {
                before[a].push(b)
            } else {
                seq![b]
            }) by {
                if !before.dom().contains(a) {
                    assert(Seq::<u64>::empty().push(b) =~= seq![b]);
                }
            }
            assert forall|x: u64| #[trigger] out_edges(self@, x).len() <= self.max_deg by {
                if x != a {
                    assert(out_edges(self@, x) == out_edges(before, x));
                }
            }
            assert forall|x: u64, i: int|
                self@.dom().contains(x) && 0 <= i < self@[x].len() implies self.reached@.contains(
                #[trigger] self@[x][i],
            ) by {
                if x == a && i == self@[x].len() - 1 {
                } else if x == a {
                    assert(self@[x][i] == before[x][i]);
                }
            }
        }
    }

    /// Checks whether `a` is the source of some edge.
    pub fn has_vertex(&self, a: u64) -> (r: bool)
        ensures
            r == self@.dom().contains(a),
    {
        multimap_contains_key(&self.adj, a)
    }

    /// Returns a [`Star`]: the vertex and its out-neighbours in order.
    pub fn get_star(&self, vertex: u64) -> (r: Star)
        ensures
            r.vertex_spec() == vertex,
            r.edges_spec() == out_edges(self@, vertex),
    {
        Star { edges: multimap_get_all(&self.adj, vertex), vertex }
    }
}

/// A vertex and its out-neighbours.
pub struct Star {
    vertex: u64,
    edges: Vec<u64>,
}

impl Star {
    /// The vertex.
    pub closed spec fn vertex_spec(&self) -> u64 {
        self.vertex
    }

    /// The out-neighbours, in the order their edges were added.
    pub closed spec fn edges_spec(&self) -> Seq<u64> {
        self.edges@
    }

    /// Returns the vertex.
    pub fn vertex(&self) -> (r: u64)
        ensures
            r == self.vertex_spec(),
    {
        self.vertex
    }

    /// Returns the out-neighbours.
    pub fn edges(&self) -> (r: &[u64])
        ensures
            r@ == self.edges_spec(),
    {
        self.edges.as_slice()
    }
}

} // verus!

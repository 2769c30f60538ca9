//! A generic dependency graph over values with a stable string identity:
//! nodes keyed by that identity, adjacency lists in insertion order, cycle
//! detection, a deterministic topological sort, and a diagnostic traversal.

use vstd::prelude::*;
use vstd::set_lib::lemma_len_subset;
use vstd::string::StrSliceExecFns;
use vstd::string::StringExecFns;

use crate::error::DependencyResolvingError;
use crate::error::MorphError;
use crate::error::MorphErrorView;
use crate::error::MorphResult;
use crate::text::concat3;
use crate::text::lex_lt;
use crate::text::str_eq;
use crate::text::str_lt;

verus! {

/// The capability of a value to expose a stable string identity used as
/// its graph key.
pub trait Dependent {
    /// The identity as a character sequence.
    spec fn spec_id(&self) -> Seq<char>;

    /// The stable string identity of this value.
    fn dependent_id(&self) -> (r: &str)
        ensures
            r@ == self.spec_id(),
    ;
}

/// The first position of a key in a sequence of keys; the length when it
/// does not occur.
pub open spec fn first_index_of(s: Seq<Seq<char>>, x: Seq<char>) -> int
    decreases s.len(),
{
    if s.len() == 0 {
        0
    } else if s[0] == x {
        0
    } else {
        1 + first_index_of(s.drop_first(), x)
    }
}

/// Where a key occurs, its first position is in range, holds the key, and
/// nothing before it does; where it does not, the first position is the
/// length.
pub proof fn lemma_first_index_of(s: Seq<Seq<char>>, x: Seq<char>)
    ensures
        s.contains(x) ==> 0 <= first_index_of(s, x) < s.len() && s[first_index_of(s, x)] == x && (
        forall|j: int| 0 <= j < first_index_of(s, x) ==> s[j] != x),
        !s.contains(x) ==> first_index_of(s, x) == s.len(),
    decreases s.len(),
{
    if s.len() > 0 && s[0] != x {
        let rest = s.drop_first();
        lemma_first_index_of(rest, x);
        if !s.contains(x) {
            assert(!rest.contains(x)) by {
                if rest.contains(x) {
                    let j = choose|j: int| 0 <= j < rest.len() && rest[j] == x;
                    assert(s[j + 1] == x);
                }
            }
        } else {
            let j = choose|j: int| 0 <= j < s.len() && s[j] == x;
            assert(rest[j - 1] == x);
            assert(rest.contains(x));
            let f = first_index_of(rest, x);
            assert(first_index_of(s, x) == 1 + f);
            assert(s[1 + f] == x) by {
                assert(rest[f] == x);
            }
            assert forall|k: int| 0 <= k < first_index_of(s, x) implies s[k] != x by {
                if k > 0 {
                    assert(rest[k - 1] == s[k]);
                    assert(rest[k - 1] != x);
                }
            }
        }
    }
}

/// Copies a list of strings.
pub fn clone_string_vec(v: &Vec<String>) -> (r: Vec<String>)
    ensures
        r@ == v@,
        r.deep_view() == v.deep_view(),
{
    let mut out: Vec<String> = Vec::new();
    let n = v.len();
    let mut i: usize = 0;
    while i < n
        invariant
            0 <= i <= n,
            n == v@.len(),
            out@ =~= v@.take(i as int),
        decreases n - i,
    {
        let s = v[i].clone();
        out.push(s);
        proof {
            assert(out@ =~= v@.take(i + 1));
        }
        i = i + 1;
    }
    proof {
        assert(out@ =~= v@);
    }
    out
}

/// Whether a list of strings holds a given string.
pub fn vec_contains_str(v: &Vec<String>, s: &str) -> (r: bool)
    ensures
        r == v.deep_view().contains(s@),
{
    let n = v.len();
    let mut i: usize = 0;
    while i < n
        invariant
            0 <= i <= n,
            n == v@.len(),
            forall|j: int| 0 <= j < i ==> v.deep_view()[j] != s@,
        decreases n - i,
    {
        if str_eq(v[i].as_str(), s) {
            proof {
                assert(v.deep_view()[i as int] == s@);
            }
            return true;
        }
        proof {
            assert(v.deep_view()[i as int] == v@[i as int]@);
        }
        i = i + 1;
    }
    proof {
        if v.deep_view().contains(s@) {
            let j = choose|j: int| 0 <= j < v.deep_view().len() && v.deep_view()[j] == s@;
            assert(false);
        }
    }
    false
}

/// A directed graph whose nodes are keyed by their identity string, with
/// adjacency lists in insertion order; duplicates among the targets are
/// allowed and harmless.
pub struct DependencyGraph<T: Dependent> {
    pub nodes: Vec<(String, T)>,
    pub edges: Vec<(String, Vec<String>)>,
}

impl<T: Dependent> DependencyGraph<T> {
    /// The node keys, in insertion order.
    pub open spec fn node_keys(&self) -> Seq<Seq<char>> {
        Seq::new(self.nodes@.len(), |i: int| self.nodes@[i].0@)
    }

    /// The edge-list keys, in insertion order.
    pub open spec fn edge_keys(&self) -> Seq<Seq<char>> {
        Seq::new(self.edges@.len(), |i: int| self.edges@[i].0@)
    }

    /// Whether a key names a node of the graph.
    pub open spec fn spec_has_node(&self, id: Seq<char>) -> bool {
        self.node_keys().contains(id)
    }

    /// The node value stored under a key.
    pub open spec fn node_at(&self, id: Seq<char>) -> T {
        self.nodes@[first_index_of(self.node_keys(), id)].1
    }

    /// The successor keys of a key, in insertion order; empty where no
    /// edge list exists.
    pub open spec fn successors_of(&self, id: Seq<char>) -> Seq<Seq<char>> {
        if self.edge_keys().contains(id) {
            self.edges@[first_index_of(self.edge_keys(), id)].1.deep_view()
        } else {
            Seq::<Seq<char>>::empty()
        }
    }

    /// Well-formedness: keys are unique on both sides and every edge
    /// endpoint names a node.
    pub open spec fn wf(&self) -> bool {
        &&& self.node_keys().no_duplicates()
        &&& self.edge_keys().no_duplicates()
        &&& forall|i: int|
            0 <= i < self.edges@.len() ==> self.spec_has_node(#[trigger] self.edges@[i].0@)
        &&& forall|i: int, j: int|
            0 <= i < self.edges@.len() && 0 <= j < self.edges@[i].1@.len()
                ==> self.spec_has_node(#[trigger] self.edges@[i].1@[j]@)
    }

    /// Builds a graph from its node and edge lists.
    pub fn new(nodes: Vec<(String, T)>, edges: Vec<(String, Vec<String>)>) -> (g:
        DependencyGraph<T>)
        ensures
            g.nodes == nodes,
            g.edges == edges,
    {
        DependencyGraph { nodes, edges }
    }

    /// The position of a node key, if it names a node.
    pub fn node_index(&self, node_id: &str) -> (r: Option<usize>)
        ensures
            self.spec_has_node(node_id@) ==> (r matches Some(i) && i as int == first_index_of(
                self.node_keys(),
                node_id@,
            )),
            !self.spec_has_node(node_id@) ==> r is None,
    {
        let n = self.nodes.len();
        let mut i: usize = 0;
        proof {
            lemma_first_index_of(self.node_keys(), node_id@);
        }
        while i < n
            invariant
                0 <= i <= n,
                n == self.nodes@.len(),
                forall|j: int| 0 <= j < i ==> self.node_keys()[j] != node_id@,
            decreases n - i,
        {
            if str_eq(self.nodes[i].0.as_str(), node_id) {
                proof {
                    assert(self.node_keys()[i as int] == node_id@);
                    assert(self.spec_has_node(node_id@));
                    lemma_first_index_of(self.node_keys(), node_id@);
                }
                return Some(i);
            }
            i = i + 1;
        }
        proof {
            if self.spec_has_node(node_id@) {
                let j = choose|j: int|
                    0 <= j < self.node_keys().len() && self.node_keys()[j] == node_id@;
                assert(false);
            }
        }
        None
    }

    /// Whether a key names a node of the graph.
    pub fn has_node(&self, node_id: &str) -> (r: bool)
        ensures
            r == self.spec_has_node(node_id@),
    {
        match self.node_index(node_id) {
            Some(_) => true,
            None => false,
        }
    }

    /// The node stored under a key, if it names one.
    pub fn node_by_id(&self, node_id: &str) -> (r: Option<&T>)
        ensures
            self.spec_has_node(node_id@) ==> (r matches Some(t) && *t == self.node_at(node_id@)),
            !self.spec_has_node(node_id@) ==> r is None,
    {
        match self.node_index(node_id) {
            Some(i) => {
                proof {
                    lemma_first_index_of(self.node_keys(), node_id@);
                }
                Some(&self.nodes[i].1)
            },
            None => None,
        }
    }

    /// The successor keys of a key, in insertion order.
    pub fn successor_ids(&self, node_id: &str) -> (r: Vec<String>)
        ensures
            r.deep_view() == self.successors_of(node_id@),
    {
        let n = self.edges.len();
        let mut i: usize = 0;
        proof {
            lemma_first_index_of(self.edge_keys(), node_id@);
        }
        while i < n
            invariant
                0 <= i <= n,
                n == self.edges@.len(),
                forall|j: int| 0 <= j < i ==> self.edge_keys()[j] != node_id@,
            decreases n - i,
        {
            if str_eq(self.edges[i].0.as_str(), node_id) {
                proof {
                    assert(self.edge_keys()[i as int] == node_id@);
                    assert(self.edge_keys().contains(node_id@));
                    lemma_first_index_of(self.edge_keys(), node_id@);
                }
                return clone_string_vec(&self.edges[i].1);
            }
            i = i + 1;
        }
        proof {
            if self.edge_keys().contains(node_id@) {
                let j = choose|j: int|
                    0 <= j < self.edge_keys().len() && self.edge_keys()[j] == node_id@;
                assert(false);
            }
        }
        let empty_ids: Vec<String> = Vec::new();
        proof {
            assert(empty_ids.deep_view() =~= Seq::<Seq<char>>::empty());
        }
        empty_ids
    }

    /// The successor nodes of a key, in the order of its successor keys.
    pub fn successors(&self, node_id: &str) -> (r: Vec<&T>)
        requires
            self.wf(),
        ensures
            r@.len() == self.successors_of(node_id@).len(),
            forall|i: int|
                0 <= i < r@.len() ==> *(#[trigger] r@[i]) == self.node_at(
                    self.successors_of(node_id@)[i],
                ),
    {
        let ids = self.successor_ids(node_id);
        let mut out: Vec<&T> = Vec::new();
        let n = ids.len();
        let mut i: usize = 0;
        while i < n
            invariant
                0 <= i <= n,
                n == ids@.len(),
                ids.deep_view() == self.successors_of(node_id@),
                self.wf(),
                out@.len() == i,
                forall|j: int|
                    0 <= j < i ==> *(#[trigger] out@[j]) == self.node_at(
                        self.successors_of(node_id@)[j],
                    ),
            decreases n - i,
        {
            proof {
                assert(ids.deep_view()[i as int] == ids@[i as int]@);
                assert(self.edge_keys().contains(node_id@)) by {
                    if !self.edge_keys().contains(node_id@) {
                        assert(self.successors_of(node_id@).len() == 0);
                    }
                }
                let k = first_index_of(self.edge_keys(), node_id@);
                lemma_first_index_of(self.edge_keys(), node_id@);
                assert(self.successors_of(node_id@) == self.edges@[k].1.deep_view());
                assert(self.edges@[k].1.deep_view()[i as int] == self.edges@[k].1@[i as int]@);
                assert(self.spec_has_node(self.edges@[k].1@[i as int]@));
                assert(self.spec_has_node(ids@[i as int]@));
            }
            match self.node_by_id(ids[i].as_str()) {
                Some(node) => {
                    out.push(node);
                },
                None => {
                    proof {
                        assert(false);
                    }
                },
            }
            i = i + 1;
        }
        out
    }
}

/// One level of the traversal stack: the node it entered and the
/// successors still to visit, consumed from the back.
pub struct DFSLevel {
    pub start_id: String,
    pub successors: Vec<String>,
}

impl DFSLevel {
    /// A fresh level for a node and its pending successors.
    pub fn new(start_id: String, successors: Vec<String>) -> (r: DFSLevel)
        ensures
            r.start_id == start_id,
            r.successors == successors,
    {
        DFSLevel { start_id, successors }
    }

    /// Takes the next pending successor, from the back.
    pub fn pop_successor(&mut self) -> (r: Option<String>)
        ensures
            old(self).successors@.len() > 0 ==> (r matches Some(s) && s
                == old(self).successors@.last() && final(self).successors@ == old(self).successors@.drop_last()),
            old(self).successors@.len() == 0 ==> r is None && final(self).successors@ == old(self).successors@,
            final(self).start_id == old(self).start_id,
    {
        self.successors.pop()
    }

    /// Whether every successor of this level has been visited.
    pub fn is_ready(&self) -> (r: bool)
        ensures
            r == (self.successors@.len() == 0),
    {
        self.successors.is_empty()
    }
}

/// The rendering of a quoted, comma-separated key list.
pub open spec fn spec_quoted_list(keys: Seq<Seq<char>>, k: int) -> Seq<char>
    decreases k,
    when 0 <= k <= keys.len()
{
    if k <= 0 {
        Seq::<char>::empty()
    } else if k == 1 {
        "\""@ + keys[0] + "\""@
    } else {
        spec_quoted_list(keys, k - 1) + ", "@ + "\""@ + keys[k - 1] + "\""@
    }
}

/// The rendering of a dependency cycle for diagnostics.
pub open spec fn spec_cycle_render(keys: Seq<Seq<char>>) -> Seq<char> {
    "Dependency cycle: ["@ + spec_quoted_list(keys, keys.len() as int) + "]"@
}

/// A non-empty chain of node keys in which each key references the next
/// and the last repeats the first.
#[derive(Debug)]
pub struct DependencyCycle {
    pub nodes: Vec<String>,
}

impl DependencyCycle {
    /// Wraps the keys of a detected cycle.
    pub fn new(nodes: Vec<String>) -> (r: DependencyCycle)
        ensures
            r.nodes == nodes,
    {
        DependencyCycle { nodes }
    }

    /// Renders the cycle for diagnostics.
    pub fn render(&self) -> (r: String)
        ensures
            r@ == spec_cycle_render(self.nodes.deep_view()),
    {
        let mut out = String::from_str("Dependency cycle: [");
        let n = self.nodes.len();
        let mut i: usize = 0;
        let mut body = String::new();
        proof {
            assert(body@ =~= spec_quoted_list(self.nodes.deep_view(), 0));
        }
        while i < n
            invariant
                0 <= i <= n,
                n == self.nodes@.len(),
                n == self.nodes.deep_view().len(),
                body@ == spec_quoted_list(self.nodes.deep_view(), i as int),
            decreases n - i,
        {
            let ghost b0 = body@;
            if i > 0 {
                body.append(", ");
            }
            body.append("\"");
            body.append(self.nodes[i].as_str());
            body.append("\"");
            proof {
                assert(self.nodes.deep_view()[i as int] == self.nodes@[i as int]@);
                assert(body@ =~= spec_quoted_list(self.nodes.deep_view(), i + 1));
            }
            i = i + 1;
        }
        out.append(body.as_str());
        out.append("]");
        proof {
            assert(out@ =~= spec_cycle_render(self.nodes.deep_view()));
        }
        out
    }
}

/// Accumulates nodes and edges for a dependency graph; the first node
/// inserted under a key is kept, and edge targets append in call order.
pub struct DependentGraphBuilder<T: Dependent> {
    pub nodes: Vec<(String, T)>,
    pub edges: Vec<(String, Vec<String>)>,
}

impl<T: Dependent> DependentGraphBuilder<T> {
    /// The node entries accumulated so far.
    pub open spec fn nodes_seq(&self) -> Seq<(String, T)> {
        self.nodes@
    }

    /// The edge entries accumulated so far.
    pub open spec fn edges_seq(&self) -> Seq<(String, Vec<String>)> {
        self.edges@
    }

    /// The node keys accumulated so far.
    pub open spec fn node_keys_b(&self) -> Seq<Seq<char>> {
        Seq::new(self.nodes@.len(), |i: int| self.nodes@[i].0@)
    }

    /// The edge-list keys accumulated so far.
    pub open spec fn edge_keys_b(&self) -> Seq<Seq<char>> {
        Seq::new(self.edges@.len(), |i: int| self.edges@[i].0@)
    }

    /// An empty builder.
    pub fn new() -> (r: DependentGraphBuilder<T>)
        ensures
            r.nodes_seq() == Seq::<(String, T)>::empty(),
            r.edges_seq() == Seq::<(String, Vec<String>)>::empty(),
    {
        let nodes: Vec<(String, T)> = Vec::new();
        let edges: Vec<(String, Vec<String>)> = Vec::new();
        proof {
            assert(nodes@ =~= Seq::<(String, T)>::empty());
            assert(edges@ =~= Seq::<(String, Vec<String>)>::empty());
        }
        DependentGraphBuilder { nodes, edges }
    }

    /// Inserts a node under its identity unless that key is already taken.
    pub fn node(&mut self, node: T)
        ensures
            final(self).model_b() == model_node(old(self).model_b(), node.spec_id()),
            final(self).edges_seq() == old(self).edges_seq(),
            old(self).node_keys_b().contains(node.spec_id()) ==> final(self).nodes_seq() == old(self).nodes_seq(),
            !old(self).node_keys_b().contains(node.spec_id()) ==> (final(self).nodes_seq().drop_last() == old(self).nodes_seq() && final(self).nodes_seq().last().0@ == node.spec_id() && final(self).nodes_seq().last().1 == node
                && final(self).nodes_seq().len() == old(self).nodes_seq().len() + 1),
    {
        let n = self.nodes.len();
        let mut i: usize = 0;
        while i < n
            invariant
                *self == *old(self),
                0 <= i <= n,
                n == self.nodes@.len(),
                forall|j: int| 0 <= j < i ==> self.node_keys_b()[j] != node.spec_id(),
            decreases n - i,
        {
            if str_eq(self.nodes[i].0.as_str(), node.dependent_id()) {
                proof {
                    assert(self.node_keys_b()[i as int] == node.spec_id());
                    assert(self.node_keys_b().contains(node.spec_id()));
                    assert(self.model_b() =~= model_node(old(self).model_b(), node.spec_id()));
                }
                return ;
            }
            i = i + 1;
        }
        proof {
            if self.node_keys_b().contains(node.spec_id()) {
                let j = choose|j: int|
                    0 <= j < self.node_keys_b().len() && self.node_keys_b()[j] == node.spec_id();
                assert(false);
            }
        }
        let key = String::from_str(node.dependent_id());
        let ghost m0 = self.model_b();
        let ghost v0 = self.nodes@;
        self.nodes.push((key, node));
        proof {
            assert(self.nodes@.drop_last() =~= v0);
            assert(self.model_b().keys =~= m0.keys.push(node.spec_id()));
            assert(self.model_b().edges =~= m0.edges);
            assert(self.model_b() =~= model_node(m0, node.spec_id()));
        }
    }

    /// Appends an edge target to the list of its source key, starting a
    /// new list for a source not seen before.
    pub fn edge(&mut self, from: String, to: String)
        ensures
            final(self).model_b() == model_edge(old(self).model_b(), from@, to@),
            final(self).nodes_seq() == old(self).nodes_seq(),
            old(self).edge_keys_b().contains(from@) ==> ({
                let k = first_index_of(old(self).edge_keys_b(), from@);
                &&& final(self).edges_seq().len() == old(self).edges_seq().len()
                &&& forall|i: int|
                    0 <= i < old(self).edges_seq().len() && i != k ==> final(self).edges_seq()[i]
                        == old(self).edges_seq()[i]
                &&& final(self).edges_seq()[k].0 == old(self).edges_seq()[k].0
                &&& final(self).edges_seq()[k].1@ == old(self).edges_seq()[k].1@.push(to)
            }),
            !old(self).edge_keys_b().contains(from@) ==> (final(self).edges_seq().drop_last()
                == old(self).edges_seq() && final(self).edges_seq().last().0 == from && final(self).edges_seq().last().1@ == seq![to] && final(self).edges_seq().len() == old(self).edges_seq().len() + 1),
    {
        let n = self.edges.len();
        let mut i: usize = 0;
        proof {
            lemma_first_index_of(self.edge_keys_b(), from@);
        }
        while i < n
            invariant
                *self == *old(self),
                0 <= i <= n,
                n == self.edges@.len(),
                forall|j: int| 0 <= j < i ==> self.edge_keys_b()[j] != from@,
            decreases n - i,
        {
            if str_eq(self.edges[i].0.as_str(), from.as_str()) {
                proof {
                    assert(self.edge_keys_b()[i as int] == from@);
                    assert(self.edge_keys_b().contains(from@));
                    lemma_first_index_of(self.edge_keys_b(), from@);
                }
                let ghost m0 = self.model_b();
                let mut list = clone_string_vec(&self.edges[i].1);
                list.push(to);
                let key = self.edges[i].0.clone();
                let ghost v0 = self.edges@;
                self.edges.set(i, (key, list));
                proof {
                    assert(self.edges@ == v0.update(i as int, (key, list)));
                    assert(m0.edge_keys()[i as int] == from@);
                    assert(m0.edge_keys().contains(from@));
                    assert forall|j: int| 0 <= j < i implies m0.edge_keys()[j] != from@ by {
                        assert(m0.edge_keys()[j] == v0[j].0@);
                        assert(old(self).edge_keys_b()[j] == v0[j].0@);
                    }
                    assert(first_index_of(m0.edge_keys(), from@) == i as int) by {
                        lemma_first_index_of(m0.edge_keys(), from@);
                    }
                    assert(list.deep_view() =~= m0.edges[i as int].1.push(to@));
                    assert(self.model_b().keys =~= m0.keys);
                    assert(self.model_b().edges =~= m0.edges.update(
                        i as int,
                        (from@, m0.edges[i as int].1.push(to@)),
                    ));
                    assert(self.model_b() =~= model_edge(m0, from@, to@));
                }
                return ;
            }
            i = i + 1;
        }
        proof {
            if self.edge_keys_b().contains(from@) {
                let j = choose|j: int|
                    0 <= j < self.edge_keys_b().len() && self.edge_keys_b()[j] == from@;
                assert(false);
            }
        }
        let ghost m0 = self.model_b();
        let ghost fromv = from@;
        let ghost tov = to@;
        proof {
            assert forall|j: int| 0 <= j < m0.edge_keys().len() implies m0.edge_keys()[j]
                != fromv by {
                assert(m0.edge_keys()[j] == self.edges@[j].0@);
                assert(self.edge_keys_b()[j] == self.edges@[j].0@);
            }
            assert(!m0.edge_keys().contains(fromv)) by {
                if m0.edge_keys().contains(fromv) {
                    let j = choose|j: int|
                        0 <= j < m0.edge_keys().len() && m0.edge_keys()[j] == fromv;
                }
            }
        }
        let mut list: Vec<String> = Vec::new();
        list.push(to);
        proof {
            assert(list@ =~= seq![to]);
        }
        let ghost v0 = self.edges@;
        self.edges.push((from, list));
        proof {
            assert(self.edges@.drop_last() =~= v0);
            assert(list.deep_view() =~= seq![tov]);
            assert(self.model_b().keys =~= m0.keys);
            assert(self.model_b().edges =~= m0.edges.push((fromv, seq![tov])));
            assert(self.model_b() =~= model_edge(m0, fromv, tov));
        }
    }

    /// Finishes the builder into a graph holding exactly what was
    /// accumulated.
    pub fn build(self) -> (g: DependencyGraph<T>)
        ensures
            g.nodes@ == self.nodes_seq(),
            g.edges@ == self.edges_seq(),
            g.model() == self.model_b(),
    {
        let ghost m0 = self.model_b();
        let g = DependencyGraph { nodes: self.nodes, edges: self.edges };
        proof {
            assert(g.model().keys =~= m0.keys);
            assert(g.model().edges =~= m0.edges);
            assert(g.model() =~= m0);
        }
        g
    }
}

/// A sequence with a new element not yet present stays duplicate-free.
pub proof fn lemma_push_no_duplicates(s: Seq<Seq<char>>, x: Seq<char>)
    requires
        s.no_duplicates(),
        !s.contains(x),
    ensures
        s.push(x).no_duplicates(),
{
    let s2 = s.push(x);
    assert forall|i: int, j: int| 0 <= i < s2.len() && 0 <= j < s2.len() && i != j implies s2[i]
        != s2[j] by {
        if i < s.len() && j < s.len() {
        } else if i < s.len() && j == s.len() {
            assert(s2[i] == s[i]);
            assert(!s.contains(x));
        } else if j < s.len() && i == s.len() {
            assert(s2[j] == s[j]);
            assert(!s.contains(x));
        }
    }
}

/// A duplicate-free sequence whose elements all occur among some keys is
/// no longer than those keys.
pub proof fn lemma_no_dup_len(s: Seq<Seq<char>>, keys: Seq<Seq<char>>)
    requires
        s.no_duplicates(),
        forall|i: int| 0 <= i < s.len() ==> keys.contains(#[trigger] s[i]),
    ensures
        s.len() <= keys.len(),
{
    broadcast use vstd::seq_lib::seq_to_set_is_finite;

    s.unique_seq_to_set();
    keys.lemma_cardinality_of_set();
    assert(s.to_set().subset_of(keys.to_set())) by {
        assert forall|x: Seq<char>| s.to_set().contains(x) implies keys.to_set().contains(x) by {
            assert(s.contains(x));
            assert(keys.contains(x));
        }
    }
    lemma_len_subset(s.to_set(), keys.to_set());
}

/// A valid recursion path: duplicate-free and made of node keys.
pub open spec fn spec_cycle_path_ok<T: Dependent>(
    g: &DependencyGraph<T>,
    path: Seq<Seq<char>>,
) -> bool {
    path.no_duplicates() && (forall|i: int|
        0 <= i < path.len() ==> g.node_keys().contains(#[trigger] path[i]))
}

/// The depth-first search for a cycle from one node: a key reappearing on
/// the active path closes a cycle, a key already fully explored is never
/// re-explored, and a fully explored key is marked visited on the way
/// out.  Yields the cycle found, if any, and the visited set reached.
pub open spec fn spec_cycle_node<T: Dependent>(
    g: &DependencyGraph<T>,
    id: Seq<char>,
    visited: Seq<Seq<char>>,
    path: Seq<Seq<char>>,
) -> (Option<Seq<Seq<char>>>, Seq<Seq<char>>)
    decreases g.nodes@.len() - path.len(), 0int, 0int,
    when g.wf() && spec_cycle_path_ok(g, path) && g.node_keys().contains(id)
    via spec_cycle_node_decreases::<T>
{
    if path.contains(id) {
        (Some(path.skip(first_index_of(path, id)).push(id)), visited)
    } else if visited.contains(id) {
        (None, visited)
    } else {
        let (r, v2) = spec_cycle_children(g, g.successors_of(id), 0, visited, path.push(id));
        if r is Some {
            (r, v2)
        } else {
            (None, v2.push(id))
        }
    }
}

/// The walk over one node's successors, threading the visited set; the
/// first cycle found is returned at once.
pub open spec fn spec_cycle_children<T: Dependent>(
    g: &DependencyGraph<T>,
    children: Seq<Seq<char>>,
    j: int,
    visited: Seq<Seq<char>>,
    path: Seq<Seq<char>>,
) -> (Option<Seq<Seq<char>>>, Seq<Seq<char>>)
    decreases g.nodes@.len() - path.len(), 1int, children.len() - j,
    when g.wf() && spec_cycle_path_ok(g, path) && 0 <= j <= children.len() && (forall|i: int|
        0 <= i < children.len() ==> g.node_keys().contains(#[trigger] children[i]))
    via spec_cycle_children_decreases::<T>
{
    if j >= children.len() {
        (None, visited)
    } else {
        let (r, v2) = spec_cycle_node(g, children[j], visited, path);
        if r is Some {
            (r, v2)
        } else {
            spec_cycle_children(g, children, j + 1, v2, path)
        }
    }
}

#[via_fn]
proof fn spec_cycle_node_decreases<T: Dependent>(
    g: &DependencyGraph<T>,
    id: Seq<char>,
    visited: Seq<Seq<char>>,
    path: Seq<Seq<char>>,
) {
    if g.wf() && spec_cycle_path_ok(g, path) && g.node_keys().contains(id) && !path.contains(id)
        && !visited.contains(id) {
        let path2 = path.push(id);
        lemma_push_no_duplicates(path, id);
        assert(forall|i: int| 0 <= i < path2.len() ==> g.node_keys().contains(#[trigger] path2[i]));
        lemma_no_dup_len(path2, g.node_keys());
        assert(g.node_keys().len() == g.nodes@.len());
    }
}

#[via_fn]
proof fn spec_cycle_children_decreases<T: Dependent>(
    g: &DependencyGraph<T>,
    children: Seq<Seq<char>>,
    j: int,
    visited: Seq<Seq<char>>,
    path: Seq<Seq<char>>,
) {
    if g.wf() && spec_cycle_path_ok(g, path) {
        lemma_no_dup_len(path, g.node_keys());
        assert(g.node_keys().len() == g.nodes@.len());
    }
}

/// The fold of the cycle search over the nodes in insertion order,
/// sharing the visited set so no node is explored twice.
pub open spec fn spec_find_cycle_from<T: Dependent>(
    g: &DependencyGraph<T>,
    i: int,
    visited: Seq<Seq<char>>,
) -> Option<Seq<Seq<char>>>
    decreases g.nodes@.len() - i,
    when 0 <= i <= g.nodes@.len()
{
    if i >= g.nodes@.len() {
        None
    } else {
        let (r, v2) = spec_cycle_node(g, g.node_keys()[i], visited, Seq::<Seq<char>>::empty());
        match r {
            Some(c) => Some(c),
            None => spec_find_cycle_from(g, i + 1, v2),
        }
    }
}

/// What cycle detection yields: the first cycle the depth-first search
/// finds over the nodes in insertion order, or nothing if there is none.
pub open spec fn spec_find_cycle<T: Dependent>(g: &DependencyGraph<T>) -> Option<Seq<Seq<char>>> {
    spec_find_cycle_from(g, 0, Seq::<Seq<char>>::empty())
}

impl<T: Dependent> DependencyGraph<T> {
    /// The depth-first search for a cycle from one node, with the active
    /// path and the shared visited set threaded through.
    #[verifier::loop_isolation(false)]
    fn cycle_search(
        &self,
        node_id: &str,
        visited: &mut Vec<String>,
        path: &mut Vec<String>,
    ) -> (r: Option<DependencyCycle>)
        requires
            self.wf(),
            spec_cycle_path_ok(self, old(path).deep_view()),
            self.spec_has_node(node_id@),
        ensures
            ({
                let (sr, sv) = spec_cycle_node(
                    self,
                    node_id@,
                    old(visited).deep_view(),
                    old(path).deep_view(),
                );
                &&& (match r {
                    Some(c) => sr == Some(c.nodes.deep_view()),
                    None => sr is None,
                })
                &&& final(visited).deep_view() == sv
                &&& (r is None ==> final(path).deep_view() == old(path).deep_view()
                    && spec_cycle_path_ok(self, final(path).deep_view()))
            }),
        decreases self.nodes@.len() - path@.len(),
    {
        let ghost pathd0 = path.deep_view();
        let ghost v0 = visited.deep_view();
        let n = path.len();
        let mut i: usize = 0;
        while i < n
            invariant
                0 <= i <= n,
                n == path@.len(),
                forall|j: int| 0 <= j < i ==> path.deep_view()[j] != node_id@,
            decreases n - i,
        {
            if str_eq(path[i].as_str(), node_id) {
                proof {
                    assert(path.deep_view()[i as int] == node_id@);
                    assert(path.deep_view().contains(node_id@));
                    lemma_first_index_of(path.deep_view(), node_id@);
                    assert(first_index_of(path.deep_view(), node_id@) == i as int);
                }
                let mut cycle_nodes: Vec<String> = Vec::new();
                let mut j: usize = i;
                while j < n
                    invariant
                        i <= j <= n,
                        n == path@.len(),
                        cycle_nodes.deep_view() =~= path.deep_view().subrange(i as int, j as int),
                    decreases n - j,
                {
                    let s = path[j].clone();
                    proof {
                        assert(path.deep_view()[j as int] == path@[j as int]@);
                    }
                    let ghost c0 = cycle_nodes.deep_view();
                    let ghost cv0 = cycle_nodes@;
                    cycle_nodes.push(s);
                    proof {
                        assert(c0 == path.deep_view().subrange(i as int, j as int));
                        assert(c0.len() == cv0.len());
                        assert(cv0.len() == j - i);
                        assert(cycle_nodes@ == cv0.push(s));
                        assert forall|k: int| 0 <= k < j - i + 1 implies cycle_nodes.deep_view()[k]
                            == path.deep_view().subrange(i as int, j + 1)[k] by {
                            if k < j - i {
                                assert(cycle_nodes@[k] == cv0[k]);
                                assert(c0[k] == path.deep_view().subrange(i as int, j as int)[k]);
                            } else {
                                assert(cycle_nodes@[k] == s);
                            }
                        }
                        assert(cycle_nodes.deep_view() =~= path.deep_view().subrange(
                            i as int,
                            j + 1,
                        ));
                    }
                    j = j + 1;
                }
                let key = String::from_str(node_id);
                let ghost c0 = cycle_nodes.deep_view();
                let ghost cv0 = cycle_nodes@;
                cycle_nodes.push(key);
                proof {
                    assert(c0 == path.deep_view().subrange(i as int, n as int));
                    assert(c0.len() == cv0.len());
                    assert(cycle_nodes@ == cv0.push(key));
                    assert forall|k: int| 0 <= k < cycle_nodes@.len() implies cycle_nodes.deep_view()[k]
                        == path.deep_view().skip(i as int).push(node_id@)[k] by {
                        if k < cv0.len() {
                            assert(cycle_nodes@[k] == cv0[k]);
                            assert(path.deep_view().skip(i as int) =~= path.deep_view().subrange(
                                i as int,
                                n as int,
                            ));
                        } else {
                            assert(cycle_nodes@[k] == key);
                        }
                    }
                    assert(cycle_nodes.deep_view() =~= path.deep_view().skip(i as int).push(
                        node_id@,
                    ));
                }
                return Some(DependencyCycle::new(cycle_nodes));
            }
            proof {
                assert(path.deep_view()[i as int] == path@[i as int]@);
            }
            i = i + 1;
        }
        proof {
            if path.deep_view().contains(node_id@) {
                let j = choose|j: int|
                    0 <= j < path.deep_view().len() && path.deep_view()[j] == node_id@;
                assert(false);
            }
        }
        if vec_contains_str(visited, node_id) {
            return None;
        }
        path.push(String::from_str(node_id));
        let ghost pathd = path.deep_view();
        proof {
            assert(pathd =~= pathd0.push(node_id@));
            lemma_push_no_duplicates(pathd0, node_id@);
            assert(spec_cycle_path_ok(self, pathd));
        }
        let children = self.successor_ids(node_id);
        let ghost chd = children.deep_view();
        proof {
            assert forall|k: int| 0 <= k < chd.len() implies self.node_keys().contains(
                #[trigger] chd[k],
            ) by {
                assert(self.edge_keys().contains(node_id@)) by {
                    if !self.edge_keys().contains(node_id@) {
                        assert(self.successors_of(node_id@).len() == 0);
                    }
                }
                let e = first_index_of(self.edge_keys(), node_id@);
                lemma_first_index_of(self.edge_keys(), node_id@);
                assert(chd[k] == self.edges@[e].1.deep_view()[k]);
                assert(chd[k] == self.edges@[e].1@[k]@);
                assert(self.spec_has_node(self.edges@[e].1@[k]@));
            }
        }
        let m = children.len();
        let mut j: usize = 0;
        while j < m
            invariant
                0 <= j <= m,
                m == children@.len(),
                children.deep_view() == chd,
                chd == self.successors_of(node_id@),
                forall|k: int| 0 <= k < chd.len() ==> self.node_keys().contains(#[trigger] chd[k]),
                self.wf(),
                path.deep_view() == pathd,
                pathd == pathd0.push(node_id@),
                spec_cycle_path_ok(self, pathd),
                spec_cycle_children(self, chd, 0, v0, pathd) == spec_cycle_children(
                    self,
                    chd,
                    j as int,
                    visited.deep_view(),
                    pathd,
                ),
            decreases m - j,
        {
            proof {
                assert(children.deep_view()[j as int] == children@[j as int]@);
                lemma_no_dup_len(pathd, self.node_keys());
                assert(self.node_keys().len() == self.nodes@.len());
                assert(path.deep_view().len() == path@.len());
                assert(path@.len() == pathd0.len() + 1);
                assert(old(path).deep_view().len() == old(path)@.len());
            }
            let child = &children[j];
            match self.cycle_search(child.as_str(), visited, path) {
                Some(cycle) => {
                    proof {
                        assert(spec_cycle_children(self, chd, 0, v0, pathd).0 == Some(
                            cycle.nodes.deep_view(),
                        ));
                        assert(spec_cycle_node(self, node_id@, v0, pathd0).0 == Some(
                            cycle.nodes.deep_view(),
                        ));
                        assert(spec_cycle_node(self, node_id@, v0, pathd0).1
                            == visited.deep_view());
                    }
                    return Some(cycle);
                },
                None => {},
            }
            j = j + 1;
        }
        proof {
            assert(path.deep_view().len() == path@.len());
            assert(path@.len() == pathd0.len() + 1);
            assert forall|k: int| 0 <= k < path@.len() implies pathd[k] == path@[k].deep_view() by {
                assert(path.deep_view()[k] == path@[k].deep_view());
            }
        }
        let ghost prev = path@;
        let popped = path.pop();
        proof {
            assert(path@ == prev.drop_last());
            assert forall|k: int| 0 <= k < path@.len() implies path.deep_view()[k] == pathd0[k] by {
                assert(path.deep_view()[k] == path@[k].deep_view());
                assert(path@[k] == prev[k]);
                assert(pathd[k] == pathd0[k]);
            }
            assert(path.deep_view().len() == pathd0.len());
            assert(path.deep_view() =~= pathd0);
        }
        let ghost v2 = visited.deep_view();
        visited.push(String::from_str(node_id));
        proof {
            assert(visited.deep_view() =~= v2.push(node_id@));
            assert(spec_cycle_children(self, chd, m as int, v2, pathd) == (
                Option::<Seq<Seq<char>>>::None,
                v2,
            ));
            assert(spec_cycle_node(self, node_id@, v0, pathd0) == (
                Option::<Seq<Seq<char>>>::None,
                v2.push(node_id@),
            ));
        }
        None
    }

    /// The cycle the depth-first search finds from one start node, if any.
    pub fn find_cycle_from_node(&self, start_node_id: &str) -> (r: Option<DependencyCycle>)
        requires
            self.wf(),
            self.spec_has_node(start_node_id@),
        ensures
            ({
                let (sr, sv) = spec_cycle_node(
                    self,
                    start_node_id@,
                    Seq::<Seq<char>>::empty(),
                    Seq::<Seq<char>>::empty(),
                );
                match r {
                    Some(c) => sr == Some(c.nodes.deep_view()),
                    None => sr is None,
                }
            }),
    {
        let mut visited: Vec<String> = Vec::new();
        let mut path: Vec<String> = Vec::new();
        proof {
            assert(visited.deep_view() =~= Seq::<Seq<char>>::empty());
            assert(path.deep_view() =~= Seq::<Seq<char>>::empty());
        }
        self.cycle_search(start_node_id, &mut visited, &mut path)
    }

    /// Finds a dependency cycle if one exists: the first one the search
    /// meets, walking the nodes in insertion order and never re-exploring
    /// a fully explored node.
    pub fn find_cycle(&self) -> (r: Option<DependencyCycle>)
        requires
            self.wf(),
        ensures
            ({
                match r {
                    Some(c) => spec_find_cycle(self) == Some(c.nodes.deep_view()),
                    None => spec_find_cycle(self) is None,
                }
            }),
    {
        let mut visited: Vec<String> = Vec::new();
        let n = self.nodes.len();
        let mut i: usize = 0;
        proof {
            assert(visited.deep_view() =~= Seq::<Seq<char>>::empty());
        }
        while i < n
            invariant
                0 <= i <= n,
                n == self.nodes@.len(),
                self.wf(),
                spec_find_cycle(self) == spec_find_cycle_from(self, i as int, visited.deep_view()),
            decreases n - i,
        {
            let mut path: Vec<String> = Vec::new();
            proof {
                assert(path.deep_view() =~= Seq::<Seq<char>>::empty());
                assert(self.node_keys()[i as int] == self.nodes@[i as int].0@);
                assert(self.spec_has_node(self.nodes@[i as int].0@));
            }
            match self.cycle_search(self.nodes[i].0.as_str(), &mut visited, &mut path) {
                Some(cycle) => {
                    return Some(cycle);
                },
                None => {},
            }
            i = i + 1;
        }
        None
    }
}

/// How often a key occurs in a sequence of keys.
pub open spec fn count_in(s: Seq<Seq<char>>, x: Seq<char>) -> int
    decreases s.len(),
{
    if s.len() == 0 {
        0
    } else {
        count_in(s.drop_last(), x) + if s.last() == x {
            1int
        } else {
            0int
        }
    }
}

/// A count is between zero and the sequence length.
pub proof fn lemma_count_in_bounds(s: Seq<Seq<char>>, x: Seq<char>)
    ensures
        0 <= count_in(s, x) <= s.len(),
    decreases s.len(),
{
    if s.len() > 0 {
        lemma_count_in_bounds(s.drop_last(), x);
    }
}

/// How many edge targets over the given edge lists name a key.
pub open spec fn spec_incoming_in(edges: Seq<(String, Vec<String>)>, k: Seq<char>) -> int
    decreases edges.len(),
{
    if edges.len() == 0 {
        0
    } else {
        spec_incoming_in(edges.drop_last(), k) + count_in(edges.last().1.deep_view(), k)
    }
}

/// How many edge targets the given edge lists hold in all.
pub open spec fn spec_total_targets_in(edges: Seq<(String, Vec<String>)>) -> int
    decreases edges.len(),
{
    if edges.len() == 0 {
        0
    } else {
        spec_total_targets_in(edges.drop_last()) + edges.last().1@.len()
    }
}

/// The incoming count of any key is between zero and the total number of
/// edge targets.
pub proof fn lemma_incoming_bounds(edges: Seq<(String, Vec<String>)>, k: Seq<char>)
    ensures
        0 <= spec_incoming_in(edges, k) <= spec_total_targets_in(edges),
    decreases edges.len(),
{
    if edges.len() > 0 {
        lemma_incoming_bounds(edges.drop_last(), k);
        lemma_count_in_bounds(edges.last().1.deep_view(), k);
        assert(edges.last().1.deep_view().len() == edges.last().1@.len());
    }
}

/// A count over a prefix never exceeds the count over the whole sequence.
pub proof fn lemma_count_take_le(s: Seq<Seq<char>>, j: int, x: Seq<char>)
    requires
        0 <= j <= s.len(),
    ensures
        count_in(s.take(j), x) <= count_in(s, x),
        0 <= count_in(s.take(j), x),
    decreases s.len() - j,
{
    lemma_count_in_bounds(s.take(j), x);
    if j < s.len() {
        assert(s.take(j + 1).drop_last() =~= s.take(j));
        assert(count_in(s.take(j + 1), x) >= count_in(s.take(j), x));
        lemma_count_take_le(s, j + 1, x);
        assert(s.take(s.len() as int) =~= s);
    } else {
        assert(s.take(j) =~= s);
    }
}

/// An incoming count over an edge prefix never exceeds the count over all
/// edges.
pub proof fn lemma_incoming_take_le(edges: Seq<(String, Vec<String>)>, j: int, k: Seq<char>)
    requires
        0 <= j <= edges.len(),
    ensures
        spec_incoming_in(edges.take(j), k) <= spec_incoming_in(edges, k),
        0 <= spec_incoming_in(edges.take(j), k),
    decreases edges.len() - j,
{
    lemma_incoming_bounds(edges.take(j), k);
    if j < edges.len() {
        assert(edges.take(j + 1).drop_last() =~= edges.take(j));
        lemma_count_in_bounds(edges.take(j + 1).last().1.deep_view(), k);
        assert(spec_incoming_in(edges.take(j + 1), k) >= spec_incoming_in(edges.take(j), k));
        lemma_incoming_take_le(edges, j + 1, k);
        assert(edges.take(edges.len() as int) =~= edges);
    } else {
        assert(edges.take(j) =~= edges);
    }
}

impl<T: Dependent> DependencyGraph<T> {
    /// How many edge targets of the whole graph name a key.
    pub open spec fn spec_incoming(&self, k: Seq<char>) -> int {
        spec_incoming_in(self.edges@, k)
    }

    /// How many edge targets the whole graph holds.
    pub open spec fn spec_total_targets(&self) -> int {
        spec_total_targets_in(self.edges@)
    }

    /// The initial in-degrees, one per node in insertion order.
    pub open spec fn spec_init_degrees(&self) -> Seq<int> {
        Seq::new(self.nodes@.len(), |i: int| self.spec_incoming(self.node_keys()[i]))
    }

    /// The node positions whose in-degree is zero among the first `i`
    /// nodes, in insertion order.
    pub open spec fn spec_zero_list(&self, i: int) -> Seq<int>
        decreases i,
        when 0 <= i <= self.nodes@.len()
    {
        if i <= 0 {
            Seq::<int>::empty()
        } else {
            self.spec_zero_list(i - 1) + (if self.spec_incoming(self.node_keys()[i - 1]) == 0 {
                seq![i - 1]
            } else {
                Seq::<int>::empty()
            })
        }
    }
}

/// The position, within the ready list, of the node whose key is
/// lexicographically least; the earliest such position on a tie.
pub open spec fn spec_min_pos(keys: Seq<Seq<char>>, ready: Seq<int>) -> int
    decreases ready.len(),
{
    if ready.len() <= 1 {
        0
    } else {
        let m = spec_min_pos(keys, ready.drop_last());
        if lex_lt(keys[ready.last()], keys[ready[m]]) {
            ready.len() - 1
        } else {
            m
        }
    }
}

/// The least position is in range.
pub proof fn lemma_min_pos_bounds(keys: Seq<Seq<char>>, ready: Seq<int>)
    requires
        ready.len() > 0,
    ensures
        0 <= spec_min_pos(keys, ready) < ready.len(),
    decreases ready.len(),
{
    if ready.len() > 1 {
        lemma_min_pos_bounds(keys, ready.drop_last());
    }
}

/// How many in-degrees are still positive.
pub open spec fn pos_count(degrees: Seq<int>) -> int
    decreases degrees.len(),
{
    if degrees.len() == 0 {
        0
    } else {
        pos_count(degrees.drop_last()) + if degrees.last() > 0 {
            1int
        } else {
            0int
        }
    }
}

/// The positive count is non-negative.
pub proof fn lemma_pos_count_nonneg(degrees: Seq<int>)
    ensures
        pos_count(degrees) >= 0,
    decreases degrees.len(),
{
    if degrees.len() > 0 {
        lemma_pos_count_nonneg(degrees.drop_last());
    }
}

/// Updating one in-degree moves the positive count by whether the old and
/// new values are positive.
pub proof fn lemma_pos_count_update(degrees: Seq<int>, idx: int, v: int)
    requires
        0 <= idx < degrees.len(),
    ensures
        pos_count(degrees.update(idx, v)) == pos_count(degrees) - (if degrees[idx] > 0 {
            1int
        } else {
            0int
        }) + (if v > 0 {
            1int
        } else {
            0int
        }),
    decreases degrees.len(),
{
    let up = degrees.update(idx, v);
    if idx == degrees.len() - 1 {
        assert(up.drop_last() =~= degrees.drop_last());
        assert(up.last() == v);
        assert(degrees.last() == degrees[idx]);
    } else {
        assert(up.drop_last() =~= degrees.drop_last().update(idx, v));
        lemma_pos_count_update(degrees.drop_last(), idx, v);
        assert(up.last() == degrees.last());
        assert(degrees.drop_last()[idx] == degrees[idx]);
    }
}

/// One round of decrements: each successor's in-degree falls by one, a
/// spent degree resting at minus one, and a node reaching exactly zero
/// joins the ready list.
pub open spec fn spec_topo_dec<T: Dependent>(
    g: &DependencyGraph<T>,
    succs: Seq<Seq<char>>,
    j: int,
    degrees: Seq<int>,
    ready: Seq<int>,
) -> (Seq<int>, Seq<int>)
    decreases succs.len() - j,
    when 0 <= j <= succs.len()
{
    if j >= succs.len() {
        (degrees, ready)
    } else {
        let idx = first_index_of(g.node_keys(), succs[j]);
        let nd = if degrees[idx] <= 0 {
            -1int
        } else {
            degrees[idx] - 1
        };
        let d2 = degrees.update(idx, nd);
        let r2 = if nd == 0 {
            ready.push(idx)
        } else {
            ready
        };
        spec_topo_dec(g, succs, j + 1, d2, r2)
    }
}

/// A round of decrements never increases the ready length plus the
/// positive count.
pub proof fn lemma_topo_dec_metric<T: Dependent>(
    g: &DependencyGraph<T>,
    succs: Seq<Seq<char>>,
    j: int,
    degrees: Seq<int>,
    ready: Seq<int>,
)
    requires
        0 <= j <= succs.len(),
        forall|i: int| 0 <= i < succs.len() ==> 0 <= first_index_of(g.node_keys(), #[trigger] succs[i]) < degrees.len(),
    ensures
        ({
            let (d2, r2) = spec_topo_dec(g, succs, j, degrees, ready);
            r2.len() + pos_count(d2) <= ready.len() + pos_count(degrees) && d2.len()
                == degrees.len()
        }),
    decreases succs.len() - j,
{
    if j < succs.len() {
        let idx = first_index_of(g.node_keys(), succs[j]);
        let nd = if degrees[idx] <= 0 {
            -1int
        } else {
            degrees[idx] - 1
        };
        let d2 = degrees.update(idx, nd);
        let r2 = if nd == 0 {
            ready.push(idx)
        } else {
            ready
        };
        lemma_pos_count_update(degrees, idx, nd);
        lemma_topo_dec_metric(g, succs, j + 1, d2, r2);
    }
}

/// Kahn's algorithm: while any node is ready, emit the one with the
/// lexicographically least key, and release its successors.  Yields the
/// emission order as node positions and the final in-degrees.
pub open spec fn spec_topo_loop<T: Dependent>(
    g: &DependencyGraph<T>,
    degrees: Seq<int>,
    ready: Seq<int>,
    out: Seq<int>,
) -> (Seq<int>, Seq<int>)
    decreases ready.len() + pos_count(degrees),
    when degrees.len() == g.nodes@.len() && (forall|i: int|
        0 <= i < ready.len() ==> 0 <= #[trigger] ready[i] < g.nodes@.len()) && g.wf()
    via spec_topo_loop_decreases::<T>
{
    if ready.len() == 0 {
        (out, degrees)
    } else {
        let m = spec_min_pos(g.node_keys(), ready);
        let idx = ready[m];
        let r1 = ready.remove(m);
        let (d2, r2) = spec_topo_dec(g, g.successors_of(g.node_keys()[idx]), 0, degrees, r1);
        spec_topo_loop(g, d2, r2, out.push(idx))
    }
}

#[via_fn]
proof fn spec_topo_loop_decreases<T: Dependent>(
    g: &DependencyGraph<T>,
    degrees: Seq<int>,
    ready: Seq<int>,
    out: Seq<int>,
) {
    if degrees.len() == g.nodes@.len() && (forall|i: int|
        0 <= i < ready.len() ==> 0 <= #[trigger] ready[i] < g.nodes@.len()) && g.wf()
        && ready.len() > 0 {
        let m = spec_min_pos(g.node_keys(), ready);
        lemma_min_pos_bounds(g.node_keys(), ready);
        let idx = ready[m];
        let r1 = ready.remove(m);
        let succs = g.successors_of(g.node_keys()[idx]);
        lemma_succs_index_bounds(g, g.node_keys()[idx], degrees.len() as int);
        lemma_topo_dec_metric(g, succs, 0, degrees, r1);
        lemma_pos_count_nonneg(degrees);
        let (d2, r2) = spec_topo_dec(g, succs, 0, degrees, r1);
        lemma_pos_count_nonneg(d2);
    }
}

/// In a well-formed graph every successor key occurs among the node keys,
/// so its first position is in range.
pub proof fn lemma_succs_index_bounds<T: Dependent>(
    g: &DependencyGraph<T>,
    id: Seq<char>,
    bound: int,
)
    requires
        g.wf(),
        bound == g.nodes@.len(),
    ensures
        forall|i: int|
            0 <= i < g.successors_of(id).len() ==> 0 <= first_index_of(
                g.node_keys(),
                #[trigger] g.successors_of(id)[i],
            ) < bound,
{
    assert forall|i: int| 0 <= i < g.successors_of(id).len() implies 0 <= first_index_of(
        g.node_keys(),
        #[trigger] g.successors_of(id)[i],
    ) < bound by {
        if g.edge_keys().contains(id) {
            let e = first_index_of(g.edge_keys(), id);
            lemma_first_index_of(g.edge_keys(), id);
            assert(g.successors_of(id)[i] == g.edges@[e].1.deep_view()[i]);
            assert(g.successors_of(id)[i] == g.edges@[e].1@[i]@);
            assert(g.spec_has_node(g.edges@[e].1@[i]@));
            lemma_first_index_of(g.node_keys(), g.successors_of(id)[i]);
        } else {
            assert(g.successors_of(id).len() == 0);
        }
    }
}

/// The message of the error reported for a node left out of the emission
/// order.
pub open spec fn spec_topo_error_message(k: Seq<char>) -> Seq<char> {
    "node '"@ + k + "' does not have all necessary dependencies"@
}

/// One error per node whose final in-degree is not zero, among the first
/// `i` nodes, in insertion order.
pub open spec fn spec_topo_errors<T: Dependent>(
    g: &DependencyGraph<T>,
    degrees: Seq<int>,
    i: int,
) -> Seq<MorphErrorView>
    decreases i,
    when 0 <= i <= degrees.len()
{
    if i <= 0 {
        Seq::<MorphErrorView>::empty()
    } else {
        spec_topo_errors(g, degrees, i - 1) + (if degrees[i - 1] != 0 {
            seq![
                MorphErrorView::DependencyResolving(
                    crate::error::DependencyResolvingErrorView {
                        message: spec_topo_error_message(g.node_keys()[i - 1]),
                    },
                ),
            ]
        } else {
            Seq::<MorphErrorView>::empty()
        })
    }
}

/// What the topological sort yields: the emission order and final
/// in-degrees of Kahn's algorithm seeded with the zero in-degree nodes.
pub open spec fn spec_topo<T: Dependent>(g: &DependencyGraph<T>) -> (Seq<int>, Seq<int>) {
    spec_topo_loop(
        g,
        g.spec_init_degrees(),
        g.spec_zero_list(g.nodes@.len() as int),
        Seq::<int>::empty(),
    )
}

/// The in-degree positions as mathematical integers.
pub open spec fn ints_of(s: Seq<usize>) -> Seq<int> {
    Seq::new(s.len(), |i: int| s[i] as int)
}

/// The in-degree values as mathematical integers.
pub open spec fn ints64_of(s: Seq<i64>) -> Seq<int> {
    Seq::new(s.len(), |i: int| s[i] as int)
}

impl<T: Dependent> DependencyGraph<T> {
    /// A deterministic topological sort by Kahn's algorithm: in-degrees are
    /// counted from the edge set, the zero in-degree nodes seed the ready
    /// list, and among simultaneously ready nodes the lexicographically
    /// least key is always emitted next.  When the order cannot cover every
    /// node, one error per node left out is reported, in insertion order.
    #[verifier::loop_isolation(false)]
    #[verifier::rlimit(100)]
    #[verifier::spinoff_prover]
    pub fn topological_sort(&self) -> (r: MorphResult<Vec<&T>>)
        requires
            self.wf(),
            self.spec_total_targets() <= 0x7fffffffffffffff,
        ensures
            ({
                let (out, final_degrees) = spec_topo(self);
                &&& (out.len() == self.nodes@.len() ==> (r matches MorphResult::Success(v)
                    && v@.len() == out.len() && (forall|i: int|
                    0 <= i < out.len() ==> *(#[trigger] v@[i]) == self.nodes@[out[i]].1)))
                &&& (out.len() != self.nodes@.len() ==> (r matches MorphResult::Errors(es)
                    && es.deep_view() == spec_topo_errors(
                    self,
                    final_degrees,
                    final_degrees.len() as int,
                )))
            }),
    {
        let k = self.nodes.len();

        let mut degrees: Vec<i64> = Vec::new();
        let mut i: usize = 0;
        while i < k
            invariant
                0 <= i <= k,
                degrees@.len() == i,
                forall|t: int|
                    0 <= t < i ==> #[trigger] degrees@[t] as int == self.spec_incoming(
                        self.node_keys()[t],
                    ),
            decreases k - i,
        {
            let key = &self.nodes[i].0;
            let mut c: i64 = 0;
            let ne = self.edges.len();
            let mut e: usize = 0;
            proof {
                assert(self.edges@.take(0) =~= Seq::<(String, Vec<String>)>::empty());
            }
            while e < ne
                invariant
                    0 <= e <= ne,
                    c as int == spec_incoming_in(self.edges@.take(e as int), key@),
                decreases ne - e,
            {
                let list = &self.edges[e].1;
                let nt = list.len();
                let mut t: usize = 0;
                proof {
                    assert(list.deep_view().take(0) =~= Seq::<Seq<char>>::empty());
                }
                while t < nt
                    invariant
                        0 <= t <= nt,
                        c as int == spec_incoming_in(self.edges@.take(e as int), key@) + count_in(
                            list.deep_view().take(t as int),
                            key@,
                        ),
                    decreases nt - t,
                {
                    proof {
                        assert(list.deep_view().take(t + 1).drop_last() =~= list.deep_view().take(
                            t as int,
                        ));
                        assert(list.deep_view().take(t + 1).last() == list.deep_view()[t as int]);
                        assert(list.deep_view()[t as int] == list@[t as int]@);
                        lemma_count_take_le(list.deep_view(), t + 1, key@);
                        assert(self.edges@.take(e + 1).drop_last() =~= self.edges@.take(e as int));
                        assert(self.edges@.take(e + 1).last() == self.edges@[e as int]);
                        lemma_incoming_take_le(self.edges@, e + 1, key@);
                        lemma_incoming_bounds(self.edges@, key@);
                        assert(spec_incoming_in(self.edges@.take(e as int), key@) + count_in(
                            list.deep_view().take(t + 1),
                            key@,
                        ) <= spec_incoming_in(self.edges@.take(e + 1), key@));
                    }
                    if str_eq(list[t].as_str(), key.as_str()) {
                        c = c + 1;
                    }
                    t = t + 1;
                }
                proof {
                    assert(list.deep_view().take(nt as int) =~= list.deep_view());
                    assert(self.edges@.take(e + 1).drop_last() =~= self.edges@.take(e as int));
                    assert(self.edges@.take(e + 1).last() == self.edges@[e as int]);
                }
                e = e + 1;
            }
            proof {
                assert(self.edges@.take(ne as int) =~= self.edges@);
                assert(self.node_keys()[i as int] == self.nodes@[i as int].0@);
            }
            degrees.push(c);
            i = i + 1;
        }
        proof {
            assert(ints64_of(degrees@) =~= self.spec_init_degrees());
        }

        let mut ready: Vec<usize> = Vec::new();
        let mut z: usize = 0;
        proof {
            assert(ints_of(ready@) =~= self.spec_zero_list(0));
        }
        while z < k
            invariant
                0 <= z <= k,
                ints_of(ready@) == self.spec_zero_list(z as int),
                forall|t: int| 0 <= t < ready@.len() ==> (#[trigger] ready@[t]) < k,
            decreases k - z,
        {
            if degrees[z] == 0 {
                let ghost rv0 = ready@;
                ready.push(z);
                proof {
                    assert(ints_of(ready@) =~= ints_of(rv0).push(z as int));
                    assert(ints_of(ready@) =~= self.spec_zero_list(z + 1));
                }
            } else {
                proof {
                    assert(ints_of(ready@) =~= self.spec_zero_list(z + 1));
                }
            }
            z = z + 1;
        }

        let mut result: Vec<&T> = Vec::new();
        let ghost mut out_g: Seq<int> = Seq::<int>::empty();
        proof {
            assert(spec_topo(self) == spec_topo_loop(
                self,
                ints64_of(degrees@),
                ints_of(ready@),
                out_g,
            ));
        }
        while ready.len() > 0
            invariant
                degrees@.len() == k,
                forall|t: int| 0 <= t < ready@.len() ==> (#[trigger] ready@[t]) < k,
                spec_topo(self) == spec_topo_loop(
                    self,
                    ints64_of(degrees@),
                    ints_of(ready@),
                    out_g,
                ),
                result@.len() == out_g.len(),
                forall|t: int|
                    0 <= t < out_g.len() ==> 0 <= #[trigger] out_g[t] < k && *result@[t]
                        == self.nodes@[out_g[t]].1,
            decreases ints_of(ready@).len() + pos_count(ints64_of(degrees@)),
        {
            let ghost keysg = self.node_keys();
            let ghost ready0 = ints_of(ready@);
            let ghost degrees0_g = ints64_of(degrees@);
            let rn = ready.len();
            let mut mpos: usize = 0;
            let mut s: usize = 1;
            proof {
                assert(ready0.take(1).len() == 1);
                assert(spec_min_pos(keysg, ready0.take(1)) == 0);
            }
            while s < rn
                invariant
                    1 <= s <= rn,
                    0 <= mpos < s,
                    mpos as int == spec_min_pos(keysg, ready0.take(s as int)),
                decreases rn - s,
            {
                proof {
                    assert(ready0.take(s + 1).drop_last() =~= ready0.take(s as int));
                    assert(ready0.take(s + 1).last() == ready0[s as int]);
                    assert(ready0[s as int] == ready@[s as int] as int);
                    assert(ready0.take(s as int)[mpos as int] == ready@[mpos as int] as int);
                    assert(keysg[ready@[s as int] as int] == self.nodes@[ready@[s as int] as int].0@);
                    assert(keysg[ready@[mpos as int] as int]
                        == self.nodes@[ready@[mpos as int] as int].0@);
                }
                if str_lt(self.nodes[ready[s]].0.as_str(), self.nodes[ready[mpos]].0.as_str()) {
                    mpos = s;
                }
                s = s + 1;
            }
            proof {
                assert(ready0.take(rn as int) =~= ready0);
                lemma_min_pos_bounds(keysg, ready0);
            }
            let idx = ready[mpos];
            proof {
                assert(ready0[mpos as int] == idx as int);
            }
            ready.remove(mpos);
            proof {
                assert(ints_of(ready@) =~= ready0.remove(mpos as int));
            }
            let ghost r1 = ints_of(ready@);
            let succs = self.successor_ids(self.nodes[idx].0.as_str());
            let ghost succsd = succs.deep_view();
            proof {
                assert(keysg[idx as int] == self.nodes@[idx as int].0@);
                assert(succsd == self.successors_of(keysg[idx as int]));
                lemma_succs_index_bounds(self, keysg[idx as int], k as int);
            }
            let sn = succs.len();
            let mut sj: usize = 0;
            while sj < sn
                invariant
                    0 <= sj <= sn,
                    degrees@.len() == k,
                    forall|t: int| 0 <= t < ready@.len() ==> (#[trigger] ready@[t]) < k,
                    spec_topo_dec(self, succsd, 0, degrees0_g, r1) == spec_topo_dec(
                        self,
                        succsd,
                        sj as int,
                        ints64_of(degrees@),
                        ints_of(ready@),
                    ),
                decreases sn - sj,
            {
                proof {
                    assert(succs.deep_view()[sj as int] == succs@[sj as int]@);
                    assert(self.spec_has_node(succsd[sj as int])) by {
                        lemma_succs_target_is_node(self, keysg[idx as int], sj as int);
                    }
                }
                match self.node_index(succs[sj].as_str()) {
                    Some(idx2) => {
                        proof {
                            lemma_first_index_of(keysg, succsd[sj as int]);
                        }
                        let d = degrees[idx2];
                        let nd: i64 = if d <= 0 {
                            -1
                        } else {
                            d - 1
                        };
                        let ghost dints0 = ints64_of(degrees@);
                        let ghost rints0 = ints_of(ready@);
                        degrees.set(idx2, nd);
                        proof {
                            assert(ints64_of(degrees@) =~= dints0.update(idx2 as int, nd as int));
                        }
                        if nd == 0 {
                            let ghost rv0 = ready@;
                            ready.push(idx2);
                            proof {
                                assert(ints_of(ready@) =~= rints0.push(idx2 as int));
                            }
                        }
                    },
                    None => {
                        proof {
                            assert(false);
                        }
                    },
                }
                sj = sj + 1;
            }
            result.push(&self.nodes[idx].1);
            proof {
                let (d2, r2) = spec_topo_dec(self, succsd, 0, degrees0_g, r1);
                assert(d2 == ints64_of(degrees@));
                assert(r2 == ints_of(ready@));
                assert(spec_topo_loop(self, degrees0_g, ready0, out_g) == spec_topo_loop(
                    self,
                    d2,
                    r2,
                    out_g.push(idx as int),
                ));
                out_g = out_g.push(idx as int);
                lemma_topo_dec_metric(self, succsd, 0, degrees0_g, r1);
                lemma_pos_count_nonneg(ints64_of(degrees@));
            }
        }
        proof {
            assert(spec_topo(self) == (out_g, ints64_of(degrees@)));
            assert(spec_topo(self).1.len() == k);
        }

        if result.len() == k {
            return MorphResult::Success(result);
        }
        let mut errors: Vec<MorphError> = Vec::new();
        let mut q: usize = 0;
        proof {
            assert(errors.deep_view() =~= spec_topo_errors(self, spec_topo(self).1, 0));
        }
        while q < k
            invariant
                0 <= q <= k,
                errors.deep_view() == spec_topo_errors(self, spec_topo(self).1, q as int),
            decreases k - q,
        {
            let ghost ed0 = errors.deep_view();
            if degrees[q] != 0 {
                let message = concat3(
                    "node '",
                    self.nodes[q].0.as_str(),
                    "' does not have all necessary dependencies",
                );
                proof {
                    assert(message@ == spec_topo_error_message(self.node_keys()[q as int]));
                }
                errors.push(MorphError::DependencyResolving(DependencyResolvingError { message }));
                proof {
                    assert(errors.deep_view() =~= spec_topo_errors(self, spec_topo(self).1, q + 1));
                }
            } else {
                proof {
                    assert(errors.deep_view() =~= spec_topo_errors(self, spec_topo(self).1, q + 1));
                }
            }
            q = q + 1;
        }
        MorphResult::Errors(errors)
    }
}

/// In a well-formed graph, each successor key names a node.
pub proof fn lemma_succs_target_is_node<T: Dependent>(
    g: &DependencyGraph<T>,
    id: Seq<char>,
    i: int,
)
    requires
        g.wf(),
        0 <= i < g.successors_of(id).len(),
    ensures
        g.spec_has_node(g.successors_of(id)[i]),
{
    if g.edge_keys().contains(id) {
        let e = first_index_of(g.edge_keys(), id);
        lemma_first_index_of(g.edge_keys(), id);
        assert(g.successors_of(id)[i] == g.edges@[e].1.deep_view()[i]);
        assert(g.successors_of(id)[i] == g.edges@[e].1@[i]@);
        assert(g.spec_has_node(g.edges@[e].1@[i]@));
    } else {
        assert(g.successors_of(id).len() == 0);
    }
}

/// One event of the diagnostic traversal: entering or leaving a node at a
/// stack depth.
#[derive(Debug)]
pub struct DfsEvent {
    pub id: String,
    pub depth: usize,
    pub enter: bool,
}

/// The model of a `DfsEvent`.
pub struct DfsEventView {
    pub id: Seq<char>,
    pub depth: int,
    pub enter: bool,
}

impl View for DfsEvent {
    type V = DfsEventView;

    open spec fn view(&self) -> DfsEventView {
        DfsEventView { id: self.id@, depth: self.depth as int, enter: self.enter }
    }
}

impl DeepView for DfsEvent {
    type V = DfsEventView;

    open spec fn deep_view(&self) -> DfsEventView {
        self.view()
    }
}

/// The event of entering a node at a stack depth.
pub open spec fn spec_dfs_enter(id: Seq<char>, depth: int) -> DfsEventView {
    DfsEventView { id, depth, enter: true }
}

/// The event of leaving a node at a stack depth.
pub open spec fn spec_dfs_exit(id: Seq<char>, depth: int) -> DfsEventView {
    DfsEventView { id, depth, enter: false }
}

/// The events of one visit: entering the node at the depth of the active
/// path, the walks of its successors taken from the back of the list, and
/// leaving it one level deeper.
pub open spec fn spec_dfs_visit<T: Dependent>(
    g: &DependencyGraph<T>,
    id: Seq<char>,
    path: Seq<Seq<char>>,
) -> Seq<DfsEventView>
    decreases g.nodes@.len() - path.len(), 0int, 0int,
    when g.wf() && spec_cycle_path_ok(g, path) && g.node_keys().contains(id) && !path.contains(id)
    via spec_dfs_visit_decreases::<T>
{
    seq![spec_dfs_enter(id, path.len() as int)] + spec_dfs_children(
        g,
        g.successors_of(id),
        g.successors_of(id).len() as int,
        path.push(id),
    ) + seq![spec_dfs_exit(id, path.len() as int + 1)]
}

/// The walks of the successors still pending, consumed from the back of
/// the list; a successor already on the active path is skipped, so the
/// traversal terminates on any graph and is unchanged on an acyclic one.
pub open spec fn spec_dfs_children<T: Dependent>(
    g: &DependencyGraph<T>,
    children: Seq<Seq<char>>,
    j: int,
    path: Seq<Seq<char>>,
) -> Seq<DfsEventView>
    decreases g.nodes@.len() - path.len(), 1int, j,
    when g.wf() && spec_cycle_path_ok(g, path) && 0 <= j <= children.len() && (forall|i: int|
        0 <= i < children.len() ==> g.node_keys().contains(#[trigger] children[i]))
    via spec_dfs_children_decreases::<T>
{
    if j <= 0 {
        Seq::<DfsEventView>::empty()
    } else {
        (if path.contains(children[j - 1]) {
            Seq::<DfsEventView>::empty()
        } else {
            spec_dfs_visit(g, children[j - 1], path)
        }) + spec_dfs_children(g, children, j - 1, path)
    }
}

#[via_fn]
proof fn spec_dfs_visit_decreases<T: Dependent>(
    g: &DependencyGraph<T>,
    id: Seq<char>,
    path: Seq<Seq<char>>,
) {
    if g.wf() && spec_cycle_path_ok(g, path) && g.node_keys().contains(id) && !path.contains(id) {
        let path2 = path.push(id);
        lemma_push_no_duplicates(path, id);
        assert(forall|i: int| 0 <= i < path2.len() ==> g.node_keys().contains(#[trigger] path2[i]));
        lemma_no_dup_len(path2, g.node_keys());
        assert(g.node_keys().len() == g.nodes@.len());
    }
}

#[via_fn]
proof fn spec_dfs_children_decreases<T: Dependent>(
    g: &DependencyGraph<T>,
    children: Seq<Seq<char>>,
    j: int,
    path: Seq<Seq<char>>,
) {
    if g.wf() && spec_cycle_path_ok(g, path) {
        lemma_no_dup_len(path, g.node_keys());
        assert(g.node_keys().len() == g.nodes@.len());
    }
}

/// What the diagnostic traversal from a start key yields: nothing for a
/// missing start, else the events of visiting it with an empty active
/// path.
pub open spec fn spec_dfs_events<T: Dependent>(
    g: &DependencyGraph<T>,
    start: Seq<char>,
) -> Seq<DfsEventView> {
    if g.spec_has_node(start) {
        spec_dfs_visit(g, start, Seq::<Seq<char>>::empty())
    } else {
        Seq::<DfsEventView>::empty()
    }
}

impl<T: Dependent> DependencyGraph<T> {
    /// One visit of the diagnostic traversal: an enter event, the
    /// successors in reverse insertion order, and an exit event one level
    /// deeper, appending exactly the events `spec_dfs_visit` describes.
    #[verifier::loop_isolation(false)]
    fn dfs_visit(
        &self,
        node_id: &str,
        depth: usize,
        path: &mut Vec<String>,
        events: &mut Vec<DfsEvent>,
    )
        requires
            self.wf(),
            self.spec_has_node(node_id@),
            spec_cycle_path_ok(self, old(path).deep_view()),
            !old(path).deep_view().contains(node_id@),
            depth as int == old(path)@.len(),
        ensures
            final(path).deep_view() == old(path).deep_view(),
            final(events).deep_view() == old(events).deep_view() + spec_dfs_visit(
                self,
                node_id@,
                old(path).deep_view(),
            ),
        decreases self.nodes@.len() - old(path)@.len(),
    {
        let k = self.nodes.len();
        let ghost e0 = events.deep_view();
        let ghost enter_ev = spec_dfs_enter(node_id@, depth as int);
        events.push(DfsEvent { id: String::from_str(node_id), depth, enter: true });
        proof {
            assert(events.deep_view() =~= e0 + seq![enter_ev]);
        }
        let ghost pathd0 = path.deep_view();
        path.push(String::from_str(node_id));
        let ghost pathd = path.deep_view();
        proof {
            assert(pathd =~= pathd0.push(node_id@));
            lemma_push_no_duplicates(pathd0, node_id@);
            assert(spec_cycle_path_ok(self, pathd));
            lemma_no_dup_len(pathd, self.node_keys());
            assert(path@.len() == pathd.len());
        }
        let children = self.successor_ids(node_id);
        let ghost chd = children.deep_view();
        proof {
            assert forall|q: int| 0 <= q < chd.len() implies self.node_keys().contains(
                #[trigger] chd[q],
            ) by {
                lemma_succs_target_is_node(self, node_id@, q);
            }
        }
        let mut j = children.len();
        let ghost mut done: Seq<DfsEventView> = Seq::<DfsEventView>::empty();
        proof {
            assert(done + spec_dfs_children(self, chd, j as int, pathd) =~= spec_dfs_children(
                self,
                chd,
                j as int,
                pathd,
            ));
        }
        while j > 0
            invariant
                0 <= j <= children@.len(),
                children.deep_view() == chd,
                path.deep_view() == pathd,
                events.deep_view() == e0 + seq![enter_ev] + done,
                spec_dfs_children(self, chd, chd.len() as int, pathd) == done + spec_dfs_children(
                    self,
                    chd,
                    j as int,
                    pathd,
                ),
            decreases j,
        {
            j = j - 1;
            proof {
                assert(children.deep_view()[j as int] == children@[j as int]@);
                lemma_succs_target_is_node(self, node_id@, j as int);
            }
            let child = &children[j];
            if !vec_contains_str(path, child.as_str()) {
                proof {
                    assert(path.deep_view().len() == path@.len());
                    lemma_no_dup_len(pathd, self.node_keys());
                    assert(self.node_keys().len() == self.nodes@.len());
                    assert(depth + 1 == path@.len());
                }
                let ghost ev_before = events.deep_view();
                self.dfs_visit(child.as_str(), depth + 1, path, events);
                proof {
                    let visit_ev = spec_dfs_visit(self, chd[j as int], pathd);
                    assert(events.deep_view() == ev_before + visit_ev);
                    assert(spec_dfs_children(self, chd, j + 1, pathd) == visit_ev
                        + spec_dfs_children(self, chd, j as int, pathd));
                    assert(e0 + seq![enter_ev] + (done + visit_ev) =~= (e0 + seq![enter_ev]
                        + done) + visit_ev);
                    assert(done + (visit_ev + spec_dfs_children(self, chd, j as int, pathd)) =~= (
                    done + visit_ev) + spec_dfs_children(self, chd, j as int, pathd));
                    done = done + visit_ev;
                }
            } else {
                proof {
                    assert(pathd.contains(chd[j as int]));
                    assert(spec_dfs_children(self, chd, j + 1, pathd)
                        == Seq::<DfsEventView>::empty() + spec_dfs_children(
                        self,
                        chd,
                        j as int,
                        pathd,
                    ));
                    assert(Seq::<DfsEventView>::empty() + spec_dfs_children(
                        self,
                        chd,
                        j as int,
                        pathd,
                    ) =~= spec_dfs_children(self, chd, j as int, pathd));
                }
            }
        }
        proof {
            assert(spec_dfs_children(self, chd, 0, pathd) =~= Seq::<DfsEventView>::empty());
            assert(done + Seq::<DfsEventView>::empty() =~= done);
            assert(spec_dfs_children(self, chd, chd.len() as int, pathd) == done);
            assert(path.deep_view().len() == path@.len());
            assert(path@.len() == pathd0.len() + 1);
            assert forall|t: int| 0 <= t < path@.len() implies pathd[t] == path@[t].deep_view() by {
                assert(path.deep_view()[t] == path@[t].deep_view());
            }
        }
        let ghost prev = path@;
        path.pop();
        proof {
            assert(path@ == prev.drop_last());
            assert forall|t: int| 0 <= t < path@.len() implies path.deep_view()[t] == pathd0[t] by {
                assert(path.deep_view()[t] == path@[t].deep_view());
                assert(path@[t] == prev[t]);
                assert(pathd[t] == pathd0[t]);
            }
            assert(path.deep_view() =~= pathd0);
        }
        let ghost exit_ev = spec_dfs_exit(node_id@, depth + 1);
        let ghost e_pre = events.deep_view();
        events.push(DfsEvent { id: String::from_str(node_id), depth: depth + 1, enter: false });
        proof {
            assert(events.deep_view() =~= e_pre.push(exit_ev));
            assert(spec_dfs_visit(self, node_id@, pathd0) == seq![enter_ev] + spec_dfs_children(
                self,
                chd,
                chd.len() as int,
                pathd,
            ) + seq![exit_ev]);
            assert(events.deep_view() =~= e0 + spec_dfs_visit(self, node_id@, pathd0));
        }
    }

    /// The diagnostic traversal from a start node, yielding exactly the
    /// events `spec_dfs_events` describes: the enter event of each node at
    /// its stack depth, its successors walked in reverse insertion order,
    /// and its exit event one level deeper, with a successor already on
    /// the active path skipped and a missing start yielding no events.
    pub fn dfs(&self, start_node_id: &str) -> (events: Vec<DfsEvent>)
        requires
            self.wf(),
        ensures
            events.deep_view() == spec_dfs_events(self, start_node_id@),
    {
        let mut events: Vec<DfsEvent> = Vec::new();
        proof {
            assert(events.deep_view() =~= Seq::<DfsEventView>::empty());
        }
        if self.has_node(start_node_id) {
            let mut path: Vec<String> = Vec::new();
            proof {
                assert(path.deep_view() =~= Seq::<Seq<char>>::empty());
                assert(spec_cycle_path_ok(self, path.deep_view()));
            }
            self.dfs_visit(start_node_id, 0, &mut path, &mut events);
            proof {
                assert(events.deep_view() == spec_dfs_events(self, start_node_id@));
            }
        }
        events
    }
}

/// The lexicographic order is irreflexive.
pub proof fn lemma_lex_lt_irrefl(a: Seq<char>)
    ensures
        !lex_lt(a, a),
    decreases a.len(),
{
    if a.len() > 0 {
        lemma_lex_lt_irrefl(a.drop_first());
    }
}

/// The lexicographic order is transitive.
pub proof fn lemma_lex_lt_trans(a: Seq<char>, b: Seq<char>, c: Seq<char>)
    requires
        lex_lt(a, b),
        lex_lt(b, c),
    ensures
        lex_lt(a, c),
    decreases a.len(),
{
    if c.len() > 0 && a.len() > 0 && b.len() > 0 {
        if a[0] == b[0] && b[0] == c[0] {
            lemma_lex_lt_trans(a.drop_first(), b.drop_first(), c.drop_first());
        }
    }
}

/// Among the ready nodes, none has a key lexicographically before the key
/// at the chosen position: the sort always emits the least ready key next.
pub proof fn lemma_min_pos_is_least(keys: Seq<Seq<char>>, ready: Seq<int>)
    requires
        ready.len() > 0,
    ensures
        forall|i: int|
            0 <= i < ready.len() ==> !lex_lt(
                keys[#[trigger] ready[i]],
                keys[ready[spec_min_pos(keys, ready)]],
            ),
    decreases ready.len(),
{
    lemma_min_pos_bounds(keys, ready);
    if ready.len() == 1 {
        lemma_lex_lt_irrefl(keys[ready[0]]);
    } else {
        let rest = ready.drop_last();
        lemma_min_pos_is_least(keys, rest);
        lemma_min_pos_bounds(keys, rest);
        let m = spec_min_pos(keys, rest);
        let last = keys[ready.last()];
        let mk = keys[rest[m]];
        assert(rest[m] == ready[m]);
        assert forall|i: int| 0 <= i < ready.len() implies !lex_lt(
            keys[#[trigger] ready[i]],
            keys[ready[spec_min_pos(keys, ready)]],
        ) by {
            if lex_lt(last, mk) {
                assert(spec_min_pos(keys, ready) == ready.len() - 1);
                if i < ready.len() - 1 {
                    assert(rest[i] == ready[i]);
                    assert(!lex_lt(keys[ready[i]], mk));
                    if lex_lt(keys[ready[i]], last) {
                        lemma_lex_lt_trans(keys[ready[i]], last, mk);
                    }
                } else {
                    lemma_lex_lt_irrefl(last);
                }
            } else {
                assert(spec_min_pos(keys, ready) == m);
                if i < ready.len() - 1 {
                    assert(rest[i] == ready[i]);
                } else {
                    assert(keys[ready[i]] == last);
                }
            }
        }
    }
}

/// Topological-sort determinism: the emission order and the final degrees
/// are a function of the graph alone, so repeated sorts of one graph give
/// byte-identical results.
pub proof fn lemma_topological_sort_deterministic<T: Dependent>(
    first: &DependencyGraph<T>,
    second: &DependencyGraph<T>,
)
    requires
        first.nodes == second.nodes,
        first.edges == second.edges,
    ensures
        spec_topo(first) == spec_topo(second),
{
    assert(*first == *second);
}

/// The mathematical model of a dependency graph: its node keys and its
/// adjacency lists, all as character sequences.
#[verifier::ext_equal]
pub struct GraphModel {
    pub keys: Seq<Seq<char>>,
    pub edges: Seq<(Seq<char>, Seq<Seq<char>>)>,
}

impl GraphModel {
    /// The edge-list keys, in insertion order.
    pub open spec fn edge_keys(&self) -> Seq<Seq<char>> {
        Seq::new(self.edges.len(), |i: int| self.edges[i].0)
    }

    /// Whether a key names a node.
    pub open spec fn has_key(&self, id: Seq<char>) -> bool {
        self.keys.contains(id)
    }

    /// The successor keys of a key, in insertion order.
    pub open spec fn successors_of(&self, id: Seq<char>) -> Seq<Seq<char>> {
        if self.edge_keys().contains(id) {
            self.edges[first_index_of(self.edge_keys(), id)].1
        } else {
            Seq::<Seq<char>>::empty()
        }
    }

    /// Well-formedness: keys unique on both sides, every edge endpoint a
    /// node.
    pub open spec fn wf(&self) -> bool {
        &&& self.keys.no_duplicates()
        &&& self.edge_keys().no_duplicates()
        &&& forall|i: int| 0 <= i < self.edges.len() ==> self.has_key(#[trigger] self.edges[i].0)
        &&& forall|i: int, j: int|
            0 <= i < self.edges.len() && 0 <= j < self.edges[i].1.len() ==> self.has_key(
                #[trigger] self.edges[i].1[j],
            )
    }
}

impl<T: Dependent> DependencyGraph<T> {
    /// The model of this graph.
    pub open spec fn model(&self) -> GraphModel {
        GraphModel {
            keys: self.node_keys(),
            edges: Seq::new(
                self.edges@.len(),
                |i: int| (self.edges@[i].0@, self.edges@[i].1.deep_view()),
            ),
        }
    }
}

/// A graph and its model agree on keys, successors and well-formedness.
pub proof fn lemma_model_relates<T: Dependent>(g: &DependencyGraph<T>)
    ensures
        g.model().keys == g.node_keys(),
        g.model().edge_keys() =~= g.edge_keys(),
        forall|id: Seq<char>| #[trigger] g.model().successors_of(id) == g.successors_of(id),
        g.model().wf() <==> g.wf(),
{
    let m = g.model();
    assert(m.edge_keys() =~= g.edge_keys());
    assert forall|id: Seq<char>| #[trigger] m.successors_of(id) == g.successors_of(id) by {
        if g.edge_keys().contains(id) {
            lemma_first_index_of(g.edge_keys(), id);
            let k = first_index_of(g.edge_keys(), id);
            assert(first_index_of(m.edge_keys(), id) == k);
            assert(m.edges[k].1 == g.edges@[k].1.deep_view());
        }
    }
    assert(m.wf() <==> g.wf()) by {
        if g.wf() {
            assert(m.keys.no_duplicates());
            assert(m.edge_keys().no_duplicates());
            assert forall|i: int| 0 <= i < m.edges.len() implies m.has_key(
                #[trigger] m.edges[i].0,
            ) by {
                assert(m.edges[i].0 == g.edges@[i].0@);
                assert(g.spec_has_node(g.edges@[i].0@));
            }
            assert forall|i: int, j: int|
                0 <= i < m.edges.len() && 0 <= j < m.edges[i].1.len() implies m.has_key(
                #[trigger] m.edges[i].1[j],
            ) by {
                assert(m.edges[i].1[j] == g.edges@[i].1.deep_view()[j]);
                assert(m.edges[i].1[j] == g.edges@[i].1@[j]@);
                assert(g.spec_has_node(g.edges@[i].1@[j]@));
            }
            assert(m.wf());
        }
        if m.wf() {
            assert(g.node_keys().no_duplicates());
            assert(g.edge_keys().no_duplicates());
            assert forall|i: int| 0 <= i < g.edges@.len() implies g.spec_has_node(
                #[trigger] g.edges@[i].0@,
            ) by {
                assert(m.edges[i].0 == g.edges@[i].0@);
                assert(m.has_key(m.edges[i].0));
            }
            assert forall|i: int, j: int|
                0 <= i < g.edges@.len() && 0 <= j < g.edges@[i].1@.len() implies g.spec_has_node(
                #[trigger] g.edges@[i].1@[j]@,
            ) by {
                assert(m.edges[i].1[j] == g.edges@[i].1@[j]@);
                assert(m.has_key(m.edges[i].1[j]));
            }
            assert(g.wf());
        }
    }
}

/// The model-level cycle search, mirroring `spec_cycle_node` on the model
/// of a graph.
pub open spec fn model_cycle_node(
    m: GraphModel,
    id: Seq<char>,
    visited: Seq<Seq<char>>,
    path: Seq<Seq<char>>,
) -> (Option<Seq<Seq<char>>>, Seq<Seq<char>>)
    decreases m.keys.len() - path.len(), 0int, 0int,
    when m.wf() && path.no_duplicates() && (forall|i: int|
        0 <= i < path.len() ==> m.keys.contains(#[trigger] path[i])) && m.keys.contains(id)
    via model_cycle_node_decreases
{
    if path.contains(id) {
        (Some(path.skip(first_index_of(path, id)).push(id)), visited)
    } else if visited.contains(id) {
        (None, visited)
    } else {
        let (r, v2) = model_cycle_children(m, m.successors_of(id), 0, visited, path.push(id));
        if r is Some {
            (r, v2)
        } else {
            (None, v2.push(id))
        }
    }
}

/// The model-level walk over one node's successors.
pub open spec fn model_cycle_children(
    m: GraphModel,
    children: Seq<Seq<char>>,
    j: int,
    visited: Seq<Seq<char>>,
    path: Seq<Seq<char>>,
) -> (Option<Seq<Seq<char>>>, Seq<Seq<char>>)
    decreases m.keys.len() - path.len(), 1int, children.len() - j,
    when m.wf() && path.no_duplicates() && (forall|i: int|
        0 <= i < path.len() ==> m.keys.contains(#[trigger] path[i])) && 0 <= j <= children.len()
        && (forall|i: int| 0 <= i < children.len() ==> m.keys.contains(#[trigger] children[i]))
    via model_cycle_children_decreases
{
    if j >= children.len() {
        (None, visited)
    } else {
        let (r, v2) = model_cycle_node(m, children[j], visited, path);
        if r is Some {
            (r, v2)
        } else {
            model_cycle_children(m, children, j + 1, v2, path)
        }
    }
}

#[via_fn]
proof fn model_cycle_node_decreases(
    m: GraphModel,
    id: Seq<char>,
    visited: Seq<Seq<char>>,
    path: Seq<Seq<char>>,
) {
    if m.wf() && path.no_duplicates() && (forall|i: int|
        0 <= i < path.len() ==> m.keys.contains(#[trigger] path[i])) && m.keys.contains(id)
        && !path.contains(id) && !visited.contains(id) {
        let path2 = path.push(id);
        lemma_push_no_duplicates(path, id);
        assert(forall|i: int| 0 <= i < path2.len() ==> m.keys.contains(#[trigger] path2[i]));
        lemma_no_dup_len(path2, m.keys);
    }
}

#[via_fn]
proof fn model_cycle_children_decreases(
    m: GraphModel,
    children: Seq<Seq<char>>,
    j: int,
    visited: Seq<Seq<char>>,
    path: Seq<Seq<char>>,
) {
    if m.wf() && path.no_duplicates() && (forall|i: int|
        0 <= i < path.len() ==> m.keys.contains(#[trigger] path[i])) {
        lemma_no_dup_len(path, m.keys);
    }
}

/// The graph-level and model-level cycle searches agree from one node.
pub proof fn lemma_cycle_node_bridge<T: Dependent>(
    g: &DependencyGraph<T>,
    id: Seq<char>,
    visited: Seq<Seq<char>>,
    path: Seq<Seq<char>>,
)
    requires
        g.wf(),
        spec_cycle_path_ok(g, path),
        g.node_keys().contains(id),
    ensures
        spec_cycle_node(g, id, visited, path) == model_cycle_node(g.model(), id, visited, path),
    decreases g.nodes@.len() - path.len(), 0int, 0int,
{
    lemma_model_relates(g);
    let m = g.model();
    if !path.contains(id) && !visited.contains(id) {
        lemma_push_no_duplicates(path, id);
        lemma_no_dup_len(path.push(id), g.node_keys());
        assert forall|i: int|
            0 <= i < g.successors_of(id).len() implies g.node_keys().contains(
            #[trigger] g.successors_of(id)[i],
        ) by {
            lemma_succs_target_is_node(g, id, i);
        }
        lemma_cycle_children_bridge(g, g.successors_of(id), 0, visited, path.push(id));
        assert(m.keys.len() == g.nodes@.len());
        assert(m.successors_of(id) == g.successors_of(id));
    }
}

/// The graph-level and model-level successor walks agree.
pub proof fn lemma_cycle_children_bridge<T: Dependent>(
    g: &DependencyGraph<T>,
    children: Seq<Seq<char>>,
    j: int,
    visited: Seq<Seq<char>>,
    path: Seq<Seq<char>>,
)
    requires
        g.wf(),
        spec_cycle_path_ok(g, path),
        0 <= j <= children.len(),
        forall|i: int| 0 <= i < children.len() ==> g.node_keys().contains(#[trigger] children[i]),
    ensures
        spec_cycle_children(g, children, j, visited, path) == model_cycle_children(
            g.model(),
            children,
            j,
            visited,
            path,
        ),
    decreases g.nodes@.len() - path.len(), 1int, children.len() - j,
{
    lemma_model_relates(g);
    lemma_no_dup_len(path, g.node_keys());
    if j < children.len() {
        lemma_cycle_node_bridge(g, children[j], visited, path);
        let (r, v2) = spec_cycle_node(g, children[j], visited, path);
        if !(r is Some) {
            lemma_cycle_children_bridge(g, children, j + 1, v2, path);
        }
    }
}

/// The model-level fold of the cycle search over the nodes.
pub open spec fn model_find_cycle_from(m: GraphModel, i: int, visited: Seq<Seq<char>>) -> Option<
    Seq<Seq<char>>,
>
    decreases m.keys.len() - i,
    when 0 <= i <= m.keys.len()
{
    if i >= m.keys.len() {
        None
    } else {
        let (r, v2) = model_cycle_node(m, m.keys[i], visited, Seq::<Seq<char>>::empty());
        match r {
            Some(c) => Some(c),
            None => model_find_cycle_from(m, i + 1, v2),
        }
    }
}

/// What cycle detection yields on a graph's model.
pub open spec fn model_find_cycle(m: GraphModel) -> Option<Seq<Seq<char>>> {
    model_find_cycle_from(m, 0, Seq::<Seq<char>>::empty())
}

/// The graph-level and model-level cycle detections agree.
pub proof fn lemma_find_cycle_bridge_from<T: Dependent>(
    g: &DependencyGraph<T>,
    i: int,
    visited: Seq<Seq<char>>,
)
    requires
        g.wf(),
        0 <= i <= g.nodes@.len(),
    ensures
        spec_find_cycle_from(g, i, visited) == model_find_cycle_from(g.model(), i, visited),
    decreases g.nodes@.len() - i,
{
    lemma_model_relates(g);
    if i < g.nodes@.len() {
        assert(g.node_keys()[i] == g.nodes@[i].0@);
        assert(g.node_keys().contains(g.node_keys()[i]));
        assert(spec_cycle_path_ok(g, Seq::<Seq<char>>::empty()));
        lemma_cycle_node_bridge(g, g.node_keys()[i], visited, Seq::<Seq<char>>::empty());
        let (r, v2) = spec_cycle_node(g, g.node_keys()[i], visited, Seq::<Seq<char>>::empty());
        if r is None {
            lemma_find_cycle_bridge_from(g, i + 1, v2);
        }
        assert(g.model().keys[i] == g.node_keys()[i]);
    }
}

/// Cycle detection on a graph is cycle detection on its model.
pub proof fn lemma_find_cycle_bridge<T: Dependent>(g: &DependencyGraph<T>)
    requires
        g.wf(),
    ensures
        spec_find_cycle(g) == model_find_cycle(g.model()),
{
    lemma_find_cycle_bridge_from(g, 0, Seq::<Seq<char>>::empty());
    lemma_model_relates(g);
}

/// Inserting a key into the model: kept as is when the key is taken.
pub open spec fn model_node(m: GraphModel, key: Seq<char>) -> GraphModel {
    if m.keys.contains(key) {
        m
    } else {
        GraphModel { keys: m.keys.push(key), edges: m.edges }
    }
}

/// Appending an edge target in the model: onto the existing list of the
/// source, or as a fresh single-target list.
pub open spec fn model_edge(m: GraphModel, from: Seq<char>, to: Seq<char>) -> GraphModel {
    if m.edge_keys().contains(from) {
        let k = first_index_of(m.edge_keys(), from);
        GraphModel { keys: m.keys, edges: m.edges.update(k, (from, m.edges[k].1.push(to))) }
    } else {
        GraphModel { keys: m.keys, edges: m.edges.push((from, seq![to])) }
    }
}

impl<T: Dependent> DependentGraphBuilder<T> {
    /// The model of the graph accumulated so far.
    pub open spec fn model_b(&self) -> GraphModel {
        GraphModel {
            keys: self.node_keys_b(),
            edges: Seq::new(
                self.edges@.len(),
                |i: int| (self.edges@[i].0@, self.edges@[i].1.deep_view()),
            ),
        }
    }
}

/// A key that occurs in a sequence is counted at least once.
pub proof fn lemma_count_in_pos(s: Seq<Seq<char>>, x: Seq<char>)
    requires
        s.contains(x),
    ensures
        count_in(s, x) >= 1,
    decreases s.len(),
{
    lemma_count_in_bounds(s.drop_last(), x);
    if s.last() != x {
        assert(s.drop_last().contains(x)) by {
            let j = choose|j: int| 0 <= j < s.len() && s[j] == x;
            assert(s.drop_last()[j] == x);
        }
        lemma_count_in_pos(s.drop_last(), x);
    }
}

/// Counting steps over the head of a sequence.
pub proof fn lemma_count_in_cons(x: Seq<char>, s: Seq<Seq<char>>, y: Seq<char>)
    ensures
        count_in(seq![x] + s, y) == count_in(s, y) + (if x == y {
            1int
        } else {
            0int
        }),
    decreases s.len(),
{
    let c = seq![x] + s;
    if s.len() == 0 {
        assert(c =~= seq![x]);
        assert(c.drop_last() =~= Seq::<Seq<char>>::empty());
        assert(c.last() == x);
        assert(count_in(c, y) == count_in(c.drop_last(), y) + (if c.last() == y {
            1int
        } else {
            0int
        }));
        assert(count_in(c.drop_last(), y) == 0);
    } else {
        assert(c.drop_last() =~= seq![x] + s.drop_last());
        assert(c.last() == s.last());
        lemma_count_in_cons(x, s.drop_last(), y);
        assert(count_in(c, y) == count_in(c.drop_last(), y) + (if c.last() == y {
            1int
        } else {
            0int
        }));
        assert(count_in(c.drop_last(), y) == count_in(seq![x] + s.drop_last(), y));
        assert(count_in(s, y) == count_in(s.drop_last(), y) + (if s.last() == y {
            1int
        } else {
            0int
        }));
    }
}

/// How many edge targets name a key, over every source position in a list.
pub open spec fn count_from<T: Dependent>(
    g: &DependencyGraph<T>,
    sources: Seq<int>,
    kv: Seq<char>,
) -> int
    decreases sources.len(),
{
    if sources.len() == 0 {
        0
    } else {
        count_from(g, sources.drop_last(), kv) + count_in(
            g.successors_of(g.node_keys()[sources.last()]),
            kv,
        )
    }
}

/// The incoming count of a key over the edge lists outside a used set of
/// entry positions.
pub open spec fn incoming_excl(
    edges: Seq<(String, Vec<String>)>,
    used: Set<int>,
    kv: Seq<char>,
) -> int
    decreases edges.len(),
{
    if edges.len() == 0 {
        0
    } else {
        incoming_excl(edges.drop_last(), used, kv) + (if used.contains(edges.len() - 1) {
            0int
        } else {
            count_in(edges.last().1.deep_view(), kv)
        })
    }
}

/// Excluding nothing counts everything.
pub proof fn lemma_incoming_excl_empty(edges: Seq<(String, Vec<String>)>, kv: Seq<char>)
    ensures
        incoming_excl(edges, Set::<int>::empty(), kv) == spec_incoming_in(edges, kv),
    decreases edges.len(),
{
    if edges.len() > 0 {
        lemma_incoming_excl_empty(edges.drop_last(), kv);
    }
}

/// The exclusive incoming count is never negative.
pub proof fn lemma_incoming_excl_nonneg(
    edges: Seq<(String, Vec<String>)>,
    used: Set<int>,
    kv: Seq<char>,
)
    ensures
        incoming_excl(edges, used, kv) >= 0,
    decreases edges.len(),
{
    if edges.len() > 0 {
        lemma_incoming_excl_nonneg(edges.drop_last(), used, kv);
        lemma_count_in_bounds(edges.last().1.deep_view(), kv);
    }
}

/// Marking an entry position beyond the edges changes nothing.
pub proof fn lemma_incoming_excl_irrelevant(
    edges: Seq<(String, Vec<String>)>,
    used: Set<int>,
    e: int,
    kv: Seq<char>,
)
    requires
        e >= edges.len(),
    ensures
        incoming_excl(edges, used.insert(e), kv) == incoming_excl(edges, used, kv),
    decreases edges.len(),
{
    if edges.len() > 0 {
        lemma_incoming_excl_irrelevant(edges.drop_last(), used, e, kv);
    }
}

/// Marking one unused entry removes exactly its count.
pub proof fn lemma_incoming_excl_insert(
    edges: Seq<(String, Vec<String>)>,
    used: Set<int>,
    e: int,
    kv: Seq<char>,
)
    requires
        0 <= e < edges.len(),
        !used.contains(e),
    ensures
        incoming_excl(edges, used, kv) == incoming_excl(edges, used.insert(e), kv) + count_in(
            edges[e].1.deep_view(),
            kv,
        ),
    decreases edges.len(),
{
    if e == edges.len() - 1 {
        lemma_incoming_excl_irrelevant(edges.drop_last(), used, e, kv);
    } else {
        lemma_incoming_excl_insert(edges.drop_last(), used, e, kv);
        assert(edges.drop_last()[e] == edges[e]);
    }
}

/// Summed over distinct source positions whose edge entries avoid a used
/// set, the counts never exceed the exclusive incoming count.
pub proof fn lemma_count_from_bound<T: Dependent>(
    g: &DependencyGraph<T>,
    sources: Seq<int>,
    used: Set<int>,
    kv: Seq<char>,
)
    requires
        g.wf(),
        sources.no_duplicates(),
        forall|i: int| 0 <= i < sources.len() ==> 0 <= #[trigger] sources[i] < g.nodes@.len(),
        forall|i: int|
            0 <= i < sources.len() ==> (g.edge_keys().contains(
                g.node_keys()[#[trigger] sources[i]],
            ) ==> !used.contains(first_index_of(g.edge_keys(), g.node_keys()[sources[i]]))),
    ensures
        0 <= count_from(g, sources, kv) <= incoming_excl(g.edges@, used, kv),
    decreases sources.len(),
{
    lemma_incoming_excl_nonneg(g.edges@, used, kv);
    if sources.len() > 0 {
        let rest = sources.drop_last();
        let s = sources.last();
        let key_s = g.node_keys()[s];
        assert(forall|i: int| 0 <= i < rest.len() ==> rest[i] == sources[i]);
        if g.edge_keys().contains(key_s) {
            let e = first_index_of(g.edge_keys(), key_s);
            lemma_first_index_of(g.edge_keys(), key_s);
            assert(g.edge_keys()[e] == key_s);
            assert(g.successors_of(key_s) == g.edges@[e].1.deep_view());
            assert forall|i: int|
                0 <= i < rest.len() implies (g.edge_keys().contains(
                g.node_keys()[#[trigger] rest[i]],
            ) ==> !used.insert(e).contains(
                first_index_of(g.edge_keys(), g.node_keys()[rest[i]]),
            )) by {
                if g.edge_keys().contains(g.node_keys()[rest[i]]) {
                    let e2 = first_index_of(g.edge_keys(), g.node_keys()[rest[i]]);
                    lemma_first_index_of(g.edge_keys(), g.node_keys()[rest[i]]);
                    assert(rest[i] != s);
                    assert(g.node_keys()[rest[i]] != key_s) by {
                        assert(g.node_keys().no_duplicates());
                    }
                    assert(g.edge_keys()[e2] == g.node_keys()[rest[i]]);
                    assert(e2 != e);
                }
            }
            lemma_count_from_bound(g, rest, used.insert(e), kv);
            lemma_incoming_excl_insert(g.edges@, used, e, kv);
            lemma_count_in_bounds(g.edges@[e].1.deep_view(), kv);
        } else {
            assert(g.successors_of(key_s).len() == 0);
            assert(count_in(g.successors_of(key_s), kv) == 0);
            lemma_count_from_bound(g, rest, used, kv);
        }
    }
}

/// Summed over distinct source positions, the counts never exceed the
/// whole incoming count of a key.
pub proof fn lemma_count_from_le_incoming<T: Dependent>(
    g: &DependencyGraph<T>,
    sources: Seq<int>,
    kv: Seq<char>,
)
    requires
        g.wf(),
        sources.no_duplicates(),
        forall|i: int| 0 <= i < sources.len() ==> 0 <= #[trigger] sources[i] < g.nodes@.len(),
    ensures
        0 <= count_from(g, sources, kv) <= g.spec_incoming(kv),
{
    lemma_count_from_bound(g, sources, Set::<int>::empty(), kv);
    lemma_incoming_excl_empty(g.edges@, kv);
}

/// Under unique node keys, a position is the first index of its own key.
pub proof fn lemma_position_of_own_key<T: Dependent>(g: &DependencyGraph<T>, s: int)
    requires
        g.node_keys().no_duplicates(),
        0 <= s < g.node_keys().len(),
    ensures
        first_index_of(g.node_keys(), g.node_keys()[s]) == s,
{
    let keys = g.node_keys();
    let kv = keys[s];
    assert(keys.contains(kv));
    lemma_first_index_of(keys, kv);
    let f = first_index_of(keys, kv);
    if f != s {
        assert(keys[f] == keys[s]);
    }
}

/// The edge entries whose source node position is in a list.
pub open spec fn spec_used_entries<T: Dependent>(
    g: &DependencyGraph<T>,
    sources: Seq<int>,
) -> Set<int> {
    Set::new(
        |e: int|
            0 <= e < g.edges@.len() && sources.contains(
                first_index_of(g.node_keys(), g.edges@[e].0@),
            ),
    )
}

/// With every contributing source position covered, no edge entry outside
/// the used set counts the key.
pub proof fn lemma_incoming_excl_covered<T: Dependent>(
    g: &DependencyGraph<T>,
    edges: Seq<(String, Vec<String>)>,
    sources: Seq<int>,
    kv: Seq<char>,
)
    requires
        g.wf(),
        edges == g.edges@.take(edges.len() as int),
        edges.len() <= g.edges@.len(),
        forall|u: int|
            0 <= u < g.nodes@.len() && count_in(g.successors_of(g.node_keys()[u]), kv) > 0
                ==> sources.contains(u),
    ensures
        incoming_excl(edges, spec_used_entries(g, sources), kv) == 0,
    decreases edges.len(),
{
    if edges.len() > 0 {
        let e = edges.len() - 1;
        assert(edges.drop_last() =~= g.edges@.take(e));
        lemma_incoming_excl_covered(g, edges.drop_last(), sources, kv);
        let used = spec_used_entries(g, sources);
        if !used.contains(e) {
            assert(edges[e] == g.edges@[e]);
            let key_e = g.edges@[e].0@;
            assert(g.spec_has_node(key_e));
            lemma_first_index_of(g.node_keys(), key_e);
            let pos = first_index_of(g.node_keys(), key_e);
            assert(g.node_keys()[pos] == key_e);
            assert(!sources.contains(pos));
            // the successor list of that key is exactly this entry's list
            assert(g.edge_keys()[e] == key_e);
            assert(g.edge_keys().contains(key_e));
            lemma_first_index_of(g.edge_keys(), key_e);
            let f = first_index_of(g.edge_keys(), key_e);
            assert(f == e) by {
                if f != e {
                    assert(g.edge_keys()[f] == g.edge_keys()[e]);
                    assert(g.edge_keys().no_duplicates());
                }
            }
            assert(g.successors_of(key_e) == g.edges@[e].1.deep_view());
            assert(count_in(g.successors_of(g.node_keys()[pos]), kv) == count_in(
                g.edges@[e].1.deep_view(),
                kv,
            ));
            lemma_count_in_bounds(g.edges@[e].1.deep_view(), kv);
            assert(count_in(g.edges@[e].1.deep_view(), kv) == 0);
            assert(edges.last() == g.edges@[e]);
        }
    }
}

/// Over distinct source positions, the summed counts equal the whole
/// incoming count minus what the uncovered entries still hold.
pub proof fn lemma_count_from_split<T: Dependent>(
    g: &DependencyGraph<T>,
    sources: Seq<int>,
    kv: Seq<char>,
)
    requires
        g.wf(),
        sources.no_duplicates(),
        forall|i: int| 0 <= i < sources.len() ==> 0 <= #[trigger] sources[i] < g.nodes@.len(),
    ensures
        incoming_excl(g.edges@, spec_used_entries(g, sources), kv) + count_from(g, sources, kv)
            == g.spec_incoming(kv),
    decreases sources.len(),
{
    if sources.len() == 0 {
        assert(spec_used_entries(g, sources) =~= Set::<int>::empty());
        lemma_incoming_excl_empty(g.edges@, kv);
    } else {
        let rest = sources.drop_last();
        let s = sources.last();
        assert(forall|i: int| 0 <= i < rest.len() ==> rest[i] == sources[i]);
        lemma_count_from_split(g, rest, kv);
        let key_s = g.node_keys()[s];
        lemma_position_of_own_key(g, s);
        let uf_rest = spec_used_entries(g, rest);
        let uf_all = spec_used_entries(g, sources);
        if g.edge_keys().contains(key_s) {
            let e = first_index_of(g.edge_keys(), key_s);
            lemma_first_index_of(g.edge_keys(), key_s);
            assert(g.edge_keys()[e] == key_s);
            assert(g.edges@[e].0@ == key_s);
            assert(first_index_of(g.node_keys(), g.edges@[e].0@) == s);
            assert(uf_all =~= uf_rest.insert(e)) by {
                assert forall|e2: int| #[trigger] uf_all.contains(e2) implies uf_rest.insert(
                    e,
                ).contains(e2) by {
                    let p2 = first_index_of(g.node_keys(), g.edges@[e2].0@);
                    assert(sources.contains(p2));
                    let q = choose|q: int| 0 <= q < sources.len() && sources[q] == p2;
                    if q < rest.len() {
                        assert(rest[q] == p2);
                        assert(rest.contains(p2));
                    } else {
                        assert(p2 == s);
                        assert(g.spec_has_node(g.edges@[e2].0@));
                        lemma_first_index_of(g.node_keys(), g.edges@[e2].0@);
                        assert(g.node_keys()[p2] == g.edges@[e2].0@);
                        assert(g.edge_keys()[e2] == g.edges@[e2].0@);
                        assert(g.edge_keys().contains(g.edges@[e2].0@));
                        lemma_first_index_of(g.edge_keys(), g.edges@[e2].0@);
                        let f2 = first_index_of(g.edge_keys(), g.edges@[e2].0@);
                        assert(f2 == e2) by {
                            if f2 != e2 {
                                assert(g.edge_keys()[f2] == g.edge_keys()[e2]);
                                assert(g.edge_keys().no_duplicates());
                            }
                        }
                        assert(g.edges@[e2].0@ == key_s);
                        assert(f2 == e);
                    }
                }
                assert forall|e2: int| #[trigger] uf_rest.insert(e).contains(e2) implies uf_all.contains(
                    e2,
                ) by {
                    if e2 == e {
                        assert(sources.contains(s)) by {
                            assert(sources[sources.len() - 1] == s);
                        }
                    } else {
                        let p2 = first_index_of(g.node_keys(), g.edges@[e2].0@);
                        assert(rest.contains(p2));
                        let q = choose|q: int| 0 <= q < rest.len() && rest[q] == p2;
                        assert(sources[q] == p2);
                        assert(sources.contains(p2));
                    }
                }
            }
            assert(!uf_rest.contains(e)) by {
                if uf_rest.contains(e) {
                    assert(rest.contains(s));
                    let q = choose|q: int| 0 <= q < rest.len() && rest[q] == s;
                    assert(sources[q] == s);
                    assert(sources[sources.len() - 1] == s);
                }
            }
            lemma_incoming_excl_insert(g.edges@, uf_rest, e, kv);
            assert(g.successors_of(key_s) == g.edges@[e].1.deep_view());
        } else {
            assert(uf_all =~= uf_rest) by {
                assert forall|e2: int| #[trigger] uf_all.contains(e2) implies uf_rest.contains(
                    e2,
                ) by {
                    let p2 = first_index_of(g.node_keys(), g.edges@[e2].0@);
                    assert(sources.contains(p2));
                    let q = choose|q: int| 0 <= q < sources.len() && sources[q] == p2;
                    if q < rest.len() {
                        assert(rest[q] == p2);
                    } else {
                        assert(p2 == s);
                        assert(g.spec_has_node(g.edges@[e2].0@));
                        lemma_first_index_of(g.node_keys(), g.edges@[e2].0@);
                        assert(g.node_keys()[p2] == g.edges@[e2].0@);
                        assert(g.edge_keys()[e2] == g.edges@[e2].0@);
                        assert(g.edge_keys().contains(key_s));
                    }
                }
                assert forall|e2: int| #[trigger] uf_rest.contains(e2) implies uf_all.contains(
                    e2,
                ) by {
                    let p2 = first_index_of(g.node_keys(), g.edges@[e2].0@);
                    let q = choose|q: int| 0 <= q < rest.len() && rest[q] == p2;
                    assert(sources[q] == p2);
                }
            }
            assert(g.successors_of(key_s).len() == 0);
            assert(count_in(g.successors_of(key_s), kv) == 0);
        }
    }
}

/// When every position contributing edges into a key is among the
/// sources, their summed counts are the whole incoming count.
pub proof fn lemma_count_from_complete<T: Dependent>(
    g: &DependencyGraph<T>,
    sources: Seq<int>,
    kv: Seq<char>,
)
    requires
        g.wf(),
        sources.no_duplicates(),
        forall|i: int| 0 <= i < sources.len() ==> 0 <= #[trigger] sources[i] < g.nodes@.len(),
        forall|u: int|
            0 <= u < g.nodes@.len() && count_in(g.successors_of(g.node_keys()[u]), kv) > 0
                ==> sources.contains(u),
    ensures
        count_from(g, sources, kv) == g.spec_incoming(kv),
{
    lemma_count_from_split(g, sources, kv);
    assert(g.edges@.take(g.edges@.len() as int) =~= g.edges@);
    lemma_incoming_excl_covered(g, g.edges@, sources, kv);
}

/// The invariant of the sort: emitted positions are distinct with spent
/// in-degrees, ready positions are unemitted with spent in-degrees, every
/// in-degree equals what the unemitted sources still owe, and each emitted
/// node received every one of its edges from nodes emitted before it.
pub open spec fn topo_inv<T: Dependent>(
    g: &DependencyGraph<T>,
    degrees: Seq<int>,
    ready: Seq<int>,
    out: Seq<int>,
) -> bool {
    &&& g.wf()
    &&& degrees.len() == g.nodes@.len()
    &&& out.no_duplicates()
    &&& ready.no_duplicates()
    &&& forall|i: int| 0 <= i < out.len() ==> 0 <= #[trigger] out[i] < g.nodes@.len()
    &&& forall|i: int| 0 <= i < ready.len() ==> 0 <= #[trigger] ready[i] < g.nodes@.len()
    &&& forall|i: int| 0 <= i < ready.len() ==> !out.contains(#[trigger] ready[i])
    &&& forall|t: int|
        0 <= t < degrees.len() ==> #[trigger] degrees[t] == g.spec_incoming(g.node_keys()[t])
            - count_from(g, out, g.node_keys()[t])
    &&& forall|i: int| 0 <= i < ready.len() ==> degrees[#[trigger] ready[i]] == 0
    &&& forall|i: int| 0 <= i < out.len() ==> degrees[#[trigger] out[i]] == 0
    &&& forall|t: int|
        0 <= t < degrees.len() && #[trigger] degrees[t] == 0 && !out.contains(t)
            ==> ready.contains(t)
    &&& forall|b: int, u: int|
        0 <= b < out.len() && 0 <= u < g.nodes@.len() && #[trigger] count_in(
            g.successors_of(g.node_keys()[u]),
            g.node_keys()[out[b]],
        ) > 0 ==> exists|a: int| 0 <= a < b && out[a] == u
}

/// One round of decrements keeps the invariant: each successor of the
/// just-emitted node gives back one owed edge, and a node paid in full
/// joins the ready list.
pub proof fn lemma_topo_dec_preserves<T: Dependent>(
    g: &DependencyGraph<T>,
    succs: Seq<Seq<char>>,
    j: int,
    degrees: Seq<int>,
    ready: Seq<int>,
    out2: Seq<int>,
)
    requires
        g.wf(),
        0 <= j <= succs.len(),
        out2.len() > 0,
        out2.no_duplicates(),
        forall|i: int| 0 <= i < out2.len() ==> 0 <= #[trigger] out2[i] < g.nodes@.len(),
        succs == g.successors_of(g.node_keys()[out2.last()]),
        degrees.len() == g.nodes@.len(),
        ready.no_duplicates(),
        forall|i: int| 0 <= i < ready.len() ==> 0 <= #[trigger] ready[i] < g.nodes@.len(),
        forall|i: int| 0 <= i < ready.len() ==> !out2.contains(#[trigger] ready[i]),
        forall|t: int|
            0 <= t < degrees.len() ==> #[trigger] degrees[t] == g.spec_incoming(g.node_keys()[t])
                - count_from(g, out2, g.node_keys()[t]) + count_in(
                succs.subrange(j, succs.len() as int),
                g.node_keys()[t],
            ),
        forall|i: int| 0 <= i < ready.len() ==> degrees[#[trigger] ready[i]] == 0,
        forall|i: int| 0 <= i < out2.len() ==> degrees[#[trigger] out2[i]] == 0,
        forall|t: int|
            0 <= t < degrees.len() && #[trigger] degrees[t] == 0 && !out2.contains(t)
                ==> ready.contains(t),
    ensures
        ({
            let (d2, r2) = spec_topo_dec(g, succs, j, degrees, ready);
            &&& d2.len() == degrees.len()
            &&& r2.no_duplicates()
            &&& forall|t: int|
                0 <= t < d2.len() ==> #[trigger] d2[t] == g.spec_incoming(g.node_keys()[t])
                    - count_from(g, out2, g.node_keys()[t])
            &&& forall|i: int| 0 <= i < r2.len() ==> 0 <= #[trigger] r2[i] < g.nodes@.len()
            &&& forall|i: int| 0 <= i < r2.len() ==> !out2.contains(#[trigger] r2[i])
            &&& forall|i: int| 0 <= i < r2.len() ==> d2[#[trigger] r2[i]] == 0
            &&& forall|i: int| 0 <= i < out2.len() ==> d2[#[trigger] out2[i]] == 0
            &&& forall|t: int|
                0 <= t < d2.len() && #[trigger] d2[t] == 0 && !out2.contains(t) ==> r2.contains(
                    t,
                )
        }),
    decreases succs.len() - j,
{
    if j >= succs.len() {
        assert(succs.subrange(j, succs.len() as int) =~= Seq::<Seq<char>>::empty());
        assert forall|t: int| 0 <= t < degrees.len() implies #[trigger] degrees[t]
            == g.spec_incoming(g.node_keys()[t]) - count_from(g, out2, g.node_keys()[t]) by {
            assert(count_in(succs.subrange(j, succs.len() as int), g.node_keys()[t]) == 0);
        }
    } else {
        let kv = succs[j];
        assert(g.spec_has_node(kv)) by {
            lemma_succs_target_is_node(g, g.node_keys()[out2.last()], j);
        }
        lemma_first_index_of(g.node_keys(), kv);
        let t0 = first_index_of(g.node_keys(), kv);
        assert(g.node_keys()[t0] == kv);

        // the remaining owed count at t0 includes this very edge
        assert(succs.subrange(j, succs.len() as int) =~= seq![kv] + succs.subrange(
            j + 1,
            succs.len() as int,
        ));
        lemma_count_in_cons(kv, succs.subrange(j + 1, succs.len() as int), kv);
        lemma_count_in_bounds(succs.subrange(j + 1, succs.len() as int), kv);
        lemma_count_from_le_incoming(g, out2, kv);
        assert(degrees[t0] >= 1);

        let nd = degrees[t0] - 1;
        let d_next = degrees.update(t0, nd);
        let r_next = if nd == 0 {
            ready.push(t0)
        } else {
            ready
        };
        assert(spec_topo_dec(g, succs, j, degrees, ready) == spec_topo_dec(
            g,
            succs,
            j + 1,
            d_next,
            r_next,
        ));

        // t0 is not yet emitted: its in-degree is still positive
        assert(!out2.contains(t0)) by {
            if out2.contains(t0) {
                let a = choose|a: int| 0 <= a < out2.len() && out2[a] == t0;
                assert(degrees[out2[a]] == 0);
            }
        }
        // the owed-count equation moves to the next position
        assert forall|t: int| 0 <= t < d_next.len() implies #[trigger] d_next[t]
            == g.spec_incoming(g.node_keys()[t]) - count_from(g, out2, g.node_keys()[t])
            + count_in(succs.subrange(j + 1, succs.len() as int), g.node_keys()[t]) by {
            lemma_count_in_cons(kv, succs.subrange(j + 1, succs.len() as int), g.node_keys()[t]);
            if t == t0 {
            } else {
                assert(g.node_keys()[t] != kv) by {
                    assert(g.node_keys().no_duplicates());
                    if g.node_keys()[t] == kv {
                        assert(g.node_keys()[t] == g.node_keys()[t0]);
                    }
                }
                assert(d_next[t] == degrees[t]);
            }
        }
        assert forall|i: int| 0 <= i < r_next.len() implies d_next[#[trigger] r_next[i]]
            == 0 by {
            if i < ready.len() {
                assert(r_next[i] == ready[i]);
                assert(degrees[ready[i]] == 0);
                assert(ready[i] != t0);
            } else {
                assert(r_next[i] == t0);
            }
        }
        assert forall|i: int| 0 <= i < out2.len() implies d_next[#[trigger] out2[i]] == 0 by {
            assert(out2[i] != t0);
        }
        assert forall|i: int| 0 <= i < r_next.len() implies !out2.contains(
            #[trigger] r_next[i],
        ) by {
            if i < ready.len() {
                assert(r_next[i] == ready[i]);
            } else {
                assert(r_next[i] == t0);
            }
        }
        assert(r_next.no_duplicates()) by {
            if nd == 0 {
                assert(!ready.contains(t0)) by {
                    if ready.contains(t0) {
                        let q = choose|q: int| 0 <= q < ready.len() && ready[q] == t0;
                        assert(degrees[ready[q]] == 0);
                    }
                }
                lemma_seq_push_keeps_no_duplicates(ready, t0);
            }
        }
        assert forall|t: int|
            0 <= t < d_next.len() && #[trigger] d_next[t] == 0 && !out2.contains(t) implies
            r_next.contains(t) by {
            if t == t0 {
                assert(nd == 0);
                assert(r_next[ready.len() as int] == t0);
            } else {
                assert(d_next[t] == degrees[t]);
                assert(ready.contains(t));
                let q = choose|q: int| 0 <= q < ready.len() && ready[q] == t;
                assert(r_next[q] == t);
            }
        }
        lemma_topo_dec_preserves(g, succs, j + 1, d_next, r_next, out2);
    }
}

/// One emission step: popping the least ready position and releasing its
/// successors preserves the invariant, unfolds the sort by one step, and
/// strictly shrinks the termination metric.
#[verifier::rlimit(100)]
#[verifier::spinoff_prover]
pub proof fn lemma_topo_step<T: Dependent>(
    g: &DependencyGraph<T>,
    degrees: Seq<int>,
    ready: Seq<int>,
    out: Seq<int>,
)
    requires
        topo_inv(g, degrees, ready, out),
        ready.len() > 0,
    ensures
        ({
            let m = spec_min_pos(g.node_keys(), ready);
            let idx = ready[m];
            let out2 = out.push(idx);
            let (d2, r2) = spec_topo_dec(
                g,
                g.successors_of(g.node_keys()[idx]),
                0,
                degrees,
                ready.remove(m),
            );
            &&& 0 <= m < ready.len()
            &&& topo_inv(g, d2, r2, out2)
            &&& spec_topo_loop(g, degrees, ready, out) == spec_topo_loop(g, d2, r2, out2)
            &&& r2.len() + pos_count(d2) < ready.len() + pos_count(degrees)
            &&& 0 <= r2.len() + pos_count(d2)
        }),
{
    let m = spec_min_pos(g.node_keys(), ready);
    lemma_min_pos_bounds(g.node_keys(), ready);
    let idx = ready[m];
    let kv_idx = g.node_keys()[idx];
    let r1 = ready.remove(m);
    let out2 = out.push(idx);
    let succs = g.successors_of(kv_idx);

    assert(!out.contains(idx));
    lemma_seq_push_keeps_no_duplicates(out, idx);
    assert(out2.last() == idx);
    assert(out2.drop_last() =~= out);

    // every edge source of idx was already emitted
    assert forall|u: int|
        0 <= u < g.nodes@.len() && count_in(g.successors_of(g.node_keys()[u]), kv_idx)
            > 0 implies out.contains(u) by {
        if !out.contains(u) {
            let s2 = out.push(u);
            lemma_seq_push_keeps_no_duplicates(out, u);
            assert(s2.drop_last() =~= out);
            assert(count_from(g, s2, kv_idx) == count_from(g, out, kv_idx) + count_in(
                g.successors_of(g.node_keys()[u]),
                kv_idx,
            ));
            assert(degrees[idx] == 0);
            assert(count_from(g, out, kv_idx) == g.spec_incoming(kv_idx));
            lemma_count_from_le_incoming(g, s2, kv_idx);
            assert(false);
        }
    }

    // set up the decrement round
    assert forall|t: int| 0 <= t < degrees.len() implies #[trigger] degrees[t]
        == g.spec_incoming(g.node_keys()[t]) - count_from(g, out2, g.node_keys()[t])
        + count_in(succs.subrange(0, succs.len() as int), g.node_keys()[t]) by {
        assert(count_from(g, out2, g.node_keys()[t]) == count_from(g, out, g.node_keys()[t])
            + count_in(succs, g.node_keys()[t]));
        assert(succs.subrange(0, succs.len() as int) =~= succs);
    }
    assert(r1.no_duplicates()) by {
        assert forall|i: int, j: int|
            0 <= i < r1.len() && 0 <= j < r1.len() && i != j implies r1[i] != r1[j] by {
            let i2 = if i < m { i } else { i + 1 };
            let j2 = if j < m { j } else { j + 1 };
            assert(r1[i] == ready[i2]);
            assert(r1[j] == ready[j2]);
        }
    }
    assert forall|i: int| 0 <= i < r1.len() implies 0 <= #[trigger] r1[i] < g.nodes@.len()
        && !out2.contains(r1[i]) && degrees[r1[i]] == 0 by {
        let i2 = if i < m {
            i
        } else {
            i + 1
        };
        assert(r1[i] == ready[i2]);
        assert(r1[i] != idx) by {
            assert(i2 != m);
            assert(ready[i2] != ready[m]);
        }
        assert(!out2.contains(r1[i])) by {
            if out2.contains(r1[i]) {
                let a = choose|a: int| 0 <= a < out2.len() && out2[a] == r1[i];
                if a < out.len() {
                    assert(out.contains(r1[i]));
                    assert(false);
                } else {
                    assert(out2[a] == idx);
                    assert(false);
                }
            }
        }
    }
    assert forall|i: int| 0 <= i < out2.len() implies degrees[#[trigger] out2[i]] == 0 by {
        if i < out.len() {
            assert(out2[i] == out[i]);
        } else {
            assert(out2[i] == idx);
        }
    }
    assert forall|t: int|
        0 <= t < degrees.len() && #[trigger] degrees[t] == 0 && !out2.contains(t) implies
        r1.contains(t) by {
        assert(!out.contains(t)) by {
            if out.contains(t) {
                let a = choose|a: int| 0 <= a < out.len() && out[a] == t;
                assert(out2[a] == t);
            }
        }
        assert(ready.contains(t));
        let q = choose|q: int| 0 <= q < ready.len() && ready[q] == t;
        assert(q != m) by {
            if q == m {
                assert(out2.last() == idx);
                assert(out2.contains(t));
            }
        }
        if q < m {
            assert(r1[q] == t);
        } else {
            assert(r1[q - 1] == t);
        }
    }
    lemma_topo_dec_preserves(g, succs, 0, degrees, r1, out2);
    let (d2, r2) = spec_topo_dec(g, succs, 0, degrees, r1);

    // the new emission respects its edges, and earlier ones still do
    assert forall|b: int, u: int|
        0 <= b < out2.len() && 0 <= u < g.nodes@.len() && #[trigger] count_in(
            g.successors_of(g.node_keys()[u]),
            g.node_keys()[out2[b]],
        ) > 0 implies exists|a: int| 0 <= a < b && out2[a] == u by {
        if b < out.len() {
            assert(out2[b] == out[b]);
            let a = choose|a: int| 0 <= a < b && out[a] == u;
            assert(out2[a] == u);
        } else {
            assert(out2[b] == idx);
            assert(out.contains(u));
            let a = choose|a: int| 0 <= a < out.len() && out[a] == u;
            assert(out2[a] == u);
        }
    }
    assert(topo_inv(g, d2, r2, out2));

    // the metric shrinks, exactly as in the sort itself
    lemma_succs_index_bounds(g, kv_idx, degrees.len() as int);
    lemma_topo_dec_metric(g, succs, 0, degrees, r1);
    lemma_pos_count_nonneg(d2);
}

/// From an invariant state the sort emits nodes only after every one of
/// their edge sources, and keeps the emitted positions distinct.
#[verifier::rlimit(100)]
#[verifier::spinoff_prover]
pub proof fn lemma_topo_loop_order<T: Dependent>(
    g: &DependencyGraph<T>,
    degrees: Seq<int>,
    ready: Seq<int>,
    out: Seq<int>,
)
    requires
        topo_inv(g, degrees, ready, out),
    ensures
        ({
            let res = spec_topo_loop(g, degrees, ready, out).0;
            &&& res.len() >= out.len()
            &&& res.subrange(0, out.len() as int) == out
            &&& res.no_duplicates()
            &&& forall|i: int| 0 <= i < res.len() ==> 0 <= #[trigger] res[i] < g.nodes@.len()
            &&& forall|b: int, u: int|
                0 <= b < res.len() && 0 <= u < g.nodes@.len() && #[trigger] count_in(
                    g.successors_of(g.node_keys()[u]),
                    g.node_keys()[res[b]],
                ) > 0 ==> exists|a: int| 0 <= a < b && res[a] == u
        }),
    decreases ready.len() + pos_count(degrees),
{
    if ready.len() == 0 {
        let res = spec_topo_loop(g, degrees, ready, out).0;
        assert(res == out);
        assert(res.subrange(0, out.len() as int) =~= out);
    } else {
        lemma_topo_step(g, degrees, ready, out);
        let m = spec_min_pos(g.node_keys(), ready);
        let idx = ready[m];
        let out2 = out.push(idx);
        let (d2, r2) = spec_topo_dec(
            g,
            g.successors_of(g.node_keys()[idx]),
            0,
            degrees,
            ready.remove(m),
        );
        lemma_topo_loop_order(g, d2, r2, out2);

        let res = spec_topo_loop(g, degrees, ready, out).0;
        assert(res == spec_topo_loop(g, d2, r2, out2).0);
        assert(res.subrange(0, out2.len() as int) == out2);
        assert forall|i: int| 0 <= i < out.len() implies res.subrange(0, out.len() as int)[i]
            == out[i] by {
            assert(res[i] == res.subrange(0, out2.len() as int)[i]);
            assert(out2[i] == out[i]);
        }
        assert(res.subrange(0, out.len() as int) =~= out);
    }
}

/// A node outside the emitted list whose every edge source is emitted is
/// ready, and its key is not lexicographically before the chosen one.
#[verifier::rlimit(100)]
#[verifier::spinoff_prover]
pub proof fn lemma_topo_greedy_head<T: Dependent>(
    g: &DependencyGraph<T>,
    degrees: Seq<int>,
    ready: Seq<int>,
    out: Seq<int>,
    t: int,
)
    requires
        topo_inv(g, degrees, ready, out),
        ready.len() > 0,
        0 <= t < g.nodes@.len(),
        !out.contains(t),
        forall|u: int|
            0 <= u < g.nodes@.len() && count_in(
                g.successors_of(g.node_keys()[u]),
                g.node_keys()[t],
            ) > 0 ==> out.contains(u),
    ensures
        !lex_lt(g.node_keys()[t], g.node_keys()[ready[spec_min_pos(g.node_keys(), ready)]]),
{
    lemma_count_from_complete(g, out, g.node_keys()[t]);
    assert(degrees[t] == 0);
    assert(ready.contains(t));
    let q = choose|q: int| 0 <= q < ready.len() && ready[q] == t;
    lemma_min_pos_bounds(g.node_keys(), ready);
    lemma_min_pos_is_least(g.node_keys(), ready);
    assert(!lex_lt(g.node_keys()[ready[q]], g.node_keys()[ready[spec_min_pos(g.node_keys(), ready)]]));
}

/// From an invariant state, each node the sort emits carries the
/// lexicographically least key among the nodes not yet emitted whose
/// every edge source is already emitted.
#[verifier::rlimit(100)]
#[verifier::spinoff_prover]
pub proof fn lemma_topo_loop_greedy<T: Dependent>(
    g: &DependencyGraph<T>,
    degrees: Seq<int>,
    ready: Seq<int>,
    out: Seq<int>,
)
    requires
        topo_inv(g, degrees, ready, out),
    ensures
        ({
            let res = spec_topo_loop(g, degrees, ready, out).0;
            &&& res.len() >= out.len()
            &&& res.subrange(0, out.len() as int) == out
            &&& forall|i: int, t: int|
                #![trigger res[i], g.node_keys()[t]]
                out.len() <= i < res.len() && 0 <= t < g.nodes@.len() && !res.subrange(
                    0,
                    i,
                ).contains(t) && (forall|u: int|
                    0 <= u < g.nodes@.len() && count_in(
                        g.successors_of(g.node_keys()[u]),
                        g.node_keys()[t],
                    ) > 0 ==> res.subrange(0, i).contains(u)) ==> !lex_lt(
                    g.node_keys()[t],
                    g.node_keys()[res[i]],
                )
        }),
    decreases ready.len() + pos_count(degrees),
{
    if ready.len() == 0 {
        let res = spec_topo_loop(g, degrees, ready, out).0;
        assert(res == out);
        assert(res.subrange(0, out.len() as int) =~= out);
    } else {
        lemma_topo_step(g, degrees, ready, out);
        let m = spec_min_pos(g.node_keys(), ready);
        let idx = ready[m];
        let out2 = out.push(idx);
        let (d2, r2) = spec_topo_dec(
            g,
            g.successors_of(g.node_keys()[idx]),
            0,
            degrees,
            ready.remove(m),
        );
        lemma_topo_loop_greedy(g, d2, r2, out2);

        let res = spec_topo_loop(g, degrees, ready, out).0;
        assert(res == spec_topo_loop(g, d2, r2, out2).0);
        assert(res.subrange(0, out2.len() as int) == out2);
        assert forall|i2: int| 0 <= i2 < out.len() implies res.subrange(0, out.len() as int)[i2]
            == out[i2] by {
            assert(res[i2] == res.subrange(0, out2.len() as int)[i2]);
            assert(out2[i2] == out[i2]);
        }
        assert(res.subrange(0, out.len() as int) =~= out);

        assert forall|i: int, t: int|
            #![trigger res[i], g.node_keys()[t]]
            out.len() <= i < res.len() && 0 <= t < g.nodes@.len() && !res.subrange(0, i).contains(
                t,
            ) && (forall|u: int|
                0 <= u < g.nodes@.len() && count_in(
                    g.successors_of(g.node_keys()[u]),
                    g.node_keys()[t],
                ) > 0 ==> res.subrange(0, i).contains(u)) implies !lex_lt(
            g.node_keys()[t],
            g.node_keys()[res[i]],
        ) by {
            if i == out.len() {
                assert(res[i] == out2[out.len() as int]) by {
                    assert(res.subrange(0, out2.len() as int)[out.len() as int] == out2[out.len() as int]);
                }
                assert(res[i] == idx);
                assert(res.subrange(0, i) == out);
                assert forall|u: int|
                    0 <= u < g.nodes@.len() && count_in(
                        g.successors_of(g.node_keys()[u]),
                        g.node_keys()[t],
                    ) > 0 implies out.contains(u) by {
                    assert(res.subrange(0, i).contains(u));
                }
                assert(!out.contains(t));
                lemma_topo_greedy_head(g, degrees, ready, out, t);
            }
        }
    }
}


/// A sequence with a fresh element keeps being duplicate-free.
pub proof fn lemma_seq_push_keeps_no_duplicates(s: Seq<int>, x: int)
    requires
        s.no_duplicates(),
        !s.contains(x),
    ensures
        s.push(x).no_duplicates(),
{
    let s2 = s.push(x);
    assert forall|i: int, j: int| 0 <= i < s2.len() && 0 <= j < s2.len() && i != j implies s2[i]
        != s2[j] by {
        if i < s.len() && j == s.len() {
            assert(s2[i] == s[i]);
        } else if j < s.len() && i == s.len() {
            assert(s2[j] == s[j]);
        }
    }
}

/// The positions the initial ready list holds are exactly the in-range
/// positions with no incoming edge, in order and without repeats.
pub proof fn lemma_zero_list_props<T: Dependent>(g: &DependencyGraph<T>, k: int)
    requires
        0 <= k <= g.nodes@.len(),
    ensures
        forall|i: int|
            0 <= i < g.spec_zero_list(k).len() ==> 0 <= #[trigger] g.spec_zero_list(k)[i] < k
                && g.spec_init_degrees()[g.spec_zero_list(k)[i]] == 0,
        g.spec_zero_list(k).no_duplicates(),
        forall|t: int|
            0 <= t < k && g.spec_incoming(g.node_keys()[t]) == 0 ==> g.spec_zero_list(
                k,
            ).contains(t),
    decreases k,
{
    if k > 0 {
        lemma_zero_list_props(g, k - 1);
        let prev = g.spec_zero_list(k - 1);
        assert forall|i: int| 0 <= i < g.spec_zero_list(k).len() implies 0 <= #[trigger] g.spec_zero_list(
            k,
        )[i] < k && g.spec_init_degrees()[g.spec_zero_list(k)[i]] == 0 by {
            if i < prev.len() {
                assert(g.spec_zero_list(k)[i] == prev[i]);
            } else {
                assert(g.spec_zero_list(k)[i] == k - 1);
            }
        }
        if g.spec_incoming(g.node_keys()[k - 1]) == 0 {
            assert(g.spec_zero_list(k) =~= prev.push(k - 1));
            assert(!prev.contains(k - 1)) by {
                if prev.contains(k - 1) {
                    let q = choose|q: int| 0 <= q < prev.len() && prev[q] == k - 1;
                }
            }
            lemma_seq_push_keeps_no_duplicates(prev, k - 1);
        } else {
            assert(g.spec_zero_list(k) =~= prev);
        }
        assert forall|t: int|
            0 <= t < k && g.spec_incoming(g.node_keys()[t]) == 0 implies g.spec_zero_list(
            k,
        ).contains(t) by {
            if t < k - 1 {
                assert(prev.contains(t));
                let q = choose|q: int| 0 <= q < prev.len() && prev[q] == t;
                assert(g.spec_zero_list(k)[q] == t);
            } else {
                assert(g.spec_zero_list(k).last() == k - 1);
            }
        }
    } else {
        assert(g.spec_zero_list(k) =~= Seq::<int>::empty());
    }
}

/// The initial state of the sort satisfies its invariant.
pub proof fn lemma_topo_initial_inv<T: Dependent>(g: &DependencyGraph<T>)
    requires
        g.wf(),
    ensures
        topo_inv(
            g,
            g.spec_init_degrees(),
            g.spec_zero_list(g.nodes@.len() as int),
            Seq::<int>::empty(),
        ),
{
    let degrees0 = g.spec_init_degrees();
    let ready0 = g.spec_zero_list(g.nodes@.len() as int);
    lemma_zero_list_props(g, g.nodes@.len() as int);
    assert forall|t: int| 0 <= t < degrees0.len() implies #[trigger] degrees0[t]
        == g.spec_incoming(g.node_keys()[t]) - count_from(
        g,
        Seq::<int>::empty(),
        g.node_keys()[t],
    ) by {
        assert(count_from(g, Seq::<int>::empty(), g.node_keys()[t]) == 0);
    }
    assert(Seq::<int>::empty().no_duplicates());
    assert(topo_inv(g, degrees0, ready0, Seq::<int>::empty()));
}

/// The emission order is duplicate-free over the node positions and
/// respects every edge: whenever both endpoints of an edge are emitted,
/// the source comes strictly before the target, so a node is always
/// emitted before everything it depends on.
pub proof fn lemma_topological_sort_respects_edges<T: Dependent>(g: &DependencyGraph<T>)
    requires
        g.wf(),
    ensures
        ({
            let out = spec_topo(g).0;
            &&& out.no_duplicates()
            &&& forall|i: int| 0 <= i < out.len() ==> 0 <= #[trigger] out[i] < g.nodes@.len()
            &&& forall|a: int, b: int|
                0 <= a < out.len() && 0 <= b < out.len() && #[trigger] count_in(
                    g.successors_of(g.node_keys()[out[a]]),
                    g.node_keys()[out[b]],
                ) > 0 ==> a < b
        }),
{
    lemma_topo_initial_inv(g);
    let degrees0 = g.spec_init_degrees();
    let ready0 = g.spec_zero_list(g.nodes@.len() as int);
    lemma_topo_loop_order(g, degrees0, ready0, Seq::<int>::empty());
    let out = spec_topo(g).0;
    assert forall|a: int, b: int|
        0 <= a < out.len() && 0 <= b < out.len() && #[trigger] count_in(
            g.successors_of(g.node_keys()[out[a]]),
            g.node_keys()[out[b]],
        ) > 0 implies a < b by {
        let u = out[a];
        let a2 = choose|a2: int| 0 <= a2 < b && out[a2] == u;
        assert(out[a2] == out[a]);
        if a2 != a {
            assert(out.no_duplicates());
            assert(false);
        }
    }
}

/// The greedy choice of the sort: each emitted node carries the
/// lexicographically least key among the nodes not yet emitted whose
/// every edge source is already emitted, so the emission order is the
/// unique one such a greedy walk can produce.
pub proof fn lemma_topological_sort_greedy<T: Dependent>(g: &DependencyGraph<T>)
    requires
        g.wf(),
    ensures
        ({
            let out = spec_topo(g).0;
            forall|i: int, t: int|
                #![trigger out[i], g.node_keys()[t]]
                0 <= i < out.len() && 0 <= t < g.nodes@.len() && !out.subrange(0, i).contains(t)
                    && (forall|u: int|
                    0 <= u < g.nodes@.len() && count_in(
                        g.successors_of(g.node_keys()[u]),
                        g.node_keys()[t],
                    ) > 0 ==> out.subrange(0, i).contains(u)) ==> !lex_lt(
                    g.node_keys()[t],
                    g.node_keys()[out[i]],
                )
        }),
{
    lemma_topo_initial_inv(g);
    let degrees0 = g.spec_init_degrees();
    let ready0 = g.spec_zero_list(g.nodes@.len() as int);
    lemma_topo_loop_greedy(g, degrees0, ready0, Seq::<int>::empty());
}

} // verus!

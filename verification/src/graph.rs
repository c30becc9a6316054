//! Sets of node names and adjacency lists over them, and the reachability that
//! the traversals are specified by.

use vstd::hash_map::StringHashMap;
use vstd::hash_set::StringHashSet;
use vstd::prelude::*;

verus! {

/// A node's name.
pub type Name = Seq<char>;

/// A graph: each node with its neighbors, in the order in which the edges were added.
pub type Graph = Map<Name, Seq<Name>>;

/// The texts of a list of strings.
pub open spec fn texts(list: Seq<String>) -> Seq<Name> {
    list.map_values(|s: String| s@)
}

/// A set of node names that remembers the order in which they were added.
pub struct NodeSet {
    names: Vec<String>,
    index: StringHashSet,
}

impl View for NodeSet {
    type V = Seq<Name>;

    closed spec fn view(&self) -> Seq<Name> {
        texts(self.names@)
    }
}

impl NodeSet {
    /// The lookup index holds exactly the listed names.
    pub closed spec fn indexed(&self) -> bool {
        self.index@ == self@.to_set()
    }

    /// No name is listed twice, and the index agrees with the list.
    pub open spec fn wf(&self) -> bool {
        &&& self@.no_duplicates()
        &&& self.indexed()
    }

    /// The empty set.
    pub fn new() -> (r: NodeSet)
        ensures
            r.wf(),
            r@ == Seq::<Name>::empty(),
    {
        let r = NodeSet { names: Vec::new(), index: StringHashSet::new() };
        assert(r@ =~= Seq::<Name>::empty());
        assert(r@.to_set() =~= Set::<Name>::empty());
        r
    }

    /// How many names the set holds.
    pub fn len(&self) -> (r: usize)
        ensures
            r == self@.len(),
    {
        self.names.len()
    }

    /// The name that was added as number `i`, counted from zero.
    pub fn get(&self, i: usize) -> (r: &String)
        requires
            i < self@.len(),
        ensures
            r@ == self@[i as int],
    {
        &self.names[i]
    }

    /// Whether `name` is in the set.
    pub fn contains(&self, name: &str) -> (r: bool)
        requires
            self.wf(),
        ensures
            r == self@.contains(name@),
    {
        self.index.contains(name)
    }

    /// Adds `name` at the end, unless it is there already; tells whether it was new.
    pub fn insert(&mut self, name: &str) -> (r: bool)
        requires
            old(self).wf(),
        ensures
            final(self).wf(),
            r == !old(self)@.contains(name@),
            final(self)@ == if old(self)@.contains(name@) {
                old(self)@
            } else {
                old(self)@.push(name@)
            },
    {
        if self.index.contains(name) {
            return false;
        }
        let ghost before = self@;
        self.names.push(name.to_owned());
        self.index.insert(name.to_owned());
        proof {
            assert(self@ =~= before.push(name@));
            lemma_push_new(before, name@);
        }
        true
    }

    /// The names, in the order in which they were added.
    pub fn to_vec(&self) -> (r: Vec<String>)
        ensures
            texts(r@) == self@,
    {
        let mut r: Vec<String> = Vec::new();
        let n: usize = self.names.len();
        let mut i: usize = 0;
        while i < n
            invariant
                i <= n,
                n == self.names@.len(),
                texts(r@) == self@.take(i as int),
            decreases n - i,
        {
            let ghost done = texts(r@);
            r.push(self.names[i].clone());
            i += 1;
            assert(texts(r@) =~= done.push(self@[i - 1]));
            assert(self@.take(i as int) =~= self@.take(i - 1).push(self@[i - 1]));
        }
        assert(self@.take(n as int) =~= self@);
        r
    }
}

/// An adjacency list: for each of its nodes the set of nodes that it has an edge to.
pub struct Adjacency {
    names: Vec<String>,
    sets: Vec<NodeSet>,
    index: StringHashMap<usize>,
}

impl View for Adjacency {
    type V = Graph;

    closed spec fn view(&self) -> Graph {
        self.index@.map_values(|i: usize| self.sets@[i as int]@)
    }
}

impl Adjacency {
    /// The nodes, in the order in which they were added.
    pub closed spec fn nodes(&self) -> Seq<Name> {
        texts(self.names@)
    }

    /// The lookup index gives each node's position, and each neighbor set is well-formed.
    pub closed spec fn indexed(&self) -> bool {
        &&& self.names@.len() == self.sets@.len()
        &&& forall|n: Name| #[trigger]
            self.index@.dom().contains(n) ==> self.index@[n] < self.names@.len()
                && self.names@[self.index@[n] as int]@ == n
        &&& forall|i: int|
            0 <= i < self.names@.len() ==> self.index@.dom().contains(#[trigger] self.names@[i]@)
                && self.index@[self.names@[i]@] == i
        &&& forall|i: int| 0 <= i < self.sets@.len() ==> (#[trigger] self.sets@[i]).wf()
    }

    /// The nodes are the keys of the mapping, each listed once.
    pub open spec fn wf(&self) -> bool {
        &&& self.nodes().no_duplicates()
        &&& forall|n: Name| #[trigger] self@.dom().contains(n) <==> self.nodes().contains(n)
        &&& forall|n: Name|
            self@.dom().contains(n) ==> (#[trigger] self@[n]).no_duplicates()
        &&& self.indexed()
    }

    /// The graph without nodes.
    pub fn new() -> (r: Adjacency)
        ensures
            r.wf(),
            r.nodes() == Seq::<Name>::empty(),
            r@ == Map::<Name, Seq<Name>>::empty(),
    {
        let r = Adjacency { names: Vec::new(), sets: Vec::new(), index: StringHashMap::new() };
        assert(r.nodes() =~= Seq::<Name>::empty());
        assert(r@ =~= Map::<Name, Seq<Name>>::empty());
        r
    }

    /// The neighbors of `name`, or `None` where it is not a node.
    pub fn neighbors(&self, name: &str) -> (r: Option<&NodeSet>)
        requires
            self.wf(),
        ensures
            match r {
                Some(set) => self@.dom().contains(name@) && set.wf() && set@ == self@[name@],
                None => !self@.dom().contains(name@),
            },
    {
        match self.index.get(name) {
            Some(i) => Some(&self.sets[*i]),
            None => None,
        }
    }

    /// The nodes, in the order in which they were added.
    pub fn node_names(&self) -> (r: &Vec<String>)
        ensures
            texts(r@) == self.nodes(),
    {
        &self.names
    }

    /// Makes `name` a node, with no neighbors where it is new.
    pub fn add_node(&mut self, name: &str)
        requires
            old(self).wf(),
        ensures
            final(self).wf(),
            final(self)@ == with_node(old(self)@, name@),
            final(self).nodes() == if old(self)@.dom().contains(name@) {
                old(self).nodes()
            } else {
                old(self).nodes().push(name@)
            },
    {
        if self.index.contains_key(name) {
            return ;
        }
        let ghost before = *self;
        let i: usize = self.names.len();
        self.names.push(name.to_owned());
        self.sets.push(NodeSet::new());
        self.index.insert(name.to_owned(), i);
        proof {
            assert(self.nodes() =~= before.nodes().push(name@));
            lemma_push_new(before.nodes(), name@);
            assert(self@ =~= with_node(before@, name@));
            assert forall|n: Name| #[trigger]
                self@.dom().contains(n) <==> self.nodes().contains(n) by {
                assert(self.nodes().to_set().contains(n) <==> self.nodes().contains(n));
                assert(before.nodes().to_set().contains(n) <==> before.nodes().contains(n));
                assert(before@.dom().contains(n) <==> before.nodes().contains(n));
            }
        }
    }

    /// Adds the edge from `from` to `to`; `from` becomes a node where it was none.
    pub fn add_edge(&mut self, from: &str, to: &str)
        requires
            old(self).wf(),
        ensures
            final(self).wf(),
            final(self)@ == with_edge(old(self)@, from@, to@),
            final(self).nodes() == if old(self)@.dom().contains(from@) {
                old(self).nodes()
            } else {
                old(self).nodes().push(from@)
            },
    {
        self.add_node(from);
        let ghost before = *self;
        assert(self@.dom().contains(from@));
        assert(self.index@.dom().contains(from@));
        let i: usize = *self.index.get(from).unwrap();
        self.sets[i].insert(to);
        proof {
            assert(self.nodes() =~= before.nodes());
            assert(self@ =~= with_edge(before@, from@, to@));
        }
    }
}

/// The mapping after `n` became a node.
pub open spec fn with_node(
    g: Graph,
    n: Name,
) -> Graph {
    if g.dom().contains(n) {
        g
    } else {
        g.insert(n, Seq::empty())
    }
}

/// The mapping after the edge from `u` to `v` was added.
pub open spec fn with_edge(
    g: Graph,
    u: Name,
    v: Name,
) -> Graph {
    let h = with_node(g, u);
    if h[u].contains(v) {
        h
    } else {
        h.insert(u, h[u].push(v))
    }
}

/// Whether the graph has an edge from `u` to `v`.
pub open spec fn edge(g: Graph, u: Name, v: Name) -> bool {
    g.dom().contains(u) && g[u].contains(v)
}

/// Whether every edge also runs backwards.
pub open spec fn symmetric(g: Graph) -> bool {
    forall|u: Name, v: Name| #[trigger] edge(g, u, v) ==> edge(g, v, u)
}

/// Whether `w` can be reached from `s` in at most `k` steps along edges, where no step
/// leads into `avoid`. The start may lie in `avoid`.
pub open spec fn within(
    g: Graph,
    avoid: Set<Name>,
    s: Name,
    w: Name,
    k: nat,
) -> bool
    decreases k,
{
    ||| w == s
    ||| k > 0 && !avoid.contains(w) && exists|u: Name|
        within(g, avoid, s, u, (k - 1) as nat) && #[trigger] edge(g, u, w)
}

/// Whether `w` can be reached from `s` along edges, where no step leads into `avoid`.
pub open spec fn reachable(
    g: Graph,
    avoid: Set<Name>,
    s: Name,
    w: Name,
) -> bool {
    exists|k: nat| within(g, avoid, s, w, k)
}

/// Whether the shortest way from `s` to `w` has exactly `d` steps, none of them into `avoid`.
pub open spec fn distance_is(
    g: Graph,
    avoid: Set<Name>,
    s: Name,
    w: Name,
    d: nat,
) -> bool {
    &&& within(g, avoid, s, w, d)
    &&& forall|k: nat| k < d ==> !within(g, avoid, s, w, k)
}

/// More steps reach no less.
pub proof fn lemma_within_monotonic(
    g: Graph,
    avoid: Set<Name>,
    s: Name,
    w: Name,
    j: nat,
    k: nat,
)
    requires
        within(g, avoid, s, w, j),
        j <= k,
    ensures
        within(g, avoid, s, w, k),
    decreases j,
{
    if w != s {
        let u = choose|u: Name|
            within(g, avoid, s, u, (j - 1) as nat) && #[trigger] edge(g, u, w);
        lemma_within_monotonic(g, avoid, s, u, (j - 1) as nat, (k - 1) as nat);
    }
}

/// Appending a new element keeps a list free of repetitions and adds just that element to its set.
pub proof fn lemma_push_new<A>(s: Seq<A>, a: A)
    requires
        s.no_duplicates(),
        !s.contains(a),
    ensures
        s.push(a).no_duplicates(),
        s.push(a).to_set() == s.to_set().insert(a),
{
    assert(s.push(a).to_set() =~= s.to_set().insert(a)) by {
        assert forall|x: A| s.push(a).to_set().contains(x) == s.to_set().insert(a).contains(x) by {
            if s.contains(x) {
                let i = choose|i: int| 0 <= i < s.len() && s[i] == x;
                assert(s.push(a)[i] == x);
            }
            if x == a {
                assert(s.push(a)[s.len() as int] == x);
            }
        }
    }
}

/// What a list holds after an element was appended.
pub proof fn lemma_push_contains<A>(s: Seq<A>, a: A, x: A)
    ensures
        s.push(a).contains(x) <==> s.contains(x) || x == a,
{
    assert(s.push(a)[s.len() as int] == a);
    if s.contains(x) {
        let i = choose|i: int| 0 <= i < s.len() && s[i] == x;
        assert(s.push(a)[i] == x);
    }
}

/// What is kept of a list is what the list holds and the test lets through.
pub proof fn lemma_kept<A>(s: Seq<A>, keep: spec_fn(A) -> bool, x: A)
    ensures
        s.filter(keep).contains(x) <==> s.contains(x) && keep(x),
    decreases s.len(),
{
    reveal(Seq::filter);
    if s.len() > 0 {
        let front = s.drop_last();
        lemma_kept(front, keep, x);
        lemma_push_contains(front, s.last(), x);
        lemma_push_contains(front.filter(keep), s.last(), x);
        assert(front.push(s.last()) =~= s);
    }
}

/// A new node has no neighbors, and nothing else changes; a node that is there stays as it is.
pub proof fn law_a_new_node_has_no_neighbors(g: Graph, n: Name)
    ensures
        with_node(g, n).dom() == g.dom().insert(n),
        !g.dom().contains(n) ==> with_node(g, n)[n].len() == 0,
        forall|m: Name| g.dom().contains(m) ==> #[trigger] with_node(g, n)[m] == g[m],
{
    assert(with_node(g, n).dom() =~= g.dom().insert(n));
}

/// An edge that is added leads to one neighbor more, the last one, unless it was there; no other
/// node gets or loses a neighbor.
pub proof fn law_an_edge_adds_one_neighbor(g: Graph, u: Name, v: Name)
    ensures
        with_edge(g, u, v).dom() == g.dom().insert(u),
        with_edge(g, u, v)[u].contains(v),
        g.dom().contains(u) && g[u].contains(v) ==> with_edge(g, u, v)[u] == g[u],
        g.dom().contains(u) && !g[u].contains(v) ==> with_edge(g, u, v)[u] == g[u].push(v),
        !g.dom().contains(u) ==> with_edge(g, u, v)[u] == seq![v],
        forall|m: Name|
            m != u && g.dom().contains(m) ==> #[trigger] with_edge(g, u, v)[m] == g[m],
        forall|a: Name, b: Name|
            edge(with_edge(g, u, v), a, b) <==> (g.dom().contains(a) && #[trigger] g[a].contains(b))
                || a == u && b == v,
{
    let h = with_node(g, u);
    let r = with_edge(g, u, v);
    assert(r.dom() =~= g.dom().insert(u));
    lemma_push_contains(h[u], v, v);
    assert(!g.dom().contains(u) ==> h[u].push(v) =~= seq![v]);
    assert forall|a: Name, b: Name|
        edge(r, a, b) <==> (g.dom().contains(a) && #[trigger] g[a].contains(b)) || a == u && b
            == v by {
        if a == u {
            lemma_push_contains(h[u], v, b);
        }
    }
}

/// The texts of strings are as many, each at its place.
pub proof fn law_texts_are_those_of_the_strings(list: Seq<String>)
    ensures
        texts(list).len() == list.len(),
        forall|i: int| 0 <= i < list.len() ==> #[trigger] texts(list)[i] == list[i]@,
{
}

} // verus!

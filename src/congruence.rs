//! Congruence graph: hash-consed term nodes with a union-find forest whose
//! classes are kept closed under congruence.
use vstd::prelude::*;
use vstd::set_lib::*;

verus! {

pub type NodeIndex = usize;

pub type SymbolIndex = usize;

/// The nodes of a congruence graph: what each one is, without its class.
pub struct NodesView {
    /// Symbol of each node.
    pub symbols: Seq<nat>,
    /// Children of each node, in argument order.
    pub children: Seq<Seq<int>>,
}

impl NodesView {
    pub open spec fn len(self) -> nat {
        self.symbols.len()
    }

    pub open spec fn valid(self, n: int) -> bool {
        0 <= n < self.len()
    }

    /// Same symbol, same arity, and children pairwise related by `r`.
    pub open spec fn congruent_under(self, i: int, j: int, r: spec_fn(int, int) -> bool) -> bool {
        &&& self.symbols[i] == self.symbols[j]
        &&& self.children[i].len() == self.children[j].len()
        &&& forall|k: int|
            #![trigger self.children[i][k]]
            0 <= k < self.children[i].len() ==> r(self.children[i][k], self.children[j][k])
    }

    /// `r` is an equivalence on the nodes that is closed under congruence.
    pub open spec fn is_congruence(self, r: spec_fn(int, int) -> bool) -> bool {
        &&& forall|x: int| self.valid(x) ==> #[trigger] r(x, x)
        &&& forall|x: int, y: int| self.valid(x) && self.valid(y) && #[trigger] r(x, y) ==> r(y, x)
        &&& forall|x: int, y: int, z: int|
            self.valid(x) && self.valid(y) && self.valid(z) && #[trigger] r(x, y) && #[trigger] r(
                y,
                z,
            ) ==> r(x, z)
        &&& forall|i: int, j: int|
            self.valid(i) && self.valid(j) && #[trigger] self.congruent_under(i, j, r) ==> r(i, j)
    }

    /// No two nodes carry the same symbol and the same children.
    pub open spec fn hash_consed(self) -> bool {
        forall|i: int, j: int|
            self.valid(i) && self.valid(j) && self.symbols[i] == self.symbols[j]
                && #[trigger] self.children[i] == #[trigger] self.children[j] ==> i == j
    }

    /// Children are nodes created before their parent.
    pub open spec fn ordered(self) -> bool {
        &&& self.children.len() == self.len()
        &&& forall|i: int, k: int|
            #![trigger self.children[i][k]]
            self.valid(i) && 0 <= k < self.children[i].len() ==> 0 <= self.children[i][k] < i
    }
}

/// `r` relates every pair of `pairs`.
pub open spec fn respects(pairs: Seq<(int, int)>, r: spec_fn(int, int) -> bool) -> bool {
    forall|k: int| 0 <= k < pairs.len() ==> #[trigger] r(pairs[k].0, pairs[k].1)
}

/// Abstract state of a congruence graph.
pub struct GraphView {
    pub nodes: NodesView,
    /// Class representative of each node.
    pub rep: Seq<int>,
    /// Every pair of nodes that has been asserted equal, in order.
    pub asserted: Seq<(int, int)>,
}

impl GraphView {
    pub open spec fn len(self) -> nat {
        self.nodes.len()
    }

    pub open spec fn valid(self, n: int) -> bool {
        self.nodes.valid(n)
    }

    pub open spec fn same(self, a: int, b: int) -> bool {
        self.rep[a] == self.rep[b]
    }

    /// Same symbol, same arity, and children pairwise in one class.
    pub open spec fn congruent(self, i: int, j: int) -> bool {
        &&& self.nodes.symbols[i] == self.nodes.symbols[j]
        &&& self.nodes.children[i].len() == self.nodes.children[j].len()
        &&& forall|k: int|
            #![trigger self.nodes.children[i][k]]
            0 <= k < self.nodes.children[i].len() ==> self.rep[self.nodes.children[i][k]]
                == self.rep[self.nodes.children[j][k]]
    }

    /// `a` and `b` are related by every congruence that relates the asserted pairs.
    pub open spec fn entails(self, a: int, b: int) -> bool {
        forall|r: spec_fn(int, int) -> bool|
            #[trigger] self.nodes.is_congruence(r) && respects(self.asserted, r) ==> r(a, b)
    }

    /// The classes lie inside every congruence that relates the asserted
    /// pairs: together with `closed` and `asserted_joined`, the classes are
    /// the least congruence relating the asserted pairs.
    pub open spec fn least(self) -> bool {
        forall|r: spec_fn(int, int) -> bool|
            #[trigger] self.nodes.is_congruence(r) && respects(self.asserted, r) ==> forall|
                x: int,
                y: int,
            | self.valid(x) && self.valid(y) && self.same(x, y) ==> #[trigger] r(x, y)
    }

    /// Congruent nodes share a class.
    pub open spec fn closed(self) -> bool {
        forall|i: int, j: int|
            self.valid(i) && self.valid(j) && #[trigger] self.congruent(i, j) ==> self.same(i, j)
    }

    /// Representatives are nodes that represent themselves, and asserted
    /// pairs are nodes.
    pub open spec fn shape(self) -> bool {
        &&& self.nodes.ordered()
        &&& self.rep.len() == self.len()
        &&& forall|i: int| #[trigger] self.valid(i) ==> self.valid(self.rep[i])
        &&& forall|i: int| self.valid(i) ==> self.rep[#[trigger] self.rep[i]] == self.rep[i]
        &&& forall|k: int|
            0 <= k < self.asserted.len() ==> self.valid(#[trigger] self.asserted[k].0) && self.valid(
                self.asserted[k].1,
            )
    }

    /// The classes relate every asserted pair.
    pub open spec fn asserted_joined(self) -> bool {
        forall|k: int|
            0 <= k < self.asserted.len() ==> self.same(#[trigger] self.asserted[k].0, self.asserted[k].1)
    }

    /// Everything the graph promises after each public operation.
    pub open spec fn good(self) -> bool {
        &&& self.shape()
        &&& self.closed()
        &&& self.nodes.hash_consed()
        &&& self.least()
        &&& self.asserted_joined()
    }

    /// Nodes and classes of `self` survive in `later`.
    pub open spec fn grows_to(self, later: GraphView) -> bool {
        &&& self.len() <= later.len()
        &&& forall|i: int| 0 <= i < self.len() ==> #[trigger] later.nodes.symbols[i] == self.nodes.symbols[i]
        &&& forall|i: int| 0 <= i < self.len() ==> #[trigger] later.nodes.children[i] == self.nodes.children[i]
        &&& forall|a: int, b: int|
            self.valid(a) && self.valid(b) && #[trigger] self.same(a, b) ==> #[trigger] later.same(a, b)
    }
}

/// A work list names the unordered pair `{i, j}`.
pub open spec fn listed(wl: Seq<(usize, usize)>, i: int, j: int) -> bool {
    exists|k: int|
        0 <= k < wl.len() && ((#[trigger] wl[k]).0 == i && wl[k].1 == j || wl[k].0 == j && wl[k].1 == i)
}

/// Growth composes.
pub proof fn lemma_grows_trans(a: GraphView, b: GraphView, c: GraphView)
    requires
        a.grows_to(b),
        b.grows_to(c),
    ensures
        a.grows_to(c),
{
    assert forall|i: int| 0 <= i < a.len() implies #[trigger] c.nodes.symbols[i] == a.nodes.symbols[i] by {
        assert(b.nodes.symbols[i] == a.nodes.symbols[i]);
    }
    assert forall|i: int| 0 <= i < a.len() implies #[trigger] c.nodes.children[i] == a.nodes.children[i] by {
        assert(b.nodes.children[i] == a.nodes.children[i]);
    }
    assert forall|x: int, y: int| a.valid(x) && a.valid(y) && #[trigger] a.same(x, y) implies #[trigger] c.same(x, y) by {
        assert(b.same(x, y));
    }
}

proof fn lemma_shape_intro(v: GraphView)
    requires
        v.nodes.ordered(),
        v.rep.len() == v.len(),
        forall|i: int| #[trigger] v.valid(i) ==> v.valid(v.rep[i]),
        forall|i: int| v.valid(i) ==> v.rep[#[trigger] v.rep[i]] == v.rep[i],
        forall|k: int|
            0 <= k < v.asserted.len() ==> v.valid(#[trigger] v.asserted[k].0) && v.valid(v.asserted[k].1),
    ensures
        v.shape(),
{
}

struct NodeData {
    symbol: SymbolIndex,
    children: Vec<NodeIndex>,
}

/// A set of term nodes, each a symbol applied to earlier nodes, partitioned
/// into congruence classes.
pub struct CongruenceGraph {
    nodes: Vec<NodeData>,
    class_parent: Vec<Option<NodeIndex>>,
    /// Upper bound on the height of the class tree below each node; only a
    /// balancing heuristic.
    class_height: Vec<usize>,
    rep: Ghost<Seq<int>>,
    rank: Ghost<Seq<nat>>,
    asserted: Ghost<Seq<(int, int)>>,
}

pub open spec fn children_view(c: Seq<usize>) -> Seq<int> {
    c.map_values(|x: usize| x as int)
}

spec fn nodes_view(nodes: Seq<NodeData>) -> NodesView {
    NodesView {
        symbols: Seq::new(nodes.len(), |i: int| nodes[i].symbol as nat),
        children: Seq::new(nodes.len(), |i: int| children_view(nodes[i].children@)),
    }
}

impl CongruenceGraph {
    pub closed spec fn view(&self) -> GraphView {
        GraphView { nodes: nodes_view(self.nodes@), rep: self.rep@, asserted: self.asserted@ }
    }

    /// The parent pointers agree with `rep`, and `rank` grows strictly
    /// towards the root.
    closed spec fn forest(&self) -> bool {
        let n = self.nodes@.len();
        &&& self.class_parent@.len() == n
        &&& self.class_height@.len() == n
        &&& self.rep@.len() == n
        &&& self.rank@.len() == n
        &&& forall|i: int|
            0 <= i < n ==> match #[trigger] self.class_parent@[i] {
                None => self.rep@[i] == i,
                Some(p) => {
                    &&& p < n
                    &&& self.rep@[i] == self.rep@[p as int]
                    &&& self.rank@[p as int] > self.rank@[i]
                },
            }
        &&& forall|i: int|
            0 <= i < n ==> 0 <= #[trigger] self.rep@[i] < n && self.class_parent@[self.rep@[i]]
                is None && self.rank@[i] <= self.rank@[self.rep@[i]]
    }

    /// All invariants but the asserted pairs being joined; holds while a merge runs.
    closed spec fn wf_core(&self) -> bool {
        &&& self.forest()
        &&& self@.shape()
        &&& self@.closed()
        &&& self@.nodes.hash_consed()
        &&& self@.least()
    }

    pub closed spec fn wf(&self) -> bool {
        self.wf_core() && self@.asserted_joined()
    }

    /// Number of class roots; every union lowers it.
    closed spec fn num_roots(&self) -> nat {
        Set::new(|i: int| 0 <= i < self.nodes@.len() && self.rep@[i] == i).len()
    }

    proof fn lemma_view_facts(&self)
        requires
            self.forest(),
        ensures
            self@.len() == self.nodes@.len(),
            self@.rep.len() == self@.len(),
            self@.nodes.children.len() == self@.len(),
            forall|i: int| 0 <= i < self@.len() ==> #[trigger] self@.nodes.symbols[i] == self.nodes@[i].symbol as nat,
            forall|i: int| 0 <= i < self@.len() ==> #[trigger] self@.nodes.children[i] == children_view(self.nodes@[i].children@),
            forall|i: int| 0 <= i < self@.len() ==> self.rep@[#[trigger] self.rep@[i]] == self.rep@[i],
    {
        assert forall|i: int| 0 <= i < self@.len() implies self.rep@[#[trigger] self.rep@[i]] == self.rep@[i] by {
            let r = self.rep@[i];
            assert(self.class_parent@[r] is None);
        }
    }

    /// No two nodes have the same symbol and the same children.
    pub proof fn lemma_hash_consing(&self)
        requires
            self.wf(),
        ensures
            forall|i: int, j: int|
                self@.valid(i) && self@.valid(j) && self@.nodes.symbols[i] == self@.nodes.symbols[j]
                    && #[trigger] self@.nodes.children[i] == #[trigger] self@.nodes.children[j] ==> i == j,
    {
    }

    /// Nodes with the same symbol and children pairwise in one class are in
    /// one class.
    pub proof fn lemma_congruence_closed(&self)
        requires
            self.wf(),
        ensures
            forall|i: int, j: int|
                self@.valid(i) && self@.valid(j) && #[trigger] self@.congruent(i, j) ==> self@.rep[i]
                    == self@.rep[j],
    {
    }

    /// Being in one class is reflexive, symmetric and transitive.
    pub proof fn lemma_same_class_equivalence(&self)
        requires
            self.wf(),
        ensures
            forall|a: int| self@.valid(a) ==> #[trigger] self@.same(a, a),
            forall|a: int, b: int| #[trigger] self@.same(a, b) ==> self@.same(b, a),
            forall|a: int, b: int, c: int| #[trigger] self@.same(a, b) && #[trigger] self@.same(b, c) ==> self@.same(a, c),
    {
    }

    /// A well-formed graph meets every promise of `GraphView::good`.
    pub proof fn lemma_good(&self)
        requires
            self.wf(),
        ensures
            self@.good(),
    {
    }

    /// An empty graph.
    pub fn new() -> (g: CongruenceGraph)
        ensures
            g.wf(),
            g@.len() == 0,
            g@.asserted.len() == 0,
    {
        let g = CongruenceGraph {
            nodes: Vec::new(),
            class_parent: Vec::new(),
            class_height: Vec::new(),
            rep: Ghost(Seq::empty()),
            rank: Ghost(Seq::empty()),
            asserted: Ghost(Seq::empty()),
        };
        proof {
            g.lemma_view_facts();
        }
        g
    }

    /// Number of nodes.
    pub fn len(&self) -> (r: usize)
        requires
            self.wf(),
        ensures
            r == self@.len(),
    {
        proof {
            self.lemma_view_facts();
        }
        self.nodes.len()
    }

    fn find_root(&self, node: NodeIndex) -> (r: NodeIndex)
        requires
            self.forest(),
            node < self.nodes@.len(),
        ensures
            r as int == self.rep@[node as int],
    {
        let mut cur = node;
        while self.class_parent[cur].is_some()
            invariant
                self.forest(),
                cur < self.nodes@.len(),
                self.rep@[cur as int] == self.rep@[node as int],
            decreases self.rank@[self.rep@[node as int]] - self.rank@[cur as int],
        {
            cur = self.class_parent[cur].unwrap();
        }
        cur
    }

    /// The representative of the class of `node`.
    pub fn get_congruent_class(&self, node: NodeIndex) -> (r: NodeIndex)
        requires
            self.wf(),
            node < self@.len(),
        ensures
            r as int == self@.rep[node as int],
    {
        proof {
            self.lemma_view_facts();
        }
        self.find_root(node)
    }

    /// Whether `node1` and `node2` are in one class.
    pub fn same_class(&self, node1: NodeIndex, node2: NodeIndex) -> (r: bool)
        requires
            self.wf(),
            node1 < self@.len(),
            node2 < self@.len(),
        ensures
            r == self@.same(node1 as int, node2 as int),
    {
        self.get_congruent_class(node1) == self.get_congruent_class(node2)
    }

    /// Whether two sequences of nodes have equal length and are pairwise in one class.
    fn classes_match(&self, c1: &Vec<NodeIndex>, c2: &Vec<NodeIndex>) -> (r: bool)
        requires
            self.forest(),
            forall|k: int| 0 <= k < c1@.len() ==> #[trigger] c1@[k] < self.nodes@.len(),
            forall|k: int| 0 <= k < c2@.len() ==> #[trigger] c2@[k] < self.nodes@.len(),
        ensures
            r == (c1@.len() == c2@.len() && forall|k: int|
                #![trigger c1@[k]]
                0 <= k < c1@.len() ==> self.rep@[c1@[k] as int] == self.rep@[c2@[k] as int]),
    {
        if c1.len() != c2.len() {
            return false;
        }
        let mut k: usize = 0;
        while k < c1.len()
            invariant
                self.forest(),
                forall|j: int| 0 <= j < c1@.len() ==> #[trigger] c1@[j] < self.nodes@.len(),
                forall|j: int| 0 <= j < c2@.len() ==> #[trigger] c2@[j] < self.nodes@.len(),
                c1.len() == c2.len(),
                k <= c1.len(),
                forall|j: int|
                    #![trigger c1@[j]]
                    0 <= j < k ==> self.rep@[c1@[j] as int] == self.rep@[c2@[j] as int],
            decreases c1.len() - k,
        {
            let r1 = self.find_root(c1[k]);
            let r2 = self.find_root(c2[k]);
            if r1 != r2 {
                return false;
            }
            k = k + 1;
        }
        true
    }

    proof fn lemma_children_bounded(&self, i: int)
        requires
            self.forest(),
            self@.shape(),
            0 <= i < self.nodes@.len(),
        ensures
            forall|k: int|
                0 <= k < self.nodes@[i].children@.len() ==> #[trigger] self.nodes@[i].children@[k] < i,
            self@.nodes.children[i] == children_view(self.nodes@[i].children@),
            self@.nodes.children[i].len() == self.nodes@[i].children@.len(),
            forall|k: int|
                0 <= k < self.nodes@[i].children@.len() ==> #[trigger] self@.nodes.children[i][k]
                    == self.nodes@[i].children@[k] as int,
    {
        self.lemma_view_facts();
        assert forall|k: int| 0 <= k < self.nodes@[i].children@.len() implies #[trigger] self.nodes@[i].children@[k] < i by {
            assert(self@.nodes.children[i][k] == self.nodes@[i].children@[k] as int);
        }
    }

    fn children_congruent(&self, node1: NodeIndex, node2: NodeIndex) -> (r: bool)
        requires
            self.forest(),
            self@.shape(),
            node1 < self.nodes@.len(),
            node2 < self.nodes@.len(),
        ensures
            r == (self@.nodes.children[node1 as int].len() == self@.nodes.children[node2 as int].len()
                && forall|k: int|
                #![trigger self@.nodes.children[node1 as int][k]]
                0 <= k < self@.nodes.children[node1 as int].len() ==> self@.rep[self@.nodes.children[node1 as int][k]]
                    == self@.rep[self@.nodes.children[node2 as int][k]]),
    {
        proof {
            self.lemma_children_bounded(node1 as int);
            self.lemma_children_bounded(node2 as int);
        }
        let r = self.classes_match(&self.nodes[node1].children, &self.nodes[node2].children);
        proof {
            let c1 = self.nodes@[node1 as int].children@;
            let c2 = self.nodes@[node2 as int].children@;
            let v = self@;
            if !r && c1.len() == c2.len() {
                let k = choose|k: int|
                    0 <= k < c1.len() && self.rep@[c1[k] as int] != self.rep@[c2[k] as int];
                assert(v.nodes.children[node1 as int][k] == c1[k] as int);
                assert(v.nodes.children[node2 as int][k] == c2[k] as int);
            }
            if r {
                assert forall|k: int| 0 <= k < v.nodes.children[node1 as int].len() implies
                    v.rep[v.nodes.children[node1 as int][k]] == v.rep[v.nodes.children[node2 as int][k]] by {
                    assert(c1[k] == c1[k]);
                    assert(v.nodes.children[node2 as int][k] == c2[k] as int);
                }
            }
        }
        r
    }

    /// Whether the two nodes have the same number of children and their
    /// children are pairwise in one class.
    pub fn have_congruent_children(&self, node1: NodeIndex, node2: NodeIndex) -> (r: bool)
        requires
            self.wf(),
            node1 < self@.len(),
            node2 < self@.len(),
        ensures
            r == (self@.nodes.children[node1 as int].len() == self@.nodes.children[node2 as int].len()
                && forall|k: int|
                #![trigger self@.nodes.children[node1 as int][k]]
                0 <= k < self@.nodes.children[node1 as int].len() ==> self@.same(
                    self@.nodes.children[node1 as int][k],
                    self@.nodes.children[node2 as int][k],
                )),
    {
        proof {
            self.lemma_view_facts();
        }
        self.children_congruent(node1, node2)
    }

    proof fn lemma_roots_finite(&self)
        requires
            self.forest(),
        ensures
            Set::new(|i: int| 0 <= i < self.nodes@.len() && self.rep@[i] == i).finite(),
    {
        let roots = Set::new(|i: int| 0 <= i < self.nodes@.len() && self.rep@[i] == i);
        lemma_int_range(0, self.nodes@.len() as int);
        lemma_len_subset(roots, set_int_range(0, self.nodes@.len() as int));
    }

    /// Hangs the class of `lo` or of `hi` below the other's root, by height.
    fn union_roots(&mut self, ra: NodeIndex, rb: NodeIndex)
        requires
            old(self).forest(),
            old(self)@.shape(),
            old(self)@.least(),
            ra < old(self).nodes@.len(),
            rb < old(self).nodes@.len(),
            ra != rb,
            old(self).class_parent@[ra as int] is None,
            old(self).class_parent@[rb as int] is None,
            old(self)@.entails(ra as int, rb as int),
        ensures
            final(self).forest(),
            final(self)@.shape(),
            final(self)@.least(),
            final(self).nodes == old(self).nodes,
            final(self)@.nodes == old(self)@.nodes,
            final(self)@.asserted == old(self)@.asserted,
            forall|i: int, j: int|
                old(self)@.valid(i) && old(self)@.valid(j) ==> (#[trigger] final(self)@.same(i, j) <==> (
                old(self)@.same(i, j) || (old(self)@.rep[i] == ra && old(self)@.rep[j] == rb) || (
                old(self)@.rep[i] == rb && old(self)@.rep[j] == ra))),
            final(self).num_roots() < old(self).num_roots(),
    {
        proof {
            old(self).lemma_view_facts();
        }
        let (hi, lo) = if self.class_height[ra] < self.class_height[rb] {
            (rb, ra)
        } else {
            (ra, rb)
        };
        self.class_parent.set(lo, Some(hi));
        let h = self.class_height[hi];
        if h == self.class_height[lo] && h < usize::MAX {
            self.class_height.set(hi, h + 1);
        }
        let ghost old_rep = self.rep@;
        let ghost old_rank = self.rank@;
        let ghost n = self.nodes@.len();
        let ghost new_rank: nat = if old_rank[hi as int] > old_rank[lo as int] {
            old_rank[hi as int]
        } else {
            old_rank[lo as int] + 1
        };
        self.rep = Ghost(
            Seq::new(old_rep.len(), |i: int| if old_rep[i] == lo as int { hi as int } else { old_rep[i] }),
        );
        self.rank = Ghost(old_rank.update(hi as int, new_rank));
        proof {
            let ov = old(self)@;
            let nv = self@;
            assert(old_rep[lo as int] == lo);
            assert(old_rep[hi as int] == hi);
            assert forall|i: int| 0 <= i < n implies match #[trigger] self.class_parent@[i] {
                None => self.rep@[i] == i,
                Some(p) => {
                    &&& p < n
                    &&& self.rep@[i] == self.rep@[p as int]
                    &&& self.rank@[p as int] > self.rank@[i]
                },
            } by {
                if i != lo as int {
                    assert(self.class_parent@[i] == old(self).class_parent@[i]);
                }
            }
            assert forall|i: int| 0 <= i < n implies 0 <= #[trigger] self.rep@[i] < n
                && self.class_parent@[self.rep@[i]] is None && self.rank@[i] <= self.rank@[self.rep@[i]] by {
                let r = old_rep[i];
                assert(old(self).class_parent@[r] is None);
            }
            self.lemma_view_facts();
            assert(nv.nodes == ov.nodes);
            assert forall|i: int| nv.valid(i) implies self.rep@[#[trigger] self.rep@[i]] == self.rep@[i] by {
                let r = old_rep[i];
                assert(old_rep[r] == r);
            }
            assert forall|i: int| #[trigger] nv.valid(i) implies nv.valid(nv.rep[i]) by {}
            assert(nv.nodes.ordered());
            assert(nv.rep.len() == nv.len());
            assert(nv.asserted == ov.asserted);
            assert forall|k: int| 0 <= k < nv.asserted.len() implies nv.valid(#[trigger] nv.asserted[k].0) && nv.valid(
                nv.asserted[k].1) by {
                assert(ov.valid(ov.asserted[k].0));
            }
            assert(nv.shape());
            assert forall|i: int, j: int| ov.valid(i) && ov.valid(j) implies (#[trigger] nv.same(i, j) <==> (
                ov.same(i, j) || (ov.rep[i] == ra && ov.rep[j] == rb) || (ov.rep[i] == rb && ov.rep[j] == ra))) by {
                assert(ov.rep[ov.rep[i]] == ov.rep[i]);
                assert(ov.rep[ov.rep[j]] == ov.rep[j]);
            }
            assert forall|r: spec_fn(int, int) -> bool|
                #[trigger] nv.nodes.is_congruence(r) && respects(nv.asserted, r) implies forall|x: int, y: int|
                    nv.valid(x) && nv.valid(y) && nv.same(x, y) ==> #[trigger] r(x, y) by {
                assert(ov.nodes.is_congruence(r));
                assert(r(ra as int, rb as int));
                assert(r(rb as int, ra as int));
                assert forall|x: int, y: int| nv.valid(x) && nv.valid(y) && nv.same(x, y) implies #[trigger] r(x, y) by {
                    if ov.same(x, y) {
                    } else if ov.rep[x] == ra && ov.rep[y] == rb {
                        assert(ov.same(x, ra as int));
                        assert(r(x, ra as int));
                        assert(ov.same(rb as int, y));
                        assert(r(rb as int, y));
                        assert(r(x, rb as int));
                    } else {
                        assert(ov.rep[x] == rb && ov.rep[y] == ra);
                        assert(ov.same(x, rb as int));
                        assert(r(x, rb as int));
                        assert(ov.same(ra as int, y));
                        assert(r(ra as int, y));
                        assert(r(x, ra as int));
                    }
                }
            }
            let old_roots = Set::new(|i: int| 0 <= i < n && old_rep[i] == i);
            let new_roots = Set::new(|i: int| 0 <= i < n && self.rep@[i] == i);
            old(self).lemma_roots_finite();
            assert(new_roots =~= old_roots.remove(lo as int));
            assert(old_roots.contains(lo as int));
        }
    }

    /// Congruent nodes are entailed to be equal.
    proof fn lemma_congruent_entailed(&self, i: int, j: int)
        requires
            self@.shape(),
            self@.least(),
            self@.valid(i),
            self@.valid(j),
            self@.congruent(i, j),
        ensures
            self@.entails(i, j),
    {
        let v = self@;
        assert forall|r: spec_fn(int, int) -> bool|
            #[trigger] v.nodes.is_congruence(r) && respects(v.asserted, r) implies r(i, j) by {
            assert forall|k: int| 0 <= k < v.nodes.children[i].len() implies r(
                #[trigger] v.nodes.children[i][k],
                v.nodes.children[j][k],
            ) by {
                let a = v.nodes.children[i][k];
                let b = v.nodes.children[j][k];
                assert(0 <= a < i);
                assert(0 <= b < j);
                assert(v.same(a, b));
            }
            assert(v.nodes.congruent_under(i, j, r));
        }
    }

    /// Appends every pair of distinct congruent nodes to `wl`.
    fn enqueue_congruent(&self, wl: &mut Vec<(NodeIndex, NodeIndex)>)
        requires
            self.forest(),
            self@.shape(),
            self@.least(),
        ensures
            final(wl)@.len() >= old(wl)@.len(),
            forall|k: int| 0 <= k < old(wl)@.len() ==> #[trigger] final(wl)@[k] == old(wl)@[k],
            forall|k: int|
                old(wl)@.len() <= k < final(wl)@.len() ==> (#[trigger] final(wl)@[k]).0 < self.nodes@.len()
                    && final(wl)@[k].1 < self.nodes@.len() && self@.entails(
                    final(wl)@[k].0 as int,
                    final(wl)@[k].1 as int,
                ),
            forall|i: int, j: int|
                self@.valid(i) && self@.valid(j) && i != j && #[trigger] self@.congruent(i, j) ==> listed(
                    final(wl)@,
                    i,
                    j,
                ),
    {
        proof {
            self.lemma_view_facts();
        }
        let ghost v = self@;
        let ghost w0 = wl@;
        let n = self.nodes.len();
        let mut i: usize = 0;
        while i < n
            invariant
                self.forest(),
                self@.shape(),
                self@.least(),
                v == self@,
                n == self.nodes@.len(),
                n == v.len(),
                i <= n,
                wl@.len() >= w0.len(),
                forall|k: int| 0 <= k < w0.len() ==> #[trigger] wl@[k] == w0[k],
                forall|k: int|
                    w0.len() <= k < wl@.len() ==> (#[trigger] wl@[k]).0 < n && wl@[k].1 < n && v.entails(
                        wl@[k].0 as int,
                        wl@[k].1 as int,
                    ),
                forall|a: int, b: int|
                    0 <= b < a < i && #[trigger] v.congruent(a, b) ==> listed(wl@, a, b),
            decreases n - i,
        {
            let mut j: usize = 0;
            while j < i
                invariant
                    self.forest(),
                    self@.shape(),
                    self@.least(),
                    v == self@,
                    n == self.nodes@.len(),
                    n == v.len(),
                    i < n,
                    j <= i,
                    wl@.len() >= w0.len(),
                    forall|k: int| 0 <= k < w0.len() ==> #[trigger] wl@[k] == w0[k],
                    forall|k: int|
                        w0.len() <= k < wl@.len() ==> (#[trigger] wl@[k]).0 < n && wl@[k].1 < n
                            && v.entails(wl@[k].0 as int, wl@[k].1 as int),
                    forall|a: int, b: int|
                        0 <= b < a < i && #[trigger] v.congruent(a, b) ==> listed(wl@, a, b),
                    forall|b: int| 0 <= b < j && #[trigger] v.congruent(i as int, b) ==> listed(wl@, i as int, b),
                decreases i - j,
            {
                let ghost before = wl@;
                if self.nodes[i].symbol == self.nodes[j].symbol && self.children_congruent(i, j) {
                    proof {
                        assert(v.congruent(i as int, j as int));
                        self.lemma_congruent_entailed(i as int, j as int);
                    }
                    wl.push((i, j));
                    proof {
                        assert forall|a: int, b: int| listed(before, a, b) implies listed(wl@, a, b) by {
                            let k = choose|k: int|
                                0 <= k < before.len() && ((#[trigger] before[k]).0 == a && before[k].1 == b
                                    || before[k].0 == b && before[k].1 == a);
                            assert(wl@[k] == before[k]);
                        }
                        assert(wl@[before.len() as int] == (i, j));
                    }
                } else {
                    proof {
                        assert(!v.congruent(i as int, j as int));
                    }
                }
                j = j + 1;
            }
            i = i + 1;
        }
        proof {
            assert forall|a: int, b: int|
                v.valid(a) && v.valid(b) && a != b && #[trigger] v.congruent(a, b) implies listed(wl@, a, b) by {
                if b < a {
                } else {
                    assert forall|k: int| 0 <= k < v.nodes.children[b].len() implies v.rep[
                        #[trigger] v.nodes.children[b][k]] == v.rep[v.nodes.children[a][k]] by {
                        assert(v.rep[v.nodes.children[a][k]] == v.rep[v.nodes.children[b][k]]);
                    }
                    assert(v.congruent(b, a));
                    assert(listed(wl@, b, a));
                }
            }
        }
    }

    /// Joins the classes of `a` and `b`, which every congruence relating the
    /// asserted pairs already relates, then restores congruence closure.
    fn merge_entailed(&mut self, a: NodeIndex, b: NodeIndex)
        requires
            old(self).wf_core(),
            a < old(self).nodes@.len(),
            b < old(self).nodes@.len(),
            old(self)@.entails(a as int, b as int),
        ensures
            final(self).wf_core(),
            final(self).nodes == old(self).nodes,
            final(self)@.nodes == old(self)@.nodes,
            final(self)@.asserted == old(self)@.asserted,
            old(self)@.grows_to(final(self)@),
            final(self)@.same(a as int, b as int),
    {
        proof {
            self.lemma_view_facts();
        }
        let ghost v0 = self@;
        let mut wl: Vec<(NodeIndex, NodeIndex)> = Vec::new();
        wl.push((a, b));
        proof {
            assert(wl@[0] == (a, b));
        }
        while wl.len() > 0
            invariant
                self.forest(),
                self@.shape(),
                self@.nodes.hash_consed(),
                self@.least(),
                self.nodes == old(self).nodes,
                self@.nodes == v0.nodes,
                self@.asserted == v0.asserted,
                v0.len() == self.nodes@.len(),
                a < self.nodes@.len(),
                b < self.nodes@.len(),
                v0.grows_to(self@),
                forall|k: int|
                    0 <= k < wl@.len() ==> (#[trigger] wl@[k]).0 < self.nodes@.len() && wl@[k].1
                        < self.nodes@.len() && self@.entails(wl@[k].0 as int, wl@[k].1 as int),
                forall|i: int, j: int|
                    self@.valid(i) && self@.valid(j) && #[trigger] self@.congruent(i, j) && !self@.same(i, j)
                        ==> listed(wl@, i, j),
                self@.same(a as int, b as int) || listed(wl@, a as int, b as int),
            decreases self.num_roots(), wl.len(),
        {
            let ghost before = wl@;
            let ghost vb = self@;
            let last = wl.len() - 1;
            let (x, y) = wl[last];
            wl.pop();
            proof {
                assert(before[last as int] == (x, y));
                assert forall|i: int, j: int|
                    listed(before, i, j) && !(x == i && y == j || x == j && y == i) implies listed(wl@, i, j) by {
                    let k = choose|k: int|
                        0 <= k < before.len() && ((#[trigger] before[k]).0 == i && before[k].1 == j
                            || before[k].0 == j && before[k].1 == i);
                    assert(k != last);
                    assert(wl@[k] == before[k]);
                }
                assert forall|k: int| 0 <= k < wl@.len() implies #[trigger] wl@[k] == before[k] by {}
            }
            let rx = self.find_root(x);
            let ry = self.find_root(y);
            if rx != ry {
                proof {
                    assert(vb.entails(x as int, y as int));
                    assert forall|r: spec_fn(int, int) -> bool|
                        #[trigger] vb.nodes.is_congruence(r) && respects(vb.asserted, r) implies r(rx as int, ry as int) by {
                        assert(vb.same(rx as int, x as int));
                        assert(vb.same(y as int, ry as int));
                        assert(r(rx as int, x as int));
                        assert(r(x as int, y as int));
                        assert(r(y as int, ry as int));
                        assert(r(rx as int, y as int));
                    }
                    assert(self.class_parent@[rx as int] is None);
                    assert(self.class_parent@[ry as int] is None);
                }
                self.union_roots(rx, ry);
                let ghost wl_mid = wl@;
                self.enqueue_congruent(&mut wl);
                proof {
                    let nv = self@;
                    assert(nv.nodes == vb.nodes);
                    assert forall|k: int| 0 <= k < wl@.len() implies (#[trigger] wl@[k]).0 < self.nodes@.len() && wl@[k].1
                        < self.nodes@.len() && nv.entails(wl@[k].0 as int, wl@[k].1 as int) by {
                        if k < wl_mid.len() {
                            assert(wl@[k] == wl_mid[k]);
                            assert(wl_mid[k] == before[k]);
                        }
                    }
                    assert forall|i: int, j: int| vb.valid(i) && vb.valid(j) && #[trigger] vb.same(i, j) implies nv.same(i, j) by {}
                    assert forall|i: int, j: int| v0.valid(i) && v0.valid(j) && #[trigger] v0.same(i, j) implies #[trigger] nv.same(i, j) by {
                        assert(vb.same(i, j));
                    }
                    assert(nv.same(x as int, y as int));
                    if !nv.same(a as int, b as int) {
                        assert(vb.same(a as int, b as int) ==> nv.same(a as int, b as int));
                        assert(listed(before, a as int, b as int));
                        assert(listed(wl_mid, a as int, b as int));
                        let k = choose|k: int|
                            0 <= k < wl_mid.len() && ((#[trigger] wl_mid[k]).0 == a && wl_mid[k].1 == b
                                || wl_mid[k].0 == b && wl_mid[k].1 == a);
                        assert(wl@[k] == wl_mid[k]);
                    }
                }
            } else {
                proof {
                    assert(vb.same(x as int, y as int));
                }
            }
        }
    }

    /// Puts `node1` and `node2` in one class and closes the classes under
    /// congruence again.
    pub fn merge_congruence_classes(&mut self, node1: NodeIndex, node2: NodeIndex)
        requires
            old(self).wf(),
            node1 < old(self)@.len(),
            node2 < old(self)@.len(),
        ensures
            final(self).wf(),
            final(self)@.good(),
            final(self)@.nodes == old(self)@.nodes,
            final(self)@.asserted == old(self)@.asserted.push((node1 as int, node2 as int)),
            old(self)@.grows_to(final(self)@),
            final(self)@.same(node1 as int, node2 as int),
    {
        proof {
            self.lemma_view_facts();
        }
        let ghost v0 = self@;
        self.asserted = Ghost(self.asserted@.push((node1 as int, node2 as int)));
        proof {
            let v1 = self@;
            assert(v1.nodes == v0.nodes);
            assert forall|r: spec_fn(int, int) -> bool|
                #[trigger] v1.nodes.is_congruence(r) && respects(v1.asserted, r) implies forall|x: int, y: int|
                    v1.valid(x) && v1.valid(y) && v1.same(x, y) ==> #[trigger] r(x, y) by {
                assert forall|k: int| 0 <= k < v0.asserted.len() implies #[trigger] r(v0.asserted[k].0, v0.asserted[k].1) by {
                    assert(v1.asserted[k] == v0.asserted[k]);
                }
                assert(v0.nodes.is_congruence(r));
            }
            assert forall|r: spec_fn(int, int) -> bool|
                #[trigger] v1.nodes.is_congruence(r) && respects(v1.asserted, r) implies r(node1 as int, node2 as int) by {
                let last = v0.asserted.len() as int;
                assert(v1.asserted[last] == (node1 as int, node2 as int));
                assert(r(v1.asserted[last].0, v1.asserted[last].1));
            }
            assert forall|k: int| 0 <= k < v1.asserted.len() implies v1.valid(#[trigger] v1.asserted[k].0) && v1.valid(
                v1.asserted[k].1) by {
                if k < v0.asserted.len() {
                    assert(v1.asserted[k] == v0.asserted[k]);
                }
            }
            assert forall|i: int, j: int| v1.valid(i) && v1.valid(j) && #[trigger] v1.congruent(i, j) implies v1.same(i, j) by {
                assert(v0.congruent(i, j));
            }
            assert(v1.shape());
            assert(v1.closed());
            assert(self.wf_core());
        }
        let ghost v1 = self@;
        self.merge_entailed(node1, node2);
        proof {
            let v2 = self@;
            assert forall|i: int, j: int| v0.valid(i) && v0.valid(j) && #[trigger] v0.same(i, j) implies #[trigger] v2.same(i, j) by {
                assert(v1.same(i, j));
            }
            assert(v0.grows_to(v2));
            assert forall|k: int| 0 <= k < v2.asserted.len() implies v2.same(#[trigger] v2.asserted[k].0, v2.asserted[k].1) by {
                if k < v0.asserted.len() {
                    assert(v2.asserted[k] == v0.asserted[k]);
                    assert(v0.same(v0.asserted[k].0, v0.asserted[k].1));
                    assert(v0.valid(v0.asserted[k].0));
                    assert(v0.valid(v0.asserted[k].1));
                } else {
                    assert(v2.asserted[k] == (node1 as int, node2 as int));
                }
            }
        }
    }

    /// Whether `a` and `b` hold the same node indices.
    fn same_indices(a: &Vec<NodeIndex>, b: &Vec<NodeIndex>) -> (r: bool)
        ensures
            r == (a@ == b@),
    {
        if a.len() != b.len() {
            return false;
        }
        let mut k: usize = 0;
        while k < a.len()
            invariant
                a.len() == b.len(),
                k <= a.len(),
                forall|j: int| 0 <= j < k ==> a@[j] == b@[j],
            decreases a.len() - k,
        {
            if a[k] != b[k] {
                return false;
            }
            k = k + 1;
        }
        assert(a@ =~= b@);
        true
    }

    /// Returns the node with `symbol` and `children`, adding it if there is
    /// none. A new node joins the class of a node congruent to it, if there
    /// is one, so that the classes stay closed under congruence; otherwise it
    /// is a class of its own.
    #[verifier::rlimit(40)]
    pub fn add_node(&mut self, symbol: SymbolIndex, children: &Vec<NodeIndex>) -> (r: NodeIndex)
        requires
            old(self).wf(),
            forall|k: int| 0 <= k < children@.len() ==> #[trigger] children@[k] < old(self)@.len(),
            old(self)@.len() < usize::MAX,
        ensures
            final(self).wf(),
            final(self)@.good(),
            old(self)@.grows_to(final(self)@),
            final(self)@.asserted == old(self)@.asserted,
            r < final(self)@.len(),
            final(self)@.nodes.symbols[r as int] == symbol as nat,
            final(self)@.nodes.children[r as int] == children_view(children@),
            forall|i: int|
                old(self)@.valid(i) && old(self)@.nodes.symbols[i] == symbol as nat
                    && #[trigger] old(self)@.nodes.children[i] == children_view(children@) ==> r == i,
            r < old(self)@.len() ==> final(self)@ == old(self)@,
            r >= old(self)@.len() ==> r == old(self)@.len() && final(self)@.len() == old(self)@.len() + 1,
            forall|a: int, b: int|
                old(self)@.valid(a) && old(self)@.valid(b) ==> (#[trigger] final(self)@.same(a, b)
                    == old(self)@.same(a, b)),
    {
        proof {
            self.lemma_view_facts();
        }
        let ghost v0 = self@;
        let ghost cv = children_view(children@);
        let n = self.nodes.len();
        let mut i: usize = 0;
        while i < n
            invariant
                self.wf(),
                v0 == self@,
                n == self.nodes@.len(),
                n == v0.len(),
                cv == children_view(children@),
                i <= n,
                forall|j: int|
                    0 <= j < i ==> !(v0.nodes.symbols[j] == symbol as nat && #[trigger] v0.nodes.children[j] == cv),
            decreases n - i,
        {
            proof {
                lemma_children_view_injective(self.nodes@[i as int].children@, children@);
            }
            if self.nodes[i].symbol == symbol && Self::same_indices(&self.nodes[i].children, children) {
                proof {
                    assert(v0.nodes.children[i as int] == cv);
                    assert forall|j: int|
                        v0.valid(j) && v0.nodes.symbols[j] == symbol as nat && #[trigger] v0.nodes.children[j] == cv implies i == j by {
                        assert(v0.nodes.children[i as int] == v0.nodes.children[j]);
                    }
                }
                return i;
            }
            i = i + 1;
        }
        // look for a node congruent to the new one
        let mut found: Option<NodeIndex> = None;
        let mut i: usize = 0;
        while i < n && found.is_none()
            invariant
                self.wf(),
                v0 == self@,
                n == self.nodes@.len(),
                n == v0.len(),
                i <= n,
                forall|k: int| 0 <= k < children@.len() ==> #[trigger] children@[k] < n,
                found is None ==> forall|j: int|
                    0 <= j < i ==> !(v0.nodes.symbols[j] == symbol as nat && #[trigger] v0.nodes.children[j].len()
                        == children@.len() && forall|k: int|
                        #![trigger v0.nodes.children[j][k]]
                        0 <= k < children@.len() ==> v0.rep[v0.nodes.children[j][k]] == v0.rep[children@[k] as int]),
                found matches Some(m) ==> m < n && v0.nodes.symbols[m as int] == symbol as nat
                    && v0.nodes.children[m as int].len() == children@.len() && forall|k: int|
                    #![trigger v0.nodes.children[m as int][k]]
                    0 <= k < children@.len() ==> v0.rep[v0.nodes.children[m as int][k]] == v0.rep[children@[k] as int],
            decreases n - i,
        {
            proof {
                self.lemma_children_bounded(i as int);
            }
            if self.nodes[i].symbol == symbol {
                let ok = self.classes_match(&self.nodes[i].children, children);
                proof {
                    let c1 = self.nodes@[i as int].children@;
                    let ii = i as int;
                    if !ok {
                        if v0.nodes.children[ii].len() == children@.len() {
                            let k = choose|k: int|
                                0 <= k < c1.len() && self.rep@[c1[k] as int] != self.rep@[children@[k] as int];
                            assert(v0.nodes.children[ii][k] == c1[k] as int);
                        }
                    } else {
                        assert forall|k: int| 0 <= k < children@.len() implies v0.rep[#[trigger] v0.nodes.children[ii][k]]
                            == v0.rep[children@[k] as int] by {
                            assert(v0.nodes.children[ii][k] == c1[k] as int);
                        }
                    }
                }
                if ok {
                    found = Some(i);
                }
            }
            i = i + 1;
        }
        let mut copy: Vec<NodeIndex> = Vec::new();
        let mut k: usize = 0;
        while k < children.len()
            invariant
                k <= children.len(),
                copy@ == children@.subrange(0, k as int),
            decreases children.len() - k,
        {
            copy.push(children[k]);
            k = k + 1;
        }
        assert(copy@ =~= children@);
        let root = match found {
            Some(m) => Some(self.find_root(m)),
            None => None,
        };
        let ghost old_rank = self.rank@;
        let ghost old_rep = self.rep@;
        self.nodes.push(NodeData { symbol, children: copy });
        self.class_parent.push(root);
        self.class_height.push(0);
        match root {
            Some(rt) => {
                // the root's tree now has the new node below it
                if self.class_height[rt] == 0 {
                    self.class_height.set(rt, 1);
                }
                self.rep = Ghost(old_rep.push(rt as int));
                self.rank = Ghost(old_rank.update(rt as int, old_rank[rt as int] + 1).push(0));
            },
            None => {
                self.rep = Ghost(old_rep.push(n as int));
                self.rank = Ghost(old_rank.push(0));
            },
        }
        proof {
            let nn = n as int;
            assert forall|i: int| 0 <= i < nn implies #[trigger] self.nodes@[i] == old(self).nodes@[i] && self.class_parent@[i]
                == old(self).class_parent@[i] && self.rep@[i] == old_rep[i] by {}
            assert(self.nodes@[nn].children@ == children@);
            assert(self.class_parent@[nn] == root);
            assert forall|i: int| 0 <= i < nn + 1 implies match #[trigger] self.class_parent@[i] {
                None => self.rep@[i] == i,
                Some(p) => {
                    &&& p < nn + 1
                    &&& self.rep@[i] == self.rep@[p as int]
                    &&& self.rank@[p as int] > self.rank@[i]
                },
            } by {
                if i < nn {
                    assert(self.class_parent@[i] == old(self).class_parent@[i]);
                }
            }
            assert forall|i: int| 0 <= i < nn + 1 implies 0 <= #[trigger] self.rep@[i] < nn + 1
                && self.class_parent@[self.rep@[i]] is None && self.rank@[i] <= self.rank@[self.rep@[i]] by {
                if i < nn {
                    let r = old_rep[i];
                    assert(old(self).class_parent@[r] is None);
                }
            }
            assert(self.forest());
            self.lemma_view_facts();
            let nv = self@;
            assert forall|i: int| 0 <= i < nn implies #[trigger] nv.nodes.symbols[i] == v0.nodes.symbols[i]
                && nv.nodes.children[i] == v0.nodes.children[i] && nv.rep[i] == v0.rep[i] by {}
            assert(nv.nodes.symbols[nn] == symbol as nat);
            assert(nv.nodes.children[nn] == cv);
            assert forall|k: int| 0 <= k < cv.len() implies 0 <= #[trigger] cv[k] < nn by {
                assert(cv[k] == children@[k] as int);
            }
            // the node's class
            assert(nv.rep[nn] == nn || (found matches Some(m) && nv.rep[nn] == v0.rep[m as int]));
            // old pairs keep their congruence
            assert forall|i: int, j: int| 0 <= i < nn && 0 <= j < nn implies (#[trigger] nv.congruent(i, j) == v0.congruent(i, j)) by {
                if nv.congruent(i, j) {
                    assert forall|k: int| 0 <= k < v0.nodes.children[i].len() implies v0.rep[#[trigger] v0.nodes.children[i][k]]
                        == v0.rep[v0.nodes.children[j][k]] by {
                        assert(nv.rep[nv.nodes.children[i][k]] == nv.rep[nv.nodes.children[j][k]]);
                    }
                }
                if v0.congruent(i, j) {
                    assert forall|k: int| 0 <= k < nv.nodes.children[i].len() implies nv.rep[#[trigger] nv.nodes.children[i][k]]
                        == nv.rep[nv.nodes.children[j][k]] by {
                        assert(v0.rep[v0.nodes.children[i][k]] == v0.rep[v0.nodes.children[j][k]]);
                    }
                }
            }
            // a node congruent to the new one is in its class
            assert forall|x: int| 0 <= x < nn && #[trigger] nv.congruent(nn, x) implies nv.same(nn, x) by {
                assert(v0.nodes.symbols[x] == symbol as nat);
                assert forall|k: int| 0 <= k < children@.len() implies v0.rep[#[trigger] v0.nodes.children[x][k]] == v0.rep[children@[k] as int] by {
                    assert(nv.nodes.children[nn][k] == children@[k] as int);
                    assert(nv.rep[nv.nodes.children[nn][k]] == nv.rep[nv.nodes.children[x][k]]);
                }
                match found {
                    Some(m) => {
                        let mi = m as int;
                        assert forall|k: int| 0 <= k < v0.nodes.children[mi].len() implies v0.rep[#[trigger] v0.nodes.children[mi][k]]
                            == v0.rep[v0.nodes.children[x][k]] by {
                            assert(v0.rep[v0.nodes.children[x][k]] == v0.rep[children@[k] as int]);
                        }
                        assert(v0.congruent(mi, x));
                        assert(v0.same(mi, x));
                    },
                    None => {
                        assert(!(v0.nodes.symbols[x] == symbol as nat && v0.nodes.children[x].len() == children@.len()
                            && forall|k: int| #![trigger v0.nodes.children[x][k]] 0 <= k < children@.len() ==> v0.rep[v0.nodes.children[x][k]] == v0.rep[children@[k] as int]));
                    },
                }
            }
            assert forall|i: int, j: int| nv.valid(i) && nv.valid(j) && #[trigger] nv.congruent(i, j) implies nv.same(i, j) by {
                if i < nn && j < nn {
                    assert(v0.congruent(i, j));
                } else if i == nn && j == nn {
                } else if i == nn {
                } else {
                    assert forall|k: int| 0 <= k < nv.nodes.children[j].len() implies nv.rep[#[trigger] nv.nodes.children[j][k]]
                        == nv.rep[nv.nodes.children[i][k]] by {
                        assert(nv.rep[nv.nodes.children[i][k]] == nv.rep[nv.nodes.children[j][k]]);
                    }
                    assert(nv.congruent(j, i));
                }
            }
            assert forall|i: int, j: int|
                nv.valid(i) && nv.valid(j) && nv.nodes.symbols[i] == nv.nodes.symbols[j]
                    && #[trigger] nv.nodes.children[i] == #[trigger] nv.nodes.children[j] implies i == j by {
                if i < nn && j < nn {
                    assert(v0.nodes.children[i] == v0.nodes.children[j]);
                } else if i == nn && j < nn {
                    assert(!(v0.nodes.symbols[j] == symbol as nat && v0.nodes.children[j] == cv));
                } else if j == nn && i < nn {
                    assert(!(v0.nodes.symbols[i] == symbol as nat && v0.nodes.children[i] == cv));
                }
            }
            assert forall|r: spec_fn(int, int) -> bool|
                #[trigger] nv.nodes.is_congruence(r) && respects(nv.asserted, r) implies forall|x: int, y: int|
                    nv.valid(x) && nv.valid(y) && nv.same(x, y) ==> #[trigger] r(x, y) by {
                assert forall|i: int, j: int| v0.valid(i) && v0.valid(j) && #[trigger] v0.nodes.congruent_under(i, j, r) implies r(i, j) by {
                    assert(nv.nodes.congruent_under(i, j, r));
                }
                assert(v0.nodes.is_congruence(r));
                if let Some(m) = found {
                    let mi = m as int;
                    assert forall|k: int| 0 <= k < nv.nodes.children[nn].len() implies r(#[trigger] nv.nodes.children[nn][k], nv.nodes.children[mi][k]) by {
                        let c = nv.nodes.children[nn][k];
                        let d = nv.nodes.children[mi][k];
                        assert(c == children@[k] as int);
                        assert(v0.rep[v0.nodes.children[mi][k]] == v0.rep[children@[k] as int]);
                        assert(0 <= d < mi);
                        assert(v0.same(c, d));
                        assert(r(c, d));
                    }
                    assert(nv.nodes.congruent_under(nn, mi, r));
                    assert(r(nn, mi));
                    assert(r(mi, nn));
                }
                assert forall|x: int, y: int| nv.valid(x) && nv.valid(y) && nv.same(x, y) implies #[trigger] r(x, y) by {
                    if x < nn && y < nn {
                        assert(v0.same(x, y));
                    } else if x == nn && y == nn {
                    } else if let Some(m) = found {
                        let mi = m as int;
                        if x == nn {
                            assert(v0.same(mi, y));
                            assert(r(mi, y));
                        } else {
                            assert(v0.same(x, mi));
                            assert(r(x, mi));
                        }
                    } else {
                        assert(nv.rep[nn] == nn);
                        if x == nn {
                            assert(v0.valid(v0.rep[y]));
                        } else {
                            assert(v0.valid(v0.rep[x]));
                        }
                    }
                }
            }
            assert forall|i: int| nv.valid(i) implies self.rep@[#[trigger] self.rep@[i]] == self.rep@[i] by {}
            assert forall|i: int, k: int| nv.valid(i) && 0 <= k < nv.nodes.children[i].len() implies 0
                <= #[trigger] nv.nodes.children[i][k] < i by {
                if i < nn {
                    assert(v0.nodes.children[i][k] < i);
                } else {
                    assert(cv[k] < nn);
                }
            }
            assert(nv.nodes.ordered());
            assert forall|k: int| 0 <= k < nv.asserted.len() implies nv.valid(#[trigger] nv.asserted[k].0) && nv.valid(
                nv.asserted[k].1) && nv.same(nv.asserted[k].0, nv.asserted[k].1) by {
                assert(v0.valid(v0.asserted[k].0));
                assert(v0.valid(v0.asserted[k].1));
                assert(v0.same(v0.asserted[k].0, v0.asserted[k].1));
            }
            assert forall|i: int| #[trigger] nv.valid(i) implies nv.valid(nv.rep[i]) by {
                if i < nn {
                    assert(v0.valid(v0.rep[i]));
                }
            }
            assert(nv.rep.len() == nv.len());
            assert(nv.rep == self.rep@);
            assert forall|i: int| nv.valid(i) implies nv.rep[#[trigger] nv.rep[i]] == nv.rep[i] by {
                assert(self.rep@[self.rep@[i]] == self.rep@[i]);
            }
            assert(nv.asserted == v0.asserted);
            assert forall|k: int| 0 <= k < nv.asserted.len() implies nv.valid(#[trigger] nv.asserted[k].0) && nv.valid(
                nv.asserted[k].1) by {
                assert(v0.valid(v0.asserted[k].0));
                assert(v0.valid(v0.asserted[k].1));
            }
            lemma_shape_intro(nv);
            assert(nv.closed());
            assert(nv.nodes.hash_consed());
            assert(nv.least());
            assert(nv.asserted_joined());
        }
        n
    }
}

proof fn lemma_children_view_injective(a: Seq<usize>, b: Seq<usize>)
    ensures
        children_view(a) == children_view(b) ==> a == b,
{
    if children_view(a) == children_view(b) {
        assert(children_view(a).len() == a.len());
        assert(children_view(b).len() == b.len());
        assert forall|k: int| 0 <= k < a.len() implies a[k] == b[k] by {
            assert(children_view(a)[k] == a[k] as int);
            assert(children_view(b)[k] == b[k] as int);
        }
        assert(a =~= b);
    }
}

} // verus!

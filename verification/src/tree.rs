//! The search tree: an arena of nodes, each with the statistics of the
//! rollouts that went through it. A node refers to its parent and to its
//! children by their index in the arena; the root is node 0.

use crate::game_logic::Direction;
use vstd::prelude::*;

verus! {

/// A node of the search tree: a position that the search has reached, the
/// move that led to it, and what the rollouts through it have shown.
#[derive(Debug)]
pub struct Node {
    pub max_score: u64,
    pub visit: u64,
    pub total_value: u128,
    pub from_action: Direction,
    pub parent: Option<usize>,
    pub children: Vec<usize>,
    pub untried_actions: Vec<Direction>,
}

/// The statistics of a node, as the ranking of children reads them.
#[derive(Clone, Copy, Debug)]
pub struct NodeStats {
    pub visit: u64,
    pub total_value: u128,
    pub max_score: u64,
}

/// A node as the contracts see it.
pub struct NodeView {
    pub visit: nat,
    pub total_value: nat,
    pub max_score: nat,
    pub from_action: Direction,
    pub parent: Option<int>,
    pub children: Seq<int>,
    pub untried: Seq<Direction>,
}

/// The four moves, in the order in which a fresh node holds them. A node
/// tries them from the end.
pub open spec fn actions() -> Seq<Direction> {
    seq![Direction::Up, Direction::Down, Direction::Left, Direction::Right]
}

/// A node that no rollout has gone through yet.
pub open spec fn fresh(action: Direction, parent: Option<int>) -> NodeView {
    NodeView {
        visit: 0,
        total_value: 0,
        max_score: 0,
        from_action: action,
        parent,
        children: Seq::empty(),
        untried: actions(),
    }
}

/// The node after one more rollout that ended with `value`.
pub open spec fn observed(n: NodeView, value: nat) -> NodeView {
    NodeView {
        visit: n.visit + 1,
        total_value: n.total_value + value,
        max_score: if value > n.max_score {
            value
        } else {
            n.max_score
        },
        ..n
    }
}

/// The node after its last untried move has become the child `child`.
pub open spec fn expanded(n: NodeView, child: int) -> NodeView {
    NodeView { children: n.children.push(child), untried: n.untried.drop_last(), ..n }
}

impl View for Node {
    type V = NodeView;

    open spec fn view(&self) -> NodeView {
        NodeView {
            visit: self.visit as nat,
            total_value: self.total_value as nat,
            max_score: self.max_score as nat,
            from_action: self.from_action,
            parent: match self.parent {
                Some(p) => Some(p as int),
                None => None,
            },
            children: self.children@.map_values(|c: usize| c as int),
            untried: self.untried_actions@,
        }
    }
}

impl Node {
    pub fn new(action: Direction, parent: Option<usize>) -> (node: Node)
        ensures
            node@ == fresh(
                action,
                match parent {
                    Some(p) => Some(p as int),
                    None => None,
                },
            ),
    {
        let node = Node {
            max_score: 0,
            visit: 0,
            total_value: 0,
            from_action: action,
            parent,
            children: Vec::new(),
            untried_actions: vec![Direction::Up, Direction::Down, Direction::Left, Direction::Right],
        };
        proof {
            assert(node@.children =~= Seq::<int>::empty());
            assert(node@.untried =~= actions());
        }
        node
    }

    /// Records one rollout that ended with `value` in this node's own
    /// statistics.
    pub fn update(&mut self, value: u64)
        requires
            old(self).visit < u64::MAX,
            old(self).total_value + value <= u128::MAX,
        ensures
            final(self)@ == observed(old(self)@, value as nat),
    {
        self.visit = self.visit + 1;
        self.total_value = self.total_value + value as u128;
        if value > self.max_score {
            self.max_score = value;
        }
    }

    pub fn is_fully_expanded(&self) -> (full: bool)
        ensures
            full == (self@.untried.len() == 0),
    {
        self.untried_actions.len() == 0
    }

    pub fn stats(&self) -> (stats: NodeStats)
        ensures
            stats.visit == self.visit,
            stats.total_value == self.total_value,
            stats.max_score == self.max_score,
    {
        NodeStats { visit: self.visit, total_value: self.total_value, max_score: self.max_score }
    }
}

/// The mean value of `a` is below the mean value of `b`. Both have been
/// visited; the means are compared as fractions, without rounding.
pub open spec fn mean_lt(a: NodeView, b: NodeView) -> bool {
    a.total_value * b.visit < b.total_value * a.visit
}

/// Among the nodes `children` of the tree `t`, the `k`-th has the highest mean
/// value, and none before it has the same.
pub open spec fn first_best_mean(t: Seq<NodeView>, children: Seq<int>, k: int) -> bool {
    &&& 0 <= k < children.len()
    &&& forall|j: int| 0 <= j < children.len() ==> !mean_lt(t[children[k]], t[#[trigger] children[j]])
    &&& forall|j: int| 0 <= j < k ==> mean_lt(t[#[trigger] children[j]], t[children[k]])
}

/// Each of `children` is a node of the tree `t` that has been visited.
pub open spec fn children_visited(t: Seq<NodeView>, children: Seq<int>) -> bool {
    forall|k: int|
        0 <= k < children.len() ==> 0 <= #[trigger] children[k] < t.len() && t[children[k]].visit > 0
}

/// Fractions with positive denominators: from a/b <= c/d and c/d < e/f follows
/// a/b < e/f.
pub proof fn lemma_mean_order(a: nat, b: nat, c: nat, d: nat, e: nat, f: nat)
    requires
        b > 0,
        d > 0,
        f > 0,
        a * d <= c * b,
        c * f < e * d,
    ensures
        a * f < e * b,
{
    assert(a * d * f <= c * b * f) by (nonlinear_arith)
        requires
            a * d <= c * b,
    ;
    assert(c * f * b < e * d * b) by (nonlinear_arith)
        requires
            c * f < e * d,
            b > 0,
    ;
    assert(c * b * f == c * f * b) by (nonlinear_arith);
    assert(a * d * f == a * f * d) by (nonlinear_arith);
    assert(e * d * b == e * b * d) by (nonlinear_arith);
    assert(a * f < e * b) by (nonlinear_arith)
        requires
            a * f * d < e * b * d,
            d > 0,
    ;
}

/// Compares two means exactly: first the whole parts, then the remainders.
pub fn mean_less(a: &NodeStats, b: &NodeStats) -> (less: bool)
    requires
        a.visit > 0,
        b.visit > 0,
    ensures
        less == (a.total_value * b.visit < b.total_value * a.visit),
{
    let av = a.visit as u128;
    let bv = b.visit as u128;
    let q1 = a.total_value / av;
    let r1 = a.total_value % av;
    let q2 = b.total_value / bv;
    let r2 = b.total_value % bv;
    proof {
        let p = av * bv;
        assert(a.total_value == q1 * av + r1 && 0 <= r1 < av) by (nonlinear_arith)
            requires
                av > 0,
                q1 == a.total_value / av,
                r1 == a.total_value % av,
        ;
        assert(b.total_value == q2 * bv + r2 && 0 <= r2 < bv) by (nonlinear_arith)
            requires
                bv > 0,
                q2 == b.total_value / bv,
                r2 == b.total_value % bv,
        ;
        assert(r1 * bv < p && r2 * av < p && p <= 0xffff_ffff_ffff_ffff * 0xffff_ffff_ffff_ffff)
            by (nonlinear_arith)
            requires
                0 <= r1 < av,
                0 <= r2 < bv,
                0 < av <= 0xffff_ffff_ffff_ffff,
                0 < bv <= 0xffff_ffff_ffff_ffff,
                p == av * bv,
        ;
        assert(a.total_value * bv == q1 * p + r1 * bv) by (nonlinear_arith)
            requires
                a.total_value == q1 * av + r1,
                p == av * bv,
        ;
        assert(b.total_value * av == q2 * p + r2 * av) by (nonlinear_arith)
            requires
                b.total_value == q2 * bv + r2,
                p == av * bv,
        ;
        if q1 < q2 {
            assert(q2 * p >= q1 * p + p) by (nonlinear_arith)
                requires
                    q1 < q2,
                    p >= 0,
            ;
        } else if q1 > q2 {
            assert(q1 * p >= q2 * p + p) by (nonlinear_arith)
                requires
                    q1 > q2,
                    p >= 0,
            ;
        }
    }
    if q1 != q2 {
        q1 < q2
    } else {
        r1 * bv < r2 * av
    }
}

/// In `scores`, entry `k` is the highest, and no entry before it is as high.
pub open spec fn first_max(scores: Seq<u64>, k: int) -> bool {
    &&& 0 <= k < scores.len()
    &&& forall|j: int| 0 <= j < scores.len() ==> scores[j] <= scores[k]
    &&& forall|j: int| 0 <= j < k ==> scores[j] < scores[k]
}

/// The place of the highest score; of several that are as high, the first.
pub fn best_score(scores: &Vec<u64>) -> (best: usize)
    requires
        scores.len() > 0,
    ensures
        first_max(scores@, best as int),
{
    let mut best: usize = 0;
    let mut k: usize = 1;
    while k < scores.len()
        invariant
            1 <= k <= scores.len(),
            best < k,
            forall|j: int| 0 <= j < k ==> scores[j] <= scores[best as int],
            forall|j: int| 0 <= j < best ==> scores[j] < scores[best as int],
        decreases scores.len() - k,
    {
        if scores[k] > scores[best] {
            best = k;
        }
        k = k + 1;
    }
    best
}

/// `a` is `n` or one of its ancestors.
pub open spec fn on_path(t: Seq<NodeView>, a: int, n: int) -> bool
    decreases n,
{
    if a == n {
        true
    } else {
        match t[n].parent {
            Some(p) => 0 <= p < n && on_path(t, a, p),
            None => false,
        }
    }
}

/// The moves that lead from the root to node `n`, in the order in which they
/// are made. For the root there is none.
pub open spec fn path_to(t: Seq<NodeView>, n: int) -> Seq<Direction>
    decreases n,
{
    match t[n].parent {
        Some(p) => if 0 <= p < n {
            path_to(t, p).push(t[n].from_action)
        } else {
            Seq::empty()
        },
        None => Seq::empty(),
    }
}

/// The path to a node depends only on the parents and the moves of the nodes
/// up to it.
pub proof fn lemma_path_to_same(t: Seq<NodeView>, u: Seq<NodeView>, n: int)
    requires
        0 <= n < t.len(),
        n < u.len(),
        forall|i: int|
            0 <= i <= n ==> (#[trigger] t[i]).parent == u[i].parent && t[i].from_action
                == u[i].from_action,
    ensures
        path_to(t, n) == path_to(u, n),
    decreases n,
{
    assert(t[n].parent == u[n].parent && t[n].from_action == u[n].from_action);
    match t[n].parent {
        Some(p) => {
            if 0 <= p < n {
                lemma_path_to_same(t, u, p);
            }
        },
        None => {},
    }
}

/// What holds of node `i` in a tree.
pub open spec fn node_wf(t: Seq<NodeView>, i: int) -> bool {
    let n = t[i];
    &&& i == 0 ==> n.parent is None
    &&& i > 0 ==> (n.parent matches Some(p) && 0 <= p < i)
    &&& n.children.len() + n.untried.len() == 4
    &&& n.untried == actions().take(n.untried.len() as int)
    &&& n.total_value <= n.visit * u64::MAX
    &&& forall|k: int|
        0 <= k < n.children.len() ==> {
            let c = #[trigger] n.children[k];
            &&& i < c < t.len()
            &&& t[c].parent == Some(i)
            &&& t[c].from_action == actions()[3 - k]
            &&& t[c].visit <= n.visit
        }
}

pub open spec fn tree_wf(t: Seq<NodeView>) -> bool {
    &&& t.len() >= 1
    &&& forall|i: int| 0 <= i < t.len() ==> #[trigger] node_wf(t, i)
}

/// In a tree no node has more visits than the root.
pub proof fn lemma_visit_le_root(t: Seq<NodeView>, i: int)
    requires
        tree_wf(t),
        0 <= i < t.len(),
        forall|j: int| 0 < j < t.len() ==> #[trigger] listed(t, j),
    ensures
        t[i].visit <= t[0].visit,
    decreases i,
{
    if i > 0 {
        assert(node_wf(t, i));
        assert(listed(t, i));
        let p = t[i].parent->0;
        assert(node_wf(t, p));
        lemma_visit_le_root(t, p);
    }
}

/// Node `j` is one of the children of its parent.
pub open spec fn listed(t: Seq<NodeView>, j: int) -> bool {
    t[j].parent matches Some(p) && exists|k: int|
        0 <= k < t[p].children.len() && #[trigger] t[p].children[k] == j
}

/// The tree of one search. It lives as long as the search for one move.
#[derive(Debug)]
pub struct SearchTree {
    nodes: Vec<Node>,
}

impl View for SearchTree {
    type V = Seq<NodeView>;

    closed spec fn view(&self) -> Seq<NodeView> {
        Seq::new(self.nodes.len() as nat, |i: int| self.nodes[i]@)
    }
}

impl Node {
    /// The child with the highest mean value; of several with the same mean,
    /// the one that was added first. This is the choice without any bonus for
    /// exploration. `tree` is the tree that holds the children.
    pub fn best_child(&self, tree: &SearchTree) -> (best: usize)
        requires
            self@.children.len() > 0,
            children_visited(tree@, self@.children),
        ensures
            exists|k: int|
                first_best_mean(tree@, self@.children, k) && #[trigger] self@.children[k] == best,
    {
        let ghost t = tree@;
        let ghost ch = self@.children;
        let n = self.children.len();
        let mut best: usize = 0;
        let mut k: usize = 1;
        while k < n
            invariant
                tree@ == t,
                ch == self@.children,
                n == ch.len(),
                children_visited(t, ch),
                1 <= k <= n,
                best < k,
                forall|j: int| 0 <= j < k ==> !mean_lt(t[ch[best as int]], t[#[trigger] ch[j]]),
                forall|j: int| 0 <= j < best ==> mean_lt(t[#[trigger] ch[j]], t[ch[best as int]]),
            decreases n - k,
        {
            let candidate = self.children[k];
            let holder = self.children[best];
            proof {
                assert(ch[k as int] == candidate);
                assert(ch[best as int] == holder);
                assert(tree@[candidate as int] == tree.nodes[candidate as int]@);
                assert(tree@[holder as int] == tree.nodes[holder as int]@);
            }
            let a = tree.nodes[holder].stats();
            let b = tree.nodes[candidate].stats();
            if mean_less(&a, &b) {
                proof {
                    let hv = t[holder as int];
                    let cv = t[candidate as int];
                    assert forall|j: int| 0 <= j < k + 1 implies !mean_lt(
                        cv,
                        t[#[trigger] ch[j]],
                    ) by {
                        if j < k {
                            let jv = t[ch[j]];
                            assert(!mean_lt(hv, jv));
                            lemma_mean_order(
                                jv.total_value,
                                jv.visit,
                                hv.total_value,
                                hv.visit,
                                cv.total_value,
                                cv.visit,
                            );
                        }
                    }
                    assert forall|j: int| 0 <= j < k implies mean_lt(t[#[trigger] ch[j]], cv) by {
                        let jv = t[ch[j]];
                        assert(!mean_lt(hv, jv));
                        lemma_mean_order(
                            jv.total_value,
                            jv.visit,
                            hv.total_value,
                            hv.visit,
                            cv.total_value,
                            cv.visit,
                        );
                    }
                }
                best = k;
            }
            k = k + 1;
        }
        let best_child = self.children[best];
        proof {
            assert(first_best_mean(t, ch, best as int));
            assert(ch[best as int] == best_child);
        }
        best_child
    }
}

impl SearchTree {
    /// The tree is well-formed: node 0 is the root, every other node is a
    /// child of an earlier one, each node's children stand for the moves it
    /// has tried, and no node has more visits than its parent.
    pub open spec fn wf(self) -> bool {
        &&& tree_wf(self@)
        &&& forall|j: int| 0 < j < self@.len() ==> #[trigger] listed(self@, j)
    }

    /// A tree that holds the root alone. The root's own move is a placeholder.
    pub fn new() -> (tree: SearchTree)
        ensures
            tree@ == seq![fresh(Direction::Down, None)],
            tree.wf(),
    {
        let mut nodes = Vec::new();
        nodes.push(Node::new(Direction::Down, None));
        let tree = SearchTree { nodes };
        proof {
            assert(tree@ =~= seq![fresh(Direction::Down, None)]);
            assert(actions().take(4) =~= actions());
            assert(node_wf(tree@, 0));
        }
        tree
    }

    pub fn len(&self) -> (n: usize)
        ensures
            n == self@.len(),
    {
        self.nodes.len()
    }

    pub fn node(&self, id: usize) -> (node: &Node)
        requires
            id < self@.len(),
        ensures
            node@ == self@[id as int],
    {
        &self.nodes[id]
    }

    pub fn is_fully_expanded(&self, node: usize) -> (full: bool)
        requires
            node < self@.len(),
        ensures
            full == (self@[node as int].untried.len() == 0),
    {
        self.nodes[node].is_fully_expanded()
    }

    /// How many children `node` has.
    pub fn child_count(&self, node: usize) -> (n: usize)
        requires
            node < self@.len(),
        ensures
            n == self@[node as int].children.len(),
    {
        self.nodes[node].children.len()
    }

    /// The `k`-th child of `node`.
    pub fn child(&self, node: usize, k: usize) -> (child: usize)
        requires
            node < self@.len(),
            k < self@[node as int].children.len(),
        ensures
            child == self@[node as int].children[k as int],
    {
        self.nodes[node].children[k]
    }

    /// Backpropagation: records a rollout that ended with `value` in `node`
    /// and in each of its ancestors up to the root, and in no other node.
    pub fn update(&mut self, node: usize, value: u64)
        requires
            old(self).wf(),
            node < old(self)@.len(),
            old(self)@[0].visit < u64::MAX,
        ensures
            final(self).wf(),
            final(self)@.len() == old(self)@.len(),
            forall|i: int|
                0 <= i < old(self)@.len() ==> #[trigger] final(self)@[i] == if on_path(
                    old(self)@,
                    i,
                    node as int,
                ) {
                    observed(old(self)@[i], value as nat)
                } else {
                    old(self)@[i]
                },
            final(self)@[0].visit == old(self)@[0].visit + 1,
            final(self)@[0].total_value == old(self)@[0].total_value + value,
    {
        let ghost t = self@;
        let mut cur = node;
        let mut more = true;
        while more
            invariant
                tree_wf(t),
                forall|j: int| 0 < j < t.len() ==> #[trigger] listed(t, j),
                t[0].visit < u64::MAX,
                self@.len() == t.len(),
                cur < t.len(),
                node < t.len(),
                on_path(t, cur as int, node as int),
                forall|i: int|
                    0 <= i < t.len() ==> #[trigger] self@[i] == if on_path(t, i, node as int) && (
                    more ==> !on_path(t, i, cur as int)) {
                        observed(t[i], value as nat)
                    } else {
                        t[i]
                    },
            decreases cur + (if more { 1nat } else { 0nat }),
        {
            proof {
                assert(self@[cur as int] == t[cur as int]);
                assert(node_wf(t, cur as int));
                lemma_visit_le_root(t, cur as int);
                assert(t[cur as int].total_value + value <= u128::MAX) by (nonlinear_arith)
                    requires
                        t[cur as int].total_value <= t[cur as int].visit * u64::MAX,
                        t[cur as int].visit < u64::MAX,
                        value <= u64::MAX,
                ;
            }
            let ghost before = self@;
            self.nodes[cur].update(value);
            let parent = self.nodes[cur].parent;
            proof {
                assert forall|i: int| 0 <= i < t.len() && i != cur implies self@[i] == before[i] by {}
                assert(self@[cur as int] == observed(t[cur as int], value as nat));
            }
            match parent {
                Some(p) => {
                    proof {
                        lemma_on_path_up(t, cur as int, node as int);
                        assert forall|i: int| 0 <= i < t.len() implies #[trigger] self@[i]
                            == if on_path(t, i, node as int) && !on_path(t, i, p as int) {
                            observed(t[i], value as nat)
                        } else {
                            t[i]
                        } by {
                            if i == cur {
                                if on_path(t, i, p as int) {
                                    lemma_on_path_le(t, i, p as int);
                                }
                            } else {
                                assert(self@[i] == before[i]);
                                assert(on_path(t, i, cur as int) == on_path(t, i, p as int));
                            }
                        }
                    }
                    cur = p;
                },
                None => {
                    proof {
                        assert forall|i: int| 0 <= i < t.len() implies #[trigger] self@[i]
                            == if on_path(t, i, node as int) {
                            observed(t[i], value as nat)
                        } else {
                            t[i]
                        } by {
                            if i != cur {
                                assert(self@[i] == before[i]);
                                assert(!on_path(t, i, cur as int));
                            }
                        }
                    }
                    more = false;
                },
            }
        }
        proof {
            lemma_update_keeps_wf(t, self@, node as int, value as nat);
            lemma_on_path_root(t, node as int);
        }
    }
}

/// Expansion: the last untried move of `node` becomes a new child, which is
/// appended to the arena and to the children of `node`.
pub fn expand(tree: &mut SearchTree, node: usize) -> (child: usize)
    requires
        old(tree).wf(),
        node < old(tree)@.len(),
        old(tree)@[node as int].untried.len() > 0,
    ensures
        final(tree).wf(),
        child == old(tree)@.len(),
        final(tree)@ == old(tree)@.update(
            node as int,
            expanded(old(tree)@[node as int], child as int),
        ).push(fresh(old(tree)@[node as int].untried.last(), Some(node as int))),
{
    let ghost t = tree@;
    let action = tree.nodes[node].untried_actions.pop().unwrap();
    let child = tree.nodes.len();
    tree.nodes.push(Node::new(action, Some(node)));
    tree.nodes[node].children.push(child);
    proof {
        let u = t.update(node as int, expanded(t[node as int], child as int)).push(
            fresh(action, Some(node as int)),
        );
        assert(tree@[node as int].children =~= t[node as int].children.push(child as int));
        assert(tree@[node as int].untried =~= t[node as int].untried.drop_last());
        assert(tree@[node as int] == u[node as int]);
        assert forall|i: int| 0 <= i < u.len() implies tree@[i] == u[i] by {
            if i != node && i != child {
                assert(tree@[i] == t[i]);
            }
        }
        assert(tree@ =~= u);
        lemma_expand_keeps_wf(t, node as int);
    }
    child
}

/// Expansion keeps a tree well-formed.
pub proof fn lemma_expand_keeps_wf(t: Seq<NodeView>, node: int)
    requires
        tree_wf(t),
        forall|j: int| 0 < j < t.len() ==> #[trigger] listed(t, j),
        0 <= node < t.len(),
        t[node].untried.len() > 0,
    ensures
        ({
            let u = t.update(node, expanded(t[node], t.len() as int)).push(
                fresh(t[node].untried.last(), Some(node)),
            );
            &&& tree_wf(u)
            &&& forall|j: int| 0 < j < u.len() ==> #[trigger] listed(u, j)
        }),
{
    let child = t.len() as int;
    let u = t.update(node, expanded(t[node], child)).push(fresh(t[node].untried.last(), Some(node)));
    assert(node_wf(t, node));
    assert(actions().take(4) =~= actions());
    assert forall|i: int| 0 <= i < u.len() implies #[trigger] node_wf(u, i) by {
        let n = u[i];
        if i == child {
            assert(n.total_value <= n.visit * u64::MAX);
        } else {
            assert(node_wf(t, i));
            if i == node {
                let m = t[node].untried.len() as int;
                assert(n.untried =~= actions().take(m - 1));
                assert(t[node].untried.last() == actions()[m - 1]);
            }
            assert forall|k: int| 0 <= k < n.children.len() implies {
                let c = #[trigger] n.children[k];
                &&& i < c < u.len()
                &&& u[c].parent == Some(i)
                &&& u[c].from_action == actions()[3 - k]
                &&& u[c].visit <= n.visit
            } by {
                if i == node && k == t[node].children.len() {
                } else {
                    let c = t[i].children[k];
                    assert(n.children[k] == c);
                }
            }
        }
    }
    assert forall|j: int| 0 < j < u.len() implies #[trigger] listed(u, j) by {
        if j == child {
            assert(u[node].children[t[node].children.len() as int] == j);
        } else {
            assert(listed(t, j));
            assert(node_wf(t, j));
            let p = t[j].parent->0;
            let k = choose|k: int| 0 <= k < t[p].children.len() && #[trigger] t[p].children[k] == j;
            assert(u[p].children[k] == j);
        }
    }
}

/// The root is an ancestor of every node.
pub proof fn lemma_on_path_root(t: Seq<NodeView>, n: int)
    requires
        tree_wf(t),
        0 <= n < t.len(),
    ensures
        on_path(t, 0, n),
    decreases n,
{
    assert(node_wf(t, n));
    if n > 0 {
        lemma_on_path_root(t, t[n].parent->0);
    }
}

/// An ancestor stands before its descendants in the arena.
pub proof fn lemma_on_path_le(t: Seq<NodeView>, a: int, n: int)
    requires
        on_path(t, a, n),
    ensures
        a <= n,
    decreases n,
{
    if a != n {
        lemma_on_path_le(t, a, t[n].parent->0);
    }
}

/// The parent of a node on the path to `n` is on that path too.
pub proof fn lemma_on_path_up(t: Seq<NodeView>, a: int, n: int)
    requires
        tree_wf(t),
        0 <= a < t.len(),
        0 <= n < t.len(),
        on_path(t, a, n),
        t[a].parent is Some,
    ensures
        on_path(t, t[a].parent->0, n),
    decreases n,
{
    assert(node_wf(t, a));
    assert(node_wf(t, n));
    let p = t[a].parent->0;
    if a == n {
        assert(on_path(t, p, p));
    } else {
        let q = t[n].parent->0;
        lemma_on_path_up(t, a, q);
    }
}

/// Backpropagation keeps a tree well-formed.
pub proof fn lemma_update_keeps_wf(t: Seq<NodeView>, u: Seq<NodeView>, node: int, value: nat)
    requires
        tree_wf(t),
        forall|j: int| 0 < j < t.len() ==> #[trigger] listed(t, j),
        0 <= node < t.len(),
        value <= u64::MAX,
        u.len() == t.len(),
        forall|i: int|
            0 <= i < t.len() ==> #[trigger] u[i] == if on_path(t, i, node) {
                observed(t[i], value)
            } else {
                t[i]
            },
    ensures
        tree_wf(u),
        forall|j: int| 0 < j < u.len() ==> #[trigger] listed(u, j),
{
    assert forall|i: int| 0 <= i < u.len() implies #[trigger] node_wf(u, i) by {
        assert(node_wf(t, i));
        let n = u[i];
        assert(n.total_value <= n.visit * u64::MAX) by (nonlinear_arith)
            requires
                t[i].total_value <= t[i].visit * u64::MAX,
                value <= u64::MAX,
                n.visit == t[i].visit + 1 && n.total_value == t[i].total_value + value || n.visit
                    == t[i].visit && n.total_value == t[i].total_value,
        ;
        assert forall|k: int| 0 <= k < n.children.len() implies {
            let c = #[trigger] n.children[k];
            &&& i < c < u.len()
            &&& u[c].parent == Some(i)
            &&& u[c].from_action == actions()[3 - k]
            &&& u[c].visit <= n.visit
        } by {
            let c = t[i].children[k];
            assert(n.children[k] == c);
            if on_path(t, c, node) {
                lemma_on_path_up(t, c, node);
            }
        }
    }
    assert forall|j: int| 0 < j < u.len() implies #[trigger] listed(u, j) by {
        assert(listed(t, j));
        assert(node_wf(t, j));
        let p = t[j].parent->0;
        let k = choose|k: int| 0 <= k < t[p].children.len() && #[trigger] t[p].children[k] == j;
        assert(u[p].children[k] == j);
    }
}

} // verus!

//! The search tree: an arena of positions with visit counts per snake and
//! candidate move.
//!
//! The search is decoupled: at every position each snake picks one of its own
//! candidates, and the picks together lead to a child. Which candidate a snake
//! picks is the caller's business; the tree keeps the positions, the children
//! and the counts.

use vstd::arithmetic::power::pow;
use vstd::prelude::*;

use crate::board::{Board, Move};
use crate::rules;

verus! {

/// The most snakes a tree is made for: the joint picks of this many still fit
/// their index.
pub const TREE_SNAKES: usize = 15;

/// One position of the tree.
pub struct Node {
    pub board: Board,
    /// Whether the game is over here.
    pub terminal: bool,
    /// Whether the candidates below are filled in.
    pub expanded: bool,
    /// Each snake's candidate moves.
    pub cand: Vec<Vec<u8>>,
    /// How often each snake picked each candidate.
    pub nvisit: Vec<Vec<u64>>,
    /// How often the search has come past.
    pub visits: u64,
    /// The children by the index of the joint picks that lead there.
    pub children: Vec<(u32, usize)>,
}

/// One step of a descent: at `node`, snake `i` picked its candidate
/// `action[i]`.
pub struct Edge {
    pub node: usize,
    pub action: Vec<u8>,
}

/// A search tree.
pub struct Tree {
    /// The number of snakes.
    pub n: usize,
    pub nodes: Vec<Node>,
    /// The leaf that waits for an evaluation.
    pub pending: Option<usize>,
    /// The steps of the current descent, from the root.
    pub path: Vec<Edge>,
    /// Where the current descent stands.
    pub at: usize,
}

/// What a descent finds at a position.
#[derive(Clone, Copy, Debug, PartialEq, Eq, Structural)]
pub enum Visit {
    /// The game is over.
    Terminal,
    /// The position has no candidates yet.
    Leaf,
    /// Every snake has to pick.
    Choose,
}

/// The index of joint picks: the picks as the digits of a number whose `i`-th
/// digit counts to `sizes[i]`.
pub open spec fn joint_index(action: Seq<u8>, sizes: Seq<nat>) -> nat
    decreases action.len(),
{
    if action.len() == 0 {
        0
    } else {
        joint_index(action.drop_last(), sizes.drop_last()) * sizes.last() + action.last() as nat
    }
}

/// How many joint picks there are.
pub open spec fn joint_count(sizes: Seq<nat>) -> nat
    decreases sizes.len(),
{
    if sizes.len() == 0 {
        1
    } else {
        joint_count(sizes.drop_last()) * sizes.last()
    }
}

/// Whether every pick is one of the snake's candidates.
pub open spec fn picks_valid(action: Seq<u8>, sizes: Seq<nat>) -> bool {
    action.len() == sizes.len() && forall|i: int|
        0 <= i < sizes.len() ==> (#[trigger] action[i] as nat) < sizes[i]
}

/// The index of joint picks is below their number.
pub proof fn joint_index_in_range(action: Seq<u8>, sizes: Seq<nat>)
    requires
        picks_valid(action, sizes),
    ensures
        joint_index(action, sizes) < joint_count(sizes),
    decreases action.len(),
{
    if action.len() > 0 {
        let (a, z) = (action.drop_last(), sizes.drop_last());
        assert forall|i: int| 0 <= i < z.len() implies (#[trigger] a[i] as nat) < z[i] by {
            assert((action[i] as nat) < sizes[i]);
        }
        joint_index_in_range(a, z);
        assert((action[action.len() - 1] as nat) < sizes[sizes.len() - 1]);
        let (j, c, k, x) = (joint_index(a, z), joint_count(z), sizes.last(), action.last() as nat);
        assert(j * k + x < c * k) by (nonlinear_arith)
            requires
                j + 1 <= c,
                x < k,
        ;
    }
}

/// Different joint picks have different indices, so a child belongs to one
/// combination of picks only.
pub proof fn joint_index_is_injective(a: Seq<u8>, b: Seq<u8>, sizes: Seq<nat>)
    requires
        picks_valid(a, sizes),
        picks_valid(b, sizes),
        joint_index(a, sizes) == joint_index(b, sizes),
    ensures
        a == b,
    decreases a.len(),
{
    if a.len() == 0 {
        assert(a =~= b);
    } else {
        let (a1, b1, z) = (a.drop_last(), b.drop_last(), sizes.drop_last());
        assert forall|i: int| 0 <= i < z.len() implies (#[trigger] a1[i] as nat) < z[i] by {
            assert((a[i] as nat) < sizes[i]);
        }
        assert forall|i: int| 0 <= i < z.len() implies (#[trigger] b1[i] as nat) < z[i] by {
            assert((b[i] as nat) < sizes[i]);
        }
        let (j1, j2, k) = (joint_index(a1, z), joint_index(b1, z), sizes.last());
        let (x, y) = (a.last() as nat, b.last() as nat);
        assert((a[a.len() - 1] as nat) < sizes[sizes.len() - 1]);
        assert((b[b.len() - 1] as nat) < sizes[sizes.len() - 1]);
        assert(j1 == j2 && x == y) by (nonlinear_arith)
            requires
                j1 * k + x == j2 * k + y,
                x < k,
                y < k,
        ;
        joint_index_is_injective(a1, b1, z);
        assert(a =~= a1.push(a.last()));
        assert(b =~= b1.push(b.last()));
    }
}

proof fn lemma_joint_count_bound(sizes: Seq<nat>)
    requires
        forall|i: int| 0 <= i < sizes.len() ==> #[trigger] sizes[i] <= 4,
    ensures
        joint_count(sizes) <= pow(4, sizes.len()),
        pow(4, sizes.len()) > 0,
    decreases sizes.len(),
{
    reveal(pow);
    if sizes.len() > 0 {
        let z = sizes.drop_last();
        assert forall|i: int| 0 <= i < z.len() implies #[trigger] z[i] <= 4 by {
            assert(sizes[i] <= 4);
        }
        lemma_joint_count_bound(z);
        let (c, p, k) = (joint_count(z) as int, pow(4, z.len()), sizes.last() as int);
        assert(sizes[sizes.len() - 1] <= 4);
        assert(c * k <= 4 * p) by (nonlinear_arith)
            requires
                0 <= c <= p,
                0 <= k <= 4,
        ;
    }
}

proof fn lemma_pow_bound(n: nat)
    requires
        n <= TREE_SNAKES,
    ensures
        pow(4, n) <= 0x4000_0000,
{
    vstd::arithmetic::power::lemma_pow_increases(4, n, TREE_SNAKES as nat);
    assert(pow(4, 15) == 0x4000_0000) by {
        reveal_with_fuel(pow, 16);
    }
}

/// The sum of a list of counts.
pub open spec fn total(v: Seq<u64>) -> nat
    decreases v.len(),
{
    if v.len() == 0 {
        0
    } else {
        total(v.drop_last()) + v.last() as nat
    }
}

proof fn lemma_total_update(v: Seq<u64>, i: int, x: u64)
    requires
        0 <= i < v.len(),
    ensures
        total(v.update(i, x)) + v[i] == total(v) + x,
        v[i] <= total(v),
    decreases v.len(),
{
    let w = v.update(i, x);
    if i == v.len() - 1 {
        assert(w.drop_last() =~= v.drop_last());
    } else {
        assert(w.drop_last() =~= v.drop_last().update(i, x));
        lemma_total_update(v.drop_last(), i, x);
    }
}

proof fn lemma_total_zero(v: Seq<u64>)
    requires
        forall|i: int| 0 <= i < v.len() ==> v[i] == 0,
    ensures
        total(v) == 0,
    decreases v.len(),
{
    if v.len() > 0 {
        lemma_total_zero(v.drop_last());
    }
}

impl Node {
    /// The number of candidates of each snake.
    pub open spec fn sizes(&self) -> Seq<nat> {
        Seq::new(self.cand@.len(), |i: int| self.cand@[i]@.len())
    }

    /// Whether the node is in good order as node `id` of a tree with `len`
    /// nodes.
    pub open spec fn wf(&self, n: nat, id: nat, len: nat) -> bool {
        &&& position_wf(&self.board, n)
        &&& self.cand@.len() == self.nvisit@.len()
        &&& self.expanded ==> !self.terminal && self.cand@.len() == n
        &&& !self.expanded ==> self.children@.len() == 0
        &&& self.expanded ==> forall|i: int|
            0 <= i < n ==> {
                &&& (#[trigger] self.cand@[i])@ == rules::candidate_moves(&self.board, i)
                &&& self.nvisit@[i]@.len() == self.cand@[i]@.len()
                &&& total(self.nvisit@[i]@) == self.visits
            }
        &&& forall|c: int|
            0 <= c < self.children@.len() ==> id < (#[trigger] self.children@[c]).1 < len
                && self.children@[c].0 < joint_count(self.sizes())
        &&& forall|c: int, d: int|
            0 <= c < d < self.children@.len() ==> (#[trigger] self.children@[c]).0 != (
            #[trigger] self.children@[d]).0
    }

    /// The child for a joint index.
    pub open spec fn child_for(&self, joint: nat) -> Option<usize> {
        find_child(self.children@, joint)
    }
}

/// The first child with the given joint index.
pub open spec fn find_child(children: Seq<(u32, usize)>, joint: nat) -> Option<usize>
    decreases children.len(),
{
    if children.len() == 0 {
        None
    } else {
        match find_child(children.drop_last(), joint) {
            Some(c) => Some(c),
            None => if children.last().0 == joint {
                Some(children.last().1)
            } else {
                None
            },
        }
    }
}

/// Whether a position has `n` snakes, the living ones with a head.
pub open spec fn position_wf(board: &Board, n: nat) -> bool {
    &&& board.snakes@.len() == n
    &&& forall|i: int|
        0 <= i < n && #[trigger] board.seat_alive(i) ==> board.snakes@[i].body@.len() >= 1
}

/// Whether `path` leads from the root to `at`, each step to the child for its
/// picks.
pub open spec fn leads_to(nodes: Seq<Node>, path: Seq<Edge>, at: nat) -> bool
    decreases path.len(),
{
    if path.len() == 0 {
        at == 0
    } else {
        let e = path.last();
        &&& e.node < nodes.len()
        &&& nodes[e.node as int].expanded
        &&& picks_valid(e.action@, nodes[e.node as int].sizes())
        &&& e.node < at
        &&& nodes[e.node as int].child_for(
            joint_index(e.action@, nodes[e.node as int].sizes()),
        ) == Some(at as usize)
        &&& leads_to(nodes, path.drop_last(), e.node as nat)
    }
}

impl Tree {
    /// Whether the nodes are in good order.
    pub open spec fn nodes_wf(&self) -> bool {
        &&& self.n <= TREE_SNAKES
        &&& self.nodes@.len() >= 1
        &&& forall|k: int|
            0 <= k < self.nodes@.len() ==> (#[trigger] self.nodes@[k]).wf(
                self.n as nat,
                k as nat,
                self.nodes@.len(),
            )
    }

    /// Whether the tree is in good order, and the descent a way down from the
    /// root.
    pub open spec fn wf(&self) -> bool {
        &&& self.nodes_wf()
        &&& self.at < self.nodes@.len()
        &&& leads_to(self.nodes@, self.path@, self.at as nat)
        &&& self.pending matches Some(id) ==> id == self.at && !self.nodes@[id as int].expanded
            && !self.nodes@[id as int].terminal
    }
}

/// A fresh node.
fn leaf(board: Board, terminal: bool) -> (node: Node)
    ensures
        node.board == board,
        node.terminal == terminal,
        !node.expanded,
        node.cand@.len() == 0,
        node.nvisit@.len() == 0,
        node.visits == 0,
        node.children@.len() == 0,
{
    Node {
        board,
        terminal,
        expanded: false,
        cand: Vec::new(),
        nvisit: Vec::new(),
        visits: 0,
        children: Vec::new(),
    }
}

proof fn lemma_path_below(nodes: Seq<Node>, path: Seq<Edge>, at: nat, k: int)
    requires
        leads_to(nodes, path, at),
        0 <= k < path.len(),
    ensures
        path[k].node < at,
        path[k].node < nodes.len(),
        nodes[path[k].node as int].expanded,
        picks_valid(path[k].action@, nodes[path[k].node as int].sizes()),
        k == 0 ==> path[k].node == 0,
    decreases path.len(),
{
    let t = path.drop_last();
    if k < t.len() {
        lemma_path_below(nodes, t, path.last().node as nat, k);
    } else if k == 0 {
        assert(leads_to(nodes, t, path.last().node as nat));
        assert(path[0] == path.last());
    }
}

proof fn lemma_path_increasing(nodes: Seq<Node>, path: Seq<Edge>, at: nat, j: int, k: int)
    requires
        leads_to(nodes, path, at),
        0 <= j < k < path.len(),
    ensures
        path[j].node < path[k].node,
    decreases path.len(),
{
    let t = path.drop_last();
    if k < t.len() {
        lemma_path_increasing(nodes, t, path.last().node as nat, j, k);
    } else {
        lemma_path_below(nodes, t, path.last().node as nat, j);
    }
}

/// `leads_to` depends only on what it reads of the nodes.
proof fn lemma_leads_to_kept(a: Seq<Node>, b: Seq<Node>, path: Seq<Edge>, at: nat)
    requires
        leads_to(a, path, at),
        a.len() <= b.len(),
        forall|k: int|
            0 <= k < a.len() ==> {
                &&& (#[trigger] a[k]).expanded ==> b[k].expanded
                &&& a[k].expanded ==> a[k].sizes() == b[k].sizes()
                &&& forall|j: nat| (#[trigger] a[k].child_for(j)) is Some ==> b[k].child_for(j)
                    == a[k].child_for(j)
            },
    ensures
        leads_to(b, path, at),
    decreases path.len(),
{
    if path.len() > 0 {
        let e = path.last();
        lemma_leads_to_kept(a, b, path.drop_last(), e.node as nat);
        let k = e.node as int;
        assert(a[k].expanded);
        assert(a[k].child_for(joint_index(e.action@, a[k].sizes())) is Some);
    }
}

/// The moves that joint picks stand for.
pub open spec fn picked_moves(node: &Node, action: Seq<u8>) -> Seq<Move> {
    Seq::new(
        action.len(),
        |i: int| rules::nth_move(node.cand@[i]@[action[i] as int] as int),
    )
}

impl Tree {
    /// A tree with a single position.
    pub fn new(n: usize, board: Board, terminal: bool) -> (t: Tree)
        requires
            n <= TREE_SNAKES,
            position_wf(&board, n as nat),
        ensures
            t.wf(),
            t.n == n,
            t.nodes@.len() == 1,
            t.nodes@[0].board == board,
            t.nodes@[0].terminal == terminal,
            !t.nodes@[0].expanded,
            t.pending is None,
            t.path@.len() == 0,
            t.at == 0,
    {
        let mut nodes: Vec<Node> = Vec::new();
        nodes.push(leaf(board, terminal));
        Tree { n, nodes, pending: None, path: Vec::new(), at: 0 }
    }

    /// Starts over from another position.
    pub fn reset(&mut self, board: Board, terminal: bool)
        requires
            old(self).n <= TREE_SNAKES,
            position_wf(&board, old(self).n as nat),
        ensures
            final(self).wf(),
            final(self).n == old(self).n,
            final(self).nodes@.len() == 1,
            final(self).nodes@[0].board == board,
            final(self).nodes@[0].terminal == terminal,
            !final(self).nodes@[0].expanded,
            final(self).pending is None,
            final(self).path@.len() == 0,
            final(self).at == 0,
    {
        self.nodes.clear();
        self.nodes.push(leaf(board, terminal));
        self.pending = None;
        self.path.clear();
        self.at = 0;
    }

    /// Goes back to the root for a new descent.
    pub fn begin(&mut self)
        requires
            old(self).wf(),
        ensures
            final(self).wf(),
            final(self).n == old(self).n,
            final(self).nodes@ == old(self).nodes@,
            final(self).pending is None,
            final(self).path@.len() == 0,
            final(self).at == 0,
    {
        self.path.clear();
        self.pending = None;
        self.at = 0;
    }

    /// What the descent finds where it stands; a leaf is left waiting for its
    /// evaluation.
    pub fn look(&mut self) -> (v: Visit)
        requires
            old(self).wf(),
        ensures
            final(self).wf(),
            final(self).n == old(self).n,
            final(self).nodes@ == old(self).nodes@,
            final(self).path@ == old(self).path@,
            final(self).at == old(self).at,
            v == ({
                let node = old(self).nodes@[old(self).at as int];
                if node.terminal {
                    Visit::Terminal
                } else if !node.expanded {
                    Visit::Leaf
                } else {
                    Visit::Choose
                }
            }),
            final(self).pending == if v == Visit::Leaf {
                Some(old(self).at)
            } else {
                None
            },
    {
        let node = &self.nodes[self.at];
        if node.terminal {
            self.pending = None;
            Visit::Terminal
        } else if !node.expanded {
            self.pending = Some(self.at);
            Visit::Leaf
        } else {
            self.pending = None;
            Visit::Choose
        }
    }

    /// The index of joint picks at a node.
    pub fn joint(&self, id: usize, action: &Vec<u8>) -> (j: u32)
        requires
            self.nodes_wf(),
            id < self.nodes@.len(),
            self.nodes@[id as int].expanded,
            picks_valid(action@, self.nodes@[id as int].sizes()),
        ensures
            j == joint_index(action@, self.nodes@[id as int].sizes()),
            j < joint_count(self.nodes@[id as int].sizes()),
    {
        let node = &self.nodes[id];
        let ghost sizes = node.sizes();
        proof {
            assert(node.wf(self.n as nat, id as nat, self.nodes@.len()));
            assert forall|i: int| 0 <= i < sizes.len() implies 1 <= #[trigger] sizes[i] <= 4 by {
                assert(node.cand@[i]@ == rules::candidate_moves(&node.board, i));
                rules::candidates_are_moves(&node.board, i);
            }
        }
        let mut j: u32 = 0;
        let mut i: usize = 0;
        while i < self.n
            invariant
                i <= self.n,
                self.n <= TREE_SNAKES,
                node.cand@.len() == self.n,
                sizes == node.sizes(),
                picks_valid(action@, sizes),
                forall|i: int| 0 <= i < sizes.len() ==> 1 <= #[trigger] sizes[i] <= 4,
                j == joint_index(action@.take(i as int), sizes.take(i as int)),
            decreases self.n - i,
        {
            let k: u32 = node.cand[i].len() as u32;
            proof {
                let (a, z) = (action@.take(i + 1), sizes.take(i + 1));
                assert(a.drop_last() =~= action@.take(i as int));
                assert(z.drop_last() =~= sizes.take(i as int));
                assert(sizes[i as int] == node.cand@[i as int]@.len());
                assert(1 <= sizes[i as int] <= 4);
                assert forall|q: int| 0 <= q < z.len() implies (#[trigger] a[q] as nat)
                    < z[q] by {
                    assert((action@[q] as nat) < sizes[q]);
                }
                joint_index_in_range(a, z);
                assert forall|q: int| 0 <= q < z.len() implies #[trigger] z[q] <= 4 by {
                    assert(sizes[q] <= 4);
                }
                lemma_joint_count_bound(z);
                lemma_pow_bound((i + 1) as nat);
                assert(j * k <= j * k + action@[i as int]);
            }
            j = j * k + action[i] as u32;
            i = i + 1;
        }
        proof {
            assert(action@.take(i as int) =~= action@);
            assert(sizes.take(i as int) =~= sizes);
            joint_index_in_range(action@, sizes);
        }
        j
    }

    /// The child of a node for a joint index.
    pub fn child(&self, id: usize, joint: u32) -> (c: Option<usize>)
        requires
            id < self.nodes@.len(),
        ensures
            c == self.nodes@[id as int].child_for(joint as nat),
    {
        let node = &self.nodes[id];
        let mut found: Option<usize> = None;
        let mut i: usize = 0;
        while i < node.children.len()
            invariant
                i <= node.children@.len(),
                found == find_child(node.children@.take(i as int), joint as nat),
            decreases node.children@.len() - i,
        {
            assert(node.children@.take(i + 1).drop_last() =~= node.children@.take(i as int));
            if found.is_none() && node.children[i].0 == joint {
                found = Some(node.children[i].1);
            }
            i = i + 1;
        }
        assert(node.children@.take(i as int) =~= node.children@);
        found
    }

    /// The moves that joint picks stand for.
    pub fn moves_of(&self, id: usize, action: &Vec<u8>) -> (mv: Vec<Move>)
        requires
            self.nodes_wf(),
            id < self.nodes@.len(),
            self.nodes@[id as int].expanded,
            picks_valid(action@, self.nodes@[id as int].sizes()),
        ensures
            mv@ == picked_moves(&self.nodes@[id as int], action@),
    {
        let node = &self.nodes[id];
        let mut mv: Vec<Move> = Vec::new();
        let mut i: usize = 0;
        assert(node.wf(self.n as nat, id as nat, self.nodes@.len()));
        while i < action.len()
            invariant
                i <= action@.len(),
                node.expanded,
                node.wf(self.n as nat, id as nat, self.nodes@.len()),
                picks_valid(action@, node.sizes()),
                mv@ == picked_moves(node, action@).take(i as int),
            decreases action@.len() - i,
        {
            assert((action@[i as int] as nat) < node.sizes()[i as int]);
            let m: u8 = node.cand[i][action[i] as usize];
            proof {
                assert(node.cand@[i as int]@ == rules::candidate_moves(&node.board, i as int));
                rules::candidates_are_moves(&node.board, i as int);
            }
            let x = Move::from_index(m as usize);
            assert(x == rules::nth_move(m as int));
            mv.push(x);
            i = i + 1;
            assert(mv@ =~= picked_moves(node, action@).take(i as int));
        }
        assert(picked_moves(node, action@).take(i as int) =~= picked_moves(node, action@));
        mv
    }

    /// Goes one step down to the child for the picks, where the tree has it.
    pub fn follow(&mut self, action: Vec<u8>) -> (found: bool)
        requires
            old(self).wf(),
            old(self).nodes@[old(self).at as int].expanded,
            picks_valid(action@, old(self).nodes@[old(self).at as int].sizes()),
        ensures
            final(self).wf(),
            final(self).n == old(self).n,
            final(self).nodes@ == old(self).nodes@,
            ({
                let node = old(self).nodes@[old(self).at as int];
                match node.child_for(joint_index(action@, node.sizes())) {
                    Some(c) => {
                        &&& found
                        &&& final(self).at == c
                        &&& final(self).pending is None
                        &&& final(self).path@.len() == old(self).path@.len() + 1
                        &&& final(self).path@.drop_last() == old(self).path@
                        &&& final(self).path@.last().node == old(self).at
                        &&& final(self).path@.last().action@ == action@
                    },
                    None => {
                        &&& !found
                        &&& final(self).at == old(self).at
                        &&& final(self).path@ == old(self).path@
                        &&& final(self).pending == old(self).pending
                    },
                }
            }),
    {
        let j: u32 = self.joint(self.at, &action);
        match self.child(self.at, j) {
            Some(c) => {
                let ghost before = self.path@;
                let from: usize = self.at;
                proof {
                    let node = self.nodes@[from as int];
                    assert(node.wf(self.n as nat, from as nat, self.nodes@.len()));
                    lemma_find_child(node.children@, j as nat);
                }
                self.path.push(Edge { node: from, action });
                self.at = c;
                self.pending = None;
                assert(self.path@.drop_last() =~= before);
                true
            },
            None => false,
        }
    }

    /// Adds the child for the picks, with the position that they lead to, and
    /// goes there. Unless the game is over there, it waits for its evaluation.
    pub fn spawn(&mut self, action: Vec<u8>, board: Board, terminal: bool) -> (id: usize)
        requires
            old(self).wf(),
            old(self).nodes@[old(self).at as int].expanded,
            picks_valid(action@, old(self).nodes@[old(self).at as int].sizes()),
            old(self).nodes@[old(self).at as int].child_for(
                joint_index(action@, old(self).nodes@[old(self).at as int].sizes()),
            ) is None,
            position_wf(&board, old(self).n as nat),
            old(self).nodes@.len() < usize::MAX,
        ensures
            final(self).wf(),
            final(self).n == old(self).n,
            id == old(self).nodes@.len(),
            final(self).nodes@.len() == id + 1,
            final(self).nodes@[id as int].board == board,
            final(self).nodes@[id as int].terminal == terminal,
            !final(self).nodes@[id as int].expanded,
            final(self).at == id,
            final(self).pending == if terminal {
                None
            } else {
                Some(id)
            },
            final(self).path@.len() == old(self).path@.len() + 1,
            final(self).path@.drop_last() == old(self).path@,
            final(self).path@.last().node == old(self).at,
            final(self).path@.last().action@ == action@,
            forall|k: int|
                0 <= k < id && k != old(self).at ==> #[trigger] final(self).nodes@[k] == old(
                    self,
                ).nodes@[k],
            ({
                let (a, b) = (
                    old(self).nodes@[old(self).at as int],
                    final(self).nodes@[old(self).at as int],
                );
                &&& b.children@ == a.children@.push(
                    (joint_index(action@, a.sizes()) as u32, id),
                )
                &&& same_but_children(a, b)
            }),
    {
        let from: usize = self.at;
        let j: u32 = self.joint(from, &action);
        let id: usize = self.nodes.len();
        let ghost nodes0 = self.nodes@;
        let ghost path0 = self.path@;
        let ghost node0 = nodes0[from as int];
        proof {
            assert(node0.wf(self.n as nat, from as nat, nodes0.len()));
        }
        self.nodes.push(leaf(board, terminal));
        self.nodes[from].children.push((j, id));
        self.path.push(Edge { node: from, action });
        self.at = id;
        self.pending = if terminal { None } else { Some(id) };
        proof {
            let node1 = self.nodes@[from as int];
            assert(node1.sizes() =~= node0.sizes());
            lemma_find_child(node0.children@, j as nat);
            assert(node1.children@.drop_last() =~= node0.children@);
            assert forall|k: int| 0 <= k < self.nodes@.len() implies (#[trigger] self.nodes@[k]).wf(
                self.n as nat,
                k as nat,
                self.nodes@.len(),
            ) by {
                if k < id && k != from {
                    assert(nodes0[k].wf(self.n as nat, k as nat, nodes0.len()));
                }
            }
            assert forall|k: int| 0 <= k < nodes0.len() implies {
                &&& (#[trigger] nodes0[k]).expanded ==> self.nodes@[k].expanded
                &&& nodes0[k].expanded ==> nodes0[k].sizes() == self.nodes@[k].sizes()
                &&& forall|q: nat| (#[trigger] nodes0[k].child_for(q)) is Some
                    ==> self.nodes@[k].child_for(q) == nodes0[k].child_for(q)
            } by {
                if k == from {
                    assert forall|q: nat| (#[trigger] nodes0[k].child_for(q)) is Some implies
                        self.nodes@[k].child_for(q) == nodes0[k].child_for(q) by {
                        assert(node1.children@.drop_last() =~= node0.children@);
                    }
                }
            }
            assert(self.path@.drop_last() =~= path0);
            lemma_leads_to_kept(nodes0, self.nodes@, path0, from as nat);
            assert(node1.child_for(j as nat) == Some(id));
        }
        id
    }

    /// Fills in the candidates of the waiting leaf; all counts start at zero.
    /// Returns the leaf, or `None` where nothing waits.
    pub fn expand(&mut self) -> (r: Option<usize>)
        requires
            old(self).wf(),
        ensures
            final(self).wf(),
            final(self).n == old(self).n,
            final(self).at == old(self).at,
            final(self).path@ == old(self).path@,
            final(self).pending is None,
            r == old(self).pending,
            final(self).nodes@.len() == old(self).nodes@.len(),
            forall|k: int|
                0 <= k < old(self).nodes@.len() && r != Some(k as usize)
                    ==> #[trigger] final(self).nodes@[k] == old(self).nodes@[k],
            r matches Some(id) ==> {
                let (a, b) = (old(self).nodes@[id as int], final(self).nodes@[id as int]);
                &&& b.expanded
                &&& b.board == a.board
                &&& b.visits == 0
                &&& b.children@.len() == 0
                &&& forall|i: int, c: int|
                    0 <= i < old(self).n && 0 <= c < b.nvisit@[i]@.len()
                        ==> #[trigger] b.nvisit@[i]@[c] == 0
            },
    {
        let id: usize = match self.pending {
            Some(id) => id,
            None => {
                return None;
            },
        };
        self.pending = None;
        let ghost nodes0 = self.nodes@;
        let ghost node0 = nodes0[id as int];
        assert(node0.wf(self.n as nat, id as nat, nodes0.len()));
        let mut cand: Vec<Vec<u8>> = Vec::new();
        let mut nvisit: Vec<Vec<u64>> = Vec::new();
        let mut i: usize = 0;
        while i < self.n
            invariant
                i <= self.n,
                id < self.nodes@.len(),
                self.nodes@[id as int] == node0,
                position_wf(&node0.board, self.n as nat),
                cand@.len() == i,
                nvisit@.len() == i,
                forall|k: int|
                    0 <= k < i ==> (#[trigger] cand@[k])@ == rules::candidate_moves(
                        &node0.board,
                        k,
                    ),
                forall|k: int|
                    0 <= k < i ==> (#[trigger] nvisit@[k])@ == Seq::new(
                        cand@[k]@.len(),
                        |c: int| 0u64,
                    ),
            decreases self.n - i,
        {
            assert(node0.board.seat_alive(i as int) ==> node0.board.snakes@[i as int].body@.len()
                >= 1);
            let c = rules::candidates(&self.nodes[id].board, i);
            let zeros = crate::arena::repeated(0u64, c.len());
            nvisit.push(zeros);
            cand.push(c);
            i = i + 1;
        }
        let mut node = leaf(Board::new(0, 0), false);
        core::mem::swap(&mut self.nodes[id], &mut node);
        node.cand = cand;
        node.nvisit = nvisit;
        node.visits = 0;
        node.expanded = true;
        let ghost node1 = node;
        self.nodes[id] = node;
        proof {
            assert(self.nodes@ =~= nodes0.update(id as int, node1));
            assert forall|k: int| 0 <= k < self.n implies {
                &&& (#[trigger] node1.cand@[k])@ == rules::candidate_moves(&node1.board, k)
                &&& node1.nvisit@[k]@.len() == node1.cand@[k]@.len()
                &&& total(node1.nvisit@[k]@) == node1.visits
            } by {
                assert(nvisit@[k]@ == Seq::new(cand@[k]@.len(), |c: int| 0u64));
                lemma_total_zero(node1.nvisit@[k]@);
            }
            assert(node1.wf(self.n as nat, id as nat, nodes0.len()));
            assert forall|k: int| 0 <= k < self.nodes@.len() implies (#[trigger] self.nodes@[k]).wf(
                self.n as nat,
                k as nat,
                self.nodes@.len(),
            ) by {
                assert(nodes0[k].wf(self.n as nat, k as nat, nodes0.len()));
            }
            assert forall|k: int| 0 <= k < nodes0.len() implies {
                &&& (#[trigger] nodes0[k]).expanded ==> self.nodes@[k].expanded
                &&& nodes0[k].expanded ==> nodes0[k].sizes() == self.nodes@[k].sizes()
                &&& forall|q: nat| (#[trigger] nodes0[k].child_for(q)) is Some
                    ==> self.nodes@[k].child_for(q) == nodes0[k].child_for(q)
            } by {
                if k == id {
                    assert forall|q: nat| (#[trigger] nodes0[k].child_for(q)) is Some implies
                        self.nodes@[k].child_for(q) == nodes0[k].child_for(q) by {
                        assert(nodes0[k].children@.len() == 0);
                    }
                }
            }
            lemma_leads_to_kept(nodes0, self.nodes@, self.path@, self.at as nat);
        }
        Some(id)
    }

    /// Counts the descent: at every node it came past, each snake's pick is
    /// counted once. The descent is over then.
    pub fn backup(&mut self)
        requires
            old(self).wf(),
            forall|k: int|
                0 <= k < old(self).nodes@.len() ==> (#[trigger] old(self).nodes@[k]).visits
                    < u64::MAX,
        ensures
            final(self).wf(),
            final(self).n == old(self).n,
            final(self).at == 0,
            final(self).path@.len() == 0,
            final(self).pending is None,
            final(self).nodes@.len() == old(self).nodes@.len(),
            forall|k: int|
                0 <= k < old(self).nodes@.len() ==> counted_once(
                    old(self).nodes@[k],
                    #[trigger] final(self).nodes@[k],
                    pick_at(old(self).path@, k),
                ),
    {
        let ghost nodes0 = self.nodes@;
        let ghost path0 = self.path@;
        let steps: usize = self.path.len();
        let mut s: usize = 0;
        proof {
            assert forall|k: int| 0 <= k < nodes0.len() implies counted_once(
                nodes0[k],
                #[trigger] self.nodes@[k],
                pick_at(path0.take(0), k),
            ) by {}
        }
        while s < steps
            invariant
                s <= steps,
                steps == path0.len(),
                self.path@ == path0,
                leads_to(nodes0, path0, self.at as nat),
                self.at < nodes0.len(),
                self.nodes@.len() == nodes0.len(),
                self.nodes_wf(),
                self.n == old(self).n,
                forall|k: int| 0 <= k < nodes0.len() ==> (#[trigger] nodes0[k]).visits < u64::MAX,
                forall|k: int|
                    0 <= k < nodes0.len() ==> counted_once(
                        nodes0[k],
                        #[trigger] self.nodes@[k],
                        pick_at(path0.take(s as int), k),
                    ),
            decreases steps - s,
        {
            let id: usize = self.path[s].node;
            proof {
                lemma_path_below(nodes0, path0, self.at as nat, s as int);
                assert(path0.take(s + 1).drop_last() =~= path0.take(s as int));
                assert forall|j: int| 0 <= j < s implies (#[trigger] path0[j]).node != id by {
                    lemma_path_increasing(nodes0, path0, self.at as nat, j, s as int);
                }
                lemma_not_picked(path0.take(s as int), id as int);
            }
            let ghost before = self.nodes@;
            let ghost node0 = before[id as int];
            assert(counted_once(nodes0[id as int], node0, None));
            assert(node0.wf(self.n as nat, id as nat, before.len()));
            let mut node = leaf(Board::new(0, 0), false);
            core::mem::swap(&mut self.nodes[id], &mut node);
            let n: usize = self.n;
            let mut i: usize = 0;
            while i < n
                invariant
                    i <= n,
                    n == self.n,
                    s < steps,
                    self.path@ == path0,
                    path0.len() == steps,
                    node0.wf(n as nat, id as nat, before.len()),
                    node0.expanded,
                    node0.visits < u64::MAX,
                    picks_valid(path0[s as int].action@, node0.sizes()),
                    node.board == node0.board,
                    node.terminal == node0.terminal,
                    node.expanded == node0.expanded,
                    node.cand@ == node0.cand@,
                    node.children@ == node0.children@,
                    node.visits == node0.visits,
                    node.nvisit@.len() == n,
                    forall|q: int| i <= q < n ==> node.nvisit@[q] == node0.nvisit@[q],
                    forall|q: int|
                        0 <= q < i ==> (#[trigger] node.nvisit@[q])@ == bumped(
                            node0.nvisit@[q]@,
                            path0[s as int].action@[q],
                        ),
                decreases n - i,
            {
                let a: usize = self.path[s].action[i] as usize;
                proof {
                    assert((path0[s as int].action@[i as int] as nat) < node0.sizes()[i as int]);
                    assert(node0.cand@[i as int]@ == rules::candidate_moves(
                        &node0.board,
                        i as int,
                    ));
                    lemma_total_update(node0.nvisit@[i as int]@, a as int, 0);
                }
                let mut row: Vec<u64> = Vec::new();
                core::mem::swap(&mut node.nvisit[i], &mut row);
                let c: u64 = row[a] + 1;
                row[a] = c;
                node.nvisit[i] = row;
                i = i + 1;
            }
            node.visits = node.visits + 1;
            let ghost node1 = node;
            self.nodes[id] = node;
            proof {
                let act = path0[s as int].action@;
                assert(self.nodes@ =~= before.update(id as int, node1));
                assert forall|q: int| 0 <= q < n implies {
                    &&& (#[trigger] node1.cand@[q])@ == rules::candidate_moves(&node1.board, q)
                    &&& node1.nvisit@[q]@.len() == node1.cand@[q]@.len()
                    &&& total(node1.nvisit@[q]@) == node1.visits
                } by {
                    assert(node0.cand@[q]@ == rules::candidate_moves(&node0.board, q));
                    assert((act[q] as nat) < node0.sizes()[q]);
                    assert(node1.nvisit@[q]@ == bumped(node0.nvisit@[q]@, act[q]));
                    lemma_total_update(
                        node0.nvisit@[q]@,
                        act[q] as int,
                        (node0.nvisit@[q]@[act[q] as int] + 1) as u64,
                    );
                    lemma_total_update(node0.nvisit@[q]@, act[q] as int, 0);
                }
                assert(node1.sizes() =~= node0.sizes());
                assert(node1.wf(self.n as nat, id as nat, before.len()));
                assert forall|k: int| 0 <= k < self.nodes@.len() implies (
                #[trigger] self.nodes@[k]).wf(self.n as nat, k as nat, self.nodes@.len()) by {
                    assert(before[k].wf(self.n as nat, k as nat, before.len()));
                }
                assert forall|k: int| 0 <= k < nodes0.len() implies counted_once(
                    nodes0[k],
                    #[trigger] self.nodes@[k],
                    pick_at(path0.take(s + 1), k),
                ) by {
                    assert(counted_once(nodes0[k], before[k], pick_at(path0.take(s as int), k)));
                    if k == id {
                        assert(pick_at(path0.take(s + 1), k) == Some(act));
                    }
                }
            }
            s = s + 1;
        }
        assert(path0.take(s as int) =~= path0);
        self.path.clear();
        self.at = 0;
        self.pending = None;
    }

    /// How often snake `i` played each of the four moves at the root, and how
    /// often the search came past; nothing before the root has candidates.
    pub fn root_visits(&self, i: usize) -> (r: (Vec<u64>, u64))
        requires
            self.nodes_wf(),
            i < self.n,
        ensures
            r.0@ == root_counts(&self.nodes@[0], i as int),
            r.1 == if self.nodes@[0].expanded {
                self.nodes@[0].visits
            } else {
                0
            },
            total(r.0@) == r.1,
            r.0@.len() == 4,
            self.nodes@[0].expanded ==> forall|a: int|
                0 <= a < self.nodes@[0].cand@[i as int]@.len()
                    ==> r.0@[#[trigger] self.nodes@[0].cand@[i as int]@[a] as int]
                    == self.nodes@[0].nvisit@[i as int]@[a],
            forall|m: u8|
                m < 4 && (self.nodes@[0].expanded ==> !self.nodes@[0].cand@[i as int]@.contains(m))
                    ==> #[trigger] r.0@[m as int] == 0,
    {
        proof {
            visits_stand_at_their_moves(self, i as int);
        }
        let root = &self.nodes[0];
        let mut counts = crate::arena::repeated(0u64, 4);
        proof {
            assert(root.wf(self.n as nat, 0, self.nodes@.len()));
            lemma_total_zero(counts@);
        }
        if !root.expanded {
            return (counts, 0);
        }
        proof {
            assert(root.cand@[i as int]@ == rules::candidate_moves(&root.board, i as int));
            rules::candidates_are_moves(&root.board, i as int);
        }
        let k: usize = root.cand[i].len();
        let mut a: usize = 0;
        while a < k
            invariant
                a <= k,
                i < self.n,
                self.n == root.cand@.len(),
                root.nvisit@.len() == root.cand@.len(),
                k == root.cand@[i as int]@.len(),
                k == root.nvisit@[i as int]@.len(),
                forall|q: int|
                    0 <= q < k ==> #[trigger] root.cand@[i as int]@[q] < 4,
                forall|p: int, q: int|
                    0 <= p < q < k ==> #[trigger] root.cand@[i as int]@[p]
                        < #[trigger] root.cand@[i as int]@[q],
                counts@ == spread(
                    root.cand@[i as int]@.take(a as int),
                    root.nvisit@[i as int]@.take(a as int),
                ),
                total(counts@) == total(root.nvisit@[i as int]@.take(a as int)),
            decreases k - a,
        {
            let m: u8 = root.cand[i][a];
            let ghost before = counts@;
            let ghost (cs, vs) = (root.cand@[i as int]@, root.nvisit@[i as int]@);
            proof {
                assert(cs[a as int] < 4);
                assert(cs.take(a + 1).drop_last() =~= cs.take(a as int));
                assert(vs.take(a + 1).drop_last() =~= vs.take(a as int));
                assert forall|q: int| 0 <= q < a implies (#[trigger] cs.take(a as int)[q]) != m
                    && cs.take(a as int)[q] < 4 by {
                    assert(cs[q] < cs[a as int]);
                }
                lemma_spread_untouched(cs.take(a as int), vs.take(a as int), m);
            }
            counts[m as usize] = root.nvisit[i][a];
            proof {
                lemma_total_update(before, m as int, vs[a as int]);
            }
            a = a + 1;
        }
        proof {
            assert(root.cand@[i as int]@.take(a as int) =~= root.cand@[i as int]@);
            assert(root.nvisit@[i as int]@.take(a as int) =~= root.nvisit@[i as int]@);
        }
        (counts, root.visits)
    }
}

proof fn lemma_find_child(children: Seq<(u32, usize)>, joint: nat)
    ensures
        match find_child(children, joint) {
            Some(c) => exists|i: int|
                0 <= i < children.len() && (#[trigger] children[i]).1 == c && children[i].0 == joint,
            None => forall|i: int| 0 <= i < children.len() ==> (#[trigger] children[i]).0 != joint,
        },
    decreases children.len(),
{
    if children.len() > 0 {
        let t = children.drop_last();
        lemma_find_child(t, joint);
        match find_child(t, joint) {
            Some(c) => {
                let i = choose|i: int|
                    0 <= i < t.len() && (#[trigger] t[i]).1 == c && t[i].0 == joint;
                assert(children[i] == t[i]);
            },
            None => {
                assert forall|i: int| 0 <= i < t.len() implies (#[trigger] children[i]).0
                    != joint by {
                    assert(t[i] == children[i]);
                }
                if children.last().0 == joint {
                    assert(children[children.len() - 1].0 == joint);
                }
            },
        }
    }
}

/// Whether two nodes agree in everything but their children.
pub open spec fn same_but_children(a: Node, b: Node) -> bool {
    &&& b.board == a.board
    &&& b.terminal == a.terminal
    &&& b.expanded == a.expanded
    &&& b.cand@ == a.cand@
    &&& b.nvisit@ == a.nvisit@
    &&& b.visits == a.visits
}

/// A list of counts with one of them raised.
pub open spec fn bumped(v: Seq<u64>, a: u8) -> Seq<u64> {
    v.update(a as int, (v[a as int] + 1) as u64)
}

/// The picks of a descent at node `k`, where it came past.
pub open spec fn pick_at(path: Seq<Edge>, k: int) -> Option<Seq<u8>>
    decreases path.len(),
{
    if path.len() == 0 {
        None
    } else if path.last().node == k {
        Some(path.last().action@)
    } else {
        pick_at(path.drop_last(), k)
    }
}

proof fn lemma_not_picked(path: Seq<Edge>, k: int)
    requires
        forall|j: int| 0 <= j < path.len() ==> (#[trigger] path[j]).node != k,
    ensures
        pick_at(path, k) is None,
    decreases path.len(),
{
    if path.len() > 0 {
        assert(path[path.len() - 1].node != k);
        let t = path.drop_last();
        assert forall|j: int| 0 <= j < t.len() implies (#[trigger] t[j]).node != k by {
            assert(path[j].node != k);
        }
        lemma_not_picked(t, k);
    }
}

/// Whether `b` is `a` with one more visit, each snake's pick counted; or `a`
/// itself where the descent did not come past.
pub open spec fn counted_once(a: Node, b: Node, pick: Option<Seq<u8>>) -> bool {
    &&& b.board == a.board
    &&& b.terminal == a.terminal
    &&& b.expanded == a.expanded
    &&& b.cand@ == a.cand@
    &&& b.children@ == a.children@
    &&& match pick {
        Some(action) => {
            &&& b.visits == a.visits + 1
            &&& b.nvisit@.len() == a.nvisit@.len()
            &&& forall|i: int|
                0 <= i < a.nvisit@.len() ==> (#[trigger] b.nvisit@[i])@ == bumped(
                    a.nvisit@[i]@,
                    action[i],
                )
        },
        None => b.visits == a.visits && b.nvisit@ == a.nvisit@,
    }
}

/// Counts by candidate laid out by move.
pub open spec fn spread(cand: Seq<u8>, counts: Seq<u64>) -> Seq<u64>
    decreases cand.len(),
{
    if cand.len() == 0 {
        Seq::new(4, |i: int| 0u64)
    } else {
        spread(cand.drop_last(), counts.drop_last()).update(cand.last() as int, counts.last())
    }
}

proof fn lemma_spread_untouched(cand: Seq<u8>, counts: Seq<u64>, m: u8)
    requires
        cand.len() == counts.len(),
        m < 4,
        forall|q: int| 0 <= q < cand.len() ==> (#[trigger] cand[q]) != m && cand[q] < 4,
    ensures
        spread(cand, counts).len() == 4,
        spread(cand, counts)[m as int] == 0,
    decreases cand.len(),
{
    if cand.len() > 0 {
        assert(cand[cand.len() - 1] != m);
        let t = cand.drop_last();
        assert forall|q: int| 0 <= q < t.len() implies (#[trigger] t[q]) != m && t[q] < 4 by {
            assert(cand[q] != m);
        }
        lemma_spread_untouched(t, counts.drop_last(), m);
    }
}

/// How often snake `i` played each of the four moves at a root.
pub open spec fn root_counts(root: &Node, i: int) -> Seq<u64> {
    if root.expanded {
        spread(root.cand@[i]@, root.nvisit@[i]@)
    } else {
        Seq::new(4, |k: int| 0u64)
    }
}

proof fn lemma_spread_at(cand: Seq<u8>, counts: Seq<u64>, a: int)
    requires
        cand.len() == counts.len(),
        forall|q: int| 0 <= q < cand.len() ==> #[trigger] cand[q] < 4,
        forall|p: int, q: int|
            0 <= p < q < cand.len() ==> #[trigger] cand[p] != #[trigger] cand[q],
        0 <= a < cand.len(),
    ensures
        spread(cand, counts).len() == 4,
        spread(cand, counts)[cand[a] as int] == counts[a],
    decreases cand.len(),
{
    let (t, u) = (cand.drop_last(), counts.drop_last());
    assert forall|p: int, q: int| 0 <= p < q < t.len() implies #[trigger] t[p] != #[trigger] t[q] by {
        assert(cand[p] != cand[q]);
    }
    assert forall|q: int| 0 <= q < t.len() implies (#[trigger] t[q]) != cand.last() && t[q] < 4 by {
        assert(cand[q] != cand[cand.len() - 1]);
    }
    lemma_spread_untouched(t, u, cand.last());
    if a < cand.len() - 1 {
        lemma_spread_at(t, u, a);
        assert(cand[a] != cand[cand.len() - 1]);
    }
}

/// The count of each candidate stands at the index of its move, and a move that
/// is no candidate has none: what is most visited at the root is the move that
/// was picked most.
pub proof fn visits_stand_at_their_moves(t: &Tree, i: int)
    requires
        t.nodes_wf(),
        0 <= i < t.n,
    ensures
        root_counts(&t.nodes@[0], i).len() == 4,
        t.nodes@[0].expanded ==> forall|a: int|
            0 <= a < t.nodes@[0].cand@[i]@.len() ==> root_counts(&t.nodes@[0], i)[
                #[trigger] t.nodes@[0].cand@[i]@[a] as int
            ] == t.nodes@[0].nvisit@[i]@[a],
        forall|m: u8|
            m < 4 && (t.nodes@[0].expanded ==> !t.nodes@[0].cand@[i]@.contains(m))
                ==> #[trigger] root_counts(&t.nodes@[0], i)[m as int] == 0,
{
    let root = t.nodes@[0];
    assert(root.wf(t.n as nat, 0, t.nodes@.len()));
    if root.expanded {
        let (cs, vs) = (root.cand@[i]@, root.nvisit@[i]@);
        assert(cs == rules::candidate_moves(&root.board, i));
        rules::candidates_are_moves(&root.board, i);
        assert forall|a: int| 0 <= a < cs.len() implies root_counts(&root, i)[
            #[trigger] cs[a] as int
        ] == vs[a] by {
            lemma_spread_at(cs, vs, a);
        }
        lemma_spread_at(cs, vs, 0);
        assert forall|m: u8| m < 4 && !cs.contains(m) implies #[trigger] root_counts(&root, i)[
            m as int
        ] == 0 by {
            assert forall|q: int| 0 <= q < cs.len() implies (#[trigger] cs[q]) != m && cs[q] < 4 by {
                assert(cs.contains(cs[q]));
            }
            lemma_spread_untouched(cs, vs, m);
        }
    }
}

/// The moves that joint picks stand for are the picked candidates, each by the
/// index of its move.
pub proof fn picks_stand_for_candidates(node: &Node, action: Seq<u8>, i: int)
    requires
        0 <= i < action.len(),
    ensures
        picked_moves(node, action).len() == action.len(),
        node.cand@[i]@[action[i] as int] == 0 ==> picked_moves(node, action)[i] == Move::Up,
        node.cand@[i]@[action[i] as int] == 1 ==> picked_moves(node, action)[i] == Move::Down,
        node.cand@[i]@[action[i] as int] == 2 ==> picked_moves(node, action)[i] == Move::Left,
        node.cand@[i]@[action[i] as int] == 3 ==> picked_moves(node, action)[i] == Move::Right,
{
}

/// A child is found again under its joint index, and under no other.
pub proof fn children_are_found(t: &Tree, k: int, c: int)
    requires
        t.nodes_wf(),
        0 <= k < t.nodes@.len(),
        0 <= c < t.nodes@[k].children@.len(),
    ensures
        t.nodes@[k].child_for(t.nodes@[k].children@[c].0 as nat) == Some(
            t.nodes@[k].children@[c].1,
        ),
        forall|j: nat|
            #![trigger t.nodes@[k].child_for(j)]
            (forall|d: int|
                0 <= d < t.nodes@[k].children@.len() ==> (#[trigger] t.nodes@[k].children@[d]).0
                    != j) ==> t.nodes@[k].child_for(j) is None,
{
    let node = t.nodes@[k];
    assert(node.wf(t.n as nat, k as nat, t.nodes@.len()));
    let j = node.children@[c].0 as nat;
    lemma_find_child(node.children@, j);
    assert(node.children@[c].0 == j);
    assert forall|j: nat|
        #![trigger node.child_for(j)]
        (forall|d: int|
            0 <= d < node.children@.len() ==> (#[trigger] node.children@[d]).0 != j) implies
        node.child_for(j) is None by {
        lemma_find_child(node.children@, j);
    }
}

/// What a counted descent changes: at every position that it came past, each
/// snake's own pick has one visit more, every other candidate as many as before,
/// and the position one visit more.
pub proof fn backup_counts_what_was_picked(before: &Tree, after: Seq<Node>, j: int, i: int, c: int)
    requires
        before.wf(),
        after.len() == before.nodes@.len(),
        forall|k: int|
            0 <= k < after.len() ==> counted_once(
                before.nodes@[k],
                #[trigger] after[k],
                pick_at(before.path@, k),
            ),
        0 <= j < before.path@.len(),
        0 <= i < before.n,
        0 <= c < before.nodes@[before.path@[j].node as int].nvisit@[i]@.len(),
        before.nodes@[before.path@[j].node as int].visits < u64::MAX,
    ensures
        after[before.path@[j].node as int].visits == before.nodes@[before.path@[j].node as int].visits
            + 1,
        c == before.path@[j].action@[i] ==> after[before.path@[j].node as int].nvisit@[i]@[c]
            == before.nodes@[before.path@[j].node as int].nvisit@[i]@[c] + 1,
        c != before.path@[j].action@[i] ==> after[before.path@[j].node as int].nvisit@[i]@[c]
            == before.nodes@[before.path@[j].node as int].nvisit@[i]@[c],
{
    let path = before.path@;
    let e = path[j];
    let k = e.node as int;
    lemma_path_below(before.nodes@, path, before.at as nat, j);
    lemma_pick_is_the_edge(before.nodes@, path, before.at as nat, j);
    let (a, b) = (before.nodes@[k], after[k]);
    assert(a.wf(before.n as nat, k as nat, before.nodes@.len()));
    assert(a.cand@[i]@.len() == a.nvisit@[i]@.len());
    assert(a.sizes()[i] == a.cand@[i]@.len());
    assert((e.action@[i] as nat) < a.sizes()[i]);
    assert(counted_once(a, b, pick_at(path, k)));
    assert(b.nvisit@[i]@ == bumped(a.nvisit@[i]@, e.action@[i]));
    lemma_total_at_least(a.nvisit@[i]@, e.action@[i] as int);
}

/// A counted descent changes nothing at a position that it did not come past.
pub proof fn backup_counts_nothing_else(before: &Tree, after: Seq<Node>, k: int)
    requires
        0 <= k < after.len(),
        counted_once(before.nodes@[k], after[k], pick_at(before.path@, k)),
        forall|j: int| 0 <= j < before.path@.len() ==> (#[trigger] before.path@[j]).node != k,
    ensures
        after[k].visits == before.nodes@[k].visits,
        after[k].nvisit@ == before.nodes@[k].nvisit@,
        after[k].children@ == before.nodes@[k].children@,
{
    lemma_not_picked(before.path@, k);
}

proof fn lemma_total_at_least(v: Seq<u64>, i: int)
    requires
        0 <= i < v.len(),
    ensures
        v[i] <= total(v),
    decreases v.len(),
{
    if i < v.len() - 1 {
        lemma_total_at_least(v.drop_last(), i);
    }
}

proof fn lemma_pick_is_the_edge(nodes: Seq<Node>, path: Seq<Edge>, at: nat, j: int)
    requires
        leads_to(nodes, path, at),
        0 <= j < path.len(),
    ensures
        pick_at(path, path[j].node as int) == Some(path[j].action@),
    decreases path.len(),
{
    if j < path.len() - 1 {
        lemma_path_increasing(nodes, path, at, j, path.len() - 1);
        lemma_pick_is_the_edge(nodes, path.drop_last(), path.last().node as nat, j);
    }
}

/// In every position with candidates the counts of each snake add up to the
/// visits of the position, so all snakes have been counted equally often.
pub proof fn visits_are_shared(t: &Tree, k: int, i: int, j: int)
    requires
        t.nodes_wf(),
        0 <= k < t.nodes@.len(),
        t.nodes@[k].expanded,
        0 <= i < t.n,
        0 <= j < t.n,
    ensures
        total(t.nodes@[k].nvisit@[i]@) == t.nodes@[k].visits,
        total(t.nodes@[k].nvisit@[i]@) == total(t.nodes@[k].nvisit@[j]@),
{
    assert(t.nodes@[k].wf(t.n as nat, k as nat, t.nodes@.len()));
    assert(t.nodes@[k].cand@[i]@.len() >= 0);
    assert(t.nodes@[k].cand@[j]@.len() >= 0);
}

/// A descent that takes at least one step counts once at the root; one that
/// ends at the root counts nowhere.
pub proof fn descent_counts_at_the_root(t: &Tree)
    requires
        t.wf(),
    ensures
        pick_at(t.path@, 0) is Some <==> t.path@.len() > 0,
    decreases t.path@.len(),
{
    if t.path@.len() > 0 {
        lemma_path_below(t.nodes@, t.path@, t.at as nat, 0);
        lemma_picked_somewhere(t.path@, 0, 0);
    }
}

proof fn lemma_picked_somewhere(path: Seq<Edge>, k: int, j: int)
    requires
        0 <= j < path.len(),
        path[j].node == k,
    ensures
        pick_at(path, k) is Some,
    decreases path.len(),
{
    if path.last().node != k {
        lemma_picked_somewhere(path.drop_last(), k, j);
    }
}

} // verus!

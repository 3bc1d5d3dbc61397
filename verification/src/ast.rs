//! The syntax tree: nodes in an arena, and the mathematical tree that they stand for.

use slotmap::{DefaultKey, Key, KeyData, SlotMap};
use vstd::prelude::*;

verus! {

/// The number of nodes that an arena can hold.
pub const ARENA_CAPACITY: u32 = 0xffff_fffe;

/// Names a node of an [`Arena`].
#[derive(Clone, Copy, Debug, PartialEq, Eq)]
pub struct NodeId {
    /// The arena's key for the node, as an integer.
    pub key: u64,
}

/// A node of the syntax tree. Its children are named, not held.
#[derive(Debug)]
pub enum Node {
    /// A number, by the bits of its double-precision representation.
    Num(u64),
    Var(String),
    Neg(NodeId),
    Add(NodeId, NodeId),
    Sub(NodeId, NodeId),
    Mul(NodeId, NodeId),
    Div(NodeId, NodeId),
    Call(String, Vec<NodeId>),
    Let { name: String, rhs: NodeId, then: NodeId },
    Fn { name: String, args: Vec<String>, body: NodeId, then: NodeId },
}

/// The nodes of a syntax tree.
#[verifier::external_body]
#[derive(Debug)]
pub struct Arena {
    slots: SlotMap<DefaultKey, Node>,
}

/// The nodes that an arena holds, by their names.
pub uninterp spec fn nodes_of(arena: Arena) -> Map<NodeId, Node>;

impl View for Arena {
    type V = Map<NodeId, Node>;

    open spec fn view(&self) -> Map<NodeId, Node> {
        nodes_of(*self)
    }
}

/// Calls `slotmap::SlotMap::with_key`, which makes a slot map without elements.
#[verifier::external_body]
fn slots_with_key() -> (arena: Arena)
    ensures
        nodes_of(arena) == (Map::<NodeId, Node>::empty()),
{
    Arena { slots: SlotMap::with_key() }
}

/// Calls `slotmap::SlotMap::insert`, which stores the node under a key that no stored node
/// has. It panics on a full map; a map from which nothing is ever removed is full when it
/// holds `ARENA_CAPACITY` elements.
#[verifier::external_body]
fn slots_insert(arena: &mut Arena, node: Node) -> (id: NodeId)
    requires
        nodes_of(*old(arena)).len() < ARENA_CAPACITY,
    ensures
        !nodes_of(*old(arena)).contains_key(id),
        nodes_of(*final(arena)) == nodes_of(*old(arena)).insert(id, node),
        nodes_of(*old(arena)).dom().finite() ==> nodes_of(*final(arena)).dom().finite(),
{
    NodeId { key: arena.slots.insert(node).data().as_ffi() }
}

/// Calls the `index` method of `slotmap::SlotMap`, which gives the element stored under a key
/// and panics where there is none.
#[verifier::external_body]
fn slots_index(arena: &Arena, id: NodeId) -> (node: &Node)
    requires
        nodes_of(*arena).contains_key(id),
    ensures
        *node == nodes_of(*arena)[id],
{
    &arena.slots[DefaultKey::from(KeyData::from_ffi(id.key))]
}

impl Arena {
    /// An arena without nodes.
    pub fn new() -> (arena: Self)
        ensures
            arena@ == Map::<NodeId, Node>::empty(),
    {
        slots_with_key()
    }

    /// Stores a node and gives its name.
    pub fn insert(&mut self, node: Node) -> (id: NodeId)
        requires
            old(self)@.len() < ARENA_CAPACITY,
        ensures
            !old(self)@.contains_key(id),
            final(self)@ == old(self)@.insert(id, node),
            old(self)@.dom().finite() ==> final(self)@.dom().finite(),
    {
        slots_insert(self, node)
    }

    /// The node with a name.
    pub fn get(&self, id: NodeId) -> (node: &Node)
        requires
            self@.contains_key(id),
        ensures
            *node == self@[id],
    {
        slots_index(self, id)
    }
}

/// The arithmetic operators.
#[derive(Clone, Copy, Debug, PartialEq, Eq, Structural)]
pub enum Op {
    Add,
    Sub,
    Mul,
    Div,
}

/// A syntax tree, with numbers given by values of `N`.
pub enum Tree<N> {
    Num(N),
    Var(Seq<char>),
    Neg(Box<Tree<N>>),
    Bin(Op, Box<Tree<N>>, Box<Tree<N>>),
    Call(Seq<char>, Seq<Tree<N>>),
    Let { name: Seq<char>, rhs: Box<Tree<N>>, then: Box<Tree<N>> },
    Fn { name: Seq<char>, args: Seq<Seq<char>>, body: Box<Tree<N>>, then: Box<Tree<N>> },
}

/// The texts of a list of strings.
pub open spec fn texts(strings: Seq<String>) -> Seq<Seq<char>> {
    strings.map_values(|s: String| s@)
}

/// The node `id` stands for the tree `tree`, where `num` tells which bits a number may have.
pub open spec fn stands_for<N>(
    nodes: Map<NodeId, Node>,
    id: NodeId,
    tree: Tree<N>,
    num: spec_fn(N, u64) -> bool,
) -> bool
    decreases tree,
{
    &&& nodes.contains_key(id)
    &&& match (nodes[id], tree) {
        (Node::Num(bits), Tree::Num(n)) => num(n, bits),
        (Node::Var(name), Tree::Var(text)) => name@ == text,
        (Node::Neg(a), Tree::Neg(t)) => stands_for(nodes, a, *t, num),
        (Node::Add(a, b), Tree::Bin(Op::Add, s, t)) => {
            stands_for(nodes, a, *s, num) && stands_for(nodes, b, *t, num)
        },
        (Node::Sub(a, b), Tree::Bin(Op::Sub, s, t)) => {
            stands_for(nodes, a, *s, num) && stands_for(nodes, b, *t, num)
        },
        (Node::Mul(a, b), Tree::Bin(Op::Mul, s, t)) => {
            stands_for(nodes, a, *s, num) && stands_for(nodes, b, *t, num)
        },
        (Node::Div(a, b), Tree::Bin(Op::Div, s, t)) => {
            stands_for(nodes, a, *s, num) && stands_for(nodes, b, *t, num)
        },
        (Node::Call(name, args), Tree::Call(text, trees)) => {
            &&& name@ == text
            &&& args@.len() == trees.len()
            &&& forall|i: int|
                0 <= i < trees.len() ==> stands_for(nodes, args@[i], #[trigger] trees[i], num)
        },
        (Node::Let { name, rhs, then }, Tree::Let { name: text, rhs: r, then: t }) => {
            &&& name@ == text
            &&& stands_for(nodes, rhs, *r, num)
            &&& stands_for(nodes, then, *t, num)
        },
        (
            Node::Fn { name, args, body, then },
            Tree::Fn { name: text, args: params, body: b, then: t },
        ) => {
            &&& name@ == text
            &&& texts(args@) == params
            &&& stands_for(nodes, body, *b, num)
            &&& stands_for(nodes, then, *t, num)
        },
        _ => false,
    }
}

/// The literal reading of numbers: by their bits.
pub open spec fn same_bits() -> spec_fn(u64, u64) -> bool {
    |n: u64, bits: u64| n == bits
}

/// The node `id` and all that it reaches form a tree.
pub open spec fn planted(nodes: Map<NodeId, Node>, id: NodeId) -> bool {
    exists|tree: Tree<u64>| stands_for(nodes, id, tree, same_bits())
}

/// The tree that the node `id` stands for.
pub open spec fn tree_of(nodes: Map<NodeId, Node>, id: NodeId) -> Tree<u64> {
    choose|tree: Tree<u64>| stands_for(nodes, id, tree, same_bits())
}

/// The trees that a list of nodes stands for.
pub open spec fn trees_of(nodes: Map<NodeId, Node>, ids: Seq<NodeId>) -> Seq<Tree<u64>> {
    ids.map_values(|id: NodeId| tree_of(nodes, id))
}

/// A node stands for at most one tree.
pub proof fn lemma_one_tree(nodes: Map<NodeId, Node>, id: NodeId, s: Tree<u64>, t: Tree<u64>)
    requires
        stands_for(nodes, id, s, same_bits()),
        stands_for(nodes, id, t, same_bits()),
    ensures
        s == t,
    decreases s,
{
    match (nodes[id], s, t) {
        (Node::Neg(a), Tree::Neg(x), Tree::Neg(y)) => {
            lemma_one_tree(nodes, a, *x, *y);
        },
        (Node::Add(a, b), Tree::Bin(_, x, y), Tree::Bin(_, v, w)) => {
            lemma_one_tree(nodes, a, *x, *v);
            lemma_one_tree(nodes, b, *y, *w);
        },
        (Node::Sub(a, b), Tree::Bin(_, x, y), Tree::Bin(_, v, w)) => {
            lemma_one_tree(nodes, a, *x, *v);
            lemma_one_tree(nodes, b, *y, *w);
        },
        (Node::Mul(a, b), Tree::Bin(_, x, y), Tree::Bin(_, v, w)) => {
            lemma_one_tree(nodes, a, *x, *v);
            lemma_one_tree(nodes, b, *y, *w);
        },
        (Node::Div(a, b), Tree::Bin(_, x, y), Tree::Bin(_, v, w)) => {
            lemma_one_tree(nodes, a, *x, *v);
            lemma_one_tree(nodes, b, *y, *w);
        },
        (Node::Call(_, args), Tree::Call(_, xs), Tree::Call(_, ys)) => {
            assert forall|i: int| 0 <= i < xs.len() implies xs[i] == ys[i] by {
                assert(stands_for(nodes, args@[i], xs[i], same_bits()));
                assert(stands_for(nodes, args@[i], ys[i], same_bits()));
                lemma_one_tree(nodes, args@[i], xs[i], ys[i]);
            }
            assert(xs =~= ys);
        },
        (Node::Let { rhs, then, .. }, Tree::Let { rhs: x, then: y, .. }, Tree::Let { rhs: v, then: w, .. }) => {
            lemma_one_tree(nodes, rhs, *x, *v);
            lemma_one_tree(nodes, then, *y, *w);
        },
        (
            Node::Fn { body, then, .. },
            Tree::Fn { body: x, then: y, .. },
            Tree::Fn { body: v, then: w, .. },
        ) => {
            lemma_one_tree(nodes, body, *x, *v);
            lemma_one_tree(nodes, then, *y, *w);
        },
        _ => {},
    }
}

/// A node that stands for a tree is planted, and that tree is its tree.
pub proof fn lemma_tree(nodes: Map<NodeId, Node>, id: NodeId, t: Tree<u64>)
    requires
        stands_for(nodes, id, t, same_bits()),
    ensures
        planted(nodes, id),
        tree_of(nodes, id) == t,
{
    lemma_one_tree(nodes, id, tree_of(nodes, id), t);
}

/// What a planted node holds, and the tree that it stands for.
pub open spec fn unfolds(nodes: Map<NodeId, Node>, id: NodeId) -> bool {
    let tree = tree_of(nodes, id);
    match nodes[id] {
        Node::Num(bits) => tree == Tree::Num(bits),
        Node::Var(name) => tree == Tree::<u64>::Var(name@),
        Node::Neg(a) => planted(nodes, a) && tree == Tree::Neg(Box::new(tree_of(nodes, a))),
        Node::Add(a, b) => planted(nodes, a) && planted(nodes, b) && tree == Tree::Bin(
            Op::Add,
            Box::new(tree_of(nodes, a)),
            Box::new(tree_of(nodes, b)),
        ),
        Node::Sub(a, b) => planted(nodes, a) && planted(nodes, b) && tree == Tree::Bin(
            Op::Sub,
            Box::new(tree_of(nodes, a)),
            Box::new(tree_of(nodes, b)),
        ),
        Node::Mul(a, b) => planted(nodes, a) && planted(nodes, b) && tree == Tree::Bin(
            Op::Mul,
            Box::new(tree_of(nodes, a)),
            Box::new(tree_of(nodes, b)),
        ),
        Node::Div(a, b) => planted(nodes, a) && planted(nodes, b) && tree == Tree::Bin(
            Op::Div,
            Box::new(tree_of(nodes, a)),
            Box::new(tree_of(nodes, b)),
        ),
        Node::Call(name, args) => {
            &&& forall|i: int| 0 <= i < args@.len() ==> planted(nodes, #[trigger] args@[i])
            &&& tree == Tree::Call(name@, trees_of(nodes, args@))
        },
        Node::Let { name, rhs, then } => planted(nodes, rhs) && planted(nodes, then) && tree
            == (Tree::Let {
            name: name@,
            rhs: Box::new(tree_of(nodes, rhs)),
            then: Box::new(tree_of(nodes, then)),
        }),
        Node::Fn { name, args, body, then } => planted(nodes, body) && planted(nodes, then) && tree
            == (Tree::Fn {
            name: name@,
            args: texts(args@),
            body: Box::new(tree_of(nodes, body)),
            then: Box::new(tree_of(nodes, then)),
        }),
    }
}

/// The tree of a planted node is made of the trees of its children.
pub proof fn lemma_unfold(nodes: Map<NodeId, Node>, id: NodeId)
    requires
        planted(nodes, id),
    ensures
        nodes.contains_key(id),
        unfolds(nodes, id),
{
    let tree = tree_of(nodes, id);
    assert(stands_for(nodes, id, tree, same_bits()));
    match (nodes[id], tree) {
        (Node::Neg(a), Tree::Neg(x)) => {
            lemma_tree(nodes, a, *x);
        },
        (Node::Add(a, b), Tree::Bin(_, x, y)) => {
            lemma_tree(nodes, a, *x);
            lemma_tree(nodes, b, *y);
        },
        (Node::Sub(a, b), Tree::Bin(_, x, y)) => {
            lemma_tree(nodes, a, *x);
            lemma_tree(nodes, b, *y);
        },
        (Node::Mul(a, b), Tree::Bin(_, x, y)) => {
            lemma_tree(nodes, a, *x);
            lemma_tree(nodes, b, *y);
        },
        (Node::Div(a, b), Tree::Bin(_, x, y)) => {
            lemma_tree(nodes, a, *x);
            lemma_tree(nodes, b, *y);
        },
        (Node::Call(_, args), Tree::Call(_, xs)) => {
            assert forall|i: int| 0 <= i < args@.len() implies planted(nodes, #[trigger] args@[i])
                && tree_of(nodes, args@[i]) == xs[i] by {
                assert(stands_for(nodes, args@[i], xs[i], same_bits()));
                lemma_tree(nodes, args@[i], xs[i]);
            }
            assert(trees_of(nodes, args@) =~= xs);
        },
        (Node::Let { rhs, then, .. }, Tree::Let { rhs: x, then: y, .. }) => {
            lemma_tree(nodes, rhs, *x);
            lemma_tree(nodes, then, *y);
        },
        (Node::Fn { body, then, .. }, Tree::Fn { body: x, then: y, .. }) => {
            lemma_tree(nodes, body, *x);
            lemma_tree(nodes, then, *y);
        },
        _ => {},
    }
}

/// How many nodes a tree has.
pub open spec fn size<N>(tree: Tree<N>) -> nat
    decreases tree,
{
    match tree {
        Tree::Num(_) => 1,
        Tree::Var(_) => 1,
        Tree::Neg(a) => size(*a) + 1,
        Tree::Bin(_, a, b) => size(*a) + size(*b) + 1,
        Tree::Call(_, args) => size_of_all(args) + 1,
        Tree::Let { rhs, then, .. } => size(*rhs) + size(*then) + 1,
        Tree::Fn { body, then, .. } => size(*body) + size(*then) + 1,
    }
}

pub open spec fn size_of_all<N>(trees: Seq<Tree<N>>) -> nat
    decreases trees,
{
    if trees.len() == 0 {
        0
    } else {
        size_of_all(trees.drop_last()) + size(trees.last())
    }
}

/// The operands of a node with an operator.
pub open spec fn operands(node: Node) -> (NodeId, NodeId) {
    match node {
        Node::Add(a, b) => (a, b),
        Node::Sub(a, b) => (a, b),
        Node::Mul(a, b) => (a, b),
        Node::Div(a, b) => (a, b),
        _ => arbitrary(),
    }
}

/// The node `id`, which stands for the tree `tree`, is the node `x` or has it somewhere below it.
pub open spec fn reaches<N>(
    nodes: Map<NodeId, Node>,
    id: NodeId,
    tree: Tree<N>,
    x: NodeId,
) -> bool
    decreases tree,
{
    ||| x == id
    ||| match tree {
        Tree::Num(_) => false,
        Tree::Var(_) => false,
        Tree::Neg(a) => reaches(nodes, nodes[id]->Neg_0, *a, x),
        Tree::Bin(_, a, b) => {
            ||| reaches(nodes, operands(nodes[id]).0, *a, x)
            ||| reaches(nodes, operands(nodes[id]).1, *b, x)
        },
        Tree::Call(_, args) => exists|i: int|
            0 <= i < args.len() && reaches(nodes, nodes[id]->Call_1@[i], #[trigger] args[i], x),
        Tree::Let { rhs, then, .. } => {
            ||| reaches(nodes, nodes[id]->Let_rhs, *rhs, x)
            ||| reaches(nodes, nodes[id]->Let_then, *then, x)
        },
        Tree::Fn { body, then, .. } => {
            ||| reaches(nodes, nodes[id]->Fn_body, *body, x)
            ||| reaches(nodes, nodes[id]->Fn_then, *then, x)
        },
    }
}

/// Two nodes have no node in common.
pub open spec fn is_disjoint<N>(
    nodes: Map<NodeId, Node>,
    a: NodeId,
    s: Tree<N>,
    b: NodeId,
    t: Tree<N>,
) -> bool {
    forall|x: NodeId| !(#[trigger] reaches(nodes, a, s, x) && #[trigger] reaches(nodes, b, t, x))
}

/// No node is reached twice from the node `id`.
pub open spec fn is_apart<N>(nodes: Map<NodeId, Node>, id: NodeId, tree: Tree<N>) -> bool
    decreases tree,
{
    match tree {
        Tree::Num(_) => true,
        Tree::Var(_) => true,
        Tree::Neg(a) => {
            &&& !reaches(nodes, nodes[id]->Neg_0, *a, id)
            &&& is_apart(nodes, nodes[id]->Neg_0, *a)
        },
        Tree::Bin(_, a, b) => {
            let (m, n) = operands(nodes[id]);
            &&& !reaches(nodes, m, *a, id) && !reaches(nodes, n, *b, id)
            &&& is_disjoint(nodes, m, *a, n, *b)
            &&& is_apart(nodes, m, *a) && is_apart(nodes, n, *b)
        },
        Tree::Call(_, args) => {
            let ids = nodes[id]->Call_1@;
            &&& forall|i: int|
                0 <= i < args.len() ==> !reaches(nodes, ids[i], #[trigger] args[i], id)
                    && is_apart(nodes, ids[i], args[i])
            &&& forall|i: int, j: int|
                0 <= i < j < args.len() ==> is_disjoint(
                    nodes,
                    ids[i],
                    #[trigger] args[i],
                    ids[j],
                    #[trigger] args[j],
                )
        },
        Tree::Let { rhs, then, .. } => {
            let (m, n) = (nodes[id]->Let_rhs, nodes[id]->Let_then);
            &&& !reaches(nodes, m, *rhs, id) && !reaches(nodes, n, *then, id)
            &&& is_disjoint(nodes, m, *rhs, n, *then)
            &&& is_apart(nodes, m, *rhs) && is_apart(nodes, n, *then)
        },
        Tree::Fn { body, then, .. } => {
            let (m, n) = (nodes[id]->Fn_body, nodes[id]->Fn_then);
            &&& !reaches(nodes, m, *body, id) && !reaches(nodes, n, *then, id)
            &&& is_disjoint(nodes, m, *body, n, *then)
            &&& is_apart(nodes, m, *body) && is_apart(nodes, n, *then)
        },
    }
}

/// A node reaches none but the nodes that there are, and adding nodes changes nothing of that.
pub proof fn lemma_reaches<N>(
    before: Map<NodeId, Node>,
    after: Map<NodeId, Node>,
    id: NodeId,
    tree: Tree<N>,
    num: spec_fn(N, u64) -> bool,
    x: NodeId,
)
    requires
        before.submap_of(after),
        stands_for(before, id, tree, num),
    ensures
        reaches(before, id, tree, x) ==> before.contains_key(x),
        reaches(after, id, tree, x) == reaches(before, id, tree, x),
    decreases tree,
{
    assert(before.dom().contains(id) && after.dom().contains(id));
    match tree {
        Tree::Num(_) => {},
        Tree::Var(_) => {},
        Tree::Neg(a) => {
            lemma_reaches(before, after, before[id]->Neg_0, *a, num, x);
        },
        Tree::Bin(_, a, b) => {
            lemma_reaches(before, after, operands(before[id]).0, *a, num, x);
            lemma_reaches(before, after, operands(before[id]).1, *b, num, x);
        },
        Tree::Call(_, args) => {
            let ids = before[id]->Call_1@;
            assert forall|i: int| 0 <= i < args.len() implies {
                &&& reaches(before, ids[i], #[trigger] args[i], x) ==> before.contains_key(x)
                &&& reaches(after, ids[i], args[i], x) == reaches(before, ids[i], args[i], x)
            } by {
                assert(stands_for(before, ids[i], args[i], num));
                lemma_reaches(before, after, ids[i], args[i], num, x);
            }
        },
        Tree::Let { rhs, then, .. } => {
            lemma_reaches(before, after, before[id]->Let_rhs, *rhs, num, x);
            lemma_reaches(before, after, before[id]->Let_then, *then, num, x);
        },
        Tree::Fn { body, then, .. } => {
            lemma_reaches(before, after, before[id]->Fn_body, *body, num, x);
            lemma_reaches(before, after, before[id]->Fn_then, *then, num, x);
        },
    }
}

/// Adding nodes leaves those of two trees disjoint.
pub proof fn lemma_disjoint<N>(
    before: Map<NodeId, Node>,
    after: Map<NodeId, Node>,
    a: NodeId,
    s: Tree<N>,
    b: NodeId,
    t: Tree<N>,
    num: spec_fn(N, u64) -> bool,
)
    requires
        before.submap_of(after),
        stands_for(before, a, s, num),
        stands_for(before, b, t, num),
        is_disjoint(before, a, s, b, t),
    ensures
        is_disjoint(after, a, s, b, t),
{
    assert forall|x: NodeId|
        !(#[trigger] reaches(after, a, s, x) && #[trigger] reaches(after, b, t, x)) by {
        lemma_reaches(before, after, a, s, num, x);
        lemma_reaches(before, after, b, t, num, x);
    }
}

/// Adding nodes to an arena leaves no node reached twice.
#[verifier::rlimit(40)]
pub proof fn lemma_apart<N>(
    before: Map<NodeId, Node>,
    after: Map<NodeId, Node>,
    id: NodeId,
    tree: Tree<N>,
    num: spec_fn(N, u64) -> bool,
)
    requires
        before.submap_of(after),
        stands_for(before, id, tree, num),
        is_apart(before, id, tree),
    ensures
        is_apart(after, id, tree),
    decreases tree,
{
    assert(before.dom().contains(id) && after.dom().contains(id));
    match tree {
        Tree::Num(_) => {},
        Tree::Var(_) => {},
        Tree::Neg(a) => {
            lemma_reaches(before, after, before[id]->Neg_0, *a, num, id);
            lemma_apart(before, after, before[id]->Neg_0, *a, num);
        },
        Tree::Bin(_, a, b) => {
            let (m, n) = operands(before[id]);
            lemma_reaches(before, after, m, *a, num, id);
            lemma_reaches(before, after, n, *b, num, id);
            lemma_disjoint(before, after, m, *a, n, *b, num);
            lemma_apart(before, after, m, *a, num);
            lemma_apart(before, after, n, *b, num);
        },
        Tree::Call(_, args) => {
            let ids = before[id]->Call_1@;
            assert forall|i: int| 0 <= i < args.len() implies !reaches(
                after,
                ids[i],
                #[trigger] args[i],
                id,
            ) && is_apart(after, ids[i], args[i]) by {
                assert(stands_for(before, ids[i], args[i], num));
                lemma_reaches(before, after, ids[i], args[i], num, id);
                lemma_apart(before, after, ids[i], args[i], num);
            }
            assert forall|i: int, j: int| 0 <= i < j < args.len() implies is_disjoint(
                after,
                ids[i],
                #[trigger] args[i],
                ids[j],
                #[trigger] args[j],
            ) by {
                lemma_disjoint(before, after, ids[i], args[i], ids[j], args[j], num);
            }
        },
        Tree::Let { rhs, then, .. } => {
            let (m, n) = (before[id]->Let_rhs, before[id]->Let_then);
            lemma_reaches(before, after, m, *rhs, num, id);
            lemma_reaches(before, after, n, *then, num, id);
            lemma_disjoint(before, after, m, *rhs, n, *then, num);
            lemma_apart(before, after, m, *rhs, num);
            lemma_apart(before, after, n, *then, num);
        },
        Tree::Fn { body, then, .. } => {
            let (m, n) = (before[id]->Fn_body, before[id]->Fn_then);
            lemma_reaches(before, after, m, *body, num, id);
            lemma_reaches(before, after, n, *then, num, id);
            lemma_disjoint(before, after, m, *body, n, *then, num);
            lemma_apart(before, after, m, *body, num);
            lemma_apart(before, after, n, *then, num);
        },
    }
}

/// The tree `read` is the tree `tree` with its numbers read: each has bits that `num` allows.
pub open spec fn is_reading<N>(tree: Tree<N>, read: Tree<u64>, num: spec_fn(N, u64) -> bool) -> bool
    decreases tree,
{
    match (tree, read) {
        (Tree::Num(n), Tree::Num(bits)) => num(n, bits),
        (Tree::Var(name), Tree::Var(text)) => name == text,
        (Tree::Neg(a), Tree::Neg(x)) => is_reading(*a, *x, num),
        (Tree::Bin(op, a, b), Tree::Bin(sign, x, y)) => {
            op == sign && is_reading(*a, *x, num) && is_reading(*b, *y, num)
        },
        (Tree::Call(name, args), Tree::Call(text, xs)) => {
            &&& name == text
            &&& args.len() == xs.len()
            &&& forall|i: int| 0 <= i < args.len() ==> is_reading(#[trigger] args[i], xs[i], num)
        },
        (Tree::Let { name, rhs, then }, Tree::Let { name: text, rhs: x, then: y }) => {
            name == text && is_reading(*rhs, *x, num) && is_reading(*then, *y, num)
        },
        (
            Tree::Fn { name, args, body, then },
            Tree::Fn { name: text, args: params, body: x, then: y },
        ) => {
            &&& name == text
            &&& args == params
            &&& is_reading(*body, *x, num)
            &&& is_reading(*then, *y, num)
        },
        _ => false,
    }
}

/// A node that stands for a tree in some reading of its numbers is planted, and its own tree is
/// that reading.
#[verifier::rlimit(40)]
pub proof fn lemma_planted<N>(
    nodes: Map<NodeId, Node>,
    id: NodeId,
    tree: Tree<N>,
    num: spec_fn(N, u64) -> bool,
)
    requires
        stands_for(nodes, id, tree, num),
    ensures
        planted(nodes, id),
        is_reading(tree, tree_of(nodes, id), num),
    decreases tree,
{
    match (nodes[id], tree) {
        (Node::Num(bits), Tree::Num(_)) => {
            lemma_tree(nodes, id, Tree::Num(bits));
        },
        (Node::Var(_), Tree::Var(text)) => {
            lemma_tree(nodes, id, Tree::Var(text));
        },
        (Node::Neg(a), Tree::Neg(x)) => {
            lemma_planted(nodes, a, *x, num);
            lemma_tree(nodes, id, Tree::Neg(Box::new(tree_of(nodes, a))));
        },
        (Node::Add(a, b), Tree::Bin(op, x, y)) | (Node::Sub(a, b), Tree::Bin(op, x, y)) | (
            Node::Mul(a, b),
            Tree::Bin(op, x, y),
        ) | (Node::Div(a, b), Tree::Bin(op, x, y)) => {
            lemma_planted(nodes, a, *x, num);
            lemma_planted(nodes, b, *y, num);
            lemma_tree(
                nodes,
                id,
                Tree::Bin(op, Box::new(tree_of(nodes, a)), Box::new(tree_of(nodes, b))),
            );
        },
        (Node::Call(_, args), Tree::Call(text, xs)) => {
            let read = trees_of(nodes, args@);
            assert forall|i: int| 0 <= i < xs.len() implies planted(nodes, args@[i]) && is_reading(
                #[trigger] xs[i],
                read[i],
                num,
            ) by {
                assert(stands_for(nodes, args@[i], xs[i], num));
                lemma_planted(nodes, args@[i], xs[i], num);
            }
            assert forall|i: int| 0 <= i < read.len() implies stands_for(
                nodes,
                args@[i],
                #[trigger] read[i],
                same_bits(),
            ) by {
                assert(is_reading(xs[i], read[i], num));
                assert(planted(nodes, args@[i]));
            }
            lemma_tree(nodes, id, Tree::Call(text, read));
        },
        (Node::Let { rhs, then, .. }, Tree::Let { name, rhs: x, then: y }) => {
            lemma_planted(nodes, rhs, *x, num);
            lemma_planted(nodes, then, *y, num);
            lemma_tree(
                nodes,
                id,
                Tree::Let {
                    name,
                    rhs: Box::new(tree_of(nodes, rhs)),
                    then: Box::new(tree_of(nodes, then)),
                },
            );
        },
        (Node::Fn { body, then, .. }, Tree::Fn { name, args, body: x, then: y }) => {
            lemma_planted(nodes, body, *x, num);
            lemma_planted(nodes, then, *y, num);
            lemma_tree(
                nodes,
                id,
                Tree::Fn {
                    name,
                    args,
                    body: Box::new(tree_of(nodes, body)),
                    then: Box::new(tree_of(nodes, then)),
                },
            );
        },
        _ => {},
    }
}

/// Adding nodes to an arena changes no tree in it.
pub proof fn lemma_grown<N>(
    old_nodes: Map<NodeId, Node>,
    new_nodes: Map<NodeId, Node>,
    id: NodeId,
    tree: Tree<N>,
    num: spec_fn(N, u64) -> bool,
)
    requires
        old_nodes.submap_of(new_nodes),
        stands_for(old_nodes, id, tree, num),
    ensures
        stands_for(new_nodes, id, tree, num),
    decreases tree,
{
    assert(old_nodes.dom().contains(id) && new_nodes.dom().contains(id));
    match (old_nodes[id], tree) {
        (Node::Neg(a), Tree::Neg(x)) => {
            lemma_grown(old_nodes, new_nodes, a, *x, num);
        },
        (Node::Add(a, b), Tree::Bin(_, x, y)) => {
            lemma_grown(old_nodes, new_nodes, a, *x, num);
            lemma_grown(old_nodes, new_nodes, b, *y, num);
        },
        (Node::Sub(a, b), Tree::Bin(_, x, y)) => {
            lemma_grown(old_nodes, new_nodes, a, *x, num);
            lemma_grown(old_nodes, new_nodes, b, *y, num);
        },
        (Node::Mul(a, b), Tree::Bin(_, x, y)) => {
            lemma_grown(old_nodes, new_nodes, a, *x, num);
            lemma_grown(old_nodes, new_nodes, b, *y, num);
        },
        (Node::Div(a, b), Tree::Bin(_, x, y)) => {
            lemma_grown(old_nodes, new_nodes, a, *x, num);
            lemma_grown(old_nodes, new_nodes, b, *y, num);
        },
        (Node::Call(_, args), Tree::Call(_, xs)) => {
            assert forall|i: int| 0 <= i < xs.len() implies stands_for(
                new_nodes,
                args@[i],
                #[trigger] xs[i],
                num,
            ) by {
                assert(stands_for(old_nodes, args@[i], xs[i], num));
                lemma_grown(old_nodes, new_nodes, args@[i], xs[i], num);
            }
        },
        (Node::Let { rhs, then, .. }, Tree::Let { rhs: x, then: y, .. }) => {
            lemma_grown(old_nodes, new_nodes, rhs, *x, num);
            lemma_grown(old_nodes, new_nodes, then, *y, num);
        },
        (Node::Fn { body, then, .. }, Tree::Fn { body: x, then: y, .. }) => {
            lemma_grown(old_nodes, new_nodes, body, *x, num);
            lemma_grown(old_nodes, new_nodes, then, *y, num);
        },
        _ => {},
    }
}

} // verus!

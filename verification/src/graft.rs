//! New trees in an arena: how they are made, node by node.

use crate::ast::{
    is_apart, is_disjoint, lemma_apart, lemma_disjoint, lemma_grown, lemma_reaches, operands,
    reaches, stands_for, texts, Arena, Node, NodeId, Op, Tree, ARENA_CAPACITY,
};
use crate::grammar::Syntax;
use vstd::prelude::*;

verus! {

/// Every node is still there.
#[verifier::opaque]
pub open spec fn kept(before: Map<NodeId, Node>, after: Map<NodeId, Node>) -> bool {
    before.submap_of(after)
}

pub proof fn lemma_kept(a: Map<NodeId, Node>, b: Map<NodeId, Node>, c: Map<NodeId, Node>)
    requires
        kept(a, b),
        kept(b, c),
    ensures
        kept(a, c),
{
    reveal(kept);
    assert forall|id: NodeId| #[trigger] a.dom().contains(id) implies c.dom().contains(id) && a[id]
        == c[id] by {
        assert(b.dom().contains(id));
    }
}

pub proof fn lemma_all_kept(a: Map<NodeId, Node>)
    ensures
        kept(a, a),
{
    reveal(kept);
}

pub proof fn lemma_inserted(a: Map<NodeId, Node>, id: NodeId, node: Node)
    requires
        a.dom().finite(),
        !a.contains_key(id),
    ensures
        grown(a, a.insert(id, node), 1),
{
    reveal(kept);
}

/// A node that is still there stands for the same tree.
pub proof fn lemma_still_stands(
    before: Map<NodeId, Node>,
    after: Map<NodeId, Node>,
    id: NodeId,
    tree: Syntax,
    num: spec_fn(Seq<char>, u64) -> bool,
)
    requires
        kept(before, after),
        stands_for(before, id, tree, num),
    ensures
        stands_for(after, id, tree, num),
{
    reveal(kept);
    lemma_grown(before, after, id, tree, num);
}

/// So many nodes were added.
pub open spec fn grown(before: Map<NodeId, Node>, after: Map<NodeId, Node>, nodes: nat) -> bool {
    &&& kept(before, after)
    &&& after.dom().finite()
    &&& after.len() == before.len() + nodes
}

/// The tree is a new one: every node of it was added, and none is reached twice.
#[verifier::opaque]
pub open spec fn is_graft(
    before: Map<NodeId, Node>,
    after: Map<NodeId, Node>,
    id: NodeId,
    tree: Syntax,
) -> bool {
    &&& is_apart(after, id, tree)
    &&& forall|x: NodeId| #[trigger] reaches(after, id, tree, x) ==> !before.contains_key(x)
}

/// The trees are new ones, and have no node in common.
#[verifier::opaque]
pub open spec fn are_grafts(
    before: Map<NodeId, Node>,
    after: Map<NodeId, Node>,
    ids: Seq<NodeId>,
    trees: Seq<Syntax>,
) -> bool {
    &&& ids.len() == trees.len()
    &&& forall|i: int|
        0 <= i < trees.len() ==> is_graft(before, after, ids[i], #[trigger] trees[i])
    &&& forall|i: int, j: int|
        0 <= i < j < trees.len() ==> is_disjoint(
            after,
            ids[i],
            #[trigger] trees[i],
            ids[j],
            #[trigger] trees[j],
        )
}

/// A new tree stays one.
pub proof fn lemma_graft_kept(
    before: Map<NodeId, Node>,
    middle: Map<NodeId, Node>,
    after: Map<NodeId, Node>,
    id: NodeId,
    tree: Syntax,
    num: spec_fn(Seq<char>, u64) -> bool,
)
    requires
        is_graft(before, middle, id, tree),
        stands_for(middle, id, tree, num),
        kept(middle, after),
    ensures
        is_graft(before, after, id, tree),
{
    reveal(is_graft);
    reveal(kept);
    lemma_apart(middle, after, id, tree, num);
    assert forall|x: NodeId| #[trigger] reaches(after, id, tree, x) implies !before.contains_key(
        x,
    ) by {
        lemma_reaches(middle, after, id, tree, num, x);
    }
}

/// A tree that is new since some time is new since an earlier one.
pub proof fn lemma_graft_since(
    first: Map<NodeId, Node>,
    before: Map<NodeId, Node>,
    after: Map<NodeId, Node>,
    id: NodeId,
    tree: Syntax,
)
    requires
        kept(first, before),
        is_graft(before, after, id, tree),
    ensures
        is_graft(first, after, id, tree),
{
    reveal(is_graft);
    reveal(kept);
    assert forall|x: NodeId| #[trigger] reaches(after, id, tree, x) implies !first.contains_key(
        x,
    ) by {
        if first.dom().contains(x) {
            assert(before.dom().contains(x));
        }
    }
}

/// New trees stay new ones.
pub proof fn lemma_grafts_kept(
    before: Map<NodeId, Node>,
    middle: Map<NodeId, Node>,
    after: Map<NodeId, Node>,
    ids: Seq<NodeId>,
    trees: Seq<Syntax>,
    num: spec_fn(Seq<char>, u64) -> bool,
)
    requires
        are_grafts(before, middle, ids, trees),
        stand_for(middle, ids, trees, num),
        kept(middle, after),
    ensures
        are_grafts(before, after, ids, trees),
{
    reveal(stand_for);
    reveal(are_grafts);
    assert forall|i: int| 0 <= i < trees.len() implies is_graft(
        before,
        after,
        ids[i],
        #[trigger] trees[i],
    ) by {
        lemma_graft_kept(before, middle, after, ids[i], trees[i], num);
    }
    assert forall|i: int, j: int| 0 <= i < j < trees.len() implies is_disjoint(
        after,
        ids[i],
        #[trigger] trees[i],
        ids[j],
        #[trigger] trees[j],
    ) by {
        reveal(kept);
        lemma_disjoint(middle, after, ids[i], trees[i], ids[j], trees[j], num);
    }
}

/// A tree that is new since other trees were has no node in common with them.
#[verifier::rlimit(40)]
pub proof fn lemma_grafts_push(
    before: Map<NodeId, Node>,
    middle: Map<NodeId, Node>,
    after: Map<NodeId, Node>,
    ids: Seq<NodeId>,
    trees: Seq<Syntax>,
    id: NodeId,
    tree: Syntax,
    num: spec_fn(Seq<char>, u64) -> bool,
)
    requires
        kept(before, middle),
        kept(middle, after),
        are_grafts(before, middle, ids, trees),
        stand_for(middle, ids, trees, num),
        is_graft(middle, after, id, tree),
        stands_for(after, id, tree, num),
    ensures
        are_grafts(before, after, ids.push(id), trees.push(tree)),
        stand_for(after, ids.push(id), trees.push(tree), num),
{
    reveal(stand_for);
    lemma_grafts_kept(before, middle, after, ids, trees, num);
    lemma_still_stand(middle, after, ids, trees, num);
    lemma_graft_since(before, middle, after, id, tree);
    reveal(are_grafts);
    let more = trees.push(tree);
    let all = ids.push(id);
    assert forall|i: int| 0 <= i < more.len() implies is_graft(
        before,
        after,
        all[i],
        #[trigger] more[i],
    ) by {
        if i < trees.len() {
            assert(more[i] == trees[i]);
        }
    }
    assert forall|i: int, j: int| 0 <= i < j < more.len() implies is_disjoint(
        after,
        all[i],
        #[trigger] more[i],
        all[j],
        #[trigger] more[j],
    ) by {
        assert(more[i] == trees[i]);
        if j < trees.len() {
            assert(more[j] == trees[j]);
        } else {
            reveal(kept);
            reveal(is_graft);
            assert forall|x: NodeId|
                !(#[trigger] reaches(after, all[i], more[i], x) && #[trigger] reaches(
                    after,
                    all[j],
                    more[j],
                    x,
                )) by {
                lemma_reaches(middle, after, ids[i], trees[i], num, x);
            }
        }
    }
}

/// No trees are new ones.
pub proof fn lemma_grafts_none(before: Map<NodeId, Node>, after: Map<NodeId, Node>)
    ensures
        are_grafts(before, after, Seq::empty(), Seq::empty()),
        forall|num: spec_fn(Seq<char>, u64) -> bool| #[trigger]
            stand_for(after, Seq::empty(), Seq::empty(), num),
{
    reveal(are_grafts);
    reveal(stand_for);
}

/// A new tree is a list of them.
pub proof fn lemma_grafts_one(
    before: Map<NodeId, Node>,
    after: Map<NodeId, Node>,
    id: NodeId,
    tree: Syntax,
    num: spec_fn(Seq<char>, u64) -> bool,
)
    requires
        is_graft(before, after, id, tree),
        stands_for(after, id, tree, num),
    ensures
        are_grafts(before, after, seq![id], seq![tree]),
        stand_for(after, seq![id], seq![tree], num),
{
    reveal(stand_for);
    reveal(are_grafts);
}

/// Two trees, the second of which is new since the first was, are new ones.
pub proof fn lemma_grafts_two(
    before: Map<NodeId, Node>,
    middle: Map<NodeId, Node>,
    after: Map<NodeId, Node>,
    a: NodeId,
    s: Syntax,
    b: NodeId,
    t: Syntax,
    num: spec_fn(Seq<char>, u64) -> bool,
)
    requires
        kept(before, middle),
        kept(middle, after),
        is_graft(before, middle, a, s),
        stands_for(middle, a, s, num),
        is_graft(middle, after, b, t),
        stands_for(after, b, t, num),
    ensures
        are_grafts(before, after, seq![a, b], seq![s, t]),
        stand_for(after, seq![a, b], seq![s, t], num),
{
    reveal(stand_for);
    lemma_all_kept(before);
    lemma_grafts_none(before, before);
    lemma_grafts_push(before, before, middle, Seq::empty(), Seq::empty(), a, s, num);
    let ids = Seq::empty().push(a);
    let trees = Seq::empty().push(s);
    assert(stand_for(middle, ids, trees, num));
    lemma_grafts_push(before, middle, after, ids, trees, b, t, num);
    assert(ids.push(b) =~= seq![a, b]);
    assert(trees.push(t) =~= seq![s, t]);
    lemma_still_stands(middle, after, a, s, num);
}

/// A new node over new trees reaches no node twice.
#[verifier::rlimit(40)]
pub proof fn lemma_graft_over(
    before: Map<NodeId, Node>,
    middle: Map<NodeId, Node>,
    id: NodeId,
    node: Node,
    ids: Seq<NodeId>,
    trees: Seq<Syntax>,
    num: spec_fn(Seq<char>, u64) -> bool,
)
    requires
        kept(before, middle),
        middle.dom().finite(),
        !middle.contains_key(id),
        are_grafts(before, middle, ids, trees),
        stand_for(middle, ids, trees, num),
    ensures
        ({
            let after = middle.insert(id, node);
            &&& !before.contains_key(id)
            &&& forall|i: int|
                0 <= i < trees.len() ==> {
                    &&& !reaches(after, ids[i], #[trigger] trees[i], id)
                    &&& is_apart(after, ids[i], trees[i])
                    &&& forall|x: NodeId| #[trigger]
                        reaches(after, ids[i], trees[i], x) ==> !before.contains_key(x)
                }
            &&& forall|i: int, j: int|
                0 <= i < j < trees.len() ==> is_disjoint(
                    after,
                    ids[i],
                    #[trigger] trees[i],
                    ids[j],
                    #[trigger] trees[j],
                )
        }),
{
    reveal(stand_for);
    let after = middle.insert(id, node);
    lemma_inserted(middle, id, node);
    lemma_grafts_kept(before, middle, after, ids, trees, num);
    reveal(are_grafts);
    reveal(is_graft);
    reveal(kept);
    if before.dom().contains(id) {
        assert(middle.dom().contains(id));
    }
    assert forall|i: int| 0 <= i < trees.len() implies {
        &&& !reaches(after, ids[i], #[trigger] trees[i], id)
        &&& is_apart(after, ids[i], trees[i])
        &&& forall|x: NodeId| #[trigger]
            reaches(after, ids[i], trees[i], x) ==> !before.contains_key(x)
    } by {
        assert(is_graft(before, after, ids[i], trees[i]));
        lemma_reaches(middle, after, ids[i], trees[i], num, id);
    }
}

/// The nodes and the trees are those directly below a node and its tree, which are otherwise alike.
pub open spec fn is_over(
    node: Node,
    tree: Syntax,
    ids: Seq<NodeId>,
    trees: Seq<Syntax>,
    num: spec_fn(Seq<char>, u64) -> bool,
) -> bool {
    match (node, tree) {
        (Node::Num(bits), Tree::Num(text)) => {
            num(text, bits) && ids == Seq::<NodeId>::empty() && trees == Seq::<Syntax>::empty()
        },
        (Node::Var(name), Tree::Var(text)) => {
            name@ == text && ids == Seq::<NodeId>::empty() && trees == Seq::<Syntax>::empty()
        },
        (Node::Neg(a), Tree::Neg(s)) => ids == seq![a] && trees == seq![*s],
        (Node::Call(name, args), Tree::Call(text, ts)) => {
            name@ == text && ids == args@ && trees == ts
        },
        (Node::Let { name, rhs, then }, Tree::Let { name: text, rhs: s, then: t }) => {
            name@ == text && ids == seq![rhs, then] && trees == seq![*s, *t]
        },
        (
            Node::Fn { name, args, body, then },
            Tree::Fn { name: text, args: params, body: s, then: t },
        ) => {
            &&& name@ == text && texts(args@) == params
            &&& ids == seq![body, then] && trees == seq![*s, *t]
        },
        (_, Tree::Bin(op, s, t)) => {
            &&& node == operation(op, operands(node).0, operands(node).1)
            &&& ids == seq![operands(node).0, operands(node).1]
            &&& trees == seq![*s, *t]
        },
        _ => false,
    }
}

/// The node of an operator.
pub open spec fn operation(op: Op, a: NodeId, b: NodeId) -> Node {
    match op {
        Op::Add => Node::Add(a, b),
        Op::Sub => Node::Sub(a, b),
        Op::Mul => Node::Mul(a, b),
        Op::Div => Node::Div(a, b),
    }
}

/// A node over nodes that stand for trees stands for the tree over them.
pub proof fn lemma_stands_over(
    after: Map<NodeId, Node>,
    id: NodeId,
    tree: Syntax,
    ids: Seq<NodeId>,
    trees: Seq<Syntax>,
    num: spec_fn(Seq<char>, u64) -> bool,
)
    requires
        after.contains_key(id),
        stand_for(after, ids, trees, num),
        is_over(after[id], tree, ids, trees, num),
    ensures
        stands_for(after, id, tree, num),
{
    reveal(stand_for);
    if trees.len() > 0 {
        assert(stands_for(after, ids[0], trees[0], num));
    }
    if trees.len() > 1 {
        assert(stands_for(after, ids[1], trees[1], num));
    }
}

/// A node over trees that have no node in common, nor with it, reaches no node twice.
pub proof fn lemma_apart_over(
    after: Map<NodeId, Node>,
    id: NodeId,
    tree: Syntax,
    ids: Seq<NodeId>,
    trees: Seq<Syntax>,
    num: spec_fn(Seq<char>, u64) -> bool,
)
    requires
        is_over(after[id], tree, ids, trees, num),
        forall|i: int|
            0 <= i < trees.len() ==> !reaches(after, ids[i], #[trigger] trees[i], id) && is_apart(
                after,
                ids[i],
                trees[i],
            ),
        forall|i: int, j: int|
            0 <= i < j < trees.len() ==> is_disjoint(
                after,
                ids[i],
                #[trigger] trees[i],
                ids[j],
                #[trigger] trees[j],
            ),
    ensures
        is_apart(after, id, tree),
{
    if !(tree is Call) {
        if trees.len() > 0 {
            assert(is_apart(after, ids[0], trees[0]));
        }
        if trees.len() > 1 {
            assert(is_apart(after, ids[1], trees[1]));
            assert(is_disjoint(after, ids[0], trees[0], ids[1], trees[1]));
        }
    }
}

/// A node over new trees reaches itself and new nodes.
pub proof fn lemma_reaches_over(
    before: Map<NodeId, Node>,
    after: Map<NodeId, Node>,
    id: NodeId,
    tree: Syntax,
    ids: Seq<NodeId>,
    trees: Seq<Syntax>,
    num: spec_fn(Seq<char>, u64) -> bool,
    x: NodeId,
)
    requires
        is_over(after[id], tree, ids, trees, num),
        !before.contains_key(id),
        forall|i: int|
            0 <= i < trees.len() && reaches(after, ids[i], #[trigger] trees[i], x)
                ==> !before.contains_key(x),
        reaches(after, id, tree, x),
    ensures
        !before.contains_key(x),
{
    if x != id {
        match (after[id], tree) {
            (Node::Call(_, args), Tree::Call(_, ts)) => {
                assert(exists|i: int|
                    0 <= i < ts.len() && reaches(after, args@[i], #[trigger] ts[i], x));
                let i = choose|i: int|
                    0 <= i < ts.len() && reaches(after, args@[i], #[trigger] ts[i], x);
                assert(reaches(after, ids[i], trees[i], x));
            },
            _ => {
                if trees.len() > 0 {
                    assert(reaches(after, ids[0], trees[0], x) ==> !before.contains_key(x));
                }
                if trees.len() > 1 {
                    assert(reaches(after, ids[1], trees[1], x) ==> !before.contains_key(x));
                }
            },
        }
    }
}

/// The node stands for the tree, which is a new one.
#[verifier::opaque]
pub open spec fn is_new(
    before: Map<NodeId, Node>,
    after: Map<NodeId, Node>,
    id: NodeId,
    tree: Syntax,
    num: spec_fn(Seq<char>, u64) -> bool,
) -> bool {
    stands_for(after, id, tree, num) && is_graft(before, after, id, tree)
}

/// The nodes stand for the trees, which are new ones and have no node in common.
#[verifier::opaque]
pub open spec fn are_new(
    before: Map<NodeId, Node>,
    after: Map<NodeId, Node>,
    ids: Seq<NodeId>,
    trees: Seq<Syntax>,
    num: spec_fn(Seq<char>, u64) -> bool,
) -> bool {
    stand_for(after, ids, trees, num) && are_grafts(before, after, ids, trees)
}

/// A tree that is new since some time is new since an earlier one.
pub proof fn lemma_new_since(
    first: Map<NodeId, Node>,
    before: Map<NodeId, Node>,
    after: Map<NodeId, Node>,
    id: NodeId,
    tree: Syntax,
    num: spec_fn(Seq<char>, u64) -> bool,
)
    requires
        kept(first, before),
        is_new(before, after, id, tree, num),
    ensures
        is_new(first, after, id, tree, num),
{
    reveal(is_new);
    lemma_graft_since(first, before, after, id, tree);
}

/// A new tree stays one.
pub proof fn lemma_new_kept(
    before: Map<NodeId, Node>,
    middle: Map<NodeId, Node>,
    after: Map<NodeId, Node>,
    id: NodeId,
    tree: Syntax,
    num: spec_fn(Seq<char>, u64) -> bool,
)
    requires
        is_new(before, middle, id, tree, num),
        kept(middle, after),
    ensures
        is_new(before, after, id, tree, num),
{
    reveal(is_new);
    lemma_graft_kept(before, middle, after, id, tree, num);
    lemma_still_stands(middle, after, id, tree, num);
}

/// No trees are new ones.
pub proof fn lemma_none_new(
    before: Map<NodeId, Node>,
    after: Map<NodeId, Node>,
    num: spec_fn(Seq<char>, u64) -> bool,
)
    ensures
        are_new(before, after, Seq::empty(), Seq::empty(), num),
{
    reveal(are_new);
    lemma_grafts_none(before, after);
    assert(stand_for(after, Seq::empty(), Seq::empty(), num));
}

/// A new tree is a list of them.
pub proof fn lemma_one_new(
    before: Map<NodeId, Node>,
    after: Map<NodeId, Node>,
    id: NodeId,
    tree: Syntax,
    num: spec_fn(Seq<char>, u64) -> bool,
)
    requires
        is_new(before, after, id, tree, num),
    ensures
        are_new(before, after, seq![id], seq![tree], num),
{
    reveal(is_new);
    reveal(are_new);
    lemma_grafts_one(before, after, id, tree, num);
}

/// Two trees, the second of which is new since the first was, are new ones.
pub proof fn lemma_two_new(
    before: Map<NodeId, Node>,
    middle: Map<NodeId, Node>,
    after: Map<NodeId, Node>,
    a: NodeId,
    s: Syntax,
    b: NodeId,
    t: Syntax,
    num: spec_fn(Seq<char>, u64) -> bool,
)
    requires
        kept(before, middle),
        kept(middle, after),
        is_new(before, middle, a, s, num),
        is_new(middle, after, b, t, num),
    ensures
        are_new(before, after, seq![a, b], seq![s, t], num),
{
    reveal(is_new);
    reveal(are_new);
    lemma_grafts_two(before, middle, after, a, s, b, t, num);
}

/// New trees stay new ones.
pub proof fn lemma_all_new_kept(
    before: Map<NodeId, Node>,
    middle: Map<NodeId, Node>,
    after: Map<NodeId, Node>,
    ids: Seq<NodeId>,
    trees: Seq<Syntax>,
    num: spec_fn(Seq<char>, u64) -> bool,
)
    requires
        are_new(before, middle, ids, trees, num),
        kept(middle, after),
    ensures
        are_new(before, after, ids, trees, num),
{
    reveal(are_new);
    lemma_grafts_kept(before, middle, after, ids, trees, num);
    lemma_still_stand(middle, after, ids, trees, num);
}

/// A tree that is new since other trees were is new with them.
pub proof fn lemma_one_more_new(
    before: Map<NodeId, Node>,
    middle: Map<NodeId, Node>,
    after: Map<NodeId, Node>,
    ids: Seq<NodeId>,
    trees: Seq<Syntax>,
    id: NodeId,
    tree: Syntax,
    num: spec_fn(Seq<char>, u64) -> bool,
)
    requires
        kept(before, middle),
        kept(middle, after),
        are_new(before, middle, ids, trees, num),
        is_new(middle, after, id, tree, num),
    ensures
        are_new(before, after, ids.push(id), trees.push(tree), num),
{
    reveal(is_new);
    reveal(are_new);
    lemma_grafts_push(before, middle, after, ids, trees, id, tree, num);
}

/// Adds a node over new trees, which makes a new tree.
#[verifier::rlimit(40)]
pub(crate) fn graft(
    arena: &mut Arena,
    node: Node,
    first: Ghost<Map<NodeId, Node>>,
    tree: Ghost<Syntax>,
    ids: Ghost<Seq<NodeId>>,
    trees: Ghost<Seq<Syntax>>,
    num: Ghost<spec_fn(Seq<char>, u64) -> bool>,
) -> (id: NodeId)
    requires
        old(arena)@.dom().finite(),
        old(arena)@.len() < ARENA_CAPACITY,
        kept(first@, old(arena)@),
        are_new(first@, old(arena)@, ids@, trees@, num@),
        is_over(node, tree@, ids@, trees@, num@),
    ensures
        kept(first@, final(arena)@),
        grown(old(arena)@, final(arena)@, 1),
        is_new(first@, final(arena)@, id, tree@, num@),
{
    let ghost before = arena@;
    let id = arena.insert(node);
    proof {
        reveal(is_new);
        reveal(are_new);
        lemma_inserted(before, id, node);
        lemma_kept(first@, before, arena@);
        lemma_still_stand(before, arena@, ids@, trees@, num@);
        assert(arena@[id] == node);
        lemma_stands_over(arena@, id, tree@, ids@, trees@, num@);
        lemma_graft_over(first@, before, id, node, ids@, trees@, num@);
        lemma_apart_over(arena@, id, tree@, ids@, trees@, num@);
        assert forall|x: NodeId| #[trigger]
            reaches(arena@, id, tree@, x) implies !first@.contains_key(x) by {
            lemma_reaches_over(first@, arena@, id, tree@, ids@, trees@, num@, x);
        }
        reveal(is_graft);
    }
    id
}

/// The nodes stand for the trees.
#[verifier::opaque]
pub open spec fn stand_for(
    nodes: Map<NodeId, Node>,
    ids: Seq<NodeId>,
    trees: Seq<Syntax>,
    num: spec_fn(Seq<char>, u64) -> bool,
) -> bool {
    &&& ids.len() == trees.len()
    &&& forall|i: int|
        0 <= i < trees.len() ==> stands_for(nodes, ids[i], #[trigger] trees[i], num)
}

/// Nodes that are still there stand for the same trees.
pub proof fn lemma_still_stand(
    before: Map<NodeId, Node>,
    after: Map<NodeId, Node>,
    ids: Seq<NodeId>,
    trees: Seq<Syntax>,
    num: spec_fn(Seq<char>, u64) -> bool,
)
    requires
        kept(before, after),
        stand_for(before, ids, trees, num),
    ensures
        stand_for(after, ids, trees, num),
{
    reveal(stand_for);
    assert forall|i: int| 0 <= i < trees.len() implies stands_for(
        after,
        ids[i],
        #[trigger] trees[i],
        num,
    ) by {
        lemma_still_stands(before, after, ids[i], trees[i], num);
    }
}

} // verus!

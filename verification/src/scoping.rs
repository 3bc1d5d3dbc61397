//! Which variables an expression rests on.

use crate::ast::Tree;
use crate::ir::{Callee, Draft};
use crate::lowering::{fault, fault_in, host_shape, lower, lower_all, Names};
use crate::program::Function;
use crate::semantics::{eval, eval_all, Arith};
use vstd::prelude::*;

verus! {

/// The variables of an expression that are not defined in it, outside the bodies of functions. The
/// name of a definition stands for a variable behind it, not in its right side.
pub open spec fn free(tree: Tree<u64>) -> Set<Seq<char>>
    decreases tree,
{
    match tree {
        Tree::Num(_) => Set::empty(),
        Tree::Var(name) => Set::empty().insert(name),
        Tree::Neg(a) => free(*a),
        Tree::Bin(_, a, b) => free(*a).union(free(*b)),
        Tree::Call(_, args) => all_free(args),
        Tree::Let { name, rhs, then } => free(*rhs).union(free(*then).remove(name)),
        Tree::Fn { then, .. } => free(*then),
    }
}

/// The variables of expressions that are not defined in the same one.
pub open spec fn all_free(trees: Seq<Tree<u64>>) -> Set<Seq<char>>
    decreases trees,
{
    if trees.len() == 0 {
        Set::empty()
    } else {
        all_free(trees.drop_last()).union(free(trees.last()))
    }
}

/// The same of the names are in both scopes.
pub open spec fn hold_the_same(
    names: Set<Seq<char>>,
    a: Set<Seq<char>>,
    b: Set<Seq<char>>,
) -> bool {
    forall|name: Seq<char>| #[trigger] names.contains(name) ==> a.contains(name) == b.contains(name)
}

/// The names stand for the same in both scopes.
pub open spec fn mean_the_same<V>(
    names: Set<Seq<char>>,
    a: Map<Seq<char>, V>,
    b: Map<Seq<char>, V>,
) -> bool {
    forall|name: Seq<char>| #[trigger]
        names.contains(name) ==> a.contains_key(name) == b.contains_key(name) && (a.contains_key(
            name,
        ) ==> a[name] == b[name])
}

/// What is wrong with an expression does not rest on any but its own free variables.
pub proof fn law_only_free_variables_make_faults(
    tree: Tree<u64>,
    a: Set<Seq<char>>,
    b: Set<Seq<char>>,
    arities: Map<Seq<char>, usize>,
)
    requires
        hold_the_same(free(tree), a, b),
    ensures
        fault(tree, a, arities) == fault(tree, b, arities),
    decreases tree,
{
    match tree {
        Tree::Num(_) => {},
        Tree::Var(name) => {
            assert(free(tree).contains(name));
        },
        Tree::Neg(x) => {
            law_only_free_variables_make_faults(*x, a, b, arities);
        },
        Tree::Bin(_, x, y) => {
            assert(free(*x).subset_of(free(tree)));
            assert(free(*y).subset_of(free(tree)));
            law_only_free_variables_make_faults(*x, a, b, arities);
            law_only_free_variables_make_faults(*y, a, b, arities);
        },
        Tree::Call(_, args) => {
            lemma_only_free_variables_make_faults(args, a, b, arities);
        },
        Tree::Let { name, rhs, then } => {
            assert(free(*rhs).subset_of(free(tree)));
            assert(free(*then).subset_of(free(tree).insert(name)));
            law_only_free_variables_make_faults(*rhs, a, b, arities);
            law_only_free_variables_make_faults(*then, a.insert(name), b.insert(name), arities);
        },
        Tree::Fn { then, .. } => {
            law_only_free_variables_make_faults(*then, a, b, arities);
        },
    }
}

/// [`law_only_free_variables_make_faults`] for a list of expressions.
proof fn lemma_only_free_variables_make_faults(
    trees: Seq<Tree<u64>>,
    a: Set<Seq<char>>,
    b: Set<Seq<char>>,
    arities: Map<Seq<char>, usize>,
)
    requires
        hold_the_same(all_free(trees), a, b),
    ensures
        fault_in(trees, a, arities) == fault_in(trees, b, arities),
    decreases trees,
{
    if trees.len() > 0 {
        assert(all_free(trees.drop_last()).subset_of(all_free(trees)));
        assert(free(trees.last()).subset_of(all_free(trees)));
        lemma_only_free_variables_make_faults(trees.drop_last(), a, b, arities);
        law_only_free_variables_make_faults(trees.last(), a, b, arities);
    }
}

/// What an expression is compiled to does not rest on any but its own free variables: with a scope
/// in which these stand for the same, the function grows by the same code, and the same value holds
/// the result.
pub proof fn law_only_free_variables_are_compiled(
    tree: Tree<u64>,
    draft: Draft,
    a: Map<Seq<char>, u32>,
    b: Map<Seq<char>, u32>,
    names: Names,
)
    requires
        mean_the_same(free(tree), a, b),
    ensures
        lower(tree, draft, a, names) == lower(tree, draft, b, names),
    decreases tree,
{
    match tree {
        Tree::Num(_) => {},
        Tree::Var(name) => {
            assert(free(tree).contains(name));
        },
        Tree::Neg(x) => {
            law_only_free_variables_are_compiled(*x, draft, a, b, names);
        },
        Tree::Bin(_, x, y) => {
            assert(free(*x).subset_of(free(tree)));
            assert(free(*y).subset_of(free(tree)));
            law_only_free_variables_are_compiled(*x, draft, a, b, names);
            law_only_free_variables_are_compiled(
                *y,
                lower(*x, draft, a, names).0,
                a,
                b,
                names,
            );
        },
        Tree::Call(name, args) => {
            let callee = Callee {
                id: names.funcs[name],
                shape: host_shape(names.arities[name] as nat),
            };
            lemma_only_free_variables_are_compiled(args, draft.import(callee), a, b, names);
        },
        Tree::Let { name, rhs, then } => {
            assert(free(*rhs).subset_of(free(tree)));
            assert(free(*then).subset_of(free(tree).insert(name)));
            law_only_free_variables_are_compiled(*rhs, draft, a, b, names);
            let (d, r) = lower(*rhs, draft, a, names);
            let var = d.vars.len() as u32;
            law_only_free_variables_are_compiled(
                *then,
                d.declare().define(var, r->Ok_0),
                a.insert(name, var),
                b.insert(name, var),
                names,
            );
        },
        Tree::Fn { then, .. } => {
            law_only_free_variables_are_compiled(*then, draft, a, b, names);
        },
    }
}

/// [`law_only_free_variables_are_compiled`] for a list of expressions.
proof fn lemma_only_free_variables_are_compiled(
    trees: Seq<Tree<u64>>,
    draft: Draft,
    a: Map<Seq<char>, u32>,
    b: Map<Seq<char>, u32>,
    names: Names,
)
    requires
        mean_the_same(all_free(trees), a, b),
    ensures
        lower_all(trees, draft, a, names) == lower_all(trees, draft, b, names),
    decreases trees,
{
    if trees.len() > 0 {
        let rest = trees.drop_last();
        assert(all_free(rest).subset_of(all_free(trees)));
        assert(free(trees.last()).subset_of(all_free(trees)));
        lemma_only_free_variables_are_compiled(rest, draft, a, b, names);
        law_only_free_variables_are_compiled(
            trees.last(),
            lower_all(rest, draft, a, names).0,
            a,
            b,
            names,
        );
    }
}

/// The value of an expression does not rest on any but its own free variables.
pub proof fn law_only_free_variables_make_values<V>(
    tree: Tree<u64>,
    a: Map<Seq<char>, V>,
    b: Map<Seq<char>, V>,
    fs: Seq<Function>,
    arith: Arith<V>,
    depth: nat,
)
    requires
        mean_the_same(free(tree), a, b),
    ensures
        eval(tree, a, fs, arith, depth) == eval(tree, b, fs, arith, depth),
    decreases tree,
{
    match tree {
        Tree::Num(_) => {},
        Tree::Var(name) => {
            assert(free(tree).contains(name));
        },
        Tree::Neg(x) => {
            law_only_free_variables_make_values(*x, a, b, fs, arith, depth);
        },
        Tree::Bin(_, x, y) => {
            assert(free(*x).subset_of(free(tree)));
            assert(free(*y).subset_of(free(tree)));
            law_only_free_variables_make_values(*x, a, b, fs, arith, depth);
            law_only_free_variables_make_values(*y, a, b, fs, arith, depth);
        },
        Tree::Call(_, args) => {
            lemma_only_free_variables_make_values(args, a, b, fs, arith, depth);
        },
        Tree::Let { name, rhs, then } => {
            assert(free(*rhs).subset_of(free(tree)));
            assert(free(*then).subset_of(free(tree).insert(name)));
            law_only_free_variables_make_values(*rhs, a, b, fs, arith, depth);
            match eval(*rhs, a, fs, arith, depth) {
                Some(x) => {
                    law_only_free_variables_make_values(
                        *then,
                        a.insert(name, x),
                        b.insert(name, x),
                        fs,
                        arith,
                        depth,
                    );
                },
                None => {},
            }
        },
        Tree::Fn { then, .. } => {
            law_only_free_variables_make_values(*then, a, b, fs, arith, depth);
        },
    }
}

/// [`law_only_free_variables_make_values`] for a list of expressions.
proof fn lemma_only_free_variables_make_values<V>(
    trees: Seq<Tree<u64>>,
    a: Map<Seq<char>, V>,
    b: Map<Seq<char>, V>,
    fs: Seq<Function>,
    arith: Arith<V>,
    depth: nat,
)
    requires
        mean_the_same(all_free(trees), a, b),
    ensures
        eval_all(trees, a, fs, arith, depth) == eval_all(trees, b, fs, arith, depth),
    decreases trees,
{
    if trees.len() > 0 {
        assert(all_free(trees.drop_last()).subset_of(all_free(trees)));
        assert(free(trees.last()).subset_of(all_free(trees)));
        lemma_only_free_variables_make_values(trees.drop_last(), a, b, fs, arith, depth);
        law_only_free_variables_make_values(trees.last(), a, b, fs, arith, depth);
    }
}

/// The definition of a function is compiled to nothing where it stands: it comes to what is behind
/// it, in the code, in what is wrong and in the value.
pub proof fn law_a_function_is_what_is_behind_it<V>(
    name: Seq<char>,
    args: Seq<Seq<char>>,
    body: Tree<u64>,
    then: Tree<u64>,
    draft: Draft,
    scope: Map<Seq<char>, u32>,
    names: Names,
    env: Map<Seq<char>, V>,
    fs: Seq<Function>,
    arith: Arith<V>,
    depth: nat,
)
    ensures
        ({
            let tree = Tree::Fn { name, args, body: Box::new(body), then: Box::new(then) };
            &&& lower(tree, draft, scope, names) == lower(then, draft, scope, names)
            &&& fault(tree, scope.dom(), names.arities) == fault(then, scope.dom(), names.arities)
            &&& eval(tree, env, fs, arith, depth) == eval(then, env, fs, arith, depth)
        }),
{
}

} // verus!

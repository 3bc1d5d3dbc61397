//! Programs that mean the same.

use crate::ast::Tree;
use crate::ir::MAX_INSTRUCTIONS;
use crate::lowering::{binds, binds_all, emits, emits_all, fault, fault_in};
use crate::program::{
    duplicate, fault_of, function_fits, functions, functions_of_all, has_function,
    lemma_first_fault, lemma_no_fault, main_function, numbered, program_fault, program_fits,
    program_names, Function,
};
use crate::scoping::{free, law_only_free_variables_make_values};
use crate::semantics::{bind, eval, eval_all, function_named, value, Arith};
use vstd::arithmetic::mul::{lemma_mul_basics, lemma_mul_is_distributive_add_other_way};
use vstd::prelude::*;
use vstd::seq_lib::*;

verus! {

/// The variables and the last expression of a program, without the definitions of functions before
/// and between them.
pub open spec fn without_functions(tree: Tree<u64>) -> Tree<u64>
    decreases tree,
{
    match tree {
        Tree::Let { name, rhs, then } => {
            Tree::Let { name, rhs, then: Box::new(without_functions(*then)) }
        },
        Tree::Fn { then, .. } => without_functions(*then),
        _ => tree,
    }
}

/// Compiling the variables and the last expression comes to no definition of a function before or
/// between them.
proof fn lemma_without_functions(
    tree: Tree<u64>,
    scope: Set<Seq<char>>,
    arities: Map<Seq<char>, usize>,
)
    ensures
        fault(without_functions(tree), scope, arities) == fault(tree, scope, arities),
        emits(without_functions(tree)) == emits(tree),
        binds(without_functions(tree)) == binds(tree),
    decreases tree,
{
    match tree {
        Tree::Let { name, then, .. } => {
            lemma_without_functions(*then, scope.insert(name), arities);
        },
        Tree::Fn { then, .. } => {
            lemma_without_functions(*then, scope, arities);
        },
        _ => {},
    }
}

/// Nor does evaluating them.
proof fn lemma_eval_without_functions<V>(
    tree: Tree<u64>,
    env: Map<Seq<char>, V>,
    fs: Seq<Function>,
    arith: Arith<V>,
    depth: nat,
)
    ensures
        eval(without_functions(tree), env, fs, arith, depth) == eval(tree, env, fs, arith, depth),
    decreases tree,
{
    match tree {
        Tree::Let { name, rhs, then } => {
            match eval(*rhs, env, fs, arith, depth) {
                Some(x) => {
                    lemma_eval_without_functions(*then, env.insert(name, x), fs, arith, depth);
                },
                None => {},
            }
        },
        Tree::Fn { then, .. } => {
            lemma_eval_without_functions(*then, env, fs, arith, depth);
        },
        _ => {},
    }
}

/// No two functions have one name.
pub open spec fn are_distinct(fs: Seq<Function>) -> bool {
    forall|i: int, j: int|
        0 <= i < j < fs.len() ==> (#[trigger] fs[i]).name != (#[trigger] fs[j]).name
}

/// A function is defined twice exactly where two have one name.
pub proof fn lemma_distinct(fs: Seq<Function>)
    ensures
        duplicate(fs) is None <==> are_distinct(fs),
    decreases fs.len(),
{
    if fs.len() > 0 {
        let rest = fs.drop_last();
        lemma_distinct(rest);
        if duplicate(fs) is None {
            assert forall|i: int, j: int| 0 <= i < j < fs.len() implies (#[trigger] fs[i]).name != (
            #[trigger] fs[j]).name by {
                assert(rest[i] == fs[i]);
                if j < rest.len() {
                    assert(rest[j] == fs[j]);
                }
            }
        }
        if are_distinct(fs) {
            assert forall|i: int, j: int| 0 <= i < j < rest.len() implies (#[trigger] rest[i]).name
                != (#[trigger] rest[j]).name by {
                assert(fs[i].name != fs[j].name);
            }
            if has_function(rest, fs.last().name) {
                let i = choose|i: int|
                    0 <= i < rest.len() && (#[trigger] rest[i]).name == fs.last().name;
                assert(fs[i].name != fs[fs.len() - 1].name);
            }
        }
    }
}

/// The same functions in another order.
pub open spec fn is_reordered(fs: Seq<Function>, gs: Seq<Function>) -> bool {
    fs.to_multiset() == gs.to_multiset()
}

proof fn lemma_reordered_contains(fs: Seq<Function>, gs: Seq<Function>, f: Function)
    requires
        is_reordered(fs, gs),
    ensures
        fs.contains(f) == gs.contains(f),
        fs.len() == gs.len(),
{
    broadcast use group_to_multiset_ensures;

    fs.to_multiset_ensures();
    gs.to_multiset_ensures();
    assert(fs.to_multiset().count(f) > 0 <==> fs.contains(f));
    assert(gs.to_multiset().count(f) > 0 <==> gs.contains(f));
}

proof fn lemma_reordered_has(fs: Seq<Function>, gs: Seq<Function>, name: Seq<char>)
    requires
        is_reordered(fs, gs),
        has_function(fs, name),
    ensures
        has_function(gs, name),
{
    let i = choose|i: int| 0 <= i < fs.len() && (#[trigger] fs[i]).name == name;
    assert(fs.contains(fs[i]));
    lemma_reordered_contains(fs, gs, fs[i]);
    let j = choose|j: int| 0 <= j < gs.len() && gs[j] == fs[i];
    assert(gs[j].name == name);
}

proof fn lemma_reordered_distinct(fs: Seq<Function>, gs: Seq<Function>)
    requires
        is_reordered(fs, gs),
        are_distinct(fs),
    ensures
        are_distinct(gs),
{
    assert(fs.no_duplicates()) by {
        assert forall|i: int, j: int|
            0 <= i < fs.len() && 0 <= j < fs.len() && i != j implies fs[i] != fs[j] by {
            if i < j {
                assert(fs[i].name != fs[j].name);
            } else {
                assert(fs[j].name != fs[i].name);
            }
        }
    }
    fs.lemma_multiset_has_no_duplicates();
    gs.lemma_multiset_has_no_duplicates_conv();
    assert forall|i: int, j: int| 0 <= i < j < gs.len() implies (#[trigger] gs[i]).name != (
    #[trigger] gs[j]).name by {
        if gs[i].name == gs[j].name {
            assert(gs.contains(gs[i]) && gs.contains(gs[j]));
            lemma_reordered_contains(fs, gs, gs[i]);
            lemma_reordered_contains(fs, gs, gs[j]);
            let a = choose|a: int| 0 <= a < fs.len() && fs[a] == gs[i];
            let b = choose|b: int| 0 <= b < fs.len() && fs[b] == gs[j];
            if a < b {
                assert(fs[a].name != fs[b].name);
            } else if b < a {
                assert(fs[b].name != fs[a].name);
            }
        }
    }
}

proof fn lemma_reordered_named(fs: Seq<Function>, gs: Seq<Function>, name: Seq<char>)
    requires
        is_reordered(fs, gs),
        are_distinct(fs),
        has_function(fs, name),
    ensures
        function_named(gs, name) == function_named(fs, name),
{
    lemma_reordered_has(fs, gs, name);
    let i = choose|i: int| 0 <= i < fs.len() && (#[trigger] fs[i]).name == name;
    let j = choose|j: int| 0 <= j < gs.len() && (#[trigger] gs[j]).name == name;
    assert(gs.contains(gs[j]));
    lemma_reordered_contains(fs, gs, gs[j]);
    let a = choose|a: int| 0 <= a < fs.len() && fs[a] == gs[j];
    if a < i {
        assert(fs[a].name != fs[i].name);
    } else if i < a {
        assert(fs[i].name != fs[a].name);
    }
}

/// How many arguments a function takes is found by its name.
proof fn lemma_arities(fs: Seq<Function>, name: Seq<char>)
    requires
        are_distinct(fs),
    ensures
        numbered(fs).arities.contains_key(name) == has_function(fs, name),
        has_function(fs, name) ==> numbered(fs).arities[name] == function_named(
            fs,
            name,
        ).args.len() as usize,
    decreases fs.len(),
{
    if fs.len() > 0 {
        let rest = fs.drop_last();
        assert forall|i: int, j: int| 0 <= i < j < rest.len() implies (#[trigger] rest[i]).name != (
        #[trigger] rest[j]).name by {
            assert(fs[i].name != fs[j].name);
        }
        lemma_arities(rest, name);
        if name == fs.last().name {
            assert(fs[fs.len() - 1].name == name);
            let i = choose|i: int| 0 <= i < fs.len() && (#[trigger] fs[i]).name == name;
            if i < fs.len() - 1 {
                assert(fs[i].name != fs[fs.len() - 1].name);
            }
        } else {
            if has_function(rest, name) {
                let i = choose|i: int| 0 <= i < rest.len() && (#[trigger] rest[i]).name == name;
                assert(fs[i].name == name);
                let j = choose|j: int| 0 <= j < fs.len() && (#[trigger] fs[j]).name == name;
                assert(rest[j].name == name);
                if i < j {
                    assert(rest[i].name != rest[j].name);
                } else if j < i {
                    assert(rest[j].name != rest[i].name);
                }
            }
            if has_function(fs, name) {
                let j = choose|j: int| 0 <= j < fs.len() && (#[trigger] fs[j]).name == name;
                assert(rest[j].name == name);
            }
        }
    }
}

proof fn lemma_reordered_arities(fs: Seq<Function>, gs: Seq<Function>)
    requires
        is_reordered(fs, gs),
        are_distinct(fs),
    ensures
        numbered(gs).arities == numbered(fs).arities,
{
    lemma_reordered_distinct(fs, gs);
    let ours = numbered(fs).arities;
    let theirs = numbered(gs).arities;
    assert forall|name: Seq<char>|
        #![trigger ours.dom().contains(name)]
        #![trigger theirs.dom().contains(name)]
        #![trigger ours[name]]
        #![trigger theirs[name]]
        ours.dom().contains(name) == theirs.dom().contains(name) && (ours.dom().contains(name)
            ==> ours[name] == theirs[name]) by {
        lemma_arities(fs, name);
        lemma_arities(gs, name);
        if has_function(fs, name) {
            lemma_reordered_has(fs, gs, name);
            lemma_reordered_named(fs, gs, name);
        }
        if has_function(gs, name) {
            lemma_reordered_has(gs, fs, name);
        }
    }
    assert(ours =~= theirs);
}

/// Expressions have the same values where the same functions are found by the same names.
proof fn lemma_eval_reordered<V>(
    tree: Tree<u64>,
    env: Map<Seq<char>, V>,
    fs: Seq<Function>,
    gs: Seq<Function>,
    arith: Arith<V>,
    depth: nat,
)
    requires
        is_reordered(fs, gs),
        are_distinct(fs),
    ensures
        eval(tree, env, gs, arith, depth) == eval(tree, env, fs, arith, depth),
    decreases depth, tree,
{
    match tree {
        Tree::Num(_) => {},
        Tree::Var(_) => {},
        Tree::Neg(a) => {
            lemma_eval_reordered(*a, env, fs, gs, arith, depth);
        },
        Tree::Bin(_, a, b) => {
            lemma_eval_reordered(*a, env, fs, gs, arith, depth);
            lemma_eval_reordered(*b, env, fs, gs, arith, depth);
        },
        Tree::Call(name, args) => {
            lemma_eval_all_reordered(args, env, fs, gs, arith, depth);
            if has_function(gs, name) {
                lemma_reordered_has(gs, fs, name);
            }
            if has_function(fs, name) {
                lemma_reordered_has(fs, gs, name);
                lemma_reordered_named(fs, gs, name);
                let f = function_named(fs, name);
                match eval_all(args, env, fs, arith, depth) {
                    Some(values) => {
                        if depth > 0 {
                            lemma_eval_reordered(
                                f.body,
                                bind(f.args, values),
                                fs,
                                gs,
                                arith,
                                (depth - 1) as nat,
                            );
                        }
                    },
                    None => {},
                }
            }
        },
        Tree::Let { name, rhs, then } => {
            lemma_eval_reordered(*rhs, env, fs, gs, arith, depth);
            match eval(*rhs, env, fs, arith, depth) {
                Some(x) => {
                    lemma_eval_reordered(*then, env.insert(name, x), fs, gs, arith, depth);
                },
                None => {},
            }
        },
        Tree::Fn { then, .. } => {
            lemma_eval_reordered(*then, env, fs, gs, arith, depth);
        },
    }
}

proof fn lemma_eval_all_reordered<V>(
    trees: Seq<Tree<u64>>,
    env: Map<Seq<char>, V>,
    fs: Seq<Function>,
    gs: Seq<Function>,
    arith: Arith<V>,
    depth: nat,
)
    requires
        is_reordered(fs, gs),
        are_distinct(fs),
    ensures
        eval_all(trees, env, gs, arith, depth) == eval_all(trees, env, fs, arith, depth),
    decreases depth, trees,
{
    if trees.len() > 0 {
        lemma_eval_all_reordered(trees.drop_last(), env, fs, gs, arith, depth);
        lemma_eval_reordered(trees.last(), env, fs, gs, arith, depth);
    }
}

/// One program is another with its functions defined elsewhere and in another order.
pub open spec fn is_rearranged(p: Tree<u64>, q: Tree<u64>) -> bool {
    &&& without_functions(p) == without_functions(q)
    &&& is_reordered(functions(p), functions(q))
}

proof fn lemma_rearranged_fault(p: Tree<u64>, q: Tree<u64>)
    requires
        is_rearranged(p, q),
        program_fault(p) is None,
    ensures
        program_fault(q) is None,
{
    let fs = functions(p);
    let gs = functions(q);
    let arities = program_names(p).arities;
    lemma_distinct(fs);
    lemma_distinct(gs);
    lemma_reordered_distinct(fs, gs);
    lemma_reordered_arities(fs, gs);
    assert forall|i: int| 0 <= i < gs.len() implies fault_of(#[trigger] gs[i], arities) is None by {
        assert(gs.contains(gs[i]));
        lemma_reordered_contains(fs, gs, gs[i]);
        let j = choose|j: int| 0 <= j < fs.len() && fs[j] == gs[i];
        lemma_no_fault(fs, arities, j);
    }
    lemma_first_fault(gs, arities, gs.len() as int);
    let none = main_function(p).args.to_set();
    lemma_without_functions(p, none, arities);
    lemma_without_functions(q, none, arities);
}

proof fn lemma_rearranged_fits(p: Tree<u64>, q: Tree<u64>)
    requires
        is_rearranged(p, q),
        program_fits(p),
    ensures
        program_fits(q),
{
    let fs = functions(p);
    let gs = functions(q);
    assert forall|i: int| 0 <= i < gs.len() implies function_fits(#[trigger] gs[i]) by {
        assert(gs.contains(gs[i]));
        lemma_reordered_contains(fs, gs, gs[i]);
        let j = choose|j: int| 0 <= j < fs.len() && fs[j] == gs[i];
        assert(function_fits(fs[j]));
    }
    lemma_reordered_contains(fs, gs, main_function(p));
    lemma_without_functions(p, Set::empty(), Map::empty());
    lemma_without_functions(q, Set::empty(), Map::empty());
}

/// Where a function is defined does not matter: with its functions defined elsewhere between the
/// other definitions, and in another order, a program is compiled as before and has the same
/// value.
pub proof fn law_the_place_of_a_function_does_not_matter<V>(
    p: Tree<u64>,
    q: Tree<u64>,
    arith: Arith<V>,
    depth: nat,
)
    requires
        is_rearranged(p, q),
    ensures
        program_fits(p) == program_fits(q),
        program_fault(p) is None <==> program_fault(q) is None,
        has_function(functions(p), "__main"@) == has_function(functions(q), "__main"@),
        program_fault(p) is None ==> value(p, arith, depth) == value(q, arith, depth),
{
    let fs = functions(p);
    let gs = functions(q);
    if program_fits(p) {
        lemma_rearranged_fits(p, q);
    }
    if program_fits(q) {
        lemma_rearranged_fits(q, p);
    }
    if program_fault(p) is None {
        lemma_rearranged_fault(p, q);
        lemma_distinct(fs);
        lemma_eval_reordered(q, Map::<Seq<char>, V>::empty(), fs, gs, arith, depth);
        lemma_eval_without_functions(p, Map::<Seq<char>, V>::empty(), fs, arith, depth);
        lemma_eval_without_functions(q, Map::<Seq<char>, V>::empty(), fs, arith, depth);
    }
    if program_fault(q) is None {
        lemma_rearranged_fault(q, p);
    }
    if has_function(fs, "__main"@) {
        lemma_reordered_has(fs, gs, "__main"@);
    }
    if has_function(gs, "__main"@) {
        lemma_reordered_has(gs, fs, "__main"@);
    }
}

/// No definition is in the expression.
pub open spec fn is_plain(tree: Tree<u64>) -> bool
    decreases tree,
{
    match tree {
        Tree::Num(_) => true,
        Tree::Var(_) => true,
        Tree::Neg(a) => is_plain(*a),
        Tree::Bin(_, a, b) => is_plain(*a) && is_plain(*b),
        Tree::Call(_, args) => are_plain(args),
        Tree::Let { .. } => false,
        Tree::Fn { .. } => false,
    }
}

pub open spec fn are_plain(trees: Seq<Tree<u64>>) -> bool
    decreases trees,
{
    trees.len() > 0 ==> are_plain(trees.drop_last()) && is_plain(trees.last())
}

/// A free variable of the expression `r` is defined anew in the tree, outside the bodies of functions.
pub open spec fn rebinds(tree: Tree<u64>, r: Tree<u64>) -> bool
    decreases tree,
{
    match tree {
        Tree::Num(_) => false,
        Tree::Var(_) => false,
        Tree::Neg(a) => rebinds(*a, r),
        Tree::Bin(_, a, b) => rebinds(*a, r) || rebinds(*b, r),
        Tree::Call(_, args) => some_rebinds(args, r),
        Tree::Let { name, rhs, then } => {
            free(r).contains(name) || rebinds(*rhs, r) || rebinds(*then, r)
        },
        Tree::Fn { then, .. } => rebinds(*then, r),
    }
}

pub open spec fn some_rebinds(trees: Seq<Tree<u64>>, r: Tree<u64>) -> bool
    decreases trees,
{
    trees.len() > 0 && (some_rebinds(trees.drop_last(), r) || rebinds(trees.last(), r))
}

/// The tree with the expression `r` in place of the variable `x`, as far as `x` is not defined anew
/// and outside the bodies of functions.
pub open spec fn substituted(tree: Tree<u64>, x: Seq<char>, r: Tree<u64>) -> Tree<u64>
    decreases tree,
{
    match tree {
        Tree::Num(_) => tree,
        Tree::Var(name) => if name == x {
            r
        } else {
            tree
        },
        Tree::Neg(a) => Tree::Neg(Box::new(substituted(*a, x, r))),
        Tree::Bin(op, a, b) => {
            Tree::Bin(op, Box::new(substituted(*a, x, r)), Box::new(substituted(*b, x, r)))
        },
        Tree::Call(name, args) => Tree::Call(name, all_substituted(args, x, r)),
        Tree::Let { name, rhs, then } => Tree::Let {
            name,
            rhs: Box::new(substituted(*rhs, x, r)),
            then: if name == x {
                then
            } else {
                Box::new(substituted(*then, x, r))
            },
        },
        Tree::Fn { name, args, body, then } => {
            Tree::Fn { name, args, body, then: Box::new(substituted(*then, x, r)) }
        },
    }
}

pub open spec fn all_substituted(
    trees: Seq<Tree<u64>>,
    x: Seq<char>,
    r: Tree<u64>,
) -> Seq<Tree<u64>>
    decreases trees,
{
    if trees.len() == 0 {
        Seq::empty()
    } else {
        all_substituted(trees.drop_last(), x, r).push(substituted(trees.last(), x, r))
    }
}

proof fn lemma_all_substituted_len(trees: Seq<Tree<u64>>, x: Seq<char>, r: Tree<u64>)
    ensures
        all_substituted(trees, x, r).len() == trees.len(),
    decreases trees.len(),
{
    if trees.len() > 0 {
        lemma_all_substituted_len(trees.drop_last(), x, r);
    }
}

/// With an expression in place of a variable, a tree has the value that it has where the variable
/// stands for the value of the expression.
proof fn lemma_eval_substituted<V>(
    tree: Tree<u64>,
    x: Seq<char>,
    r: Tree<u64>,
    env: Map<Seq<char>, V>,
    v: V,
    fs: Seq<Function>,
    arith: Arith<V>,
    depth: nat,
)
    requires
        !rebinds(tree, r),
        eval(r, env, fs, arith, depth) == Some(v),
    ensures
        eval(substituted(tree, x, r), env, fs, arith, depth) == eval(
            tree,
            env.insert(x, v),
            fs,
            arith,
            depth,
        ),
    decreases tree,
{
    match tree {
        Tree::Num(_) => {},
        Tree::Var(_) => {},
        Tree::Neg(a) => {
            lemma_eval_substituted(*a, x, r, env, v, fs, arith, depth);
        },
        Tree::Bin(_, a, b) => {
            lemma_eval_substituted(*a, x, r, env, v, fs, arith, depth);
            lemma_eval_substituted(*b, x, r, env, v, fs, arith, depth);
        },
        Tree::Call(_, args) => {
            lemma_all_substituted_len(args, x, r);
            lemma_eval_all_substituted(args, x, r, env, v, fs, arith, depth);
        },
        Tree::Let { name, rhs, then } => {
            lemma_eval_substituted(*rhs, x, r, env, v, fs, arith, depth);
            match eval(*rhs, env.insert(x, v), fs, arith, depth) {
                Some(w) => {
                    if name == x {
                        assert(env.insert(x, v).insert(name, w) =~= env.insert(name, w));
                    } else {
                        law_only_free_variables_make_values(
                            r,
                            env,
                            env.insert(name, w),
                            fs,
                            arith,
                            depth,
                        );
                        lemma_eval_substituted(
                            *then,
                            x,
                            r,
                            env.insert(name, w),
                            v,
                            fs,
                            arith,
                            depth,
                        );
                        assert(env.insert(x, v).insert(name, w) =~= env.insert(name, w).insert(
                            x,
                            v,
                        ));
                    }
                },
                None => {},
            }
        },
        Tree::Fn { then, .. } => {
            lemma_eval_substituted(*then, x, r, env, v, fs, arith, depth);
        },
    }
}

proof fn lemma_eval_all_substituted<V>(
    trees: Seq<Tree<u64>>,
    x: Seq<char>,
    r: Tree<u64>,
    env: Map<Seq<char>, V>,
    v: V,
    fs: Seq<Function>,
    arith: Arith<V>,
    depth: nat,
)
    requires
        !some_rebinds(trees, r),
        eval(r, env, fs, arith, depth) == Some(v),
    ensures
        eval_all(all_substituted(trees, x, r), env, fs, arith, depth) == eval_all(
            trees,
            env.insert(x, v),
            fs,
            arith,
            depth,
        ),
    decreases trees,
{
    if trees.len() > 0 {
        let rest = trees.drop_last();
        lemma_eval_all_substituted(rest, x, r, env, v, fs, arith, depth);
        lemma_eval_substituted(trees.last(), x, r, env, v, fs, arith, depth);
        let done = all_substituted(rest, x, r);
        assert(done.push(substituted(trees.last(), x, r)).drop_last() =~= done);
    }
}

/// More variables in scope make no fault.
proof fn lemma_fault_wider(
    tree: Tree<u64>,
    scope: Set<Seq<char>>,
    wider: Set<Seq<char>>,
    arities: Map<Seq<char>, usize>,
)
    requires
        scope.subset_of(wider),
        fault(tree, scope, arities) is None,
    ensures
        fault(tree, wider, arities) is None,
    decreases tree,
{
    match tree {
        Tree::Num(_) => {},
        Tree::Var(_) => {},
        Tree::Neg(a) => {
            lemma_fault_wider(*a, scope, wider, arities);
        },
        Tree::Bin(_, a, b) => {
            lemma_fault_wider(*a, scope, wider, arities);
            lemma_fault_wider(*b, scope, wider, arities);
        },
        Tree::Call(_, args) => {
            lemma_fault_in_wider(args, scope, wider, arities);
        },
        Tree::Let { name, rhs, then } => {
            lemma_fault_wider(*rhs, scope, wider, arities);
            lemma_fault_wider(*then, scope.insert(name), wider.insert(name), arities);
        },
        Tree::Fn { then, .. } => {
            lemma_fault_wider(*then, scope, wider, arities);
        },
    }
}

proof fn lemma_fault_in_wider(
    trees: Seq<Tree<u64>>,
    scope: Set<Seq<char>>,
    wider: Set<Seq<char>>,
    arities: Map<Seq<char>, usize>,
)
    requires
        scope.subset_of(wider),
        fault_in(trees, scope, arities) is None,
    ensures
        fault_in(trees, wider, arities) is None,
    decreases trees,
{
    if trees.len() > 0 {
        lemma_fault_in_wider(trees.drop_last(), scope, wider, arities);
        lemma_fault_wider(trees.last(), scope, wider, arities);
    }
}

/// An expression without fault in place of a variable makes no fault.
proof fn lemma_fault_substituted(
    tree: Tree<u64>,
    x: Seq<char>,
    r: Tree<u64>,
    scope: Set<Seq<char>>,
    arities: Map<Seq<char>, usize>,
)
    requires
        fault(r, scope, arities) is None,
        fault(tree, scope.insert(x), arities) is None,
    ensures
        fault(substituted(tree, x, r), scope, arities) is None,
    decreases tree,
{
    match tree {
        Tree::Num(_) => {},
        Tree::Var(_) => {},
        Tree::Neg(a) => {
            lemma_fault_substituted(*a, x, r, scope, arities);
        },
        Tree::Bin(_, a, b) => {
            lemma_fault_substituted(*a, x, r, scope, arities);
            lemma_fault_substituted(*b, x, r, scope, arities);
        },
        Tree::Call(_, args) => {
            lemma_all_substituted_len(args, x, r);
            lemma_fault_in_substituted(args, x, r, scope, arities);
        },
        Tree::Let { name, rhs, then } => {
            lemma_fault_substituted(*rhs, x, r, scope, arities);
            if name == x {
                assert(scope.insert(x).insert(name) =~= scope.insert(name));
            } else {
                lemma_fault_wider(r, scope, scope.insert(name), arities);
                assert(scope.insert(x).insert(name) =~= scope.insert(name).insert(x));
                lemma_fault_substituted(*then, x, r, scope.insert(name), arities);
            }
        },
        Tree::Fn { then, .. } => {
            lemma_fault_substituted(*then, x, r, scope, arities);
        },
    }
}

proof fn lemma_fault_in_substituted(
    trees: Seq<Tree<u64>>,
    x: Seq<char>,
    r: Tree<u64>,
    scope: Set<Seq<char>>,
    arities: Map<Seq<char>, usize>,
)
    requires
        fault(r, scope, arities) is None,
        fault_in(trees, scope.insert(x), arities) is None,
    ensures
        fault_in(all_substituted(trees, x, r), scope, arities) is None,
    decreases trees,
{
    if trees.len() > 0 {
        let rest = trees.drop_last();
        lemma_fault_in_substituted(rest, x, r, scope, arities);
        lemma_fault_substituted(trees.last(), x, r, scope, arities);
        let done = all_substituted(rest, x, r);
        assert(done.push(substituted(trees.last(), x, r)).drop_last() =~= done);
    }
}

/// How often the variable `x` stands in the tree, as far as it is not defined anew and outside the
/// bodies of functions.
pub open spec fn uses(tree: Tree<u64>, x: Seq<char>) -> nat
    decreases tree,
{
    match tree {
        Tree::Num(_) => 0,
        Tree::Var(name) => if name == x {
            1
        } else {
            0
        },
        Tree::Neg(a) => uses(*a, x),
        Tree::Bin(_, a, b) => uses(*a, x) + uses(*b, x),
        Tree::Call(_, args) => all_uses(args, x),
        Tree::Let { name, rhs, then } => uses(*rhs, x) + if name == x {
            0
        } else {
            uses(*then, x)
        },
        Tree::Fn { then, .. } => uses(*then, x),
    }
}

pub open spec fn all_uses(trees: Seq<Tree<u64>>, x: Seq<char>) -> nat
    decreases trees,
{
    if trees.len() == 0 {
        0
    } else {
        all_uses(trees.drop_last(), x) + uses(trees.last(), x)
    }
}

/// An expression in place of a variable is compiled as often as the variable stands there.
proof fn lemma_size_substituted(tree: Tree<u64>, x: Seq<char>, r: Tree<u64>)
    requires
        binds(r) == 0,
    ensures
        emits(substituted(tree, x, r)) == emits(tree) + uses(tree, x) * emits(r),
        binds(substituted(tree, x, r)) == binds(tree),
    decreases tree,
{
    lemma_mul_basics(emits(r) as int);
    match tree {
        Tree::Num(_) => {},
        Tree::Var(_) => {},
        Tree::Neg(a) => {
            lemma_size_substituted(*a, x, r);
        },
        Tree::Bin(_, a, b) => {
            lemma_size_substituted(*a, x, r);
            lemma_size_substituted(*b, x, r);
            lemma_mul_is_distributive_add_other_way(
                emits(r) as int,
                uses(*a, x) as int,
                uses(*b, x) as int,
            );
        },
        Tree::Call(_, args) => {
            lemma_size_all_substituted(args, x, r);
        },
        Tree::Let { name, rhs, then } => {
            lemma_size_substituted(*rhs, x, r);
            if name != x {
                lemma_size_substituted(*then, x, r);
                lemma_mul_is_distributive_add_other_way(
                    emits(r) as int,
                    uses(*rhs, x) as int,
                    uses(*then, x) as int,
                );
            }
        },
        Tree::Fn { then, .. } => {
            lemma_size_substituted(*then, x, r);
        },
    }
}

proof fn lemma_size_all_substituted(trees: Seq<Tree<u64>>, x: Seq<char>, r: Tree<u64>)
    requires
        binds(r) == 0,
    ensures
        emits_all(all_substituted(trees, x, r)) == emits_all(trees) + all_uses(trees, x) * emits(r),
        binds_all(all_substituted(trees, x, r)) == binds_all(trees),
    decreases trees,
{
    lemma_mul_basics(emits(r) as int);
    if trees.len() > 0 {
        let rest = trees.drop_last();
        lemma_size_all_substituted(rest, x, r);
        lemma_size_substituted(trees.last(), x, r);
        lemma_mul_is_distributive_add_other_way(
            emits(r) as int,
            all_uses(rest, x) as int,
            uses(trees.last(), x) as int,
        );
        let done = all_substituted(rest, x, r);
        assert(done.push(substituted(trees.last(), x, r)).drop_last() =~= done);
    }
}

proof fn lemma_plain_binds(tree: Tree<u64>)
    requires
        is_plain(tree),
    ensures
        binds(tree) == 0,
    decreases tree,
{
    match tree {
        Tree::Neg(a) => {
            lemma_plain_binds(*a);
        },
        Tree::Bin(_, a, b) => {
            lemma_plain_binds(*a);
            lemma_plain_binds(*b);
        },
        Tree::Call(_, args) => {
            lemma_all_plain_binds(args);
        },
        _ => {},
    }
}

proof fn lemma_all_plain_binds(trees: Seq<Tree<u64>>)
    requires
        are_plain(trees),
    ensures
        binds_all(trees) == 0,
    decreases trees,
{
    if trees.len() > 0 {
        lemma_all_plain_binds(trees.drop_last());
        lemma_plain_binds(trees.last());
    }
}

proof fn lemma_plain_functions(tree: Tree<u64>)
    requires
        is_plain(tree),
    ensures
        functions(tree) == Seq::<Function>::empty(),
    decreases tree,
{
    match tree {
        Tree::Neg(a) => {
            lemma_plain_functions(*a);
        },
        Tree::Bin(_, a, b) => {
            lemma_plain_functions(*a);
            lemma_plain_functions(*b);
        },
        Tree::Call(_, args) => {
            lemma_all_plain_functions(args);
        },
        _ => {},
    }
    assert(functions(tree) =~= Seq::<Function>::empty());
}

proof fn lemma_all_plain_functions(trees: Seq<Tree<u64>>)
    requires
        are_plain(trees),
    ensures
        functions_of_all(trees) == Seq::<Function>::empty(),
    decreases trees,
{
    if trees.len() > 0 {
        lemma_all_plain_functions(trees.drop_last());
        lemma_plain_functions(trees.last());
    }
    assert(functions_of_all(trees) =~= Seq::<Function>::empty());
}

proof fn lemma_functions_substituted(tree: Tree<u64>, x: Seq<char>, r: Tree<u64>)
    requires
        functions(r) == Seq::<Function>::empty(),
    ensures
        functions(substituted(tree, x, r)) == functions(tree),
    decreases tree,
{
    match tree {
        Tree::Num(_) => {},
        Tree::Var(_) => {},
        Tree::Neg(a) => {
            lemma_functions_substituted(*a, x, r);
        },
        Tree::Bin(_, a, b) => {
            lemma_functions_substituted(*a, x, r);
            lemma_functions_substituted(*b, x, r);
        },
        Tree::Call(_, args) => {
            lemma_functions_all_substituted(args, x, r);
        },
        Tree::Let { name, rhs, then } => {
            lemma_functions_substituted(*rhs, x, r);
            lemma_functions_substituted(*then, x, r);
        },
        Tree::Fn { then, .. } => {
            lemma_functions_substituted(*then, x, r);
        },
    }
}

proof fn lemma_functions_all_substituted(trees: Seq<Tree<u64>>, x: Seq<char>, r: Tree<u64>)
    requires
        functions(r) == Seq::<Function>::empty(),
    ensures
        functions_of_all(all_substituted(trees, x, r)) == functions_of_all(trees),
    decreases trees,
{
    if trees.len() > 0 {
        let rest = trees.drop_last();
        lemma_functions_all_substituted(rest, x, r);
        lemma_functions_substituted(trees.last(), x, r);
        let done = all_substituted(rest, x, r);
        assert(done.push(substituted(trees.last(), x, r)).drop_last() =~= done);
    }
}

/// A definition.
pub enum Definition {
    Variable { name: Seq<char>, rhs: Tree<u64> },
    Function(Function),
}

/// Definitions, in order, and a program behind them.
pub open spec fn behind(definitions: Seq<Definition>, tree: Tree<u64>) -> Tree<u64>
    decreases definitions.len(),
{
    if definitions.len() == 0 {
        tree
    } else {
        let then = Box::new(behind(definitions.drop_first(), tree));
        match definitions[0] {
            Definition::Variable { name, rhs } => Tree::Let { name, rhs: Box::new(rhs), then },
            Definition::Function(f) => {
                Tree::Fn { name: f.name, args: f.args, body: Box::new(f.body), then }
            },
        }
    }
}

proof fn lemma_behind_functions(definitions: Seq<Definition>, a: Tree<u64>, b: Tree<u64>)
    requires
        functions(a) == functions(b),
    ensures
        functions(behind(definitions, a)) == functions(behind(definitions, b)),
    decreases definitions.len(),
{
    if definitions.len() > 0 {
        lemma_behind_functions(definitions.drop_first(), a, b);
    }
}

proof fn lemma_behind_size(definitions: Seq<Definition>, a: Tree<u64>, b: Tree<u64>)
    ensures
        emits(behind(definitions, a)) - emits(behind(definitions, b)) == emits(a) - emits(b),
        binds(behind(definitions, a)) - binds(behind(definitions, b)) == binds(a) - binds(b),
    decreases definitions.len(),
{
    if definitions.len() > 0 {
        lemma_behind_size(definitions.drop_first(), a, b);
    }
}

proof fn lemma_behind_fault(
    definitions: Seq<Definition>,
    x: Seq<char>,
    rhs: Tree<u64>,
    then: Tree<u64>,
    scope: Set<Seq<char>>,
    arities: Map<Seq<char>, usize>,
)
    requires
        fault(
            behind(
                definitions,
                Tree::Let { name: x, rhs: Box::new(rhs), then: Box::new(then) },
            ),
            scope,
            arities,
        ) is None,
    ensures
        fault(behind(definitions, substituted(then, x, rhs)), scope, arities) is None,
    decreases definitions.len(),
{
    if definitions.len() > 0 {
        let fewer = definitions.drop_first();
        match definitions[0] {
            Definition::Variable { name, .. } => {
                lemma_behind_fault(fewer, x, rhs, then, scope.insert(name), arities);
            },
            Definition::Function(_) => {
                lemma_behind_fault(fewer, x, rhs, then, scope, arities);
            },
        }
    } else {
        lemma_fault_substituted(then, x, rhs, scope, arities);
    }
}

proof fn lemma_behind_eval<V>(
    definitions: Seq<Definition>,
    x: Seq<char>,
    rhs: Tree<u64>,
    then: Tree<u64>,
    env: Map<Seq<char>, V>,
    fs: Seq<Function>,
    arith: Arith<V>,
    depth: nat,
)
    requires
        !rebinds(then, rhs),
    ensures
        ({
            let p = behind(
                definitions,
                Tree::Let { name: x, rhs: Box::new(rhs), then: Box::new(then) },
            );
            let q = behind(definitions, substituted(then, x, rhs));
            eval(p, env, fs, arith, depth) is Some ==> eval(q, env, fs, arith, depth) == eval(
                p,
                env,
                fs,
                arith,
                depth,
            )
        }),
    decreases definitions.len(),
{
    if definitions.len() > 0 {
        let fewer = definitions.drop_first();
        match definitions[0] {
            Definition::Variable { name, rhs: r } => {
                match eval(r, env, fs, arith, depth) {
                    Some(w) => {
                        lemma_behind_eval(
                            fewer,
                            x,
                            rhs,
                            then,
                            env.insert(name, w),
                            fs,
                            arith,
                            depth,
                        );
                    },
                    None => {},
                }
            },
            Definition::Function(_) => {
                lemma_behind_eval(fewer, x, rhs, then, env, fs, arith, depth);
            },
        }
    } else {
        match eval(rhs, env, fs, arith, depth) {
            Some(v) => {
                lemma_eval_substituted(then, x, rhs, env, v, fs, arith, depth);
            },
            None => {},
        }
    }
}

/// The definition of a variable is a substitution: with its right side, in which no definition is,
/// put in place of the variable, a program without fault stays one and keeps its value, unless a
/// variable of the right side is defined anew. The right side is then compiled as often as the
/// variable was used, and not once; where the code is not too long with that, the program can be
/// compiled as before.
pub proof fn law_a_variable_is_its_right_side<V>(
    definitions: Seq<Definition>,
    x: Seq<char>,
    rhs: Tree<u64>,
    then: Tree<u64>,
    arith: Arith<V>,
    depth: nat,
)
    requires
        is_plain(rhs),
        !rebinds(then, rhs),
        program_fault(
            behind(
                definitions,
                Tree::Let { name: x, rhs: Box::new(rhs), then: Box::new(then) },
            ),
        ) is None,
    ensures
        ({
            let p = behind(
                definitions,
                Tree::Let { name: x, rhs: Box::new(rhs), then: Box::new(then) },
            );
            let q = behind(definitions, substituted(then, x, rhs));
            &&& program_fault(q) is None
            &&& functions(q) == functions(p)
            &&& value(p, arith, depth) is Some ==> value(q, arith, depth) == value(p, arith, depth)
            &&& emits(q) + emits(rhs) == emits(p) + uses(then, x) * emits(rhs)
            &&& program_fits(p) && emits(q) < MAX_INSTRUCTIONS ==> program_fits(q)
        }),
{
    let last = Tree::Let { name: x, rhs: Box::new(rhs), then: Box::new(then) };
    let p = behind(definitions, last);
    let q = behind(definitions, substituted(then, x, rhs));
    lemma_plain_functions(rhs);
    lemma_functions_substituted(then, x, rhs);
    assert(functions(last) =~= functions(then));
    lemma_behind_functions(definitions, last, substituted(then, x, rhs));
    lemma_plain_binds(rhs);
    lemma_size_substituted(then, x, rhs);
    lemma_behind_size(definitions, last, substituted(then, x, rhs));
    let none = main_function(p).args.to_set();
    lemma_behind_fault(definitions, x, rhs, then, none, program_names(p).arities);
    lemma_behind_eval(
        definitions,
        x,
        rhs,
        then,
        Map::<Seq<char>, V>::empty(),
        functions(p),
        arith,
        depth,
    );
}

} // verus!

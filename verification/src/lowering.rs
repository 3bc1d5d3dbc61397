//! What an expression is compiled to.

use crate::ast::Tree;
use crate::error::Fault;
use crate::ir::{Callee, Convention, Decl, Draft, Instr, Shape, MAX_PARAMETERS};
use vstd::prelude::*;

verus! {

/// The functions that a program can call: the number of each in its module, and how many
/// arguments it takes.
pub struct Names {
    pub funcs: Map<Seq<char>, u32>,
    pub arities: Map<Seq<char>, usize>,
}

/// The type of a function that takes so many doubles and returns one.
pub open spec fn host_shape(params: nat) -> Shape {
    Shape { convention: Convention::Host, params, results: 1 }
}

/// The module knows every function that can be called, under its number and with its type.
pub open spec fn agree(decls: Seq<Decl>, names: Names) -> bool {
    forall|name: Seq<char>| #[trigger]
        names.arities.contains_key(name) ==> {
            &&& names.funcs.contains_key(name)
            &&& names.funcs[name] < decls.len()
            &&& decls[names.funcs[name] as int].shape == host_shape(names.arities[name] as nat)
        }
}

/// Compiles an expression at the end of a function: the function after it, and the value that
/// holds the result, or what is wrong with the expression. `scope` gives the variable that each
/// name stands for.
pub open spec fn lower(
    tree: Tree<u64>,
    draft: Draft,
    scope: Map<Seq<char>, u32>,
    names: Names,
) -> (Draft, Result<u32, Fault>)
    decreases tree,
{
    match tree {
        Tree::Num(bits) => {
            (draft.emit(Instr::Const { dst: draft.next(), bits }), Ok(draft.next()))
        },
        Tree::Var(name) => {
            if scope.contains_key(name) {
                (draft, Ok(draft.vars[scope[name] as int].unwrap()))
            } else {
                (draft, Err(Fault::VariableNotFound(name)))
            }
        },
        Tree::Neg(a) => {
            let (d, r) = lower(*a, draft, scope, names);
            match r {
                Err(fault) => (d, Err(fault)),
                Ok(src) => (d.emit(Instr::Neg { dst: d.next(), src }), Ok(d.next())),
            }
        },
        Tree::Bin(op, a, b) => {
            let (d, r) = lower(*a, draft, scope, names);
            match r {
                Err(fault) => (d, Err(fault)),
                Ok(lhs) => {
                    let (e, s) = lower(*b, d, scope, names);
                    match s {
                        Err(fault) => (e, Err(fault)),
                        Ok(rhs) => {
                            (e.emit(Instr::Bin { op, dst: e.next(), lhs, rhs }), Ok(e.next()))
                        },
                    }
                },
            }
        },
        Tree::Call(name, args) => {
            if !names.arities.contains_key(name) {
                (draft, Err(Fault::FunctionNotFound(name)))
            } else if args.len() != names.arities[name] {
                (
                    draft,
                    Err(
                        Fault::ArgumentCountMismatch {
                            name,
                            expected: names.arities[name] as nat,
                            found: args.len(),
                        },
                    ),
                )
            } else {
                let callee = names.funcs[name];
                let d = draft.import(
                    Callee { id: callee, shape: host_shape(names.arities[name] as nat) },
                );
                let (e, r) = lower_all(args, d, scope, names);
                match r {
                    Err(fault) => (e, Err(fault)),
                    Ok(args) => {
                        (e.emit(Instr::Call { dst: e.next(), callee, args }), Ok(e.next()))
                    },
                }
            }
        },
        Tree::Let { name, rhs, then } => {
            let (d, r) = lower(*rhs, draft, scope, names);
            match r {
                Err(fault) => (d, Err(fault)),
                Ok(value) => {
                    let var = d.vars.len() as u32;
                    lower(*then, d.declare().define(var, value), scope.insert(name, var), names)
                },
            }
        },
        Tree::Fn { then, .. } => lower(*then, draft, scope, names),
    }
}

/// Compiles expressions one after the other, up to the first with which something is wrong.
pub open spec fn lower_all(
    trees: Seq<Tree<u64>>,
    draft: Draft,
    scope: Map<Seq<char>, u32>,
    names: Names,
) -> (Draft, Result<Seq<u32>, Fault>)
    decreases trees,
{
    if trees.len() == 0 {
        (draft, Ok(Seq::empty()))
    } else {
        let (d, r) = lower_all(trees.drop_last(), draft, scope, names);
        match r {
            Err(fault) => (d, Err(fault)),
            Ok(values) => {
                let (e, s) = lower(trees.last(), d, scope, names);
                match s {
                    Err(fault) => (e, Err(fault)),
                    Ok(value) => (e, Ok(values.push(value))),
                }
            },
        }
    }
}

/// How many instructions an expression is compiled to.
pub open spec fn emits(tree: Tree<u64>) -> nat
    decreases tree,
{
    match tree {
        Tree::Num(_) => 1,
        Tree::Var(_) => 0,
        Tree::Neg(a) => emits(*a) + 1,
        Tree::Bin(_, a, b) => emits(*a) + emits(*b) + 1,
        Tree::Call(_, args) => emits_all(args) + 1,
        Tree::Let { rhs, then, .. } => emits(*rhs) + emits(*then),
        Tree::Fn { then, .. } => emits(*then),
    }
}

pub open spec fn emits_all(trees: Seq<Tree<u64>>) -> nat
    decreases trees,
{
    if trees.len() == 0 {
        0
    } else {
        emits_all(trees.drop_last()) + emits(trees.last())
    }
}

/// How many variables the code of an expression has.
pub open spec fn binds(tree: Tree<u64>) -> nat
    decreases tree,
{
    match tree {
        Tree::Num(_) => 0,
        Tree::Var(_) => 0,
        Tree::Neg(a) => binds(*a),
        Tree::Bin(_, a, b) => binds(*a) + binds(*b),
        Tree::Call(_, args) => binds_all(args),
        Tree::Let { rhs, then, .. } => binds(*rhs) + binds(*then) + 1,
        Tree::Fn { then, .. } => binds(*then),
    }
}

pub open spec fn binds_all(trees: Seq<Tree<u64>>) -> nat
    decreases trees,
{
    if trees.len() == 0 {
        0
    } else {
        binds_all(trees.drop_last()) + binds(trees.last())
    }
}

/// What is wrong with an expression, the first thing that compiling it comes to, where the names
/// in `scope` stand for variables.
pub open spec fn fault(
    tree: Tree<u64>,
    scope: Set<Seq<char>>,
    arities: Map<Seq<char>, usize>,
) -> Option<Fault>
    decreases tree,
{
    match tree {
        Tree::Num(_) => None,
        Tree::Var(name) => {
            if scope.contains(name) {
                None
            } else {
                Some(Fault::VariableNotFound(name))
            }
        },
        Tree::Neg(a) => fault(*a, scope, arities),
        Tree::Bin(_, a, b) => {
            match fault(*a, scope, arities) {
                Some(f) => Some(f),
                None => fault(*b, scope, arities),
            }
        },
        Tree::Call(name, args) => {
            if !arities.contains_key(name) {
                Some(Fault::FunctionNotFound(name))
            } else if args.len() != arities[name] {
                Some(
                    Fault::ArgumentCountMismatch {
                        name,
                        expected: arities[name] as nat,
                        found: args.len(),
                    },
                )
            } else {
                fault_in(args, scope, arities)
            }
        },
        Tree::Let { name, rhs, then } => {
            match fault(*rhs, scope, arities) {
                Some(f) => Some(f),
                None => fault(*then, scope.insert(name), arities),
            }
        },
        Tree::Fn { then, .. } => fault(*then, scope, arities),
    }
}

/// The first thing wrong with the expressions of a list.
pub open spec fn fault_in(
    trees: Seq<Tree<u64>>,
    scope: Set<Seq<char>>,
    arities: Map<Seq<char>, usize>,
) -> Option<Fault>
    decreases trees,
{
    if trees.len() == 0 {
        None
    } else {
        match fault_in(trees.drop_last(), scope, arities) {
            Some(f) => Some(f),
            None => fault(trees.last(), scope, arities),
        }
    }
}

/// A function can be added to: it has its block, which does not return yet, and every variable
/// stands for a value.
pub open spec fn ready(draft: Draft) -> bool {
    &&& draft.created && draft.entered && draft.sealed
    &&& draft.body.params.len() <= MAX_PARAMETERS
    &&& draft.values == draft.body.params.len() + draft.body.code.len()
    &&& forall|i: int| 0 <= i < draft.body.code.len() ==> !(#[trigger] draft.body.code[i] is Return)
    &&& forall|i: int|
        0 <= i < draft.vars.len() ==> (#[trigger] draft.vars[i] matches Some(value) && value
            < draft.values)
}

/// Every name in scope stands for a variable of the function.
pub open spec fn in_scope(draft: Draft, scope: Map<Seq<char>, u32>) -> bool {
    forall|name: Seq<char>| #[trigger]
        scope.contains_key(name) ==> scope[name] < draft.vars.len()
}

/// The function `e` goes on where `d` ends.
pub open spec fn extends(d: Draft, e: Draft) -> bool {
    &&& e.body.shape == d.body.shape
    &&& e.body.params == d.body.params
    &&& d.body.code.is_prefix_of(e.body.code)
    &&& d.vars.is_prefix_of(e.vars)
    &&& d.callees.is_prefix_of(e.callees)
}

/// Compiling keeps a function such that it can be added to, only adds to it, no more than
/// [`emits`] and [`binds`] say, and fails exactly where [`fault`] says.
pub proof fn lemma_lower(
    tree: Tree<u64>,
    draft: Draft,
    scope: Map<Seq<char>, u32>,
    names: Names,
)
    requires
        ready(draft),
        in_scope(draft, scope),
        draft.vars.len() + binds(tree) <= u32::MAX,
        draft.body.code.len() + emits(tree) < crate::ir::MAX_INSTRUCTIONS,
    ensures
        ({
            let (d, r) = lower(tree, draft, scope, names);
            &&& ready(d)
            &&& extends(draft, d)
            &&& d.body.code.len() <= draft.body.code.len() + emits(tree)
            &&& d.callees.len() <= draft.callees.len() + emits(tree)
            &&& d.vars.len() <= draft.vars.len() + binds(tree)
            &&& r matches Ok(value) ==> value < d.values
            &&& match fault(tree, scope.dom(), names.arities) {
                Some(f) => r == Err::<u32, Fault>(f),
                None => r is Ok,
            }
        }),
    decreases tree,
{
    match tree {
        Tree::Num(_) => {},
        Tree::Var(_) => {},
        Tree::Neg(a) => {
            lemma_lower(*a, draft, scope, names);
        },
        Tree::Bin(_, a, b) => {
            lemma_lower(*a, draft, scope, names);
            let (d, r) = lower(*a, draft, scope, names);
            if r is Ok {
                lemma_lower(*b, d, scope, names);
            }
        },
        Tree::Call(name, args) => {
            if names.arities.contains_key(name) && args.len() == names.arities[name] {
                let d = draft.import(
                    Callee {
                        id: names.funcs[name],
                        shape: host_shape(names.arities[name] as nat),
                    },
                );
                lemma_lower_all(args, d, scope, names);
            }
        },
        Tree::Let { name, rhs, then } => {
            lemma_lower(*rhs, draft, scope, names);
            let (d, r) = lower(*rhs, draft, scope, names);
            if r is Ok {
                let var = d.vars.len() as u32;
                assert(scope.insert(name, var).dom() =~= scope.dom().insert(name));
                lemma_lower(
                    *then,
                    d.declare().define(var, r->Ok_0),
                    scope.insert(name, var),
                    names,
                );
            }
        },
        Tree::Fn { then, .. } => {
            lemma_lower(*then, draft, scope, names);
        },
    }
}

/// [`lemma_lower`] for a list of expressions.
pub proof fn lemma_lower_all(
    trees: Seq<Tree<u64>>,
    draft: Draft,
    scope: Map<Seq<char>, u32>,
    names: Names,
)
    requires
        ready(draft),
        in_scope(draft, scope),
        draft.vars.len() + binds_all(trees) <= u32::MAX,
        draft.body.code.len() + emits_all(trees) < crate::ir::MAX_INSTRUCTIONS,
    ensures
        ({
            let (d, r) = lower_all(trees, draft, scope, names);
            &&& ready(d)
            &&& extends(draft, d)
            &&& d.body.code.len() <= draft.body.code.len() + emits_all(trees)
            &&& d.callees.len() <= draft.callees.len() + emits_all(trees)
            &&& d.vars.len() <= draft.vars.len() + binds_all(trees)
            &&& r matches Ok(values) ==> values.len() == trees.len() && forall|i: int|
                0 <= i < values.len() ==> #[trigger] values[i] < d.values
            &&& match fault_in(trees, scope.dom(), names.arities) {
                Some(f) => r == Err::<Seq<u32>, Fault>(f),
                None => r is Ok,
            }
        }),
    decreases trees,
{
    if trees.len() > 0 {
        lemma_lower_all(trees.drop_last(), draft, scope, names);
        let (d, r) = lower_all(trees.drop_last(), draft, scope, names);
        if r is Ok {
            lemma_lower(trees.last(), d, scope, names);
        }
    }
}

/// A function with this number can be called.
pub open spec fn callable(names: Names, id: u32) -> bool {
    exists|name: Seq<char>| #[trigger]
        names.arities.contains_key(name) && names.funcs[name] == id
}

/// The code calls none but the functions that can be called.
pub open spec fn calls_only(code: Seq<Instr>, names: Names) -> bool {
    forall|i: int|
        0 <= i < code.len() ==> (#[trigger] code[i] matches Instr::Call { callee, .. } ==> callable(
            names,
            callee,
        ))
}

/// An expression is compiled to calls of none but the functions that can be called.
pub proof fn lemma_lower_calls(
    tree: Tree<u64>,
    draft: Draft,
    scope: Map<Seq<char>, u32>,
    names: Names,
)
    requires
        calls_only(draft.body.code, names),
    ensures
        calls_only(lower(tree, draft, scope, names).0.body.code, names),
    decreases tree,
{
    match tree {
        Tree::Num(_) => {},
        Tree::Var(_) => {},
        Tree::Neg(a) => {
            lemma_lower_calls(*a, draft, scope, names);
        },
        Tree::Bin(_, a, b) => {
            lemma_lower_calls(*a, draft, scope, names);
            let (d, r) = lower(*a, draft, scope, names);
            lemma_lower_calls(*b, d, scope, names);
        },
        Tree::Call(name, args) => {
            if names.arities.contains_key(name) && args.len() == names.arities[name] {
                let d = draft.import(
                    Callee {
                        id: names.funcs[name],
                        shape: host_shape(names.arities[name] as nat),
                    },
                );
                lemma_lower_all_calls(args, d, scope, names);
                assert(callable(names, names.funcs[name]));
            }
        },
        Tree::Let { name, rhs, then } => {
            lemma_lower_calls(*rhs, draft, scope, names);
            let (d, r) = lower(*rhs, draft, scope, names);
            if r is Ok {
                let var = d.vars.len() as u32;
                lemma_lower_calls(
                    *then,
                    d.declare().define(var, r->Ok_0),
                    scope.insert(name, var),
                    names,
                );
            }
        },
        Tree::Fn { then, .. } => {
            lemma_lower_calls(*then, draft, scope, names);
        },
    }
}

/// [`lemma_lower_calls`] for a list of expressions.
pub proof fn lemma_lower_all_calls(
    trees: Seq<Tree<u64>>,
    draft: Draft,
    scope: Map<Seq<char>, u32>,
    names: Names,
)
    requires
        calls_only(draft.body.code, names),
    ensures
        calls_only(lower_all(trees, draft, scope, names).0.body.code, names),
    decreases trees,
{
    if trees.len() > 0 {
        lemma_lower_all_calls(trees.drop_last(), draft, scope, names);
        let (d, r) = lower_all(trees.drop_last(), draft, scope, names);
        lemma_lower_calls(trees.last(), d, scope, names);
    }
}

} // verus!

//! What the values of programs are, which functions a program defines, and which programs can be
//! compiled.

use crate::ast::{is_reading, size, size_of_all, Op, Tree};
use crate::equivalence::are_distinct;
use crate::ir::{Body, Instr};
use crate::lowering::{binds, binds_all, emits, emits_all};
use crate::program::{
    function_fits, functions, functions_of_all, has_function, main_function, program_fits, Function,
};
use crate::scoping::{free, law_only_free_variables_make_values, mean_the_same};
use crate::semantics::{bind, eval, eval_all, execute, function_named, run, Arith};
use vstd::prelude::*;

verus! {

/// Numbers, variables, operations and definitions have the values that they are written for. An
/// operation has none where one of its operands has none.
pub proof fn law_operations_have_their_values<V>(
    a: Tree<u64>,
    b: Tree<u64>,
    op: Op,
    bits: u64,
    name: Seq<char>,
    env: Map<Seq<char>, V>,
    fs: Seq<Function>,
    arith: Arith<V>,
    depth: nat,
)
    ensures
        eval(Tree::Num(bits), env, fs, arith, depth) == Some((arith.num)(bits)),
        env.contains_key(name) ==> eval(Tree::Var(name), env, fs, arith, depth) == Some(env[name]),
        !env.contains_key(name) ==> eval(Tree::Var(name), env, fs, arith, depth) is None,
        match (eval(a, env, fs, arith, depth), eval(b, env, fs, arith, depth)) {
            (Some(x), Some(y)) => {
                &&& eval(Tree::Neg(Box::new(a)), env, fs, arith, depth) == Some((arith.neg)(x))
                &&& eval(Tree::Bin(op, Box::new(a), Box::new(b)), env, fs, arith, depth) == Some(
                    (arith.bin)(op, x, y),
                )
            },
            (x, _) => {
                &&& eval(Tree::Neg(Box::new(a)), env, fs, arith, depth) is None <==> x is None
                &&& eval(Tree::Bin(op, Box::new(a), Box::new(b)), env, fs, arith, depth) is None
            },
        },
        match eval(a, env, fs, arith, depth) {
            Some(x) => eval(
                Tree::Let { name, rhs: Box::new(a), then: Box::new(b) },
                env,
                fs,
                arith,
                depth,
            ) == eval(b, env.insert(name, x), fs, arith, depth),
            None => eval(
                Tree::Let { name, rhs: Box::new(a), then: Box::new(b) },
                env,
                fs,
                arith,
                depth,
            ) is None,
        },
{
}

/// The values of arguments, one by one.
proof fn lemma_eval_all<V>(
    args: Seq<Tree<u64>>,
    xs: Seq<V>,
    env: Map<Seq<char>, V>,
    fs: Seq<Function>,
    arith: Arith<V>,
    depth: nat,
)
    requires
        xs.len() == args.len(),
        forall|i: int|
            0 <= i < args.len() ==> eval(#[trigger] args[i], env, fs, arith, depth) == Some(xs[i]),
    ensures
        eval_all(args, env, fs, arith, depth) == Some(xs),
    decreases args.len(),
{
    if args.len() > 0 {
        let rest = args.drop_last();
        assert forall|i: int| 0 <= i < rest.len() implies eval(
            #[trigger] rest[i],
            env,
            fs,
            arith,
            depth,
        ) == Some(xs.drop_last()[i]) by {
            assert(rest[i] == args[i]);
        }
        lemma_eval_all(rest, xs.drop_last(), env, fs, arith, depth);
        assert(eval(args[args.len() - 1], env, fs, arith, depth) == Some(xs.last()));
        assert(xs.drop_last().push(xs.last()) =~= xs);
    } else {
        assert(xs =~= Seq::empty());
    }
}

/// The name stands for the value at the last place at which it is among the keys.
proof fn lemma_bind<V>(keys: Seq<Seq<char>>, xs: Seq<V>, name: Seq<char>)
    ensures
        bind(keys, xs).contains_key(name) == keys.contains(name),
        forall|i: int|
            0 <= i < keys.len() && #[trigger] keys[i] == name && (forall|j: int|
                i < j < keys.len() ==> #[trigger] keys[j] != name) ==> bind(keys, xs)[name] == xs[i],
    decreases keys.len(),
{
    if keys.len() > 0 {
        let rest = keys.drop_last();
        lemma_bind(rest, xs, name);
        if rest.contains(name) {
            let i = choose|i: int| 0 <= i < rest.len() && rest[i] == name;
            assert(keys[i] == name);
        }
        if keys.last() == name {
            assert(keys[keys.len() - 1] == name);
        } else if keys.contains(name) {
            let i = choose|i: int| 0 <= i < keys.len() && keys[i] == name;
            assert(rest[i] == name);
        }
        assert forall|i: int|
            0 <= i < keys.len() && #[trigger] keys[i] == name && (forall|j: int|
                i < j < keys.len() ==> #[trigger] keys[j] != name) implies bind(keys, xs)[name]
            == xs[i] by {
            if i < rest.len() {
                assert(keys[keys.len() - 1] != name);
                assert(rest[i] == name);
                assert forall|j: int| i < j < rest.len() implies #[trigger] rest[j] != name by {
                    assert(keys[j] != name);
                }
            }
        }
    }
}

/// Each parameter of a function stands for the argument at its place. Of parameters with one name
/// the last counts.
pub open spec fn hands_over<V>(
    params: Seq<Seq<char>>,
    xs: Seq<V>,
    env: Map<Seq<char>, V>,
) -> bool {
    forall|i: int|
        0 <= i < params.len() && (forall|j: int|
            i < j < params.len() ==> #[trigger] params[j] != params[i]) ==> env.contains_key(
            #[trigger] params[i],
        ) && env[params[i]] == xs[i]
}

/// Some parameter of a name is the last of that name.
proof fn lemma_last_of_name(params: Seq<Seq<char>>, name: Seq<char>) -> (i: int)
    requires
        params.contains(name),
    ensures
        0 <= i < params.len(),
        params[i] == name,
        forall|j: int| i < j < params.len() ==> #[trigger] params[j] != name,
    decreases params.len(),
{
    let last = params.len() - 1;
    if params[last] == name {
        last
    } else {
        let rest = params.drop_last();
        let k = choose|k: int| 0 <= k < params.len() && params[k] == name;
        assert(rest[k] == name);
        let i = lemma_last_of_name(rest, name);
        assert forall|j: int| i < j < params.len() implies #[trigger] params[j] != name by {
            if j < last {
                assert(rest[j] != name);
            }
        }
        i
    }
}

/// A call has the value of the function's body where the parameters stand for the values of the
/// arguments, each for the one at its place, whatever else stands for what.
pub proof fn law_a_call_is_the_body_of_its_function<V>(
    i: int,
    args: Seq<Tree<u64>>,
    xs: Seq<V>,
    inner: Map<Seq<char>, V>,
    env: Map<Seq<char>, V>,
    fs: Seq<Function>,
    arith: Arith<V>,
    depth: nat,
)
    requires
        are_distinct(fs),
        0 <= i < fs.len(),
        args.len() == fs[i].args.len(),
        xs.len() == args.len(),
        forall|k: int|
            0 <= k < args.len() ==> eval(#[trigger] args[k], env, fs, arith, depth + 1) == Some(
                xs[k],
            ),
        free(fs[i].body).subset_of(fs[i].args.to_set()),
        hands_over(fs[i].args, xs, inner),
    ensures
        eval(Tree::Call(fs[i].name, args), env, fs, arith, depth + 1) == eval(
            fs[i].body,
            inner,
            fs,
            arith,
            depth,
        ),
{
    let f = fs[i];
    lemma_eval_all(args, xs, env, fs, arith, depth + 1);
    assert(has_function(fs, f.name));
    let j = choose|j: int| 0 <= j < fs.len() && (#[trigger] fs[j]).name == f.name;
    if i < j {
        assert(fs[i].name != fs[j].name);
    } else if j < i {
        assert(fs[j].name != fs[i].name);
    }
    assert(function_named(fs, f.name) == f);
    let bound = bind(f.args, xs);
    assert forall|name: Seq<char>| #[trigger]
        free(f.body).contains(name) implies bound.contains_key(name) == inner.contains_key(name) && (
    bound.contains_key(name) ==> bound[name] == inner[name]) by {
        assert(f.args.to_set().contains(name));
        lemma_bind(f.args, xs, name);
        let k = lemma_last_of_name(f.args, name);
        assert(inner.contains_key(f.args[k]));
    }
    assert(mean_the_same(free(f.body), bound, inner));
    law_only_free_variables_make_values(f.body, bound, inner, fs, arith, depth);
}

/// A call has no value where there is no function of the name, or only one that takes another number
/// of arguments.
pub proof fn law_a_wrong_call_has_no_value<V>(
    name: Seq<char>,
    args: Seq<Tree<u64>>,
    env: Map<Seq<char>, V>,
    fs: Seq<Function>,
    arith: Arith<V>,
    depth: nat,
)
    requires
        forall|i: int|
            0 <= i < fs.len() && (#[trigger] fs[i]).name == name ==> fs[i].args.len() != args.len(),
    ensures
        eval(Tree::Call(name, args), env, fs, arith, depth) is None,
{
    if has_function(fs, name) {
        let i = choose|i: int| 0 <= i < fs.len() && (#[trigger] fs[i]).name == name;
        assert(fs[i].args.len() != args.len());
    }
}

/// Instructions are carried out one after the other: what each comes to rests on the values before
/// it, and it adds its own and changes no other.
pub proof fn law_instructions_are_carried_out<V>(
    bodies: Map<u32, Body>,
    code: Seq<Instr>,
    instr: Instr,
    start: Map<u32, V>,
    arith: Arith<V>,
    depth: nat,
)
    ensures
        execute(bodies, Seq::empty(), start, arith, depth) == Some(start),
        execute(bodies, code, start, arith, depth + 1) matches Some(values) ==> {
            let after = execute(bodies, code.push(instr), start, arith, depth + 1);
            match instr {
                Instr::Const { dst, bits } => after == Some(values.insert(dst, (arith.num)(bits))),
                Instr::Neg { dst, src } => after == Some(
                    values.insert(dst, (arith.neg)(values[src])),
                ),
                Instr::Bin { op, dst, lhs, rhs } => after == Some(
                    values.insert(dst, (arith.bin)(op, values[lhs], values[rhs])),
                ),
                Instr::Call { dst, callee, args } => {
                    let xs = Seq::new(args.len(), |i: int| values[args[i]]);
                    match run(bodies, callee, xs, arith, depth) {
                        Some(x) => after == Some(values.insert(dst, x)),
                        None => after is None,
                    }
                },
                Instr::Return { .. } => after is None,
            }
        },
{
    assert(code.push(instr).drop_last() =~= code);
    match execute(bodies, code, start, arith, depth + 1) {
        Some(values) => match instr {
            Instr::Call { args, .. } => {
                assert(args.map_values(|arg: u32| values[arg]) =~= Seq::new(
                    args.len(),
                    |i: int| values[args[i]],
                ));
            },
            _ => {},
        },
        None => {},
    }
}

/// A function returns the value that its last instruction names, after the instructions before it,
/// where its parameters hold the arguments.
pub proof fn law_functions_return<V>(
    bodies: Map<u32, Body>,
    id: u32,
    code: Seq<Instr>,
    value: u32,
    args: Seq<V>,
    values: Map<u32, V>,
    arith: Arith<V>,
    depth: nat,
)
    requires
        bodies.contains_key(id),
        bodies[id].code == code.push(Instr::Return { values: seq![value] }),
        bodies[id].params.len() == args.len(),
        execute(bodies, code, bind(bodies[id].params, args), arith, depth) == Some(values),
    ensures
        run(bodies, id, args, arith, depth) == Some(values[value]),
{
    assert(bodies[id].code.drop_last() =~= code);
}

/// The trees right below the top of a tree, in their order.
pub open spec fn parts(tree: Tree<u64>) -> Seq<Tree<u64>> {
    match tree {
        Tree::Num(_) => Seq::empty(),
        Tree::Var(_) => Seq::empty(),
        Tree::Neg(a) => seq![*a],
        Tree::Bin(_, a, b) => seq![*a, *b],
        Tree::Call(_, args) => args,
        Tree::Let { rhs, then, .. } => seq![*rhs, *then],
        Tree::Fn { body, then, .. } => seq![*body, *then],
    }
}

/// One of the functions that a tree defines is the one at its top, if there is one, and the others
/// are those that its parts define.
pub proof fn law_functions_are_those_defined(tree: Tree<u64>, f: Function)
    ensures
        functions(tree).contains(f) <==> {
            ||| tree matches Tree::Fn { name, args, body, .. } && f == (Function {
                name,
                args,
                body: *body,
            })
            ||| exists|i: int|
                0 <= i < parts(tree).len() && functions(#[trigger] parts(tree)[i]).contains(f)
        },
        tree matches Tree::Fn { name, args, body, .. } ==> functions(tree)[0] == (Function {
            name,
            args,
            body: *body,
        }),
{
    let all = functions(tree);
    let ps = parts(tree);
    match tree {
        Tree::Num(_) => {},
        Tree::Var(_) => {},
        Tree::Neg(a) => {
            assert(ps[0] == *a);
        },
        Tree::Bin(_, a, b) => {
            lemma_contains_joined(functions(*a), functions(*b), f);
            assert(ps[0] == *a && ps[1] == *b);
        },
        Tree::Call(_, args) => {
            lemma_functions_of_all(args, f);
        },
        Tree::Let { rhs, then, .. } => {
            lemma_contains_joined(functions(*rhs), functions(*then), f);
            assert(ps[0] == *rhs && ps[1] == *then);
        },
        Tree::Fn { name, args, body, then } => {
            let top = seq![Function { name, args, body: *body }];
            lemma_contains_joined(top, functions(*body), f);
            lemma_contains_joined(top + functions(*body), functions(*then), f);
            assert(top[0] == (Function { name, args, body: *body }));
            assert(top.contains(f) <==> f == top[0]);
            assert(ps[0] == *body && ps[1] == *then);
        },
    }
}

proof fn lemma_contains_joined(a: Seq<Function>, b: Seq<Function>, f: Function)
    ensures
        (a + b).contains(f) <==> a.contains(f) || b.contains(f),
{
    if a.contains(f) {
        let i = choose|i: int| 0 <= i < a.len() && a[i] == f;
        assert((a + b)[i] == f);
    }
    if b.contains(f) {
        let i = choose|i: int| 0 <= i < b.len() && b[i] == f;
        assert((a + b)[a.len() + i] == f);
    }
}

proof fn lemma_functions_of_all(trees: Seq<Tree<u64>>, f: Function)
    ensures
        functions_of_all(trees).contains(f) <==> exists|i: int|
            0 <= i < trees.len() && functions(#[trigger] trees[i]).contains(f),
    decreases trees.len(),
{
    if trees.len() > 0 {
        let rest = trees.drop_last();
        lemma_functions_of_all(rest, f);
        lemma_contains_joined(functions_of_all(rest), functions(trees.last()), f);
        if functions_of_all(rest).contains(f) {
            let i = choose|i: int|
                0 <= i < rest.len() && functions(#[trigger] rest[i]).contains(f);
            assert(functions(trees[i]).contains(f));
        }
        if functions(trees.last()).contains(f) {
            assert(functions(trees[trees.len() - 1]).contains(f));
        }
        if exists|i: int| 0 <= i < trees.len() && functions(#[trigger] trees[i]).contains(f) {
            let i = choose|i: int|
                0 <= i < trees.len() && functions(#[trigger] trees[i]).contains(f);
            if i < rest.len() {
                assert(functions(rest[i]).contains(f));
            }
        }
    }
}

/// The code of an expression is no longer than the expression.
proof fn lemma_sizes(tree: Tree<u64>)
    ensures
        emits(tree) + binds(tree) <= size(tree),
    decreases tree,
{
    match tree {
        Tree::Num(_) => {},
        Tree::Var(_) => {},
        Tree::Neg(a) => {
            lemma_sizes(*a);
        },
        Tree::Bin(_, a, b) => {
            lemma_sizes(*a);
            lemma_sizes(*b);
        },
        Tree::Call(_, args) => {
            lemma_all_sizes(args);
        },
        Tree::Let { rhs, then, .. } => {
            lemma_sizes(*rhs);
            lemma_sizes(*then);
        },
        Tree::Fn { body, then, .. } => {
            lemma_sizes(*then);
        },
    }
}

proof fn lemma_all_sizes(trees: Seq<Tree<u64>>)
    ensures
        emits_all(trees) + binds_all(trees) <= size_of_all(trees),
    decreases trees,
{
    if trees.len() > 0 {
        lemma_all_sizes(trees.drop_last());
        lemma_sizes(trees.last());
    }
}

/// The functions of a tree are no more than its nodes, and each is smaller.
proof fn lemma_functions_small(tree: Tree<u64>)
    ensures
        functions(tree).len() <= size(tree),
        forall|i: int|
            0 <= i < functions(tree).len() ==> size((#[trigger] functions(tree)[i]).body) < size(
                tree,
            ),
    decreases tree,
{
    match tree {
        Tree::Num(_) => {},
        Tree::Var(_) => {},
        Tree::Neg(a) => {
            lemma_functions_small(*a);
        },
        Tree::Bin(_, a, b) => {
            lemma_functions_small(*a);
            lemma_functions_small(*b);
        },
        Tree::Call(_, args) => {
            lemma_all_functions_small(args);
        },
        Tree::Let { rhs, then, .. } => {
            lemma_functions_small(*rhs);
            lemma_functions_small(*then);
        },
        Tree::Fn { name, args, body, then } => {
            lemma_functions_small(*body);
            lemma_functions_small(*then);
            let top = seq![Function { name, args, body: *body }];
            let inner = top + functions(*body);
            assert forall|i: int| 0 <= i < functions(tree).len() implies size(
                (#[trigger] functions(tree)[i]).body,
            ) < size(tree) by {
                if i == 0 {
                    assert(functions(tree)[i] == top[0]);
                } else if i < inner.len() {
                    assert(functions(tree)[i] == functions(*body)[i - 1]);
                } else {
                    assert(functions(tree)[i] == functions(*then)[i - inner.len()]);
                }
            }
        },
    }
}

proof fn lemma_all_functions_small(trees: Seq<Tree<u64>>)
    ensures
        functions_of_all(trees).len() <= size_of_all(trees),
        forall|i: int|
            0 <= i < functions_of_all(trees).len() ==> size(
                (#[trigger] functions_of_all(trees)[i]).body,
            ) < size_of_all(trees),
    decreases trees,
{
    if trees.len() > 0 {
        lemma_all_functions_small(trees.drop_last());
        lemma_functions_small(trees.last());
    }
}

/// A program of fewer than some sixteen million nodes, whose functions have no more than 65536
/// parameters each, can be compiled.
pub proof fn law_small_programs_fit(tree: Tree<u64>)
    requires
        size(tree) < 0xff_ffff,
        forall|i: int|
            0 <= i < functions(tree).len() ==> (#[trigger] functions(tree)[i]).args.len()
                <= 0x1_0000,
    ensures
        program_fits(tree),
{
    lemma_functions_small(tree);
    lemma_sizes(tree);
    assert forall|i: int| 0 <= i < functions(tree).len() implies function_fits(
        #[trigger] functions(tree)[i],
    ) by {
        lemma_sizes(functions(tree)[i].body);
    }
    assert(function_fits(main_function(tree)));
}

/// A tree with other numbers.
pub open spec fn renumbered<N>(tree: Tree<N>, bits: spec_fn(N) -> u64) -> Tree<u64>
    decreases tree,
{
    match tree {
        Tree::Num(n) => Tree::Num(bits(n)),
        Tree::Var(name) => Tree::Var(name),
        Tree::Neg(a) => Tree::Neg(Box::new(renumbered(*a, bits))),
        Tree::Bin(op, a, b) => {
            Tree::Bin(op, Box::new(renumbered(*a, bits)), Box::new(renumbered(*b, bits)))
        },
        Tree::Call(name, args) => Tree::Call(name, all_renumbered(args, bits)),
        Tree::Let { name, rhs, then } => Tree::Let {
            name,
            rhs: Box::new(renumbered(*rhs, bits)),
            then: Box::new(renumbered(*then, bits)),
        },
        Tree::Fn { name, args, body, then } => Tree::Fn {
            name,
            args,
            body: Box::new(renumbered(*body, bits)),
            then: Box::new(renumbered(*then, bits)),
        },
    }
}

pub open spec fn all_renumbered<N>(trees: Seq<Tree<N>>, bits: spec_fn(N) -> u64) -> Seq<Tree<u64>>
    decreases trees,
{
    if trees.len() == 0 {
        Seq::empty()
    } else {
        all_renumbered(trees.drop_last(), bits).push(renumbered(trees.last(), bits))
    }
}

proof fn lemma_all_renumbered<N>(trees: Seq<Tree<N>>, bits: spec_fn(N) -> u64)
    ensures
        all_renumbered(trees, bits).len() == trees.len(),
        forall|i: int|
            0 <= i < trees.len() ==> #[trigger] all_renumbered(trees, bits)[i] == renumbered(
                trees[i],
                bits,
            ),
    decreases trees.len(),
{
    if trees.len() > 0 {
        lemma_all_renumbered(trees.drop_last(), bits);
    }
}

/// With its numbers read, a tree is the same tree but for the numbers, each of which has the bits
/// that it is read as.
pub proof fn law_a_reading_changes_numbers_only<N>(
    tree: Tree<N>,
    read: Tree<u64>,
    bits: spec_fn(N) -> u64,
)
    ensures
        is_reading(tree, read, |n: N, b: u64| b == bits(n)) <==> read == renumbered(tree, bits),
    decreases tree,
{
    let num = |n: N, b: u64| b == bits(n);
    match (tree, read) {
        (Tree::Neg(a), Tree::Neg(x)) => {
            law_a_reading_changes_numbers_only(*a, *x, bits);
        },
        (Tree::Bin(_, a, b), Tree::Bin(_, x, y)) => {
            law_a_reading_changes_numbers_only(*a, *x, bits);
            law_a_reading_changes_numbers_only(*b, *y, bits);
        },
        (Tree::Call(name, args), Tree::Call(text, xs)) => {
            lemma_all_renumbered(args, bits);
            assert forall|i: int| 0 <= i < args.len() && args.len() == xs.len() implies (is_reading(
                #[trigger] args[i],
                xs[i],
                num,
            ) <==> xs[i] == renumbered(args[i], bits)) by {
                law_a_reading_changes_numbers_only(args[i], xs[i], bits);
            }
            let all = all_renumbered(args, bits);
            if is_reading(tree, read, num) {
                assert forall|i: int| 0 <= i < args.len() implies #[trigger] xs[i] == all[i] by {
                    assert(is_reading(args[i], xs[i], num));
                }
                assert(xs =~= all);
            }
            if read == renumbered(tree, bits) {
                assert forall|i: int| 0 <= i < args.len() implies is_reading(
                    #[trigger] args[i],
                    xs[i],
                    num,
                ) by {
                    assert(all[i] == renumbered(args[i], bits));
                }
            }
        },
        (Tree::Let { rhs, then, .. }, Tree::Let { rhs: x, then: y, .. }) => {
            law_a_reading_changes_numbers_only(*rhs, *x, bits);
            law_a_reading_changes_numbers_only(*then, *y, bits);
        },
        (Tree::Fn { body, then, .. }, Tree::Fn { body: x, then: y, .. }) => {
            law_a_reading_changes_numbers_only(*body, *x, bits);
            law_a_reading_changes_numbers_only(*then, *y, bits);
        },
        _ => {},
    }
}

} // verus!

//! What programs and their code mean, and that the two agree.
//!
//! Nothing is assumed of arithmetic: the laws hold whatever numbers and operators are.

use crate::ast::{Op, Tree};
use crate::ir::{Body, Callee, Draft, Instr};
use crate::lowering::{
    binds, binds_all, emits, emits_all, extends, fault, fault_in, host_shape, in_scope, lemma_lower,
    lemma_lower_all, lower, lower_all, ready,
};
use crate::program::{
    body_of, compiled_up_to, duplicate, fault_of, first_fault, function_fits, functions,
    has_function, lemma_body, lemma_compiled, lemma_first_fault, lemma_no_fault, lemma_numbered,
    lemma_param_scope, lowered, main_function, numbered, opened, param_scope, program_bodies,
    program_fault, program_fits, Function,
};
use vstd::prelude::*;

verus! {

/// An arithmetic on values of `V`.
#[verifier::reject_recursive_types(V)]
pub struct Arith<V> {
    /// The number with these bits.
    pub num: spec_fn(u64) -> V,
    pub neg: spec_fn(V) -> V,
    pub bin: spec_fn(Op, V, V) -> V,
}

/// Keys and their values, in order. Of a key that occurs twice the last value counts.
pub open spec fn bind<K, V>(keys: Seq<K>, values: Seq<V>) -> Map<K, V>
    decreases keys.len(),
{
    if keys.len() == 0 {
        Map::empty()
    } else {
        bind(keys.drop_last(), values).insert(keys.last(), values[keys.len() - 1])
    }
}

/// The function with the name.
pub open spec fn function_named(fs: Seq<Function>, name: Seq<char>) -> Function {
    fs[choose|i: int| 0 <= i < fs.len() && (#[trigger] fs[i]).name == name]
}

/// The value of an expression, where names stand for the values in `env`. There is none where a
/// name stands for nothing, a function is called that there is not, or with the wrong number of
/// arguments, or where calls nest deeper than `depth`.
pub open spec fn eval<V>(
    tree: Tree<u64>,
    env: Map<Seq<char>, V>,
    fs: Seq<Function>,
    arith: Arith<V>,
    depth: nat,
) -> Option<V>
    decreases depth, tree,
{
    match tree {
        Tree::Num(bits) => Some((arith.num)(bits)),
        Tree::Var(name) => {
            if env.contains_key(name) {
                Some(env[name])
            } else {
                None
            }
        },
        Tree::Neg(a) => match eval(*a, env, fs, arith, depth) {
            Some(x) => Some((arith.neg)(x)),
            None => None,
        },
        Tree::Bin(op, a, b) => match eval(*a, env, fs, arith, depth) {
            Some(x) => match eval(*b, env, fs, arith, depth) {
                Some(y) => Some((arith.bin)(op, x, y)),
                None => None,
            },
            None => None,
        },
        Tree::Call(name, args) => match eval_all(args, env, fs, arith, depth) {
            Some(values) => {
                let f = function_named(fs, name);
                if depth > 0 && has_function(fs, name) && f.args.len() == args.len() {
                    eval(f.body, bind(f.args, values), fs, arith, (depth - 1) as nat)
                } else {
                    None
                }
            },
            None => None,
        },
        Tree::Let { name, rhs, then } => match eval(*rhs, env, fs, arith, depth) {
            Some(x) => eval(*then, env.insert(name, x), fs, arith, depth),
            None => None,
        },
        Tree::Fn { then, .. } => eval(*then, env, fs, arith, depth),
    }
}

/// The values of expressions.
pub open spec fn eval_all<V>(
    trees: Seq<Tree<u64>>,
    env: Map<Seq<char>, V>,
    fs: Seq<Function>,
    arith: Arith<V>,
    depth: nat,
) -> Option<Seq<V>>
    decreases depth, trees,
{
    if trees.len() == 0 {
        Some(Seq::empty())
    } else {
        match eval_all(trees.drop_last(), env, fs, arith, depth) {
            Some(values) => match eval(trees.last(), env, fs, arith, depth) {
                Some(x) => Some(values.push(x)),
                None => None,
            },
            None => None,
        }
    }
}

/// The value of a program.
pub open spec fn value<V>(tree: Tree<u64>, arith: Arith<V>, depth: nat) -> Option<V> {
    eval(tree, Map::empty(), functions(tree), arith, depth)
}

/// The values that a function has after its instructions `code`, none of which returns, where it
/// begins with the values `start`. There are none where calls nest deeper than `depth`.
pub open spec fn execute<V>(
    bodies: Map<u32, Body>,
    code: Seq<Instr>,
    start: Map<u32, V>,
    arith: Arith<V>,
    depth: nat,
) -> Option<Map<u32, V>>
    decreases depth, code.len(),
{
    if code.len() == 0 {
        Some(start)
    } else {
        match execute(bodies, code.drop_last(), start, arith, depth) {
            None => None,
            Some(values) => match code.last() {
                Instr::Const { dst, bits } => Some(values.insert(dst, (arith.num)(bits))),
                Instr::Neg { dst, src } => Some(values.insert(dst, (arith.neg)(values[src]))),
                Instr::Bin { op, dst, lhs, rhs } => {
                    Some(values.insert(dst, (arith.bin)(op, values[lhs], values[rhs])))
                },
                Instr::Call { dst, callee, args } => {
                    if depth == 0 {
                        None
                    } else {
                        match run(
                            bodies,
                            callee,
                            args.map_values(|arg: u32| values[arg]),
                            arith,
                            (depth - 1) as nat,
                        ) {
                            Some(x) => Some(values.insert(dst, x)),
                            None => None,
                        }
                    }
                },
                Instr::Return { .. } => None,
            },
        }
    }
}

/// What a function of a module returns when it is called with the arguments `args`. A call hands
/// its arguments over in order, whatever conventions the caller and the function name.
pub open spec fn run<V>(
    bodies: Map<u32, Body>,
    id: u32,
    args: Seq<V>,
    arith: Arith<V>,
    depth: nat,
) -> Option<V>
    decreases depth, bodies[id].code.len(),
{
    let body = bodies[id];
    if !bodies.contains_key(id) || !body.ended() || body.params.len() != args.len() {
        None
    } else {
        match execute(bodies, body.code.drop_last(), bind(body.params, args), arith, depth) {
            Some(values) => Some(values[body.code.last()->Return_values[0]]),
            None => None,
        }
    }
}

/// Functions with distinct names, with none of which anything is wrong, and whose code is not too
/// long.
pub open spec fn are_sound(fs: Seq<Function>) -> bool {
    &&& fs.len() <= u32::MAX
    &&& duplicate(fs) is None
    &&& first_fault(fs, numbered(fs).arities) is None
    &&& forall|i: int| 0 <= i < fs.len() ==> function_fits(#[trigger] fs[i])
}

/// A module defines the functions, in their order, whatever else it defines.
pub open spec fn has_code(bodies: Map<u32, Body>, fs: Seq<Function>) -> bool {
    forall|id: u32|
        id < fs.len() ==> #[trigger] bodies.contains_key(id) && bodies[id] == body_of(
            fs[id as int],
            numbered(fs),
        )
}

/// Instructions that do not come to an end do not with more behind them.
proof fn lemma_stuck<V>(
    bodies: Map<u32, Body>,
    code: Seq<Instr>,
    more: Seq<Instr>,
    start: Map<u32, V>,
    arith: Arith<V>,
    depth: nat,
)
    requires
        code.is_prefix_of(more),
        execute(bodies, code, start, arith, depth) is None,
    ensures
        execute(bodies, more, start, arith, depth) is None,
    decreases more.len(),
{
    if more.len() > code.len() {
        assert(code.is_prefix_of(more.drop_last()));
        lemma_stuck(bodies, code, more.drop_last(), start, arith, depth);
    } else {
        assert(code =~= more);
    }
}

/// One of the functions that can be called is found by its name, has its number in the code, and
/// nothing is wrong with it.
proof fn lemma_callee(fs: Seq<Function>, bodies: Map<u32, Body>, name: Seq<char>)
    requires
        are_sound(fs),
        has_code(bodies, fs),
        numbered(fs).arities.contains_key(name),
    ensures
        ({
            let names = numbered(fs);
            let f = function_named(fs, name);
            &&& has_function(fs, name)
            &&& names.arities[name] == f.args.len()
            &&& function_fits(f)
            &&& fault_of(f, names.arities) is None
            &&& bodies.contains_key(names.funcs[name])
            &&& bodies[names.funcs[name]] == body_of(f, names)
        }),
{
    lemma_numbered(fs);
    assert(has_function(fs, name));
    let i = choose|i: int| 0 <= i < fs.len() && (#[trigger] fs[i]).name == name;
    assert(function_fits(fs[i]));
    lemma_no_fault(fs, numbered(fs).arities, i);
    assert(bodies.contains_key(i as u32));
}

/// Every value that a function has so far is there.
pub open spec fn covers<V>(draft: Draft, values: Map<u32, V>) -> bool {
    forall|i: u32| i < draft.values ==> #[trigger] values.contains_key(i)
}

/// The names in scope stand for the values of their variables.
pub open spec fn matches_scope<V>(
    draft: Draft,
    scope: Map<Seq<char>, u32>,
    env: Map<Seq<char>, V>,
    values: Map<u32, V>,
) -> bool {
    &&& env.dom() == scope.dom()
    &&& forall|name: Seq<char>| #[trigger]
        scope.contains_key(name) ==> env[name]
            == values[draft.vars[scope[name] as int].unwrap()]
}

/// The code of an expression, behind code that ends with the values `values`, has the value of
/// the expression as its result, and leaves the values before it as they were. It comes to no end
/// exactly where the expression has no value.
#[verifier::rlimit(100)]
pub proof fn law_code_of_an_expression_has_its_value<V>(
    fs: Seq<Function>,
    bodies: Map<u32, Body>,
    tree: Tree<u64>,
    draft: Draft,
    scope: Map<Seq<char>, u32>,
    env: Map<Seq<char>, V>,
    start: Map<u32, V>,
    values: Map<u32, V>,
    arith: Arith<V>,
    depth: nat,
)
    requires
        are_sound(fs),
        has_code(bodies, fs),
        ready(draft),
        in_scope(draft, scope),
        draft.vars.len() + binds(tree) <= u32::MAX,
        draft.body.code.len() + emits(tree) < crate::ir::MAX_INSTRUCTIONS,
        fault(tree, scope.dom(), numbered(fs).arities) is None,
        execute(bodies, draft.body.code, start, arith, depth) == Some(values),
        covers(draft, values),
        matches_scope(draft, scope, env, values),
    ensures
        ({
            let (d, r) = lower(tree, draft, scope, numbered(fs));
            let after = execute(bodies, d.body.code, start, arith, depth);
            match eval(tree, env, fs, arith, depth) {
                None => after is None,
                Some(x) => {
                    &&& after is Some
                    &&& covers(d, after->Some_0)
                    &&& agrees_below(draft, values, after->Some_0)
                    &&& after->Some_0[r->Ok_0] == x
                },
            }
        }),
    decreases depth, tree, 0nat,
{
    let names = numbered(fs);
    lemma_lower(tree, draft, scope, names);
    match tree {
        Tree::Num(bits) => {
            let code = draft.body.code.push(Instr::Const { dst: draft.next(), bits });
            assert(code.drop_last() =~= draft.body.code);
        },
        Tree::Var(_) => {},
        Tree::Neg(a) => {
            lemma_lower(*a, draft, scope, names);
            law_code_of_an_expression_has_its_value(fs, bodies, *a, draft, scope, env, start, values, arith, depth);
            let (d, r) = lower(*a, draft, scope, names);
            let code = d.body.code.push(Instr::Neg { dst: d.next(), src: r->Ok_0 });
            assert(code.drop_last() =~= d.body.code);
        },
        Tree::Bin(op, a, b) => {
            lemma_lower(*a, draft, scope, names);
            law_code_of_an_expression_has_its_value(fs, bodies, *a, draft, scope, env, start, values, arith, depth);
            let (d, r) = lower(*a, draft, scope, names);
            lemma_lower(*b, d, scope, names);
            let (e, s) = lower(*b, d, scope, names);
            let code = e.body.code.push(
                Instr::Bin { op, dst: e.next(), lhs: r->Ok_0, rhs: s->Ok_0 },
            );
            assert(code.drop_last() =~= e.body.code);
            match execute(bodies, d.body.code, start, arith, depth) {
                None => {
                    lemma_stuck(bodies, d.body.code, e.body.code, start, arith, depth);
                },
                Some(middle) => {
                    assert(matches_scope(d, scope, env, middle)) by {
                        lemma_scope_kept(draft, d, scope, env, values, middle);
                    }
                    law_code_of_an_expression_has_its_value(fs, bodies, *b, d, scope, env, start, middle, arith, depth);
                },
            }
        },
        Tree::Call(name, args) => {
            let callee = names.funcs[name];
            let d = draft.import(
                Callee { id: callee, shape: host_shape(names.arities[name] as nat) },
            );
            assert(matches_scope(d, scope, env, values));
            lemma_lower_all(args, d, scope, names);
            lemma_lower_all_runs(fs, bodies, args, d, scope, env, start, values, arith, depth);
            let (e, r) = lower_all(args, d, scope, names);
            let code = e.body.code.push(
                Instr::Call { dst: e.next(), callee, args: r->Ok_0 },
            );
            assert(code.drop_last() =~= e.body.code);
            lemma_callee(fs, bodies, name);
            let f = function_named(fs, name);
            match execute(bodies, e.body.code, start, arith, depth) {
                None => {},
                Some(after) => {
                    let xs = eval_all(args, env, fs, arith, depth)->Some_0;
                    assert(r->Ok_0.map_values(|arg: u32| after[arg]) =~= xs);
                    if depth > 0 {
                        law_code_of_a_function_has_its_value(fs, bodies, f, callee, xs, arith, (depth - 1) as nat);
                    }
                },
            }
        },
        Tree::Let { name, rhs, then } => {
            lemma_lower(*rhs, draft, scope, names);
            law_code_of_an_expression_has_its_value(fs, bodies, *rhs, draft, scope, env, start, values, arith, depth);
            let (d, r) = lower(*rhs, draft, scope, names);
            let var = d.vars.len() as u32;
            let opened = d.declare().define(var, r->Ok_0);
            let inner = scope.insert(name, var);
            assert(inner.dom() =~= scope.dom().insert(name));
            lemma_lower(*then, opened, inner, names);
            match execute(bodies, d.body.code, start, arith, depth) {
                None => {
                    let e = lower(*then, opened, inner, names).0;
                    lemma_stuck(bodies, d.body.code, e.body.code, start, arith, depth);
                },
                Some(middle) => {
                    let x = middle[r->Ok_0];
                    lemma_scope_kept(draft, d, scope, env, values, middle);
                    assert(env.insert(name, x).dom() =~= inner.dom());
                    assert(matches_scope(opened, inner, env.insert(name, x), middle));
                    law_code_of_an_expression_has_its_value(
                        fs,
                        bodies,
                        *then,
                        opened,
                        inner,
                        env.insert(name, x),
                        start,
                        middle,
                        arith,
                        depth,
                    );
                },
            }
        },
        Tree::Fn { then, .. } => {
            law_code_of_an_expression_has_its_value(fs, bodies, *then, draft, scope, env, start, values, arith, depth);
        },
    }
}

/// The values that a function had are unchanged.
pub open spec fn agrees_below<V>(draft: Draft, values: Map<u32, V>, after: Map<u32, V>) -> bool {
    forall|i: u32| i < draft.values ==> #[trigger] after[i] == values[i]
}

/// More code leaves the names in scope what they stand for.
proof fn lemma_scope_kept<V>(
    draft: Draft,
    d: Draft,
    scope: Map<Seq<char>, u32>,
    env: Map<Seq<char>, V>,
    values: Map<u32, V>,
    after: Map<u32, V>,
)
    requires
        ready(draft),
        in_scope(draft, scope),
        extends(draft, d),
        matches_scope(draft, scope, env, values),
        agrees_below(draft, values, after),
    ensures
        matches_scope(d, scope, env, after),
{
    assert forall|name: Seq<char>| #[trigger] scope.contains_key(name) implies env[name]
        == after[d.vars[scope[name] as int].unwrap()] by {
        let var = scope[name] as int;
        assert(draft.vars[var] is Some);
        assert(d.vars[var] == draft.vars[var]);
    }
}

/// [`law_code_of_an_expression_has_its_value`] for a list of expressions.
proof fn lemma_lower_all_runs<V>(
    fs: Seq<Function>,
    bodies: Map<u32, Body>,
    trees: Seq<Tree<u64>>,
    draft: Draft,
    scope: Map<Seq<char>, u32>,
    env: Map<Seq<char>, V>,
    start: Map<u32, V>,
    values: Map<u32, V>,
    arith: Arith<V>,
    depth: nat,
)
    requires
        are_sound(fs),
        has_code(bodies, fs),
        ready(draft),
        in_scope(draft, scope),
        draft.vars.len() + binds_all(trees) <= u32::MAX,
        draft.body.code.len() + emits_all(trees) < crate::ir::MAX_INSTRUCTIONS,
        fault_in(trees, scope.dom(), numbered(fs).arities) is None,
        execute(bodies, draft.body.code, start, arith, depth) == Some(values),
        covers(draft, values),
        matches_scope(draft, scope, env, values),
    ensures
        ({
            let (d, r) = lower_all(trees, draft, scope, numbered(fs));
            let after = execute(bodies, d.body.code, start, arith, depth);
            match eval_all(trees, env, fs, arith, depth) {
                None => after is None,
                Some(xs) => {
                    &&& after is Some
                    &&& covers(d, after->Some_0)
                    &&& agrees_below(draft, values, after->Some_0)
                    &&& xs.len() == trees.len()
                    &&& r->Ok_0.len() == trees.len()
                    &&& forall|i: int|
                        0 <= i < trees.len() ==> after->Some_0[#[trigger] r->Ok_0[i]] == xs[i]
                },
            }
        }),
    decreases depth, trees, 0nat,
{
    let names = numbered(fs);
    if trees.len() > 0 {
        let rest = trees.drop_last();
        lemma_lower_all(rest, draft, scope, names);
        lemma_lower_all_runs(fs, bodies, rest, draft, scope, env, start, values, arith, depth);
        let (d, r) = lower_all(rest, draft, scope, names);
        lemma_lower(trees.last(), d, scope, names);
        let (e, s) = lower(trees.last(), d, scope, names);
        match execute(bodies, d.body.code, start, arith, depth) {
            None => {
                lemma_stuck(bodies, d.body.code, e.body.code, start, arith, depth);
            },
            Some(middle) => {
                lemma_scope_kept(draft, d, scope, env, values, middle);
                law_code_of_an_expression_has_its_value(
                    fs,
                    bodies,
                    trees.last(),
                    d,
                    scope,
                    env,
                    start,
                    middle,
                    arith,
                    depth,
                );
            },
        }
    }
}

/// The names of a function's parameters stand for its arguments.
proof fn lemma_bound<V>(args: Seq<Seq<char>>, xs: Seq<V>)
    requires
        args.len() <= xs.len() <= crate::ir::MAX_PARAMETERS,
    ensures
        bind(args, xs).dom() == param_scope(args).dom(),
        forall|name: Seq<char>| #[trigger]
            param_scope(args).contains_key(name) ==> param_scope(args)[name] < args.len() && bind(
                args,
                xs,
            )[name] == xs[param_scope(args)[name] as int],
    decreases args.len(),
{
    if args.len() > 0 {
        let rest = args.drop_last();
        lemma_bound(rest, xs);
        assert forall|name: Seq<char>| #[trigger] param_scope(args).contains_key(name) implies {
            &&& param_scope(args)[name] < args.len()
            &&& bind(args, xs)[name] == xs[param_scope(args)[name] as int]
        } by {
            if name != args.last() {
                assert(param_scope(rest).contains_key(name));
            }
        }
    }
    assert(bind(args, xs).dom() =~= param_scope(args).dom());
}

/// The values of a function's parameters are its arguments.
proof fn lemma_bound_params<V>(xs: Seq<V>, n: nat, i: u32)
    requires
        i < n <= crate::ir::MAX_PARAMETERS,
    ensures
        bind(Seq::new(n, |i: int| i as u32), xs).contains_key(i),
        bind(Seq::new(n, |i: int| i as u32), xs)[i] == xs[i as int],
    decreases n,
{
    let keys = Seq::new(n, |i: int| i as u32);
    let fewer = (n - 1) as nat;
    assert(keys.drop_last() =~= Seq::new(fewer, |i: int| i as u32));
    assert(keys.last() == fewer as u32);
    if i < fewer {
        lemma_bound_params(xs, fewer, i);
    }
}

/// The code of a function returns the value of the function's body, where its parameters stand
/// for the arguments.
pub proof fn law_code_of_a_function_has_its_value<V>(
    fs: Seq<Function>,
    bodies: Map<u32, Body>,
    f: Function,
    id: u32,
    xs: Seq<V>,
    arith: Arith<V>,
    depth: nat,
)
    requires
        are_sound(fs),
        has_code(bodies, fs),
        function_fits(f),
        fault_of(f, numbered(fs).arities) is None,
        bodies.contains_key(id),
        bodies[id] == body_of(f, numbered(fs)),
        xs.len() == f.args.len(),
    ensures
        run(bodies, id, xs, arith, depth) == eval(
            f.body,
            bind(f.args, xs),
            fs,
            arith,
            depth,
        ),
    decreases depth, f.body, 1nat,
{
    let names = numbered(fs);
    let n = f.args.len();
    let draft = opened(n);
    let scope = param_scope(f.args);
    let start = bind(draft.body.params, xs);
    lemma_param_scope(f.args);
    lemma_body(f, names);
    lemma_bound(f.args, xs);
    lemma_lower(f.body, draft, scope, names);
    assert(covers(draft, start)) by {
        assert forall|i: u32| i < draft.values implies #[trigger] start.contains_key(i) by {
            lemma_bound_params(xs, n, i);
        }
    }
    assert forall|name: Seq<char>| #[trigger] scope.contains_key(name) implies bind(f.args, xs)[name]
        == start[draft.vars[scope[name] as int].unwrap()] by {
        lemma_bound_params(xs, n, scope[name]);
    }
    assert(matches_scope(draft, scope, bind(f.args, xs), start));
    law_code_of_an_expression_has_its_value(fs, bodies, f.body, draft, scope, bind(f.args, xs), start, start, arith, depth);
    let (d, r) = lowered(f, names);
    let code = body_of(f, names).code;
    assert(code.drop_last() =~= d.body.code);
    assert(code.last() == Instr::Return { values: seq![r->Ok_0] });
}

/// Functions that are compiled are without fault, and the module has their code.
proof fn lemma_compiled_sound(bodies: Map<u32, Body>, fs: Seq<Function>)
    requires
        fs.len() <= u32::MAX,
        duplicate(fs) is None,
        forall|i: int| 0 <= i < fs.len() ==> function_fits(#[trigger] fs[i]),
        compiled_up_to(Map::empty(), bodies, fs, numbered(fs), fs.len() as int),
    ensures
        are_sound(fs),
        has_code(bodies, fs),
{
    lemma_compiled(fs, fs.len() as int);
    lemma_first_fault(fs, numbered(fs).arities, fs.len() as int);
}

/// Once the functions of a program are compiled, the code of each returns its value, whatever is
/// wrong with the expression at the end.
pub proof fn law_compiled_functions_have_their_values<V>(
    bodies: Map<u32, Body>,
    fs: Seq<Function>,
    id: u32,
    xs: Seq<V>,
    arith: Arith<V>,
    depth: nat,
)
    requires
        fs.len() <= u32::MAX,
        duplicate(fs) is None,
        forall|i: int| 0 <= i < fs.len() ==> function_fits(#[trigger] fs[i]),
        compiled_up_to(Map::empty(), bodies, fs, numbered(fs), fs.len() as int),
        id < fs.len(),
        xs.len() == fs[id as int].args.len(),
    ensures
        run(bodies, id, xs, arith, depth) == eval(
            fs[id as int].body,
            bind(fs[id as int].args, xs),
            fs,
            arith,
            depth,
        ),
{
    lemma_compiled_sound(bodies, fs);
    lemma_no_fault(fs, numbered(fs).arities, id as int);
    assert(function_fits(fs[id as int]));
    assert(bodies.contains_key(id));
    law_code_of_a_function_has_its_value(fs, bodies, fs[id as int], id, xs, arith, depth);
}

/// The code of a program returns the program's value. This holds in every arithmetic, and for
/// every bound on how deep calls nest: the code ends within it exactly where the program does.
pub proof fn law_code_has_the_value<V>(program: Tree<u64>, arith: Arith<V>, depth: nat)
    requires
        program_fits(program),
        program_fault(program) is None,
    ensures
        run(
            program_bodies(program),
            functions(program).len() as u32,
            Seq::empty(),
            arith,
            depth,
        ) == value(program, arith, depth),
{
    let fs = functions(program);
    let f = main_function(program);
    let id = fs.len() as u32;
    assert(fs.push(f)[id as int] == f);
    assert(has_code(program_bodies(program), fs));
    law_code_of_a_function_has_its_value(
        fs,
        program_bodies(program),
        f,
        id,
        Seq::<V>::empty(),
        arith,
        depth,
    );
    assert(bind(f.args, Seq::<V>::empty()) =~= Map::empty());
}

/// A value that an expression has where calls nest up to some depth, it has at every greater
/// depth.
pub proof fn law_depth_only_adds<V>(
    tree: Tree<u64>,
    env: Map<Seq<char>, V>,
    fs: Seq<Function>,
    arith: Arith<V>,
    depth: nat,
    more: nat,
)
    requires
        depth <= more,
        eval(tree, env, fs, arith, depth) is Some,
    ensures
        eval(tree, env, fs, arith, more) == eval(tree, env, fs, arith, depth),
    decreases depth, tree,
{
    match tree {
        Tree::Num(_) => {},
        Tree::Var(_) => {},
        Tree::Neg(a) => {
            law_depth_only_adds(*a, env, fs, arith, depth, more);
        },
        Tree::Bin(_, a, b) => {
            law_depth_only_adds(*a, env, fs, arith, depth, more);
            law_depth_only_adds(*b, env, fs, arith, depth, more);
        },
        Tree::Call(name, args) => {
            lemma_depth_only_adds(args, env, fs, arith, depth, more);
            let f = function_named(fs, name);
            let values = eval_all(args, env, fs, arith, depth)->Some_0;
            law_depth_only_adds(
                f.body,
                bind(f.args, values),
                fs,
                arith,
                (depth - 1) as nat,
                (more - 1) as nat,
            );
        },
        Tree::Let { name, rhs, then } => {
            law_depth_only_adds(*rhs, env, fs, arith, depth, more);
            let x = eval(*rhs, env, fs, arith, depth)->Some_0;
            law_depth_only_adds(*then, env.insert(name, x), fs, arith, depth, more);
        },
        Tree::Fn { then, .. } => {
            law_depth_only_adds(*then, env, fs, arith, depth, more);
        },
    }
}

/// [`law_depth_only_adds`] for a list of expressions.
proof fn lemma_depth_only_adds<V>(
    trees: Seq<Tree<u64>>,
    env: Map<Seq<char>, V>,
    fs: Seq<Function>,
    arith: Arith<V>,
    depth: nat,
    more: nat,
)
    requires
        depth <= more,
        eval_all(trees, env, fs, arith, depth) is Some,
    ensures
        eval_all(trees, env, fs, arith, more) == eval_all(trees, env, fs, arith, depth),
    decreases depth, trees,
{
    if trees.len() > 0 {
        lemma_depth_only_adds(trees.drop_last(), env, fs, arith, depth, more);
        law_depth_only_adds(trees.last(), env, fs, arith, depth, more);
    }
}

} // verus!

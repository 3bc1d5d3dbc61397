//! What a program is compiled to.

use crate::ast::{lemma_unfold, planted, texts, tree_of, trees_of, Arena, Node, NodeId, Tree};
use crate::error::Fault;
use crate::ir::{
    declared, declared_number, is_declared, number_of, Body, Convention, Decl, Draft, Instr,
    Linkage, Shape, MAX_INSTRUCTIONS, MAX_PARAMETERS,
};
use crate::lowering::{
    agree, binds, binds_all, callable, calls_only, emits, emits_all, fault, host_shape, in_scope,
    lemma_lower, lemma_lower_calls, lower, ready, Names,
};
use vstd::prelude::*;

verus! {

/// A function of a program.
pub struct Function {
    pub name: Seq<char>,
    pub args: Seq<Seq<char>>,
    pub body: Tree<u64>,
}

/// The functions that a program defines, each before those inside it and those after it.
pub open spec fn functions(tree: Tree<u64>) -> Seq<Function>
    decreases tree,
{
    match tree {
        Tree::Num(_) => Seq::empty(),
        Tree::Var(_) => Seq::empty(),
        Tree::Neg(a) => functions(*a),
        Tree::Bin(_, a, b) => functions(*a) + functions(*b),
        Tree::Call(_, args) => functions_of_all(args),
        Tree::Let { rhs, then, .. } => functions(*rhs) + functions(*then),
        Tree::Fn { name, args, body, then } => {
            seq![Function { name, args, body: *body }] + functions(*body) + functions(*then)
        },
    }
}

pub open spec fn functions_of_all(trees: Seq<Tree<u64>>) -> Seq<Function>
    decreases trees,
{
    if trees.len() == 0 {
        Seq::empty()
    } else {
        functions_of_all(trees.drop_last()) + functions(trees.last())
    }
}

/// The function that the expression at the end of a program is compiled to.
pub open spec fn main_function(tree: Tree<u64>) -> Function {
    Function { name: "__main"@, args: Seq::empty(), body: tree }
}

/// What a module and a compiler know of the functions of a program.
#[verifier::ext_equal]
pub struct Roster {
    pub decls: Seq<Decl>,
    pub names: Names,
}

/// Why a function is not entered in a roster.
pub enum Refusal {
    /// The program defines a function of that name already.
    Duplicate(Seq<char>),
    /// The module has a function of that name and another type.
    Clash,
}

/// A function that a program defines, as its module declares it.
pub open spec fn local_decl(f: Function) -> Decl {
    Decl { name: f.name, linkage: Linkage::Local, shape: host_shape(f.args.len()) }
}

/// The function that is run, as its module declares it.
pub open spec fn exported_decl(f: Function) -> Decl {
    Decl { linkage: Linkage::Export, ..local_decl(f) }
}

/// Enters a function in a roster.
pub open spec fn enroll(roster: Roster, f: Function) -> (Roster, Option<Refusal>) {
    if roster.names.arities.contains_key(f.name) {
        (roster, Some(Refusal::Duplicate(f.name)))
    } else {
        let decls = declared(roster.decls, local_decl(f));
        let arities = roster.names.arities.insert(f.name, f.args.len() as usize);
        match declared_number(roster.decls, local_decl(f)) {
            None => (Roster { decls, names: Names { arities, ..roster.names } }, Some(Refusal::Clash)),
            Some(number) => (
                Roster {
                    decls,
                    names: Names { arities, funcs: roster.names.funcs.insert(f.name, number as u32) },
                },
                None,
            ),
        }
    }
}

/// Enters functions in a roster, up to the first that is refused.
pub open spec fn enroll_all(roster: Roster, fs: Seq<Function>) -> (Roster, Option<Refusal>)
    decreases fs.len(),
{
    if fs.len() == 0 {
        (roster, None)
    } else {
        let (r, refusal) = enroll_all(roster, fs.drop_last());
        match refusal {
            Some(why) => (r, Some(why)),
            None => enroll(r, fs.last()),
        }
    }
}

/// Where a function of a list is refused, the rest of the list is not entered.
pub proof fn lemma_enroll_all_stops(roster: Roster, fs: Seq<Function>, i: int)
    requires
        0 <= i <= fs.len(),
    ensures
        enroll_all(roster, fs.take(i)).1 is Some ==> enroll_all(roster, fs) == enroll_all(
            roster,
            fs.take(i),
        ),
    decreases fs.len(),
{
    if i == fs.len() {
        assert(fs.take(i) =~= fs);
    } else {
        lemma_enroll_all_stops(roster, fs.drop_last(), i);
        assert(fs.drop_last().take(i) =~= fs.take(i));
    }
}

/// Every function that is noted with the number of its arguments has its number in the module.
pub open spec fn is_complete(names: Names) -> bool {
    forall|name: Seq<char>| #[trigger]
        names.arities.contains_key(name) ==> names.funcs.contains_key(name)
}

/// Entering functions leaves every function that is noted with its number, unless one clashes.
pub proof fn lemma_enrolled_complete(roster: Roster, fs: Seq<Function>)
    requires
        is_complete(roster.names),
        enroll_all(roster, fs).1 != Some(Refusal::Clash),
    ensures
        is_complete(enroll_all(roster, fs).0.names),
    decreases fs.len(),
{
    if fs.len() > 0 {
        lemma_enrolled_complete(roster, fs.drop_last());
    }
}

/// The first of the functions to be entered is noted then, even where it or another is refused.
pub proof fn lemma_enrolled_noted(roster: Roster, fs: Seq<Function>)
    requires
        fs.len() > 0,
    ensures
        enroll_all(roster, fs).0.names.arities.contains_key(fs[0].name),
    decreases fs.len(),
{
    if fs.len() > 1 {
        lemma_enrolled_noted(roster, fs.drop_last());
    } else {
        assert(enroll_all(roster, fs.drop_last()) == (roster, None::<Refusal>));
    }
}

/// A function of so many parameters, each of which is a variable, and without an instruction.
pub open spec fn opened(params: nat) -> Draft {
    Draft {
        body: Body {
            shape: Shape { convention: Convention::Fast, params, results: 1 },
            params: Seq::new(params, |i: int| i as u32),
            code: Seq::empty(),
        },
        created: true,
        entered: true,
        sealed: true,
        values: params,
        vars: Seq::new(params, |i: int| Some(i as u32)),
        callees: Seq::empty(),
    }
}

/// The variable of each parameter: the last one of that name.
pub open spec fn param_scope(args: Seq<Seq<char>>) -> Map<Seq<char>, u32>
    decreases args.len(),
{
    if args.len() == 0 {
        Map::empty()
    } else {
        param_scope(args.drop_last()).insert(args.last(), (args.len() - 1) as u32)
    }
}

/// The code of a function up to its return, and the value that it returns.
pub open spec fn lowered(f: Function, names: Names) -> (Draft, Result<u32, Fault>) {
    lower(f.body, opened(f.args.len()), param_scope(f.args), names)
}

/// What a function is compiled to.
pub open spec fn body_of(f: Function, names: Names) -> Body {
    let (draft, value) = lowered(f, names);
    draft.push(Instr::Return { values: seq![value->Ok_0] }).body
}

/// What is wrong with a function.
pub open spec fn fault_of(f: Function, arities: Map<Seq<char>, usize>) -> Option<Fault> {
    fault(f.body, f.args.to_set(), arities)
}

/// The code of a function is not too long for the code generator.
pub open spec fn function_fits(f: Function) -> bool {
    &&& f.args.len() <= MAX_PARAMETERS
    &&& emits(f.body) < MAX_INSTRUCTIONS
    &&& f.args.len() + binds(f.body) <= u32::MAX
}

/// The functions that a module defines after those of a list are compiled.
pub open spec fn compiled(
    bodies: Map<u32, Body>,
    fs: Seq<Function>,
    names: Names,
) -> Map<u32, Body>
    decreases fs.len(),
{
    if fs.len() == 0 {
        bodies
    } else {
        compiled(bodies, fs.drop_last(), names).insert(
            names.funcs[fs.last().name],
            body_of(fs.last(), names),
        )
    }
}

/// Nothing is wrong with the first `k` functions, and each of them has a number under which the
/// module defines nothing before it.
pub open spec fn can_compile(
    bodies: Map<u32, Body>,
    fs: Seq<Function>,
    names: Names,
    k: int,
) -> bool {
    forall|i: int|
        #![trigger fs[i]]
        0 <= i < k ==> {
            &&& fault_of(fs[i], names.arities) is None
            &&& !compiled(bodies, fs.take(i), names).contains_key(names.funcs[fs[i].name])
        }
}

/// The module that defined `before` now defines `after`, the first `k` functions of a list more.
pub open spec fn compiled_up_to(
    before: Map<u32, Body>,
    after: Map<u32, Body>,
    fs: Seq<Function>,
    names: Names,
    k: int,
) -> bool {
    &&& 0 <= k <= fs.len()
    &&& can_compile(before, fs, names, k)
    &&& after == compiled(before, fs.take(k), names)
}

/// One more function of a list is compiled.
pub proof fn lemma_compiled_next(
    before: Map<u32, Body>,
    after: Map<u32, Body>,
    fs: Seq<Function>,
    names: Names,
    k: int,
)
    requires
        compiled_up_to(before, after, fs, names, k),
        k < fs.len(),
        fault_of(fs[k], names.arities) is None,
        !after.contains_key(names.funcs[fs[k].name]),
    ensures
        compiled_up_to(
            before,
            after.insert(names.funcs[fs[k].name], body_of(fs[k], names)),
            fs,
            names,
            k + 1,
        ),
{
    let added = after.insert(names.funcs[fs[k].name], body_of(fs[k], names));
    assert(compiled(before, fs.take(k + 1), names) == added) by {
        assert(fs.take(k + 1).drop_last() =~= fs.take(k));
        assert(fs.take(k + 1).last() == fs[k]);
    }
    assert forall|i: int| #![trigger fs[i]] 0 <= i < k + 1 implies {
        &&& fault_of(fs[i], names.arities) is None
        &&& !compiled(before, fs.take(i), names).contains_key(names.funcs[fs[i].name])
    } by {}
}

/// Every function of a list is defined once the list is compiled.
pub proof fn lemma_compiled_grows(
    bodies: Map<u32, Body>,
    fs: Seq<Function>,
    names: Names,
    i: int,
)
    requires
        0 <= i < fs.len(),
    ensures
        compiled(bodies, fs, names).contains_key(names.funcs[fs[i].name]),
    decreases fs.len(),
{
    if i < fs.len() - 1 {
        lemma_compiled_grows(bodies, fs.drop_last(), names, i);
    }
}

/// Every function that is called is defined.
pub open spec fn is_linked(bodies: Map<u32, Body>) -> bool {
    forall|caller: u32, callee: u32|
        bodies.contains_key(caller) && #[trigger] bodies[caller].calls(callee)
            ==> bodies.contains_key(callee)
}

/// The parameters of a function are in scope, as variables of it.
pub proof fn lemma_param_scope(args: Seq<Seq<char>>)
    requires
        args.len() <= u32::MAX,
    ensures
        param_scope(args).dom() == args.to_set(),
        in_scope(opened(args.len()), param_scope(args)),
    decreases args.len(),
{
    if args.len() > 0 {
        let rest = args.drop_last();
        lemma_param_scope(rest);
        assert(args =~= rest.push(args.last()));
        assert forall|x: Seq<char>| args.to_set().contains(x) <==> rest.to_set().contains(x) || x
            == args.last() by {
            if rest.contains(x) {
                let i = choose|i: int| 0 <= i < rest.len() && rest[i] == x;
                assert(args[i] == x);
            }
            if x == args.last() {
                assert(args[args.len() - 1] == x);
            }
        }
        assert(param_scope(args).dom() =~= args.to_set());
        assert forall|x: Seq<char>| #[trigger] param_scope(args).contains_key(x) implies param_scope(
            args,
        )[x] < opened(args.len()).vars.len() by {
            if x != args.last() {
                assert(param_scope(rest).contains_key(x));
            }
        }
    } else {
        assert(param_scope(args).dom() =~= args.to_set());
    }
}

/// A function is compiled where nothing is wrong with it, to code that ends by returning and
/// calls none but the functions that can be called.
pub proof fn lemma_body(f: Function, names: Names)
    requires
        function_fits(f),
    ensures
        match fault_of(f, names.arities) {
            Some(fault) => lowered(f, names).1 == Err::<u32, Fault>(fault),
            None => {
                &&& lowered(f, names).1 is Ok
                &&& body_of(f, names).ended()
                &&& calls_only(body_of(f, names).code, names)
            },
        },
        ready(lowered(f, names).0),
        lowered(f, names).0.body.shape == opened(f.args.len()).body.shape,
        lowered(f, names).0.body.code.len() < MAX_INSTRUCTIONS,
        lowered(f, names).1 matches Ok(value) ==> value < lowered(f, names).0.values,
{
    lemma_param_scope(f.args);
    lemma_lower(f.body, opened(f.args.len()), param_scope(f.args), names);
    lemma_lower_calls(f.body, opened(f.args.len()), param_scope(f.args), names);
}

/// Every function that is called stays defined where one is added that calls none but the
/// functions that can be called.
pub proof fn lemma_linked(bodies: Map<u32, Body>, id: u32, body: Body, names: Names)
    requires
        is_linked(bodies),
        calls_only(body.code, names),
        forall|i: u32| #[trigger] callable(names, i) ==> bodies.contains_key(i),
    ensures
        is_linked(bodies.insert(id, body)),
{
    let after = bodies.insert(id, body);
    assert forall|caller: u32, callee: u32|
        after.contains_key(caller) && #[trigger] after[caller].calls(
            callee,
        ) implies after.contains_key(callee) by {
        if caller == id {
            assert(callable(names, callee));
        } else {
            assert(bodies[caller].calls(callee));
        }
    }
}

/// The name of the first function that has the name of an earlier one.
pub open spec fn duplicate(fs: Seq<Function>) -> Option<Seq<char>>
    decreases fs.len(),
{
    if fs.len() == 0 {
        None
    } else {
        match duplicate(fs.drop_last()) {
            Some(name) => Some(name),
            None => {
                if has_function(fs.drop_last(), fs.last().name) {
                    Some(fs.last().name)
                } else {
                    None
                }
            },
        }
    }
}

/// Some function has the name.
pub open spec fn has_function(fs: Seq<Function>, name: Seq<char>) -> bool {
    exists|i: int| 0 <= i < fs.len() && (#[trigger] fs[i]).name == name
}

/// What is wrong with the first function with which something is.
pub open spec fn first_fault(fs: Seq<Function>, arities: Map<Seq<char>, usize>) -> Option<Fault>
    decreases fs.len(),
{
    if fs.len() == 0 {
        None
    } else {
        match first_fault(fs.drop_last(), arities) {
            Some(fault) => Some(fault),
            None => fault_of(fs.last(), arities),
        }
    }
}

/// Functions by their names, numbered in their order.
pub open spec fn numbered(fs: Seq<Function>) -> Names
    decreases fs.len(),
{
    if fs.len() == 0 {
        Names { funcs: Map::empty(), arities: Map::empty() }
    } else {
        let names = numbered(fs.drop_last());
        Names {
            funcs: names.funcs.insert(fs.last().name, (fs.len() - 1) as u32),
            arities: names.arities.insert(fs.last().name, fs.last().args.len() as usize),
        }
    }
}

/// Nothing is known of any function.
pub open spec fn blank_roster() -> Roster {
    Roster { decls: Seq::empty(), names: Names { funcs: Map::empty(), arities: Map::empty() } }
}

/// The functions that a program can call.
pub open spec fn program_names(tree: Tree<u64>) -> Names {
    numbered(functions(tree))
}

/// What is wrong with a program: a function that is defined twice, or else the first thing that
/// compiling its functions, and its last expression after them, comes to.
pub open spec fn program_fault(tree: Tree<u64>) -> Option<Fault> {
    let fs = functions(tree);
    let arities = program_names(tree).arities;
    match duplicate(fs) {
        Some(name) => Some(Fault::DuplicateFunction(name)),
        None => match first_fault(fs, arities) {
            Some(fault) => Some(fault),
            None => fault_of(main_function(tree), arities),
        },
    }
}

/// Code is handed to the code generator: nothing is wrong with what is compiled first.
pub open spec fn reaches_generator(tree: Tree<u64>) -> bool {
    let fs = functions(tree).push(main_function(tree));
    duplicate(functions(tree)) is None && fault_of(fs[0], program_names(tree).arities) is None
}

/// The functions that a program is compiled to: its own, in their order, and last the one to be
/// run.
pub open spec fn program_bodies(tree: Tree<u64>) -> Map<u32, Body> {
    let fs = functions(tree).push(main_function(tree));
    Map::new(|id: u32| id < fs.len(), |id: u32| body_of(fs[id as int], program_names(tree)))
}

/// The code of a program is not too long for the code generator.
pub open spec fn program_fits(tree: Tree<u64>) -> bool {
    &&& functions(tree).len() < u32::MAX
    &&& forall|i: int|
        0 <= i < functions(tree).len() ==> function_fits(#[trigger] functions(tree)[i])
    &&& function_fits(main_function(tree))
}

/// Functions with distinct names are found by their names, each under its own number.
pub proof fn lemma_numbered(fs: Seq<Function>)
    requires
        duplicate(fs) is None,
        fs.len() <= u32::MAX,
    ensures
        forall|i: int|
            #![trigger fs[i]]
            0 <= i < fs.len() ==> {
                &&& numbered(fs).funcs.contains_key(fs[i].name)
                &&& numbered(fs).funcs[fs[i].name] == i
                &&& numbered(fs).arities.contains_key(fs[i].name)
                &&& numbered(fs).arities[fs[i].name] == fs[i].args.len() as usize
            },
        forall|name: Seq<char>|
            #![trigger numbered(fs).arities.contains_key(name)]
            #![trigger numbered(fs).funcs.contains_key(name)]
            numbered(fs).arities.contains_key(name) == has_function(fs, name)
                && numbered(fs).funcs.contains_key(name) == has_function(fs, name),
    decreases fs.len(),
{
    if fs.len() > 0 {
        let rest = fs.drop_last();
        lemma_numbered(rest);
        assert forall|i: int| #![trigger fs[i]] 0 <= i < fs.len() implies {
            &&& numbered(fs).funcs.contains_key(fs[i].name)
            &&& numbered(fs).funcs[fs[i].name] == i
            &&& numbered(fs).arities.contains_key(fs[i].name)
            &&& numbered(fs).arities[fs[i].name] == fs[i].args.len() as usize
        } by {
            if i < rest.len() {
                assert(rest[i] == fs[i]);
                assert(has_function(rest, fs[i].name));
            }
        }
        assert forall|name: Seq<char>| has_function(fs, name) == (has_function(rest, name) || name
            == fs.last().name) by {
            if has_function(rest, name) {
                let i = choose|i: int| 0 <= i < rest.len() && (#[trigger] rest[i]).name == name;
                assert(fs[i].name == name);
            }
            if name == fs.last().name {
                assert(fs[fs.len() - 1].name == name);
            }
            if has_function(fs, name) && name != fs.last().name {
                let i = choose|i: int| 0 <= i < fs.len() && (#[trigger] fs[i]).name == name;
                assert(rest[i].name == name);
            }
        }
    }
}

/// In a new module the functions of a program get their numbers in order, and a function is
/// refused exactly where it has the name of an earlier one.
pub proof fn lemma_enroll_new(fs: Seq<Function>)
    requires
        fs.len() <= u32::MAX,
    ensures
        match duplicate(fs) {
            Some(name) => enroll_all(blank_roster(), fs).1 == Some(Refusal::Duplicate(name)),
            None => enroll_all(blank_roster(), fs) == (
                Roster { decls: fs.map_values(|f: Function| local_decl(f)), names: numbered(fs) },
                None::<Refusal>,
            ),
        },
    decreases fs.len(),
{
    if fs.len() > 0 {
        let rest = fs.drop_last();
        lemma_enroll_new(rest);
        if duplicate(rest) is None {
            lemma_numbered(rest);
            let decls = rest.map_values(|f: Function| local_decl(f));
            let name = fs.last().name;
            assert(numbered(rest).arities.contains_key(name) == has_function(rest, name));
            if !has_function(rest, name) {
                assert(!is_declared(decls, name)) by {
                    if is_declared(decls, name) {
                        let i = choose|i: int|
                            0 <= i < decls.len() && (#[trigger] decls[i]).name == name;
                        assert(rest[i].name == name);
                    }
                }
                assert(decls.push(local_decl(fs.last())) =~= fs.map_values(
                    |f: Function| local_decl(f),
                ));
            }
        }
    } else {
        assert(fs.map_values(|f: Function| local_decl(f)) =~= Seq::<Decl>::empty());
    }
}

/// The functions of a program, once declared, can be called as they are declared.
pub proof fn lemma_numbered_agree(fs: Seq<Function>)
    requires
        duplicate(fs) is None,
        fs.len() <= u32::MAX,
        forall|i: int| 0 <= i < fs.len() ==> function_fits(#[trigger] fs[i]),
    ensures
        agree(fs.map_values(|f: Function| local_decl(f)), numbered(fs)),
{
    lemma_numbered(fs);
    let names = numbered(fs);
    let decls = fs.map_values(|f: Function| local_decl(f));
    assert forall|name: Seq<char>| #[trigger] names.arities.contains_key(name) implies {
        &&& names.funcs.contains_key(name)
        &&& names.funcs[name] < decls.len()
        &&& decls[names.funcs[name] as int].shape == host_shape(names.arities[name] as nat)
    } by {
        assert(has_function(fs, name));
        let i = choose|i: int| 0 <= i < fs.len() && (#[trigger] fs[i]).name == name;
        assert(function_fits(fs[i]));
    }
}

/// What the functions of a program with distinct names are compiled to.
pub proof fn lemma_compiled(fs: Seq<Function>, k: int)
    requires
        duplicate(fs) is None,
        fs.len() <= u32::MAX,
        0 <= k <= fs.len(),
    ensures
        compiled(Map::empty(), fs.take(k), numbered(fs)) == Map::new(
            |id: u32| id < k,
            |id: u32| body_of(fs[id as int], numbered(fs)),
        ),
    decreases k,
{
    let expected = Map::new(
        |id: u32| id < k,
        |id: u32| body_of(fs[id as int], numbered(fs)),
    );
    if k > 0 {
        lemma_compiled(fs, k - 1);
        lemma_numbered(fs);
        assert(fs.take(k).drop_last() =~= fs.take(k - 1));
        assert(fs.take(k).last() == fs[k - 1]);
    }
    assert(compiled(Map::empty(), fs.take(k), numbered(fs)) =~= expected);
}

/// The first `k` functions are without fault, so the first fault is that of the next.
pub proof fn lemma_first_fault(fs: Seq<Function>, arities: Map<Seq<char>, usize>, k: int)
    requires
        0 <= k <= fs.len(),
        forall|i: int| 0 <= i < k ==> fault_of(#[trigger] fs[i], arities) is None,
    ensures
        k == fs.len() ==> first_fault(fs, arities) is None,
        k < fs.len() && fault_of(fs[k], arities) is Some ==> first_fault(fs, arities) == fault_of(
            fs[k],
            arities,
        ),
    decreases fs.len(),
{
    if fs.len() > 0 {
        let rest = fs.drop_last();
        let j = if k == fs.len() {
            k - 1
        } else {
            k
        };
        assert forall|i: int| 0 <= i < j implies fault_of(#[trigger] rest[i], arities) is None by {
            assert(rest[i] == fs[i]);
        }
        lemma_first_fault(rest, arities, j);
        if k < fs.len() && k < rest.len() {
            assert(rest[k] == fs[k]);
        }
        if k == fs.len() {
            assert(fault_of(fs[k - 1], arities) is None);
        }
    }
}

/// Nothing is wrong with any function of a list with which nothing is wrong.
pub proof fn lemma_no_fault(fs: Seq<Function>, arities: Map<Seq<char>, usize>, i: int)
    requires
        first_fault(fs, arities) is None,
        0 <= i < fs.len(),
    ensures
        fault_of(fs[i], arities) is None,
    decreases fs.len(),
{
    if i < fs.len() - 1 {
        lemma_no_fault(fs.drop_last(), arities, i);
    }
}

/// No two functions of a module have one name.
pub open spec fn distinct_names(decls: Seq<Decl>) -> bool {
    forall|i: int, j: int|
        0 <= i < j < decls.len() ==> (#[trigger] decls[i]).name != (#[trigger] decls[j]).name
}

/// Declaring a function leaves the names of a module distinct.
pub proof fn law_names_stay_distinct(decls: Seq<Decl>, decl: Decl)
    requires
        distinct_names(decls),
    ensures
        distinct_names(declared(decls, decl)),
{
    if is_declared(decls, decl.name) {
        let i = number_of(decls, decl.name);
        assert(0 <= i < decls.len());
        assert forall|a: int, b: int|
            0 <= a < b < declared(decls, decl).len() implies (#[trigger] declared(
            decls,
            decl,
        )[a]).name != (#[trigger] declared(decls, decl)[b]).name by {
            assert(decls[a].name != decls[b].name);
        }
    } else {
        assert forall|a: int, b: int|
            0 <= a < b < declared(decls, decl).len() implies (#[trigger] declared(
            decls,
            decl,
        )[a]).name != (#[trigger] declared(decls, decl)[b]).name by {
            assert(decls[a].name != decl.name);
        }
    }
}

/// The functions of a program leave the names of a module distinct.
pub proof fn law_rosters_stay_distinct(roster: Roster, fs: Seq<Function>)
    requires
        distinct_names(roster.decls),
    ensures
        distinct_names(enroll_all(roster, fs).0.decls),
    decreases fs.len(),
{
    if fs.len() > 0 {
        law_rosters_stay_distinct(roster, fs.drop_last());
        law_names_stay_distinct(
            enroll_all(roster, fs.drop_last()).0.decls,
            local_decl(fs.last()),
        );
    }
}

/// The expression at the end of a program cannot be compiled in a module: the module has a function
/// of the name that it would get, and another type, or defines one.
pub open spec fn main_is_taken(
    decls: Seq<Decl>,
    bodies: Map<u32, Body>,
    tree: Tree<u64>,
) -> bool {
    match declared_number(decls, exported_decl(main_function(tree))) {
        Some(number) => bodies.contains_key(number as u32),
        None => true,
    }
}

/// In one module the expression at the end of a program is compiled at most once: where that has
/// been done, it cannot be done again, for the same program or another.
pub proof fn law_main_is_compiled_once(
    decls: Seq<Decl>,
    bodies: Map<u32, Body>,
    tree: Tree<u64>,
    id: u32,
    body: Body,
    next: Tree<u64>,
)
    requires
        distinct_names(decls),
        declared_number(decls, exported_decl(main_function(tree))) == Some(id as int),
    ensures
        main_is_taken(
            declared(decls, exported_decl(main_function(tree))),
            bodies.insert(id, body),
            next,
        ),
{
    let decl = exported_decl(main_function(tree));
    let after = declared(decls, decl);
    law_names_stay_distinct(decls, decl);
    if is_declared(decls, decl.name) {
        assert(0 <= number_of(decls, decl.name) < decls.len());
    }
    assert(after[id as int].name == decl.name && after[id as int].shape == decl.shape);
    assert(is_declared(after, decl.name));
    let i = number_of(after, decl.name);
    assert(i == id);
}

/// Once the functions of a program are compiled, every function that is called is defined.
pub proof fn lemma_compiled_linked(fs: Seq<Function>)
    requires
        duplicate(fs) is None,
        fs.len() <= u32::MAX,
        forall|i: int| 0 <= i < fs.len() ==> function_fits(#[trigger] fs[i]),
        forall|i: int|
            0 <= i < fs.len() ==> fault_of(#[trigger] fs[i], numbered(fs).arities) is None,
    ensures
        is_linked(compiled(Map::empty(), fs, numbered(fs))),
        forall|id: u32| #[trigger]
            callable(numbered(fs), id) ==> compiled(
                Map::empty(),
                fs,
                numbered(fs),
            ).contains_key(id),
{
    let names = numbered(fs);
    let bodies = compiled(Map::empty(), fs, names);
    lemma_compiled(fs, fs.len() as int);
    assert(fs.take(fs.len() as int) =~= fs);
    lemma_numbered(fs);
    assert forall|id: u32| #[trigger] callable(names, id) implies bodies.contains_key(id) by {
        let name = choose|name: Seq<char>| #[trigger]
            names.arities.contains_key(name) && names.funcs[name] == id;
        assert(has_function(fs, name));
        let i = choose|i: int| 0 <= i < fs.len() && (#[trigger] fs[i]).name == name;
        assert(names.funcs[fs[i].name] == i);
    }
    assert forall|caller: u32, callee: u32|
        bodies.contains_key(caller) && #[trigger] bodies[caller].calls(
            callee,
        ) implies bodies.contains_key(callee) by {
        let f = fs[caller as int];
        lemma_body(f, names);
        let i = choose|i: int|
            0 <= i < bodies[caller].code.len() && (#[trigger] bodies[caller].code[i] matches
                Instr::Call { callee: c, .. } && c == callee);
        assert(bodies[caller] == body_of(f, names));
        assert(callable(names, callee));
    }
}

/// A number, or the greatest that can be written, if it is greater.
pub open spec fn capped(n: nat) -> u64 {
    if n > u64::MAX {
        u64::MAX
    } else {
        n as u64
    }
}

/// How many instructions and variables the code of an expression has.
fn measure(nodes: &Arena, id: NodeId) -> (size: (u64, u64))
    requires
        planted(nodes@, id),
    ensures
        size.0 == capped(emits(tree_of(nodes@, id))),
        size.1 == capped(binds(tree_of(nodes@, id))),
    decreases tree_of(nodes@, id),
{
    proof {
        lemma_unfold(nodes@, id);
    }
    match nodes.get(id) {
        Node::Num(_) => (1, 0),
        Node::Var(_) => (0, 0),
        Node::Neg(a) => {
            let (code, vars) = measure(nodes, *a);
            (code.saturating_add(1), vars)
        },
        Node::Add(a, b) | Node::Sub(a, b) | Node::Mul(a, b) | Node::Div(a, b) => {
            let (code, vars) = measure(nodes, *a);
            let (more_code, more_vars) = measure(nodes, *b);
            (code.saturating_add(more_code).saturating_add(1), vars.saturating_add(more_vars))
        },
        Node::Call(_, args) => {
            let ghost trees = trees_of(nodes@, args@);
            let mut code: u64 = 0;
            let mut vars: u64 = 0;
            let mut i: usize = 0;
            assert(trees.take(0) =~= Seq::empty());
            while i < args.len()
                invariant
                    i <= args@.len(),
                    trees == trees_of(nodes@, args@),
                    tree_of(nodes@, id) is Call,
                    tree_of(nodes@, id)->Call_1 == trees,
                    forall|j: int| 0 <= j < args@.len() ==> planted(nodes@, #[trigger] args@[j]),
                    code == capped(emits_all(trees.take(i as int))),
                    vars == capped(binds_all(trees.take(i as int))),
                decreases args@.len() - i,
            {
                proof {
                    assert(trees.take(i + 1).drop_last() =~= trees.take(i as int));
                    assert(trees[i as int] == tree_of(nodes@, args@[i as int]));
                    assert(decreases_to!(tree_of(nodes@, id) => trees));
                    assert(decreases_to!(trees => trees[i as int]));
                }
                let (more_code, more_vars) = measure(nodes, args[i]);
                code = code.saturating_add(more_code);
                vars = vars.saturating_add(more_vars);
                i = i + 1;
            }
            assert(trees.take(i as int) =~= trees);
            (code.saturating_add(1), vars)
        },
        Node::Let { rhs, then, .. } => {
            let (code, vars) = measure(nodes, *rhs);
            let (more_code, more_vars) = measure(nodes, *then);
            (code.saturating_add(more_code), vars.saturating_add(more_vars).saturating_add(1))
        },
        Node::Fn { then, .. } => measure(nodes, *then),
    }
}

/// Whether the code of a function with so many parameters is not too long.
fn body_fits(nodes: &Arena, params: usize, body: NodeId) -> (answer: bool)
    requires
        planted(nodes@, body),
    ensures
        forall|f: Function|
            #![trigger function_fits(f)]
            f.args.len() == params && f.body == tree_of(nodes@, body) ==> answer == function_fits(f),
{
    let (code, vars) = measure(nodes, body);
    params <= MAX_PARAMETERS as usize && code < MAX_INSTRUCTIONS as u64 && vars <= u32::MAX as u64
        - params as u64
}

/// Whether the code of a program is not too long for the code generator.
pub fn fits(nodes: &Arena, root: NodeId) -> (answer: bool)
    requires
        planted(nodes@, root),
    ensures
        answer == program_fits(tree_of(nodes@, root)),
{
    let mut ids: Vec<NodeId> = Vec::new();
    collect_functions(nodes, root, &mut ids);
    let ghost fs = functions(tree_of(nodes@, root));
    assert(functions_at(nodes@, ids@) =~= fs);
    let main_fits = body_fits(nodes, 0, root);
    assert(main_fits == function_fits(main_function(tree_of(nodes@, root))));
    if ids.len() >= u32::MAX as usize || !main_fits {
        return false;
    }
    let mut i: usize = 0;
    while i < ids.len()
        invariant
            i <= ids@.len(),
            functions_at(nodes@, ids@) == fs,
            fs == functions(tree_of(nodes@, root)),
            forall|j: int| 0 <= j < ids@.len() ==> defines(nodes@, #[trigger] ids@[j]),
            forall|j: int| 0 <= j < i ==> function_fits(#[trigger] fs[j]),
        decreases ids@.len() - i,
    {
        proof {
            assert(fs[i as int] == function_at(nodes@, ids@[i as int]));
            lemma_unfold(nodes@, ids@[i as int]);
        }
        match nodes.get(ids[i]) {
            Node::Fn { args, body, .. } => {
                if !body_fits(nodes, args.len(), *body) {
                    assert(!function_fits(fs[i as int]));
                    return false;
                }
                assert(function_fits(fs[i as int]));
            },
            _ => {},
        }
        i = i + 1;
    }
    true
}

/// The node is the definition of a function.
pub open spec fn defines(nodes: Map<NodeId, Node>, id: NodeId) -> bool {
    planted(nodes, id) && nodes.contains_key(id) && nodes[id] is Fn
}

/// The function that a node defines.
pub open spec fn function_at(nodes: Map<NodeId, Node>, id: NodeId) -> Function {
    Function {
        name: nodes[id]->Fn_name@,
        args: texts(nodes[id]->Fn_args@),
        body: tree_of(nodes, nodes[id]->Fn_body),
    }
}

/// The functions that the nodes of a list define.
pub open spec fn functions_at(nodes: Map<NodeId, Node>, ids: Seq<NodeId>) -> Seq<Function> {
    ids.map_values(|id: NodeId| function_at(nodes, id))
}

/// Appends the nodes that define the functions of a program.
pub(crate) fn collect_functions(nodes: &Arena, id: NodeId, found: &mut Vec<NodeId>)
    requires
        planted(nodes@, id),
        forall|i: int| 0 <= i < old(found)@.len() ==> defines(nodes@, #[trigger] old(found)@[i]),
    ensures
        functions_at(nodes@, final(found)@) == functions_at(nodes@, old(found)@) + functions(
            tree_of(nodes@, id),
        ),
        forall|i: int| 0 <= i < final(found)@.len() ==> defines(nodes@, #[trigger] final(found)@[i]),
    decreases tree_of(nodes@, id),
{
    proof {
        lemma_unfold(nodes@, id);
    }
    match nodes.get(id) {
        Node::Num(_) | Node::Var(_) => {},
        Node::Neg(a) => collect_functions(nodes, *a, found),
        Node::Add(a, b) | Node::Sub(a, b) | Node::Mul(a, b) | Node::Div(a, b) => {
            collect_functions(nodes, *a, found);
            collect_functions(nodes, *b, found);
        },
        Node::Call(_, args) => {
            let ghost trees = trees_of(nodes@, args@);
            let mut i: usize = 0;
            assert(trees.take(0) =~= Seq::empty());
            while i < args.len()
                invariant
                    i <= args@.len(),
                    trees == trees_of(nodes@, args@),
                    tree_of(nodes@, id) is Call,
                    tree_of(nodes@, id)->Call_1 == trees,
                    forall|j: int| 0 <= j < args@.len() ==> planted(nodes@, #[trigger] args@[j]),
                    forall|j: int|
                        0 <= j < found@.len() ==> defines(nodes@, #[trigger] found@[j]),
                    functions_at(nodes@, found@) == functions_at(nodes@, old(found)@)
                        + functions_of_all(trees.take(i as int)),
                decreases args@.len() - i,
            {
                proof {
                    assert(trees.take(i + 1).drop_last() =~= trees.take(i as int));
                    assert(trees[i as int] == tree_of(nodes@, args@[i as int]));
                    assert(decreases_to!(tree_of(nodes@, id) => trees));
                    assert(decreases_to!(trees => trees[i as int]));
                }
                collect_functions(nodes, args[i], found);
                i = i + 1;
            }
            assert(trees.take(i as int) =~= trees);
        },
        Node::Let { rhs, then, .. } => {
            collect_functions(nodes, *rhs, found);
            collect_functions(nodes, *then, found);
        },
        Node::Fn { body, then, .. } => {
            found.push(id);
            proof {
                assert(functions_at(nodes@, found@) =~= functions_at(nodes@, old(found)@).push(
                    function_at(nodes@, id),
                ));
            }
            collect_functions(nodes, *body, found);
            collect_functions(nodes, *then, found);
        },
    }
}

} // verus!

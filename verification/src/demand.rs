//! What expressions and programs ask for, and that what is wrong with them is that they do not get
//! it.

use crate::ast::Tree;
use crate::equivalence::{are_distinct, lemma_distinct};
use crate::error::Fault;
use crate::ir::{Draft, MAX_INSTRUCTIONS};
use crate::lowering::{binds, emits, fault, fault_in, in_scope, lemma_lower, lower, ready, Names};
use crate::program::{
    duplicate, fault_of, functions, has_function, lemma_first_fault, lemma_no_fault, lemma_numbered,
    main_function, numbered, program_fault, program_names, Function,
};
use crate::scoping::{all_free, free};
use vstd::prelude::*;

verus! {

/// Something that an expression asks for.
pub enum Demand {
    /// A variable of that name.
    Variable(Seq<char>),
    /// A function of that name that takes so many arguments.
    Function(Seq<char>, nat),
}

/// What an expression asks for, in the order in which it is compiled, where the variables `bound`
/// are its own. A call asks for its function before its arguments ask for anything.
pub open spec fn demands(tree: Tree<u64>, bound: Set<Seq<char>>) -> Seq<Demand>
    decreases tree,
{
    match tree {
        Tree::Num(_) => Seq::empty(),
        Tree::Var(name) => if bound.contains(name) {
            Seq::empty()
        } else {
            seq![Demand::Variable(name)]
        },
        Tree::Neg(a) => demands(*a, bound),
        Tree::Bin(_, a, b) => demands(*a, bound) + demands(*b, bound),
        Tree::Call(name, args) => {
            seq![Demand::Function(name, args.len())] + all_demands(args, bound)
        },
        Tree::Let { name, rhs, then } => {
            demands(*rhs, bound) + demands(*then, bound.insert(name))
        },
        Tree::Fn { then, .. } => demands(*then, bound),
    }
}

/// What expressions ask for, one after the other.
pub open spec fn all_demands(trees: Seq<Tree<u64>>, bound: Set<Seq<char>>) -> Seq<Demand>
    decreases trees,
{
    if trees.len() == 0 {
        Seq::empty()
    } else {
        all_demands(trees.drop_last(), bound) + demands(trees.last(), bound)
    }
}

/// There is what is asked for: the variable is in scope, or there is a function of the name that
/// takes just so many arguments.
pub open spec fn is_met(
    demand: Demand,
    scope: Set<Seq<char>>,
    arities: Map<Seq<char>, usize>,
) -> bool {
    match demand {
        Demand::Variable(name) => scope.contains(name),
        Demand::Function(name, count) => arities.contains_key(name) && arities[name] == count,
    }
}

/// What is told of something that is asked for and that there is not.
pub open spec fn complaint(demand: Demand, arities: Map<Seq<char>, usize>) -> Fault {
    match demand {
        Demand::Variable(name) => Fault::VariableNotFound(name),
        Demand::Function(name, count) => if arities.contains_key(name) {
            Fault::ArgumentCountMismatch { name, expected: arities[name] as nat, found: count }
        } else {
            Fault::FunctionNotFound(name)
        },
    }
}

/// There is all that is asked for.
pub open spec fn are_met(
    list: Seq<Demand>,
    scope: Set<Seq<char>>,
    arities: Map<Seq<char>, usize>,
) -> bool {
    forall|i: int| 0 <= i < list.len() ==> is_met(#[trigger] list[i], scope, arities)
}

/// What is told is that there is not the first thing asked for that there is not.
pub open spec fn is_first_complaint(
    list: Seq<Demand>,
    scope: Set<Seq<char>>,
    arities: Map<Seq<char>, usize>,
    told: Fault,
) -> bool {
    exists|i: int|
        {
            &&& 0 <= i < list.len()
            &&& are_met(list.take(i), scope, arities)
            &&& !is_met(#[trigger] list[i], scope, arities)
            &&& told == complaint(list[i], arities)
        }
}

/// What is told, if anything is, is the first complaint.
pub open spec fn is_answer(
    list: Seq<Demand>,
    scope: Set<Seq<char>>,
    arities: Map<Seq<char>, usize>,
    told: Option<Fault>,
) -> bool {
    match told {
        None => are_met(list, scope, arities),
        Some(fault) => is_first_complaint(list, scope, arities, fault),
    }
}

/// The answer to two lists one after the other is the answer to the first, or else that to the
/// second.
proof fn lemma_answers(
    a: Seq<Demand>,
    b: Seq<Demand>,
    scope: Set<Seq<char>>,
    arities: Map<Seq<char>, usize>,
    first: Option<Fault>,
    second: Option<Fault>,
)
    requires
        is_answer(a, scope, arities, first),
        first is None ==> is_answer(b, scope, arities, second),
    ensures
        is_answer(
            a + b,
            scope,
            arities,
            if first is Some {
                first
            } else {
                second
            },
        ),
{
    let list = a + b;
    match first {
        Some(told) => {
            let i = choose|i: int|
                {
                    &&& 0 <= i < a.len()
                    &&& are_met(a.take(i), scope, arities)
                    &&& !is_met(#[trigger] a[i], scope, arities)
                    &&& told == complaint(a[i], arities)
                };
            assert(list.take(i) =~= a.take(i));
            assert(list[i] == a[i]);
        },
        None => match second {
            Some(told) => {
                let i = choose|i: int|
                    {
                        &&& 0 <= i < b.len()
                        &&& are_met(b.take(i), scope, arities)
                        &&& !is_met(#[trigger] b[i], scope, arities)
                        &&& told == complaint(b[i], arities)
                    };
                let k = a.len() + i;
                assert(list[k] == b[i]);
                assert forall|j: int| 0 <= j < k implies is_met(
                    #[trigger] list.take(k)[j],
                    scope,
                    arities,
                ) by {
                    if j < a.len() {
                        assert(list[j] == a[j]);
                    } else {
                        assert(list[j] == b.take(i)[j - a.len()]);
                    }
                }
            },
            None => {
                assert forall|j: int| 0 <= j < list.len() implies is_met(
                    #[trigger] list[j],
                    scope,
                    arities,
                ) by {
                    if j < a.len() {
                        assert(list[j] == a[j]);
                    } else {
                        assert(list[j] == b[j - a.len()]);
                    }
                }
            },
        },
    }
}

/// The answer to a single thing that is asked for.
proof fn lemma_answer(
    demand: Demand,
    scope: Set<Seq<char>>,
    arities: Map<Seq<char>, usize>,
)
    ensures
        is_answer(
            seq![demand],
            scope,
            arities,
            if is_met(demand, scope, arities) {
                None
            } else {
                Some(complaint(demand, arities))
            },
        ),
{
    assert(seq![demand][0] == demand);
    assert(seq![demand].take(0) =~= Seq::empty());
}

proof fn lemma_fault_answers(
    tree: Tree<u64>,
    scope: Set<Seq<char>>,
    bound: Set<Seq<char>>,
    arities: Map<Seq<char>, usize>,
)
    ensures
        is_answer(
            demands(tree, bound),
            scope,
            arities,
            fault(tree, scope.union(bound), arities),
        ),
    decreases tree,
{
    let all = scope.union(bound);
    match tree {
        Tree::Num(_) => {},
        Tree::Var(name) => {
            lemma_answer(Demand::Variable(name), scope, arities);
        },
        Tree::Neg(a) => {
            lemma_fault_answers(*a, scope, bound, arities);
        },
        Tree::Bin(_, a, b) => {
            lemma_fault_answers(*a, scope, bound, arities);
            lemma_fault_answers(*b, scope, bound, arities);
            lemma_answers(
                demands(*a, bound),
                demands(*b, bound),
                scope,
                arities,
                fault(*a, all, arities),
                fault(*b, all, arities),
            );
        },
        Tree::Call(name, args) => {
            let demand = Demand::Function(name, args.len());
            lemma_answer(demand, scope, arities);
            lemma_fault_in_answers(args, scope, bound, arities);
            lemma_answers(
                seq![demand],
                all_demands(args, bound),
                scope,
                arities,
                if is_met(demand, scope, arities) {
                    None
                } else {
                    Some(complaint(demand, arities))
                },
                fault_in(args, all, arities),
            );
        },
        Tree::Let { name, rhs, then } => {
            lemma_fault_answers(*rhs, scope, bound, arities);
            lemma_fault_answers(*then, scope, bound.insert(name), arities);
            assert(scope.union(bound.insert(name)) =~= all.insert(name));
            lemma_answers(
                demands(*rhs, bound),
                demands(*then, bound.insert(name)),
                scope,
                arities,
                fault(*rhs, all, arities),
                fault(*then, all.insert(name), arities),
            );
        },
        Tree::Fn { then, .. } => {
            lemma_fault_answers(*then, scope, bound, arities);
        },
    }
}

proof fn lemma_fault_in_answers(
    trees: Seq<Tree<u64>>,
    scope: Set<Seq<char>>,
    bound: Set<Seq<char>>,
    arities: Map<Seq<char>, usize>,
)
    ensures
        is_answer(
            all_demands(trees, bound),
            scope,
            arities,
            fault_in(trees, scope.union(bound), arities),
        ),
    decreases trees,
{
    if trees.len() > 0 {
        let all = scope.union(bound);
        let rest = trees.drop_last();
        lemma_fault_in_answers(rest, scope, bound, arities);
        lemma_fault_answers(trees.last(), scope, bound, arities);
        lemma_answers(
            all_demands(rest, bound),
            demands(trees.last(), bound),
            scope,
            arities,
            fault_in(rest, all, arities),
            fault(trees.last(), all, arities),
        );
    }
}

/// What is wrong with an expression is that there is not something that it asks for, and the first
/// such thing is told. Nothing is wrong with it exactly where there is all that it asks for.
pub proof fn law_the_first_complaint_is_told(
    tree: Tree<u64>,
    scope: Set<Seq<char>>,
    arities: Map<Seq<char>, usize>,
)
    ensures
        match fault(tree, scope, arities) {
            None => are_met(demands(tree, Set::empty()), scope, arities),
            Some(told) => is_first_complaint(demands(tree, Set::empty()), scope, arities, told),
        },
{
    lemma_fault_answers(tree, scope, Set::empty(), arities);
    assert(scope.union(Set::empty()) =~= scope);
}

/// The calls in an expression, outside the bodies of functions: the names of the functions, and how
/// many arguments each is called with.
pub open spec fn calls(tree: Tree<u64>) -> Set<(Seq<char>, nat)>
    decreases tree,
{
    match tree {
        Tree::Num(_) => Set::empty(),
        Tree::Var(_) => Set::empty(),
        Tree::Neg(a) => calls(*a),
        Tree::Bin(_, a, b) => calls(*a).union(calls(*b)),
        Tree::Call(name, args) => all_calls(args).insert((name, args.len())),
        Tree::Let { rhs, then, .. } => calls(*rhs).union(calls(*then)),
        Tree::Fn { then, .. } => calls(*then),
    }
}

pub open spec fn all_calls(trees: Seq<Tree<u64>>) -> Set<(Seq<char>, nat)>
    decreases trees,
{
    if trees.len() == 0 {
        Set::empty()
    } else {
        all_calls(trees.drop_last()).union(calls(trees.last()))
    }
}

/// Every function that is called is there and takes just so many arguments.
pub open spec fn calls_agree(
    made: Set<(Seq<char>, nat)>,
    arities: Map<Seq<char>, usize>,
) -> bool {
    forall|name: Seq<char>, count: nat| #[trigger]
        made.contains((name, count)) ==> arities.contains_key(name) && arities[name] == count
}

/// Nothing is wrong with an expression exactly where every free variable of it is in scope, and every
/// call in it is of a function that there is, with as many arguments as the function takes.
pub proof fn law_nothing_else_is_wrong(
    tree: Tree<u64>,
    scope: Set<Seq<char>>,
    arities: Map<Seq<char>, usize>,
)
    ensures
        fault(tree, scope, arities) is None <==> free(tree).subset_of(scope) && calls_agree(
            calls(tree),
            arities,
        ),
    decreases tree,
{
    match tree {
        Tree::Num(_) => {},
        Tree::Var(name) => {
            assert(free(tree).contains(name));
        },
        Tree::Neg(a) => {
            law_nothing_else_is_wrong(*a, scope, arities);
        },
        Tree::Bin(_, a, b) => {
            law_nothing_else_is_wrong(*a, scope, arities);
            law_nothing_else_is_wrong(*b, scope, arities);
            lemma_calls_joined(calls(*a), calls(*b), arities);
            assert(free(tree).subset_of(scope) <==> free(*a).subset_of(scope) && free(*b).subset_of(
                scope,
            )) by {
                assert(free(*a).subset_of(free(tree)) && free(*b).subset_of(free(tree)));
            }
        },
        Tree::Call(name, args) => {
            lemma_nothing_else_is_wrong(args, scope, arities);
            let one = Set::<(Seq<char>, nat)>::empty().insert((name, args.len()));
            lemma_calls_joined(all_calls(args), one, arities);
            assert(calls(tree) =~= all_calls(args).union(one));
            assert(one.contains((name, args.len())));
        },
        Tree::Let { name, rhs, then } => {
            law_nothing_else_is_wrong(*rhs, scope, arities);
            law_nothing_else_is_wrong(*then, scope.insert(name), arities);
            lemma_calls_joined(calls(*rhs), calls(*then), arities);
            assert(free(tree).subset_of(scope) <==> free(*rhs).subset_of(scope) && free(
                *then,
            ).subset_of(scope.insert(name))) by {
                assert(free(*rhs).subset_of(free(tree)));
                assert(free(*then).subset_of(free(tree).insert(name)));
            }
        },
        Tree::Fn { then, .. } => {
            law_nothing_else_is_wrong(*then, scope, arities);
        },
    }
}

proof fn lemma_calls_joined(
    a: Set<(Seq<char>, nat)>,
    b: Set<(Seq<char>, nat)>,
    arities: Map<Seq<char>, usize>,
)
    ensures
        calls_agree(a.union(b), arities) <==> calls_agree(a, arities) && calls_agree(b, arities),
{
    if calls_agree(a.union(b), arities) {
        assert forall|name: Seq<char>, count: nat| #[trigger]
            a.contains((name, count)) implies arities.contains_key(name) && arities[name]
            == count by {
            assert(a.union(b).contains((name, count)));
        }
        assert forall|name: Seq<char>, count: nat| #[trigger]
            b.contains((name, count)) implies arities.contains_key(name) && arities[name]
            == count by {
            assert(a.union(b).contains((name, count)));
        }
    }
}

/// [`law_nothing_else_is_wrong`] for a list of expressions.
proof fn lemma_nothing_else_is_wrong(
    trees: Seq<Tree<u64>>,
    scope: Set<Seq<char>>,
    arities: Map<Seq<char>, usize>,
)
    ensures
        fault_in(trees, scope, arities) is None <==> all_free(trees).subset_of(scope)
            && calls_agree(all_calls(trees), arities),
    decreases trees,
{
    if trees.len() > 0 {
        let rest = trees.drop_last();
        lemma_nothing_else_is_wrong(rest, scope, arities);
        law_nothing_else_is_wrong(trees.last(), scope, arities);
        lemma_calls_joined(all_calls(rest), calls(trees.last()), arities);
        assert(all_free(trees).subset_of(scope) <==> all_free(rest).subset_of(scope) && free(
            trees.last(),
        ).subset_of(scope)) by {
            assert(all_free(rest).subset_of(all_free(trees)));
            assert(free(trees.last()).subset_of(all_free(trees)));
        }
    }
}

/// What is told is true: the variable is used and not in scope, the function is called and not
/// there, or it is called with another number of arguments than it takes.
pub proof fn law_what_is_told_is_true(
    tree: Tree<u64>,
    scope: Set<Seq<char>>,
    arities: Map<Seq<char>, usize>,
)
    ensures
        match fault(tree, scope, arities) {
            None => true,
            Some(Fault::VariableNotFound(name)) => free(tree).contains(name) && !scope.contains(
                name,
            ),
            Some(Fault::FunctionNotFound(name)) => !arities.contains_key(name) && exists|count: nat|
             #[trigger] calls(tree).contains((name, count)),
            Some(Fault::ArgumentCountMismatch { name, expected, found }) => {
                &&& calls(tree).contains((name, found))
                &&& arities.contains_key(name)
                &&& arities[name] == expected
                &&& expected != found
            },
            Some(_) => false,
        },
    decreases tree,
{
    match tree {
        Tree::Num(_) => {},
        Tree::Var(_) => {},
        Tree::Neg(a) => {
            law_what_is_told_is_true(*a, scope, arities);
            lemma_called(*a, tree);
        },
        Tree::Bin(_, a, b) => {
            law_what_is_told_is_true(*a, scope, arities);
            law_what_is_told_is_true(*b, scope, arities);
            assert(calls(*a).subset_of(calls(tree)) && calls(*b).subset_of(calls(tree)));
            lemma_called(*a, tree);
            lemma_called(*b, tree);
        },
        Tree::Call(name, args) => {
            lemma_what_is_told_is_true(args, scope, arities);
            assert(calls(tree).contains((name, args.len())));
            assert forall|f: Seq<char>, count: nat| #[trigger]
                all_calls(args).contains((f, count)) implies calls(tree).contains((f, count)) by {}
        },
        Tree::Let { name, rhs, then } => {
            law_what_is_told_is_true(*rhs, scope, arities);
            law_what_is_told_is_true(*then, scope.insert(name), arities);
            assert(calls(*rhs).subset_of(calls(tree)) && calls(*then).subset_of(calls(tree)));
            lemma_called(*rhs, tree);
            lemma_called(*then, tree);
        },
        Tree::Fn { then, .. } => {
            law_what_is_told_is_true(*then, scope, arities);
            lemma_called(*then, tree);
        },
    }
}

/// A function that is called in a part is called in the whole.
proof fn lemma_called(part: Tree<u64>, tree: Tree<u64>)
    requires
        calls(part).subset_of(calls(tree)),
    ensures
        forall|name: Seq<char>, count: nat| #[trigger]
            calls(part).contains((name, count)) ==> calls(tree).contains((name, count)),
{
}

/// [`law_what_is_told_is_true`] for a list of expressions.
proof fn lemma_what_is_told_is_true(
    trees: Seq<Tree<u64>>,
    scope: Set<Seq<char>>,
    arities: Map<Seq<char>, usize>,
)
    ensures
        match fault_in(trees, scope, arities) {
            None => true,
            Some(Fault::VariableNotFound(name)) => all_free(trees).contains(name)
                && !scope.contains(name),
            Some(Fault::FunctionNotFound(name)) => !arities.contains_key(name) && exists|count: nat|
             #[trigger] all_calls(trees).contains((name, count)),
            Some(Fault::ArgumentCountMismatch { name, expected, found }) => {
                &&& all_calls(trees).contains((name, found))
                &&& arities.contains_key(name)
                &&& arities[name] == expected
                &&& expected != found
            },
            Some(_) => false,
        },
    decreases trees,
{
    if trees.len() > 0 {
        let rest = trees.drop_last();
        lemma_what_is_told_is_true(rest, scope, arities);
        law_what_is_told_is_true(trees.last(), scope, arities);
        assert forall|f: Seq<char>, count: nat| #[trigger]
            all_calls(rest).contains((f, count)) implies all_calls(trees).contains((f, count)) by {}
        assert forall|f: Seq<char>, count: nat| #[trigger]
            calls(trees.last()).contains((f, count)) implies all_calls(trees).contains(
            (f, count),
        ) by {}
    }
}

/// An expression is compiled exactly where every free variable of it is in scope, and every call in
/// it is of a function that there is, with as many arguments as the function takes.
pub proof fn law_an_expression_is_compiled(
    tree: Tree<u64>,
    draft: Draft,
    scope: Map<Seq<char>, u32>,
    names: Names,
)
    requires
        ready(draft),
        in_scope(draft, scope),
        draft.vars.len() + binds(tree) <= u32::MAX,
        draft.body.code.len() + emits(tree) < MAX_INSTRUCTIONS,
    ensures
        lower(tree, draft, scope, names).1 is Ok <==> free(tree).subset_of(scope.dom())
            && calls_agree(calls(tree), names.arities),
{
    lemma_lower(tree, draft, scope, names);
    law_nothing_else_is_wrong(tree, scope.dom(), names.arities);
}

/// Every call is of a function of the list, with as many arguments as it has parameters.
pub open spec fn are_defined(made: Set<(Seq<char>, nat)>, fs: Seq<Function>) -> bool {
    forall|name: Seq<char>, count: nat| #[trigger]
        made.contains((name, count)) ==> exists|i: int|
            0 <= i < fs.len() && (#[trigger] fs[i]).name == name && fs[i].args.len() == count
}

/// The variables that a function uses are its parameters, and the functions that it calls are those
/// of the list.
pub open spec fn is_closed(f: Function, fs: Seq<Function>) -> bool {
    free(f.body).subset_of(f.args.to_set()) && are_defined(calls(f.body), fs)
}

proof fn lemma_defined(made: Set<(Seq<char>, nat)>, fs: Seq<Function>)
    requires
        are_distinct(fs),
        fs.len() <= u32::MAX,
        forall|i: int| 0 <= i < fs.len() ==> (#[trigger] fs[i]).args.len() <= usize::MAX,
    ensures
        are_defined(made, fs) <==> calls_agree(made, numbered(fs).arities),
{
    let arities = numbered(fs).arities;
    lemma_distinct(fs);
    lemma_numbered(fs);
    if are_defined(made, fs) {
        assert forall|name: Seq<char>, count: nat| #[trigger]
            made.contains((name, count)) implies arities.contains_key(name) && arities[name]
            == count by {
            let i = choose|i: int|
                0 <= i < fs.len() && (#[trigger] fs[i]).name == name && fs[i].args.len() == count;
            assert(fs[i].name == name);
        }
    }
    if calls_agree(made, arities) {
        assert forall|name: Seq<char>, count: nat| #[trigger]
            made.contains((name, count)) implies exists|i: int|
            0 <= i < fs.len() && (#[trigger] fs[i]).name == name && fs[i].args.len() == count by {
            assert(has_function(fs, name));
            let i = choose|i: int| 0 <= i < fs.len() && (#[trigger] fs[i]).name == name;
            assert(fs[i].args.len() <= usize::MAX);
        }
    }
}

/// A program is without fault exactly where no two of its functions have one name, each of them uses
/// no variables but its parameters, the last expression uses none, and every call is of a function
/// of the program, with as many arguments as it has parameters.
pub proof fn law_programs_without_fault(tree: Tree<u64>)
    requires
        functions(tree).len() <= u32::MAX,
        forall|i: int|
            0 <= i < functions(tree).len() ==> (#[trigger] functions(tree)[i]).args.len()
                <= usize::MAX,
    ensures
        program_fault(tree) is None <==> {
            &&& are_distinct(functions(tree))
            &&& forall|i: int|
                0 <= i < functions(tree).len() ==> is_closed(
                    #[trigger] functions(tree)[i],
                    functions(tree),
                )
            &&& is_closed(main_function(tree), functions(tree))
        },
{
    let fs = functions(tree);
    let main = main_function(tree);
    let arities = program_names(tree).arities;
    lemma_distinct(fs);
    if are_distinct(fs) {
        assert forall|i: int| 0 <= i < fs.len() implies (fault_of(#[trigger] fs[i], arities) is None
            <==> is_closed(fs[i], fs)) by {
            law_nothing_else_is_wrong(fs[i].body, fs[i].args.to_set(), arities);
            lemma_defined(calls(fs[i].body), fs);
        }
        law_nothing_else_is_wrong(main.body, main.args.to_set(), arities);
        lemma_defined(calls(main.body), fs);
        if program_fault(tree) is None {
            assert forall|i: int| 0 <= i < fs.len() implies is_closed(#[trigger] fs[i], fs) by {
                lemma_no_fault(fs, arities, i);
            }
        }
        if forall|i: int| 0 <= i < fs.len() ==> is_closed(#[trigger] fs[i], fs) {
            assert forall|i: int| 0 <= i < fs.len() implies fault_of(#[trigger] fs[i], arities)
                is None by {
                assert(is_closed(fs[i], fs));
            }
            lemma_first_fault(fs, arities, fs.len() as int);
        }
    }
}

/// The function that is told to be defined twice is the first that has the name of an earlier one.
pub proof fn law_the_first_duplicate_is_told(fs: Seq<Function>)
    ensures
        match duplicate(fs) {
            None => are_distinct(fs),
            Some(name) => exists|j: int|
                {
                    &&& 0 <= j < fs.len()
                    &&& (#[trigger] fs[j]).name == name
                    &&& are_distinct(fs.take(j))
                    &&& has_function(fs.take(j), name)
                },
        },
    decreases fs.len(),
{
    lemma_distinct(fs);
    if duplicate(fs) is Some {
        let rest = fs.drop_last();
        let name = duplicate(fs)->Some_0;
        law_the_first_duplicate_is_told(rest);
        if duplicate(rest) is Some {
            let j = choose|j: int|
                {
                    &&& 0 <= j < rest.len()
                    &&& (#[trigger] rest[j]).name == name
                    &&& are_distinct(rest.take(j))
                    &&& has_function(rest.take(j), name)
                };
            assert(fs.take(j) =~= rest.take(j));
            assert(fs[j].name == name);
        } else {
            let j = fs.len() - 1;
            assert(fs.take(j) =~= rest);
            assert(fs[j].name == name);
        }
    }
}

} // verus!

//! Compiles expressions.

use crate::ast::{lemma_unfold, planted, tree_of, trees_of, Arena, Node, NodeId, Tree};
use crate::backend::{
    bodies, call, configuration, constant, declare_func_in_func, declare_var, decls, def_var,
    draft, fadd, fdiv, fmul, fneg, fsub, inst_result, outcome, use_var,
};
use crate::error::{CompilerError, Fault};
use crate::ir::{Draft, MAX_INSTRUCTIONS};
use crate::lowering::{
    agree, binds, binds_all, emits, emits_all, in_scope, lemma_lower, lemma_lower_all,
    lower, lower_all, ready, Names,
};
use cranelift::jit::JITModule;
use cranelift::prelude::FunctionBuilder;
use vstd::hash_map::StringHashMap;
use vstd::prelude::*;

verus! {

/// Compiles the expressions of one function.
pub struct Translator<'a, 'm> {
    pub builder: FunctionBuilder<'a>,
    pub module: &'m mut JITModule,
    /// The number of each function of the program in the module.
    pub funcs: &'m StringHashMap<u32>,
    /// How many arguments each function of the program takes.
    pub func_arities: &'m StringHashMap<usize>,
    pub nodes: &'m Arena,
    /// The variables that the names in scope stand for.
    pub vars: StringHashMap<u32>,
}

/// The outcome of compiling an expression as a mathematical value.
pub open spec fn answer(result: Result<u32, CompilerError>) -> Result<u32, Fault> {
    match result {
        Ok(value) => Ok(value),
        Err(error) => Err(error@),
    }
}

/// The outcome of compiling several expressions as a mathematical value.
pub open spec fn answers(result: Result<Vec<u32>, CompilerError>) -> Result<Seq<u32>, Fault> {
    match result {
        Ok(values) => Ok(values@),
        Err(error) => Err(error@),
    }
}

impl Translator<'_, '_> {
    /// The functions that can be called.
    pub open spec fn names(self) -> Names {
        Names { funcs: self.funcs@, arities: self.func_arities@ }
    }

    /// The function that is built can be added to, the names in scope are variables of it, and
    /// the module knows the functions that can be called.
    pub open spec fn well_formed(self) -> bool {
        &&& ready(draft(self.builder))
        &&& in_scope(draft(self.builder), self.vars@)
        &&& agree(decls(*self.module), self.names())
    }

    /// There is room for the code of an expression and an instruction after it.
    pub open spec fn has_room(self, tree: Tree<u64>) -> bool {
        &&& draft(self.builder).body.code.len() + emits(tree) < MAX_INSTRUCTIONS
        &&& draft(self.builder).vars.len() + binds(tree) <= u32::MAX
        &&& draft(self.builder).callees.len() + emits(tree) <= u32::MAX
    }

    /// There is room for the code of expressions and an instruction after it.
    pub open spec fn has_room_for_all(self, trees: Seq<Tree<u64>>) -> bool {
        &&& draft(self.builder).body.code.len() + emits_all(trees) < MAX_INSTRUCTIONS
        &&& draft(self.builder).vars.len() + binds_all(trees) <= u32::MAX
        &&& draft(self.builder).callees.len() + emits_all(trees) <= u32::MAX
    }

    /// Everything but the function that is built is as it was.
    pub open spec fn keeps(self, other: Self) -> bool {
        &&& other.funcs == self.funcs
        &&& other.func_arities == self.func_arities
        &&& other.nodes == self.nodes
        &&& other.vars@ == self.vars@
        &&& outcome(other.builder) == outcome(self.builder)
        &&& configuration(*other.module) == configuration(*self.module)
        &&& decls(*other.module) == decls(*self.module)
        &&& bodies(*other.module) == bodies(*self.module)
    }

    /// Compiles an expression at the end of the function that is built. The value that holds the
    /// result is returned.
    #[verifier::rlimit(60)]
    pub fn translate(&mut self, id: NodeId) -> (result: Result<u32, CompilerError>)
        requires
            planted(old(self).nodes@, id),
            old(self).well_formed(),
            old(self).has_room(tree_of(old(self).nodes@, id)),
        ensures
            (draft(final(self).builder), answer(result)) == lower(
                tree_of(old(self).nodes@, id),
                draft(old(self).builder),
                old(self).vars@,
                old(self).names(),
            ),
            old(self).keeps(*final(self)),
            *final(final(self).module) == *final(old(self).module),
            final(self).well_formed(),
        decreases tree_of(old(self).nodes@, id),
    {
        let ghost names = self.names();
        let ghost scope = self.vars@;
        let ghost start = draft(self.builder);
        proof {
            lemma_unfold(self.nodes@, id);
            lemma_lower(tree_of(self.nodes@, id), start, scope, names);
        }
        let node = self.nodes.get(id);
        match node {
            Node::Num(bits) => Ok(constant(&mut self.builder, *bits)),
            Node::Var(name) => match self.vars.get(name.as_str()) {
                Some(var) => {
                    let var: u32 = *var;
                    Ok(use_var(&mut self.builder, var))
                },
                None => Err(CompilerError::VariableNotFound(name.clone())),
            },
            Node::Neg(a) => {
                proof {
                    lemma_lower(tree_of(self.nodes@, *a), start, scope, names);
                }
                let value = self.translate(*a)?;
                Ok(fneg(&mut self.builder, value))
            },
            Node::Add(a, b) | Node::Sub(a, b) | Node::Mul(a, b) | Node::Div(a, b) => {
                proof {
                    lemma_lower(tree_of(self.nodes@, *a), start, scope, names);
                }
                let lhs = self.translate(*a)?;
                proof {
                    lemma_lower(tree_of(self.nodes@, *b), draft(self.builder), scope, names);
                }
                let rhs = self.translate(*b)?;
                match node {
                    Node::Add(_, _) => Ok(fadd(&mut self.builder, lhs, rhs)),
                    Node::Sub(_, _) => Ok(fsub(&mut self.builder, lhs, rhs)),
                    Node::Mul(_, _) => Ok(fmul(&mut self.builder, lhs, rhs)),
                    _ => Ok(fdiv(&mut self.builder, lhs, rhs)),
                }
            },
            Node::Let { name, rhs, then } => {
                proof {
                    lemma_lower(tree_of(self.nodes@, *rhs), start, scope, names);
                }
                let value = self.translate(*rhs)?;
                let var = declare_var(&mut self.builder);
                def_var(&mut self.builder, var, value);
                let shadowed: Option<u32> = match self.vars.get(name.as_str()) {
                    Some(old_var) => Some(*old_var),
                    None => None,
                };
                self.vars.insert(name.clone(), var);
                proof {
                    lemma_lower(
                        tree_of(self.nodes@, *then),
                        draft(self.builder),
                        self.vars@,
                        names,
                    );
                }
                let result = self.translate(*then);
                match shadowed {
                    Some(old_var) => self.vars.insert(name.clone(), old_var),
                    None => self.vars.remove(name.as_str()),
                }
                assert(self.vars@ =~= scope);
                result
            },
            Node::Call(name, args) => {
                let arity: usize = match self.func_arities.get(name.as_str()) {
                    Some(arity) => *arity,
                    None => return Err(CompilerError::FunctionNotFound(name.clone())),
                };
                if args.len() != arity {
                    return Err(
                        CompilerError::ArgumentCountMismatch {
                            name: name.clone(),
                            expected: arity,
                            found: args.len(),
                        },
                    );
                }
                let func: u32 = *self.funcs.get(name.as_str()).unwrap();
                let callee = declare_func_in_func(self.module, func, &mut self.builder);
                let ghost imported = draft(self.builder);
                proof {
                    lemma_lower_all(trees_of(self.nodes@, args@), imported, scope, names);
                }
                let values = self.translate_all(args)?;
                assert(draft(self.builder).callees.subrange(0, callee + 1)[callee as int]
                    == imported.callees[callee as int]);
                let inst = call(&mut self.builder, callee, &values);
                Ok(inst_result(&self.builder, inst))
            },
            Node::Fn { then, .. } => self.translate(*then),
        }
    }

    /// Compiles expressions one after the other. The values that hold the results are returned.
    fn translate_all(&mut self, ids: &Vec<NodeId>) -> (result: Result<Vec<u32>, CompilerError>)
        requires
            forall|j: int| 0 <= j < ids@.len() ==> planted(old(self).nodes@, #[trigger] ids@[j]),
            old(self).well_formed(),
            old(self).has_room_for_all(trees_of(old(self).nodes@, ids@)),
        ensures
            (draft(final(self).builder), answers(result)) == lower_all(
                trees_of(old(self).nodes@, ids@),
                draft(old(self).builder),
                old(self).vars@,
                old(self).names(),
            ),
            old(self).keeps(*final(self)),
            *final(final(self).module) == *final(old(self).module),
            final(self).well_formed(),
        decreases trees_of(old(self).nodes@, ids@),
    {
        let ghost names = self.names();
        let ghost scope = self.vars@;
        let ghost start = draft(self.builder);
        let ghost trees = trees_of(self.nodes@, ids@);
        let mut values: Vec<u32> = Vec::new();
        let mut i: usize = 0;
        assert(trees.take(0) =~= Seq::empty());
        while i < ids.len()
            invariant
                i <= ids@.len(),
                forall|j: int| 0 <= j < ids@.len() ==> planted(self.nodes@, #[trigger] ids@[j]),
                trees == trees_of(self.nodes@, ids@),
                trees == trees_of(old(self).nodes@, ids@),
                names == old(self).names(),
                scope == old(self).vars@,
                start == draft(old(self).builder),
                old(self).keeps(*self),
                *final(self.module) == *final(old(self).module),
                old(self).well_formed(),
                self.well_formed(),
                old(self).has_room_for_all(trees),
                (draft(self.builder), Ok::<Seq<u32>, Fault>(values@)) == lower_all(
                    trees.take(i as int),
                    start,
                    scope,
                    names,
                ),
            decreases ids@.len() - i,
        {
            proof {
                let next = trees.take(i + 1);
                assert(next.drop_last() =~= trees.take(i as int));
                assert(next.last() == tree_of(self.nodes@, ids@[i as int]));
                lemma_all_grow(trees, i as int);
                lemma_all_grow(trees, i + 1);
                lemma_lower_all(trees.take(i as int), start, scope, names);
                lemma_lower_all_stops(trees, i + 1, start, scope, names);
                assert(decreases_to!(trees => trees[i as int]));
            }
            match self.translate(ids[i]) {
                Ok(value) => {
                    values.push(value);
                },
                Err(error) => {
                    return Err(error);
                },
            }
            i = i + 1;
        }
        assert(trees.take(i as int) =~= trees);
        Ok(values)
    }
}

/// The first expressions of a list have no more code than all.
proof fn lemma_all_grow(trees: Seq<Tree<u64>>, i: int)
    requires
        0 <= i <= trees.len(),
    ensures
        emits_all(trees.take(i)) <= emits_all(trees),
        binds_all(trees.take(i)) <= binds_all(trees),
    decreases trees.len(),
{
    if i == trees.len() {
        assert(trees.take(i) =~= trees);
    } else {
        lemma_all_grow(trees.drop_last(), i);
        assert(trees.drop_last().take(i) =~= trees.take(i));
    }
}

/// Where something is wrong with the first expressions of a list, compiling it ends there.
proof fn lemma_lower_all_stops(
    trees: Seq<Tree<u64>>,
    i: int,
    draft: Draft,
    scope: Map<Seq<char>, u32>,
    names: Names,
)
    requires
        0 <= i <= trees.len(),
    ensures
        lower_all(trees.take(i), draft, scope, names).1 is Err ==> lower_all(
            trees,
            draft,
            scope,
            names,
        ) == lower_all(trees.take(i), draft, scope, names),
    decreases trees.len(),
{
    if i == trees.len() {
        assert(trees.take(i) =~= trees);
    } else {
        lemma_lower_all_stops(trees.drop_last(), i, draft, scope, names);
        assert(trees.drop_last().take(i) =~= trees.take(i));
    }
}

} // verus!

//! Compiles programs.

use crate::ast::{lemma_unfold, planted, texts, tree_of, Arena, Node, NodeId, Tree};
use crate::backend::{
    append_block_params, block_param, bodies, clear, clear_context, configuration, create_block,
    declare_function, declare_var, decls, def_var, default_setting, define_function, describe,
    draft, finalize, flags, function, host_builder, make_builder, make_context, make_flags,
    make_memory, make_module, make_signature, options, outcome, push_param, push_result, return_,
    seal_block, set_flag, settings_builder, shape, signature_mut, switch_to_block,
};
use crate::equivalence::are_distinct;
use crate::error::{CompilerError, Fault};
use crate::ir::{
    declared, declared_number, is_declared, number_of, Body, Convention, Decl, Draft, Linkage, Shape,
    MAX_PARAMETERS,
};
use crate::lowering::{agree, callable, Names};
use crate::program::{
    blank_roster, body_of, collect_functions, compiled, compiled_up_to, defines, duplicate,
    enroll_all, exported_decl, fault_of, function_at, function_fits, functions, functions_at,
    has_function, is_complete, is_linked, lemma_body, lemma_compiled, lemma_compiled_grows,
    lemma_compiled_linked, lemma_compiled_next, lemma_enroll_all_stops, lemma_enroll_new,
    lemma_enrolled_complete, lemma_enrolled_noted, lemma_first_fault, lemma_linked, lemma_no_fault,
    lemma_numbered, lemma_numbered_agree, lemma_param_scope, local_decl, main_function,
    main_is_taken, opened, param_scope, program_bodies, program_fault, program_fits, program_names,
    reaches_generator, Function, Refusal, Roster,
};
use crate::translate::Translator;
use cranelift::codegen::ir::Signature;
use cranelift::codegen::settings::Flags;
use cranelift::codegen::Context;
use cranelift::jit::{JITBuilder, JITModule};
use cranelift::module::ModuleError;
use cranelift::prelude::FunctionBuilder;
use vstd::hash_map::StringHashMap;
use vstd::prelude::*;

verus! {

/// Compiles the functions of a program to machine code.
pub struct JITCompiler {
    pub ctx: Context,
    pub module: JITModule,
    /// The number of each function of the program in the module.
    pub funcs: StringHashMap<u32>,
}

/// An error of the compiler is one of the code generator, in words.
pub closed spec fn tells(told: CompilerError, error: ModuleError) -> bool {
    told matches CompilerError::JitError(text) && call_ensures(describe, (&error,), text)
}

/// The code generator was asked to define the function `body` under the number `id`, in a module
/// that defined `before`, and answered with an error.
pub closed spec fn declines(
    before: Map<u32, Body>,
    id: u32,
    body: Body,
    error: ModuleError,
) -> bool {
    exists|module: &mut JITModule, context: &mut Context|
        {
            &&& #[trigger] call_ensures(
                define_function,
                (module, id, context),
                Err::<(), ModuleError>(error),
            )
            &&& bodies(*module) == before
            &&& function(*context) == body
        }
}

/// The code generator was asked to declare a function in a module that declared `before`, and
/// answered with an error.
pub closed spec fn clashes(before: Seq<Decl>, decl: Decl, error: ModuleError) -> bool {
    exists|module: &mut JITModule, name: &str, signature: &Signature|
        {
            &&& #[trigger] call_ensures(
                declare_function,
                (module, name, decl.linkage, signature),
                Err::<u32, ModuleError>(error),
            )
            &&& decls(*module) == before
            &&& name@ == decl.name
            &&& shape(*signature) == decl.shape
        }
}

/// An error of the compiler is the one with which the code generator declined a function.
pub open spec fn is_declined(
    before: Map<u32, Body>,
    id: u32,
    body: Body,
    told: CompilerError,
) -> bool {
    exists|error: ModuleError| #[trigger] declines(before, id, body, error) && tells(told, error)
}

/// An error of the compiler is the one with which the code generator refused to declare a function.
pub open spec fn is_clash(before: Seq<Decl>, decl: Decl, told: CompilerError) -> bool {
    exists|error: ModuleError| #[trigger] clashes(before, decl, error) && tells(told, error)
}

/// What the code generator answers, as the compiler's own answer.
pub fn lift<T>(answer: Result<T, ModuleError>) -> (result: Result<T, CompilerError>)
    ensures
        match answer {
            Ok(value) => result matches Ok(lifted) && lifted == value,
            Err(error) => result matches Err(told) && told is JitError && tells(told, error),
        },
{
    match answer {
        Ok(value) => Ok(value),
        Err(error) => Err(CompilerError::JitError(describe(&error))),
    }
}

/// The settings under which programs are compiled: library calls may lie far away, the code is
/// bound to its place, and every other setting has its default.
pub open spec fn host_configuration() -> Map<Seq<char>, Seq<char>> {
    Map::new(
        |name: Seq<char>| default_setting(name) is Some,
        |name: Seq<char>| default_setting(name)->Some_0,
    ).insert("use_colocated_libcalls"@, "false"@).insert("is_pic"@, "false"@)
}

/// The settings for the code generator.
pub fn host_flags() -> (made: Flags)
    ensures
        flags(made) == host_configuration(),
{
    let mut settings = settings_builder();
    set_flag(&mut settings, "use_colocated_libcalls", "false").unwrap();
    set_flag(&mut settings, "is_pic", "false").unwrap();
    make_flags(settings)
}

/// The machine that this runs on was asked for a builder of modules, under the settings under which
/// programs are compiled, and this was the answer.
pub closed spec fn is_host(host: Result<JITBuilder, String>) -> bool {
    exists|settings: Flags|
        flags(settings) == host_configuration() && #[trigger] call_ensures(
            host_builder,
            (settings,),
            host,
        )
}

/// A compiler was made where the machine was answered for with a builder, and otherwise the reason
/// is the one that was given.
pub open spec fn is_made(result: Result<JITCompiler, String>) -> bool {
    exists|host: Result<JITBuilder, String>| #[trigger]
        is_host(host) && match host {
            Ok(builder) => result matches Ok(jit) && configuration(jit.module) == options(builder),
            Err(reason) => result matches Err(told) && told == reason,
        }
}

/// There is a compiler, unless the machine is answered for with a reason why there is none, and then
/// that reason is told.
pub proof fn law_only_the_machine_is_a_reason(result: Result<JITCompiler, String>)
    requires
        is_made(result),
    ensures
        result matches Err(reason) ==> is_host(Err(reason)),
        (forall|reason: String| !(#[trigger] is_host(Err(reason)))) ==> result is Ok,
{
}

/// Makes a variable of each parameter of a function. The variables are returned by the names of
/// the parameters.
fn bind_params(builder: &mut FunctionBuilder<'_>, entry: u32, args: &Vec<String>) -> (vars:
    StringHashMap<u32>)
    requires
        entry == 0,
        args@.len() <= MAX_PARAMETERS,
        draft(*old(builder)) == (Draft { vars: Seq::empty(), ..opened(args@.len()) }),
    ensures
        draft(*final(builder)) == opened(args@.len()),
        outcome(*final(builder)) == outcome(*old(builder)),
        vars@ == param_scope(texts(args@)),
{
    let mut vars: StringHashMap<u32> = StringHashMap::new();
    let mut i: usize = 0;
    let ghost names = texts(args@);
    assert(names.take(0) =~= Seq::empty());
    while i < args.len()
        invariant
            i <= args@.len(),
            entry == 0,
            args@.len() <= MAX_PARAMETERS,
            names == texts(args@),
            draft(*builder) == (Draft {
                vars: Seq::new(i as nat, |j: int| Some(j as u32)),
                ..opened(args@.len())
            }),
            outcome(*builder) == outcome(*old(builder)),
            vars@ == param_scope(names.take(i as int)),
        decreases args@.len() - i,
    {
        let value = block_param(builder, entry, i);
        let var = declare_var(builder);
        def_var(builder, var, value);
        vars.insert(args[i].clone(), var);
        proof {
            assert(names.take(i + 1).drop_last() =~= names.take(i as int));
            assert(draft(*builder).vars =~= Seq::new((i + 1) as nat, |j: int| Some(j as u32)));
        }
        i = i + 1;
    }
    assert(names.take(i as int) =~= names);
    vars
}

/// A context holds an empty function, to be called as the host's functions are.
pub open spec fn is_blank(context: Context) -> bool {
    function(context) == Body::blank(
        Shape { convention: Convention::Host, params: 0, results: 0 },
    )
}

/// What comes of declaring functions: they are entered up to the first that is refused, and the
/// answer tells which that is, or that the module has a function of its name and another type.
pub open spec fn declares(
    before: Roster,
    after: Roster,
    fs: Seq<Function>,
    result: Result<(), CompilerError>,
) -> bool {
    let (roster, refusal) = enroll_all(before, fs);
    &&& after == roster
    &&& match refusal {
        None => result is Ok,
        Some(Refusal::Duplicate(name)) => {
            result matches Err(error) && error@ == Fault::DuplicateFunction(name)
        },
        Some(Refusal::Clash) => result matches Err(error) && error is JitError && exists|
            decls: Seq<Decl>,
            i: int,
        |
            0 <= i < fs.len() && #[trigger] is_clash(decls, local_decl(fs[i]), error),
    }
}

/// What comes of compiling functions: all of them, or those before one with which something is
/// wrong or that the code generator refuses.
pub open spec fn compiles_functions(
    before: Map<u32, Body>,
    after: Map<u32, Body>,
    fs: Seq<Function>,
    names: Names,
    result: Result<(), CompilerError>,
) -> bool {
    match result {
        Ok(_) => compiled_up_to(before, after, fs, names, fs.len() as int),
        Err(error) => exists|k: int|
            {
                &&& #[trigger] compiled_up_to(before, after, fs, names, k)
                &&& k < fs.len()
                &&& match fault_of(fs[k], names.arities) {
                    Some(fault) => error@ == fault,
                    None => error is JitError && is_declined(
                        after,
                        names.funcs[fs[k].name],
                        body_of(fs[k], names),
                        error,
                    ),
                }
            },
    }
}

/// What comes of compiling the function `f` at the end of a program, in a module that declared
/// `decls` and defined `before`.
pub open spec fn compiles_main(
    decls: Seq<Decl>,
    before: Map<u32, Body>,
    after: Map<u32, Body>,
    f: Function,
    names: Names,
    result: Result<u32, CompilerError>,
) -> bool {
    let number = declared_number(decls, exported_decl(f));
    match result {
        Ok(id) => {
            &&& fault_of(f, names.arities) is None
            &&& number == Some(id as int)
            &&& !before.contains_key(id)
            &&& after == before.insert(id, body_of(f, names))
        },
        Err(error) => {
            &&& after == before
            &&& match fault_of(f, names.arities) {
                Some(fault) => error@ == fault,
                None => error is JitError && match number {
                    Some(id) => is_declined(before, id as u32, body_of(f, names), error),
                    None => is_clash(decls, exported_decl(f), error),
                },
            }
        },
    }
}

/// Functions with which nothing is wrong are compiled, unless the code generator declines one that
/// it is asked to define once those before it are defined.
pub proof fn law_functions_without_fault_are_compiled(
    before: Map<u32, Body>,
    after: Map<u32, Body>,
    fs: Seq<Function>,
    names: Names,
    result: Result<(), CompilerError>,
)
    requires
        compiles_functions(before, after, fs, names, result),
        forall|i: int| 0 <= i < fs.len() ==> fault_of(#[trigger] fs[i], names.arities) is None,
        forall|i: int, error: ModuleError|
            0 <= i < fs.len() ==> !(#[trigger] declines(
                compiled(before, fs.take(i), names),
                names.funcs[fs[i].name],
                body_of(fs[i], names),
                error,
            )),
    ensures
        result is Ok,
        after == compiled(before, fs, names),
{
    assert(fs.take(fs.len() as int) =~= fs);
}

/// The expression at the end of a program, where nothing is wrong with it, is compiled, unless the
/// code generator has its name for a function of another type or declines it.
pub proof fn law_main_without_fault_is_compiled(
    decls: Seq<Decl>,
    before: Map<u32, Body>,
    after: Map<u32, Body>,
    f: Function,
    names: Names,
    result: Result<u32, CompilerError>,
)
    requires
        compiles_main(decls, before, after, f, names, result),
        fault_of(f, names.arities) is None,
        declared_number(decls, exported_decl(f)) matches Some(id) && forall|error: ModuleError|
            !(#[trigger] declines(before, id as u32, body_of(f, names), error)),
    ensures
        result matches Ok(id) && declared_number(decls, exported_decl(f)) == Some(id as int)
            && after == before.insert(id, body_of(f, names)),
{
}

/// Every function that is noted with the number of its arguments has its number in the module, and
/// declaring functions leaves it so, unless the code generator refuses one.
pub proof fn law_noted_functions_stay_declared(
    before: Roster,
    after: Roster,
    fs: Seq<Function>,
    result: Result<(), CompilerError>,
)
    requires
        declares(before, after, fs, result),
        is_complete(before.names),
        result matches Err(error) ==> !(error is JitError),
    ensures
        is_complete(after.names),
{
    lemma_enrolled_complete(before, fs);
}

/// Functions are declared once: a second time, whatever came of the first, the first of them is
/// refused by its name, and nothing changes.
pub proof fn law_functions_are_declared_once(
    before: Roster,
    after: Roster,
    later: Roster,
    fs: Seq<Function>,
    first: Result<(), CompilerError>,
    second: Result<(), CompilerError>,
)
    requires
        declares(before, after, fs, first),
        declares(after, later, fs, second),
    ensures
        later == after,
        if fs.len() == 0 {
            second is Ok
        } else {
            second matches Err(error) && error@ == Fault::DuplicateFunction(fs[0].name)
        },
{
    if fs.len() > 0 {
        lemma_enrolled_noted(before, fs);
        assert(enroll_all(after, fs.take(1).drop_last()) == (after, None::<Refusal>));
        lemma_enroll_all_stops(after, fs, 1);
    }
}

/// Functions are compiled once: a second time the code generator refuses the first of them, and
/// nothing changes.
pub proof fn law_functions_are_compiled_once(
    before: Map<u32, Body>,
    after: Map<u32, Body>,
    later: Map<u32, Body>,
    fs: Seq<Function>,
    names: Names,
    first: Result<(), CompilerError>,
    second: Result<(), CompilerError>,
)
    requires
        compiles_functions(before, after, fs, names, first),
        compiles_functions(after, later, fs, names, second),
        first is Ok,
    ensures
        later == after,
        if fs.len() == 0 {
            second is Ok
        } else {
            second matches Err(error) && error is JitError
        },
{
    assert(fs.take(fs.len() as int) =~= fs);
    if fs.len() > 0 {
        lemma_compiled_grows(before, fs, names, 0);
        assert(after.contains_key(names.funcs[fs[0].name]));
    }
    assert(fs.take(0) =~= Seq::empty());
}

impl JITCompiler {
    /// Nothing has been compiled.
    pub open spec fn is_new(self) -> bool {
        &&& decls(self.module) == Seq::<Decl>::empty()
        &&& bodies(self.module) == Map::<u32, Body>::empty()
        &&& self.funcs@ == Map::<Seq<char>, u32>::empty()
    }

    /// The functions that can be called.
    pub open spec fn names(self, arities: Map<Seq<char>, usize>) -> Names {
        Names { funcs: self.funcs@, arities }
    }

    /// What is known of the functions of a program.
    pub open spec fn roster(self, arities: Map<Seq<char>, usize>) -> Roster {
        Roster { decls: decls(self.module), names: self.names(arities) }
    }

    /// A compiler for the machine that this runs on, or the reason why there is none. Whether there
    /// is one rests on the machine alone: see [`JITCompiler::for_host`].
    pub fn new() -> (result: Result<Self, String>)
        ensures
            result matches Ok(jit) ==> {
                &&& jit.is_new()
                &&& configuration(jit.module) == host_configuration()
                &&& is_blank(jit.ctx)
            },
            is_made(result),
    {
        let settings = host_flags();
        let ghost asked = settings;
        let host = host_builder(settings);
        assert(is_host(host)) by {
            assert(flags(asked) == host_configuration());
        }
        Self::for_host(host)
    }

    /// A compiler, where the machine that this runs on is answered for with a builder of modules;
    /// where it is answered for with a reason why there is none, that reason.
    pub fn for_host(host: Result<JITBuilder, String>) -> (result: Result<Self, String>)
        requires
            host matches Ok(builder) ==> options(builder).contains_pair("is_pic"@, "false"@),
        ensures
            match host {
                Ok(builder) => result matches Ok(jit) && {
                    &&& jit.is_new()
                    &&& configuration(jit.module) == options(builder)
                    &&& is_blank(jit.ctx)
                },
                Err(reason) => result matches Err(told) && told == reason,
            },
    {
        match host {
            Ok(builder) => {
                let module = make_module(builder);
                let ctx = make_context(&module);
                Ok(JITCompiler { ctx, module, funcs: StringHashMap::new() })
            },
            Err(reason) => Err(reason),
        }
    }

    /// Declares the functions of a program and notes how many arguments each takes.
    pub fn pre_declare(
        &mut self,
        id: NodeId,
        nodes: &Arena,
        func_arities: &mut StringHashMap<usize>,
    ) -> (result: Result<(), CompilerError>)
        requires
            planted(nodes@, id),
            decls(old(self).module).len() + functions(tree_of(nodes@, id)).len() <= u32::MAX,
        ensures
            declares(
                old(self).roster(old(func_arities)@),
                final(self).roster(final(func_arities)@),
                functions(tree_of(nodes@, id)),
                result,
            ),
            final(self).ctx == old(self).ctx,
            configuration(final(self).module) == configuration(old(self).module),
            bodies(final(self).module) == bodies(old(self).module),
    {
        let mut ids: Vec<NodeId> = Vec::new();
        collect_functions(nodes, id, &mut ids);
        let ghost fs = functions(tree_of(nodes@, id));
        let ghost start = self.roster(func_arities@);
        assert(functions_at(nodes@, ids@) =~= fs);
        assert(fs.take(0) =~= Seq::empty());
        let mut i: usize = 0;
        while i < ids.len()
            invariant
                i <= ids@.len(),
                functions_at(nodes@, ids@) == fs,
                forall|j: int| 0 <= j < ids@.len() ==> defines(nodes@, #[trigger] ids@[j]),
                fs == functions(tree_of(nodes@, id)),
                start == old(self).roster(old(func_arities)@),
                decls(old(self).module).len() + fs.len() <= u32::MAX,
                decls(self.module).len() <= decls(old(self).module).len() + i,
                enroll_all(start, fs.take(i as int)) == (
                    self.roster(func_arities@),
                    None::<Refusal>,
                ),
                self.ctx == old(self).ctx,
                configuration(self.module) == configuration(old(self).module),
                bodies(self.module) == bodies(old(self).module),
            decreases ids@.len() - i,
        {
            let ghost f = function_at(nodes@, ids@[i as int]);
            proof {
                assert(fs[i as int] == f);
                assert(fs.take(i + 1).drop_last() =~= fs.take(i as int));
                lemma_enroll_all_stops(start, fs, i + 1);
            }
            match nodes.get(ids[i]) {
                Node::Fn { name, args, .. } => {
                    if func_arities.contains_key(name.as_str()) {
                        return Err(CompilerError::DuplicateFunction(name.clone()));
                    }
                    func_arities.insert(name.clone(), args.len());
                    let mut signature = make_signature(&self.module);
                    let mut n: usize = 0;
                    while n < args.len()
                        invariant
                            n <= args@.len(),
                            shape(signature) == (Shape {
                                convention: Convention::Host,
                                params: n as nat,
                                results: 0,
                            }),
                        decreases args@.len() - n,
                    {
                        push_param(&mut signature);
                        n = n + 1;
                    }
                    push_result(&mut signature);
                    let ghost known = decls(self.module);
                    let answer = declare_function(
                        &mut self.module,
                        name.as_str(),
                        Linkage::Local,
                        &signature,
                    );
                    assert(answer matches Err(error) ==> clashes(known, local_decl(f), error));
                    let func = match lift(answer) {
                        Ok(func) => func,
                        Err(told) => {
                            assert(is_clash(known, local_decl(fs[i as int]), told));
                            return Err(told);
                        },
                    };
                    self.funcs.insert(name.clone(), func);
                },
                _ => {},
            }
            i = i + 1;
        }
        assert(fs.take(i as int) =~= fs);
        Ok(())
    }

    /// Builds the function with the parameters `args` and the body `body` in the context.
    fn build(
        &mut self,
        args: &Vec<String>,
        body: NodeId,
        nodes: &Arena,
        func_arities: &StringHashMap<usize>,
        f: Ghost<Function>,
    ) -> (result: Result<(), CompilerError>)
        requires
            planted(nodes@, body),
            f@.args == texts(args@),
            f@.body == tree_of(nodes@, body),
            function_fits(f@),
            agree(decls(old(self).module), old(self).names(func_arities@)),
        ensures
            match fault_of(f@, func_arities@) {
                Some(fault) => result matches Err(error) && error@ == fault,
                None => result is Ok && function(final(self).ctx) == body_of(
                    f@,
                    old(self).names(func_arities@),
                ),
            },
            final(self).funcs == old(self).funcs,
            configuration(final(self).module) == configuration(old(self).module),
            decls(final(self).module) == decls(old(self).module),
            bodies(final(self).module) == bodies(old(self).module),
    {
        let ghost names = self.names(func_arities@);
        clear(&mut self.ctx);
        let mut n: usize = 0;
        while n < args.len()
            invariant
                n <= args@.len(),
                function(self.ctx) == Body::blank(
                    Shape { convention: Convention::Fast, params: n as nat, results: 0 },
                ),
                self.module == old(self).module,
                self.funcs == old(self).funcs,
            decreases args@.len() - n,
        {
            push_param(signature_mut(&mut self.ctx));
            n = n + 1;
        }
        push_result(signature_mut(&mut self.ctx));
        let mut memory = make_memory();
        let mut builder = make_builder(&mut self.ctx, &mut memory);
        let entry = create_block(&mut builder);
        append_block_params(&mut builder, entry);
        switch_to_block(&mut builder, entry);
        seal_block(&mut builder, entry);
        assert(draft(builder) =~= (Draft { vars: Seq::empty(), ..opened(args@.len()) }));
        let vars = bind_params(&mut builder, entry, args);
        proof {
            lemma_param_scope(f@.args);
            lemma_body(f@, names);
        }
        let mut translator = Translator {
            builder,
            module: &mut self.module,
            funcs: &self.funcs,
            func_arities,
            nodes,
            vars,
        };
        let value = translator.translate(body)?;
        return_(&mut translator.builder, value);
        finalize(translator.builder);
        Ok(())
    }

    /// Compiles the function with the name `name`, the parameters `args` and the body `body`.
    fn compile_function(
        &mut self,
        name: &String,
        args: &Vec<String>,
        body: NodeId,
        nodes: &Arena,
        func_arities: &StringHashMap<usize>,
        f: Ghost<Function>,
    ) -> (result: Result<(), CompilerError>)
        requires
            planted(nodes@, body),
            f@.name == name@,
            f@.args == texts(args@),
            f@.body == tree_of(nodes@, body),
            function_fits(f@),
            agree(decls(old(self).module), old(self).names(func_arities@)),
            old(self).funcs@.contains_key(f@.name),
            old(self).funcs@[f@.name] < decls(old(self).module).len(),
        ensures
            match result {
                Ok(_) => {
                    &&& fault_of(f@, func_arities@) is None
                    &&& !bodies(old(self).module).contains_key(old(self).funcs@[f@.name])
                    &&& bodies(final(self).module) == bodies(old(self).module).insert(
                        old(self).funcs@[f@.name],
                        body_of(f@, old(self).names(func_arities@)),
                    )
                    &&& is_blank(final(self).ctx)
                },
                Err(error) => {
                    &&& bodies(final(self).module) == bodies(old(self).module)
                    &&& match fault_of(f@, func_arities@) {
                        Some(fault) => error@ == fault,
                        None => error is JitError && is_declined(
                            bodies(old(self).module),
                            old(self).funcs@[f@.name],
                            body_of(f@, old(self).names(func_arities@)),
                            error,
                        ),
                    }
                },
            },
            final(self).funcs == old(self).funcs,
            configuration(final(self).module) == configuration(old(self).module),
            decls(final(self).module) == decls(old(self).module),
    {
        proof {
            lemma_body(f@, self.names(func_arities@));
        }
        self.build(args, body, nodes, func_arities, f)?;
        let func: u32 = *self.funcs.get(name.as_str()).unwrap();
        let ghost code = function(self.ctx);
        let answer = define_function(&mut self.module, func, &mut self.ctx);
        assert(answer matches Err(error) ==> declines(
            bodies(old(self).module),
            func,
            code,
            error,
        ));
        lift(answer)?;
        clear_context(&self.module, &mut self.ctx);
        Ok(())
    }

    /// Compiles the functions of a program.
    pub fn compile_functions(
        &mut self,
        id: NodeId,
        nodes: &Arena,
        func_arities: &StringHashMap<usize>,
    ) -> (result: Result<(), CompilerError>)
        requires
            planted(nodes@, id),
            agree(decls(old(self).module), old(self).names(func_arities@)),
            forall|i: int|
                #![trigger functions(tree_of(nodes@, id))[i]]
                0 <= i < functions(tree_of(nodes@, id)).len() ==> {
                    &&& function_fits(functions(tree_of(nodes@, id))[i])
                    &&& old(self).funcs@.contains_key(functions(tree_of(nodes@, id))[i].name)
                    &&& old(self).funcs@[functions(tree_of(nodes@, id))[i].name] < decls(
                        old(self).module,
                    ).len()
                },
        ensures
            compiles_functions(
                bodies(old(self).module),
                bodies(final(self).module),
                functions(tree_of(nodes@, id)),
                old(self).names(func_arities@),
                result,
            ),
            result is Ok ==> if functions(tree_of(nodes@, id)).len() == 0 {
                final(self).ctx == old(self).ctx
            } else {
                is_blank(final(self).ctx)
            },
            final(self).funcs == old(self).funcs,
            configuration(final(self).module) == configuration(old(self).module),
            decls(final(self).module) == decls(old(self).module),
    {
        let mut ids: Vec<NodeId> = Vec::new();
        collect_functions(nodes, id, &mut ids);
        let ghost fs = functions(tree_of(nodes@, id));
        let ghost names = self.names(func_arities@);
        let ghost before = bodies(self.module);
        assert(functions_at(nodes@, ids@) =~= fs);
        assert(fs.take(0) =~= Seq::empty());
        let mut i: usize = 0;
        while i < ids.len()
            invariant
                i <= ids@.len(),
                functions_at(nodes@, ids@) == fs,
                forall|j: int| 0 <= j < ids@.len() ==> defines(nodes@, #[trigger] ids@[j]),
                fs == functions(tree_of(nodes@, id)),
                forall|j: int|
                    #![trigger fs[j]]
                    0 <= j < fs.len() ==> {
                        &&& function_fits(fs[j])
                        &&& self.funcs@.contains_key(fs[j].name)
                        &&& self.funcs@[fs[j].name] < decls(self.module).len()
                    },
                names == self.names(func_arities@),
                names == old(self).names(func_arities@),
                before == bodies(old(self).module),
                agree(decls(self.module), names),
                compiled_up_to(before, bodies(self.module), fs, names, i as int),
                i == 0 ==> self.ctx == old(self).ctx,
                i > 0 ==> is_blank(self.ctx),
                self.funcs == old(self).funcs,
                configuration(self.module) == configuration(old(self).module),
                decls(self.module) == decls(old(self).module),
            decreases ids@.len() - i,
        {
            let ghost f = function_at(nodes@, ids@[i as int]);
            proof {
                assert(fs[i as int] == f);
                lemma_unfold(nodes@, ids@[i as int]);
            }
            let ghost so_far = bodies(self.module);
            match nodes.get(ids[i]) {
                Node::Fn { name, args, body, .. } => {
                    match self.compile_function(name, args, *body, nodes, func_arities, Ghost(f)) {
                        Ok(_) => {},
                        Err(error) => {
                            assert(compiled_up_to(
                                before,
                                bodies(self.module),
                                fs,
                                names,
                                i as int,
                            ));
                            return Err(error);
                        },
                    }
                },
                _ => {},
            }
            proof {
                lemma_compiled_next(before, so_far, fs, names, i as int);
            }
            i = i + 1;
        }
        assert(fs.take(i as int) =~= fs);
        Ok(())
    }

    /// Compiles the expression at the end of a program. The number of the function to be run is
    /// returned.
    pub fn run_main(
        &mut self,
        root: NodeId,
        nodes: &Arena,
        func_arities: &StringHashMap<usize>,
    ) -> (result: Result<u32, CompilerError>)
        requires
            planted(nodes@, root),
            function_fits(main_function(tree_of(nodes@, root))),
            decls(old(self).module).len() < u32::MAX,
            agree(decls(old(self).module), old(self).names(func_arities@)),
        ensures
            compiles_main(
                decls(old(self).module),
                bodies(old(self).module),
                bodies(final(self).module),
                main_function(tree_of(nodes@, root)),
                old(self).names(func_arities@),
                result,
            ),
            result is Ok ==> is_blank(final(self).ctx),
            main_is_taken(
                decls(old(self).module),
                bodies(old(self).module),
                tree_of(nodes@, root),
            ) ==> result is Err,
            final(self).funcs == old(self).funcs,
            configuration(final(self).module) == configuration(old(self).module),
            decls(final(self).module) == if fault_of(
                main_function(tree_of(nodes@, root)),
                func_arities@,
            ) is None {
                declared(
                    decls(old(self).module),
                    exported_decl(main_function(tree_of(nodes@, root))),
                )
            } else {
                decls(old(self).module)
            },
    {
        let ghost f = main_function(tree_of(nodes@, root));
        let ghost names = self.names(func_arities@);
        let args: Vec<String> = Vec::new();
        proof {
            assert(f.args =~= texts(args@));
            lemma_body(f, names);
        }
        self.build(&args, root, nodes, func_arities, Ghost(f))?;
        let mut signature = make_signature(&self.module);
        push_result(&mut signature);
        let ghost known = decls(self.module);
        let ghost code = function(self.ctx);
        let answer = declare_function(&mut self.module, "__main", Linkage::Export, &signature);
        assert(answer matches Err(error) ==> clashes(known, exported_decl(f), error));
        let id = lift(answer)?;
        let answer = define_function(&mut self.module, id, &mut self.ctx);
        assert(answer matches Err(error) ==> declines(
            bodies(old(self).module),
            id,
            code,
            error,
        ));
        lift(answer)?;
        clear_context(&self.module, &mut self.ctx);
        Ok(id)
    }
}

/// A program in machine code. Before it can be run, its module has to be made final.
pub struct Executable {
    pub jit: JITCompiler,
    /// The number of the function to be run, which takes nothing and returns a double.
    pub main: u32,
}

/// What comes of compiling a program: its code, all of it, in which every function that is called
/// is there; or what is wrong with the program; or that the code generator refused it.
pub open spec fn compiles_to(
    tree: Tree<u64>,
    result: Result<Executable, CompilerError>,
) -> bool {
    match result {
        Ok(program) => {
            &&& program_fault(tree) is None
            &&& !has_function(functions(tree), "__main"@)
            &&& program.main == functions(tree).len()
            &&& bodies(program.jit.module) == program_bodies(tree)
            &&& is_linked(bodies(program.jit.module))
        },
        Err(error) => {
            ||| program_fault(tree) == Some(error@)
            ||| error is JitError && reaches_generator(tree) && is_refused(tree, error)
        },
    }
}

/// The code of the first `id` functions of a program.
pub open spec fn code_before(tree: Tree<u64>, id: u32) -> Map<u32, Body> {
    Map::new(|i: u32| i < id, |i: u32| body_of(functions(tree)[i as int], program_names(tree)))
}

/// The code of one of the functions of a program, of which the last is the one to be run.
pub open spec fn code_of(tree: Tree<u64>, id: u32) -> Body {
    body_of(functions(tree).push(main_function(tree))[id as int], program_names(tree))
}

/// An error of the compiler is the one with which the code generator refused a program: it declined
/// one of the program's functions, once those before it were defined, or it has a function of the
/// program under the name of the one to be run.
pub open spec fn is_refused(tree: Tree<u64>, told: CompilerError) -> bool {
    let fs = functions(tree);
    let main = main_function(tree);
    let decls = fs.map_values(|f: Function| local_decl(f));
    ||| exists|id: u32|
        {
            &&& id <= fs.len()
            &&& #[trigger] is_declined(code_before(tree, id), id, code_of(tree, id), told)
            &&& forall|i: int|
                0 <= i <= id ==> fault_of(
                    #[trigger] fs.push(main)[i],
                    program_names(tree).arities,
                ) is None
        }
    ||| {
        &&& program_fault(tree) is None
        &&& has_function(fs, "__main"@)
        &&& match declared_number(decls, exported_decl(main)) {
            Some(id) => is_declined(
                code_before(tree, fs.len() as u32),
                id as u32,
                code_of(tree, fs.len() as u32),
                told,
            ),
            None => is_clash(decls, exported_decl(main), told),
        }
    }
}

/// A program without fault is compiled, unless the code generator declines one of its functions, or
/// the program defines a function of the name that the last expression gets.
pub proof fn law_a_program_without_fault_is_compiled(
    tree: Tree<u64>,
    result: Result<Executable, CompilerError>,
)
    requires
        compiles_to(tree, result),
        program_fault(tree) is None,
        !has_function(functions(tree), "__main"@),
        forall|id: u32, error: ModuleError|
            id <= functions(tree).len() ==> !(#[trigger] declines(
                code_before(tree, id),
                id,
                code_of(tree, id),
                error,
            )),
    ensures
        result is Ok,
{
}

/// An error is told by what it is: a program that is refused is without fault as far as it was
/// compiled, and one with a fault is not compiled.
pub proof fn law_a_program_with_a_fault_is_not_compiled(
    tree: Tree<u64>,
    result: Result<Executable, CompilerError>,
)
    requires
        compiles_to(tree, result),
        program_fault(tree) is Some,
    ensures
        result matches Err(error) && (error@ == program_fault(tree)->Some_0 || exists|id: u32|
            id < functions(tree).len() && #[trigger] is_declined(
                code_before(tree, id),
                id,
                code_of(tree, id),
                error,
            )),
{
    let fs = functions(tree);
    let main = main_function(tree);
    let arities = program_names(tree).arities;
    if forall|i: int|
        0 <= i <= fs.len() ==> fault_of(#[trigger] fs.push(main)[i], arities) is None {
        assert forall|i: int| 0 <= i < fs.len() implies fault_of(#[trigger] fs[i], arities) is None by {
            assert(fs.push(main)[i] == fs[i]);
        }
        lemma_first_fault(fs, arities, fs.len() as int);
        assert(fs.push(main)[fs.len() as int] == main);
    }
}

/// Compiling a program twice gives the same code or the same fault, but that the code generator
/// may refuse it one time. It cannot where it is not reached.
pub proof fn law_compilations_agree(
    tree: Tree<u64>,
    one: Result<Executable, CompilerError>,
    other: Result<Executable, CompilerError>,
)
    requires
        compiles_to(tree, one),
        compiles_to(tree, other),
    ensures
        match (one, other) {
            (Ok(a), Ok(b)) => a.main == b.main && bodies(a.jit.module) == bodies(b.jit.module),
            (Err(a), Err(b)) => a is JitError || b is JitError || a@ == b@,
            (Ok(_), Err(b)) => b is JitError,
            (Err(a), Ok(_)) => a is JitError,
        },
        !reaches_generator(tree) ==> one is Err && other is Err && one->Err_0@ == other->Err_0@,
{
    if program_fault(tree) is None {
        lemma_reached(tree);
    }
}

/// A program without fault reaches the code generator.
proof fn lemma_reached(tree: Tree<u64>)
    requires
        program_fault(tree) is None,
    ensures
        reaches_generator(tree),
{
    let fs = functions(tree);
    if fs.len() > 0 {
        lemma_no_fault(fs, program_names(tree).arities, 0);
        assert(fs.push(main_function(tree))[0] == fs[0]);
    }
}

/// Once declared, the functions of a program can be called as they are declared and compiled under
/// their numbers.
proof fn lemma_functions_declared(tree: Tree<u64>)
    requires
        program_fits(tree),
        duplicate(functions(tree)) is None,
    ensures
        agree(functions(tree).map_values(|f: Function| local_decl(f)), program_names(tree)),
        forall|i: int|
            #![trigger functions(tree)[i]]
            0 <= i < functions(tree).len() ==> {
                &&& function_fits(functions(tree)[i])
                &&& program_names(tree).funcs.contains_key(functions(tree)[i].name)
                &&& program_names(tree).funcs[functions(tree)[i].name] == i
            },
{
    lemma_numbered(functions(tree));
    lemma_numbered_agree(functions(tree));
}

/// The code of the first functions of a program, once they are compiled, with none of which anything
/// is wrong.
#[verifier::rlimit(30)]
proof fn lemma_code_before(tree: Tree<u64>, after: Map<u32, Body>, k: int)
    requires
        functions(tree).len() <= u32::MAX,
        duplicate(functions(tree)) is None,
        compiled_up_to(Map::empty(), after, functions(tree), program_names(tree), k),
    ensures
        after == code_before(tree, k as u32),
        forall|i: int|
            0 <= i < k ==> fault_of(
                #[trigger] functions(tree)[i],
                program_names(tree).arities,
            ) is None,
{
    lemma_compiled(functions(tree), k);
    assert(after =~= code_before(tree, k as u32));
}

/// A function has its place in the program as its number.
proof fn lemma_number(tree: Tree<u64>, k: int)
    requires
        functions(tree).len() <= u32::MAX,
        duplicate(functions(tree)) is None,
        0 <= k < functions(tree).len(),
    ensures
        program_names(tree).funcs[functions(tree)[k].name] == k,
{
    lemma_numbered(functions(tree));
}

/// A function that the code generator declines is the next of the program.
#[verifier::rlimit(30)]
proof fn lemma_function_declined(tree: Tree<u64>, error: CompilerError, id: u32)
    requires
        id < functions(tree).len(),
        forall|i: int|
            0 <= i <= id ==> fault_of(
                #[trigger] functions(tree)[i],
                program_names(tree).arities,
            ) is None,
        is_declined(
            code_before(tree, id),
            id,
            body_of(functions(tree)[id as int], program_names(tree)),
            error,
        ),
    ensures
        is_refused(tree, error),
{
    let fs = functions(tree);
    let all = fs.push(main_function(tree));
    assert forall|i: int| 0 <= i <= id implies fault_of(
        #[trigger] all[i],
        program_names(tree).arities,
    ) is None by {
        assert(all[i] == fs[i]);
    }
    assert(all[id as int] == fs[id as int]);
    assert(is_declined(code_before(tree, id), id, code_of(tree, id), error));
}

/// An error on the way through the functions of a program is what comes of compiling the program.
#[verifier::rlimit(30)]
proof fn lemma_functions_refused(tree: Tree<u64>, after: Map<u32, Body>, error: CompilerError)
    requires
        functions(tree).len() <= u32::MAX,
        duplicate(functions(tree)) is None,
        compiles_functions(
            Map::empty(),
            after,
            functions(tree),
            program_names(tree),
            Err(error),
        ),
    ensures
        compiles_to(tree, Err(error)),
{
    let fs = functions(tree);
    let names = program_names(tree);
    let k = choose|k: int|
        {
            &&& #[trigger] compiled_up_to(Map::empty(), after, fs, names, k)
            &&& k < fs.len()
            &&& match fault_of(fs[k], names.arities) {
                Some(fault) => error@ == fault,
                None => error is JitError && is_declined(
                    after,
                    names.funcs[fs[k].name],
                    body_of(fs[k], names),
                    error,
                ),
            }
        };
    lemma_first_fault(fs, names.arities, k);
    assert(fs.push(main_function(tree))[0] == fs[0]);
    if fault_of(fs[k], names.arities) is None {
        lemma_code_before(tree, after, k);
        lemma_number(tree, k);
        lemma_function_declined(tree, error, k as u32);
    }
}

/// Once the functions of a program are compiled, what is wrong with the program is what is wrong
/// with the expression at its end, and every function that is called is defined.
proof fn lemma_functions_compiled(tree: Tree<u64>, after: Map<u32, Body>)
    requires
        program_fits(tree),
        duplicate(functions(tree)) is None,
        compiled_up_to(
            Map::empty(),
            after,
            functions(tree),
            program_names(tree),
            functions(tree).len() as int,
        ),
    ensures
        program_fault(tree) == fault_of(main_function(tree), program_names(tree).arities),
        program_fault(tree) is None ==> reaches_generator(tree),
        after == Map::new(
            |id: u32| id < functions(tree).len(),
            |id: u32| body_of(functions(tree)[id as int], program_names(tree)),
        ),
        is_linked(after),
        forall|id: u32| #[trigger]
            callable(program_names(tree), id) ==> after.contains_key(id),
{
    let fs = functions(tree);
    assert(fs.take(fs.len() as int) =~= fs);
    lemma_first_fault(fs, program_names(tree).arities, fs.len() as int);
    lemma_compiled_linked(fs);
    lemma_compiled(fs, fs.len() as int);
    if program_fault(tree) is None {
        lemma_reached(tree);
    }
}

/// The expression at the end of a program, compiled after its functions, makes the code of the
/// program whole.
proof fn lemma_main_compiled(tree: Tree<u64>, functions_code: Map<u32, Body>, main: u32)
    requires
        program_fits(tree),
        program_fault(tree) is None,
        functions_code == Map::new(
            |id: u32| id < functions(tree).len(),
            |id: u32| body_of(functions(tree)[id as int], program_names(tree)),
        ),
        is_linked(functions_code),
        forall|id: u32| #[trigger]
            callable(program_names(tree), id) ==> functions_code.contains_key(id),
        declared_number(
            functions(tree).map_values(|f: Function| local_decl(f)),
            exported_decl(main_function(tree)),
        ) == Some(main as int),
        !functions_code.contains_key(main),
    ensures
        !has_function(functions(tree), "__main"@),
        main == functions(tree).len(),
        functions_code.insert(main, body_of(main_function(tree), program_names(tree)))
            == program_bodies(tree),
        is_linked(program_bodies(tree)),
{
    let fs = functions(tree);
    let names = program_names(tree);
    let own = fs.map_values(|f: Function| local_decl(f));
    let body = body_of(main_function(tree), names);
    if is_declared(own, "__main"@) {
        assert(0 <= number_of(own, "__main"@) < own.len());
        assert(false);
    }
    if has_function(fs, "__main"@) {
        let i = choose|i: int| 0 <= i < fs.len() && (#[trigger] fs[i]).name == "__main"@;
        assert(own[i].name == "__main"@);
    }
    assert(functions_code.insert(main, body) =~= program_bodies(tree));
    lemma_body(main_function(tree), names);
    lemma_linked(functions_code, main, body, names);
}

/// An error at the end of a program, once its functions are compiled, is what comes of compiling the
/// program.
#[verifier::rlimit(30)]
proof fn lemma_main_refused(
    tree: Tree<u64>,
    functions_code: Map<u32, Body>,
    error: CompilerError,
)
    requires
        program_fits(tree),
        duplicate(functions(tree)) is None,
        compiled_up_to(
            Map::empty(),
            functions_code,
            functions(tree),
            program_names(tree),
            functions(tree).len() as int,
        ),
        compiles_main(
            functions(tree).map_values(|f: Function| local_decl(f)),
            functions_code,
            functions_code,
            main_function(tree),
            program_names(tree),
            Err(error),
        ),
    ensures
        compiles_to(tree, Err(error)),
{
    let fs = functions(tree);
    let main = main_function(tree);
    let names = program_names(tree);
    let own = fs.map_values(|f: Function| local_decl(f));
    let id = fs.len() as u32;
    lemma_functions_compiled(tree, functions_code);
    if program_fault(tree) is None {
        assert(functions_code =~= code_before(tree, id));
        assert(fs.push(main)[id as int] == main);
        if !has_function(fs, "__main"@) {
            if is_declared(own, "__main"@) {
                let i = number_of(own, "__main"@);
                assert(0 <= i < own.len() && own[i].name == "__main"@);
                assert(fs[i].name == "__main"@);
            }
            assert forall|i: int| 0 <= i <= id implies fault_of(
                #[trigger] fs.push(main)[i],
                names.arities,
            ) is None by {
                if i < id {
                    assert(fs.push(main)[i] == fs[i]);
                    lemma_no_fault(fs, names.arities, i);
                }
            }
            assert(is_declined(code_before(tree, id), id, code_of(tree, id), error));
        }
    }
}

/// Compiles a program.
pub fn codegen(jit: JITCompiler, root: NodeId, nodes: &Arena) -> (result: Result<
    Executable,
    CompilerError,
>)
    requires
        jit.is_new(),
        planted(nodes@, root),
        program_fits(tree_of(nodes@, root)),
    ensures
        compiles_to(tree_of(nodes@, root), result),
        result matches Ok(program) ==> configuration(program.jit.module) == configuration(
            jit.module,
        ),
{
    let ghost tree = tree_of(nodes@, root);
    let mut jit = jit;
    let mut func_arities: StringHashMap<usize> = StringHashMap::new();
    proof {
        assert(jit.roster(func_arities@) =~= blank_roster());
        lemma_enroll_new(functions(tree));
    }
    jit.pre_declare(root, nodes, &mut func_arities)?;
    assert(jit.names(func_arities@) == program_names(tree));
    proof {
        lemma_functions_declared(tree);
    }
    match jit.compile_functions(root, nodes, &func_arities) {
        Ok(_) => {},
        Err(error) => {
            proof {
                lemma_functions_refused(tree, bodies(jit.module), error);
            }
            return Err(error);
        },
    }
    let ghost functions_code = bodies(jit.module);
    proof {
        lemma_functions_compiled(tree, functions_code);
    }
    match jit.run_main(root, nodes, &func_arities) {
        Ok(main) => {
            proof {
                lemma_main_compiled(tree, functions_code, main);
            }
            Ok(Executable { jit, main })
        },
        Err(error) => {
            proof {
                lemma_main_refused(tree, functions_code, error);
            }
            Err(error)
        },
    }
}

/// Functions that neither a program nor a module knows are entered behind those that it knows.
proof fn lemma_enrolled_new(before: Roster, fs: Seq<Function>)
    requires
        are_distinct(fs),
        forall|i: int|
            #![trigger fs[i]]
            0 <= i < fs.len() ==> !before.names.arities.contains_key(fs[i].name) && !is_declared(
                before.decls,
                fs[i].name,
            ),
        before.decls.len() + fs.len() <= u32::MAX,
    ensures
        enroll_all(before, fs).1 is None,
        enroll_all(before, fs).0.decls == before.decls + fs.map_values(
            |f: Function| local_decl(f),
        ),
        forall|i: int|
            #![trigger fs[i]]
            0 <= i < fs.len() ==> {
                let names = enroll_all(before, fs).0.names;
                &&& names.funcs.contains_key(fs[i].name)
                &&& names.funcs[fs[i].name] == before.decls.len() + i
                &&& names.arities.contains_key(fs[i].name)
                &&& names.arities[fs[i].name] == fs[i].args.len() as usize
            },
        forall|name: Seq<char>|
            !(#[trigger] has_function(fs, name)) ==> {
                let names = enroll_all(before, fs).0.names;
                &&& names.funcs.contains_key(name) == before.names.funcs.contains_key(name)
                &&& names.funcs[name] == before.names.funcs[name]
                &&& names.arities.contains_key(name) == before.names.arities.contains_key(name)
                &&& names.arities[name] == before.names.arities[name]
            },
    decreases fs.len(),
{
    if fs.len() > 0 {
        let rest = fs.drop_last();
        let f = fs.last();
        assert forall|i: int, j: int| 0 <= i < j < rest.len() implies (#[trigger] rest[i]).name != (
        #[trigger] rest[j]).name by {
            assert(fs[i].name != fs[j].name);
        }
        assert forall|i: int| #![trigger rest[i]] 0 <= i < rest.len() implies !before.names.arities.contains_key(
            rest[i].name,
        ) && !is_declared(before.decls, rest[i].name) by {
            assert(rest[i] == fs[i]);
        }
        lemma_enrolled_new(before, rest);
        assert(f == fs[fs.len() - 1]);
        let (r, _) = enroll_all(before, rest);
        assert(!has_function(rest, f.name)) by {
            if has_function(rest, f.name) {
                let i = choose|i: int| 0 <= i < rest.len() && (#[trigger] rest[i]).name == f.name;
                assert(fs[i].name != fs[fs.len() - 1].name);
            }
        }
        assert(!is_declared(r.decls, f.name)) by {
            if is_declared(r.decls, f.name) {
                let i = choose|i: int|
                    0 <= i < r.decls.len() && (#[trigger] r.decls[i]).name == f.name;
                if i < before.decls.len() {
                    assert(before.decls[i].name == f.name);
                } else {
                    assert(rest[i - before.decls.len()].name == f.name);
                }
            }
        }
        assert(enroll_all(before, fs).0.decls =~= before.decls + fs.map_values(
            |f: Function| local_decl(f),
        ));
        assert forall|i: int| #![trigger fs[i]] 0 <= i < fs.len() implies {
            let names = enroll_all(before, fs).0.names;
            &&& names.funcs.contains_key(fs[i].name)
            &&& names.funcs[fs[i].name] == before.decls.len() + i
            &&& names.arities.contains_key(fs[i].name)
            &&& names.arities[fs[i].name] == fs[i].args.len() as usize
        } by {
            if i < rest.len() {
                assert(rest[i] == fs[i]);
                assert(fs[i].name != fs[fs.len() - 1].name);
            }
        }
        assert forall|name: Seq<char>| !(#[trigger] has_function(fs, name)) implies {
            let names = enroll_all(before, fs).0.names;
            &&& names.funcs.contains_key(name) == before.names.funcs.contains_key(name)
            &&& names.funcs[name] == before.names.funcs[name]
            &&& names.arities.contains_key(name) == before.names.arities.contains_key(name)
            &&& names.arities[name] == before.names.arities[name]
        } by {
            assert(fs[fs.len() - 1].name != name);
            if has_function(rest, name) {
                let i = choose|i: int| 0 <= i < rest.len() && (#[trigger] rest[i]).name == name;
                assert(fs[i].name == name);
            }
        }
    } else {
        assert(before.decls + fs.map_values(|f: Function| local_decl(f)) =~= before.decls);
    }
}

/// Functions with distinct names, none of which a program or its module knows, are all declared:
/// each gets the next number of the module, its arguments are counted, and nothing else changes.
pub proof fn law_new_functions_are_declared(
    before: Roster,
    after: Roster,
    fs: Seq<Function>,
    result: Result<(), CompilerError>,
)
    requires
        declares(before, after, fs, result),
        are_distinct(fs),
        forall|i: int|
            #![trigger fs[i]]
            0 <= i < fs.len() ==> !before.names.arities.contains_key(fs[i].name) && !is_declared(
                before.decls,
                fs[i].name,
            ),
        before.decls.len() + fs.len() <= u32::MAX,
    ensures
        result is Ok,
        after.decls == before.decls + fs.map_values(|f: Function| local_decl(f)),
        forall|i: int|
            #![trigger fs[i]]
            0 <= i < fs.len() ==> {
                &&& after.names.funcs.contains_key(fs[i].name)
                &&& after.names.funcs[fs[i].name] == before.decls.len() + i
                &&& after.names.arities.contains_key(fs[i].name)
                &&& after.names.arities[fs[i].name] == fs[i].args.len() as usize
            },
        forall|name: Seq<char>|
            !(#[trigger] has_function(fs, name)) ==> {
                &&& after.names.funcs.contains_key(name) == before.names.funcs.contains_key(name)
                &&& after.names.funcs[name] == before.names.funcs[name]
                &&& after.names.arities.contains_key(name) == before.names.arities.contains_key(
                    name,
                )
                &&& after.names.arities[name] == before.names.arities[name]
            },
{
    lemma_enrolled_new(before, fs);
}

/// A function of a name that the program has already, behind new ones, is refused by its name, and
/// what was declared before it stays.
pub proof fn law_known_functions_are_refused(
    before: Roster,
    after: Roster,
    fs: Seq<Function>,
    j: int,
    result: Result<(), CompilerError>,
)
    requires
        declares(before, after, fs, result),
        0 <= j < fs.len(),
        are_distinct(fs.take(j)),
        forall|i: int|
            #![trigger fs[i]]
            0 <= i < j ==> !before.names.arities.contains_key(fs[i].name) && !is_declared(
                before.decls,
                fs[i].name,
            ),
        before.decls.len() + j <= u32::MAX,
        before.names.arities.contains_key(fs[j].name) || has_function(fs.take(j), fs[j].name),
    ensures
        result matches Err(error) && error@ == Fault::DuplicateFunction(fs[j].name),
        after.decls == before.decls + fs.take(j).map_values(|f: Function| local_decl(f)),
{
    let new = fs.take(j);
    assert forall|i: int| #![trigger new[i]] 0 <= i < new.len() implies !before.names.arities.contains_key(
        new[i].name,
    ) && !is_declared(before.decls, new[i].name) by {
        assert(new[i] == fs[i]);
    }
    lemma_enrolled_new(before, new);
    let name = fs[j].name;
    if has_function(new, name) {
        let i = choose|i: int| 0 <= i < new.len() && (#[trigger] new[i]).name == name;
        assert(enroll_all(before, new).0.names.arities.contains_key(new[i].name));
    }
    assert(enroll_all(before, new).0.names.arities.contains_key(name));
    assert(fs.take(j + 1).drop_last() =~= new);
    assert(fs.take(j + 1).last() == fs[j]);
    lemma_enroll_all_stops(before, fs, j + 1);
}

} // verus!

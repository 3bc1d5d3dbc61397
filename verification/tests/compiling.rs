use cranelift::codegen::ir::{ExternalName, Function, InstructionData, Opcode, Value};
use cranelift::codegen::settings::Flags;
use cranelift::codegen::{settings, Context};
use cranelift::jit::JITBuilder;
use cranelift::module::{default_libcall_names, FuncId, Linkage, Module, ModuleError};
use cranelift::prelude::{types, AbiParam, FunctionBuilder, FunctionBuilderContext, InstBuilder};
use foo_compiler::ast::{Arena, Node, NodeId};
use foo_compiler::compiler::{codegen, host_flags, lift, Executable, JITCompiler};
use foo_compiler::error::CompilerError;
use foo_compiler::parser::parse;
use foo_compiler::program::fits;
use foo_compiler::translate::Translator;
use foo_compiler::StringHashMap;
use std::collections::HashMap;

fn read(source: &str) -> (Arena, NodeId) {
    let mut nodes = Arena::new();
    let bits = |text: &str| text.parse::<f64>().unwrap().to_bits();
    match parse(source, bits, &mut nodes) {
        Ok(root) => (nodes, root),
        Err(error) => panic!("{source:?} is refused: {error:?}"),
    }
}

fn compile(source: &str) -> Result<Executable, CompilerError> {
    let (nodes, root) = read(source);
    assert!(fits(&nodes, root));
    codegen(JITCompiler::new().unwrap(), root, &nodes)
}

fn message(source: &str) -> String {
    match compile(source) {
        Ok(_) => panic!("{source:?} is compiled"),
        Err(error) => error.message(),
    }
}

/// The functions of a program, as the compiler numbers them: name, parameters and body.
fn functions<'a>(
    nodes: &'a Arena,
    id: NodeId,
    found: &mut Vec<(&'a String, &'a Vec<String>, NodeId)>,
) {
    match nodes.get(id) {
        Node::Num(_) | Node::Var(_) => {}
        Node::Neg(a) => functions(nodes, *a, found),
        Node::Add(a, b) | Node::Sub(a, b) | Node::Mul(a, b) | Node::Div(a, b) => {
            functions(nodes, *a, found);
            functions(nodes, *b, found);
        }
        Node::Call(_, args) => args.iter().for_each(|arg| functions(nodes, *arg, found)),
        Node::Let { rhs, then, .. } => {
            functions(nodes, *rhs, found);
            functions(nodes, *then, found);
        }
        Node::Fn { name, args, body, then } => {
            found.push((name, args, *body));
            functions(nodes, *body, found);
            functions(nodes, *then, found);
        }
    }
}

/// The intermediate code of one function, or what is wrong with it.
fn translate(
    jit: &mut JITCompiler,
    nodes: &Arena,
    arities: &StringHashMap<usize>,
    args: &[String],
    body: NodeId,
) -> Result<Function, CompilerError> {
    let mut context = Context::new();
    let mut memory = FunctionBuilderContext::new();
    for _ in args {
        context.func.signature.params.push(AbiParam::new(types::F64));
    }
    context.func.signature.returns.push(AbiParam::new(types::F64));
    let mut builder = FunctionBuilder::new(&mut context.func, &mut memory);
    let entry = builder.create_block();
    builder.append_block_params_for_function_params(entry);
    builder.switch_to_block(entry);
    builder.seal_block(entry);
    let mut vars = StringHashMap::new();
    for (i, arg) in args.iter().enumerate() {
        let value = builder.block_params(entry)[i];
        let var = builder.declare_var(types::F64);
        builder.def_var(var, value);
        vars.insert(arg.clone(), var.as_u32());
    }
    let mut translator = Translator {
        builder,
        module: &mut jit.module,
        funcs: &jit.funcs,
        func_arities: arities,
        nodes,
        vars,
    };
    let value = translator.translate(body)?;
    for arg in args {
        assert!(translator.vars.contains_key(arg));
    }
    translator.builder.ins().return_(&[Value::from_u32(value)]);
    translator.builder.finalize();
    Ok(context.func)
}

/// The intermediate code of a whole program. The last function is the one to be run.
fn intermediate(source: &str) -> Vec<Function> {
    let (nodes, root) = read(source);
    let mut jit = JITCompiler::new().unwrap();
    let mut arities = StringHashMap::new();
    jit.pre_declare(root, &nodes, &mut arities).unwrap();
    let mut found = Vec::new();
    functions(&nodes, root, &mut found);
    let mut code = Vec::new();
    for (i, (name, args, body)) in found.iter().enumerate() {
        assert_eq!(jit.funcs.get(name), Some(&(i as u32)));
        assert_eq!(arities.get(name), Some(&args.len()));
        code.push(translate(&mut jit, &nodes, &arities, args, *body).unwrap());
    }
    code.push(translate(&mut jit, &nodes, &arities, &[], root).unwrap());
    code
}

/// Runs intermediate code.
fn interpret(code: &[Function], id: usize, args: &[f64]) -> f64 {
    let func = &code[id];
    let entry = func.layout.entry_block().unwrap();
    let mut values: HashMap<Value, f64> = HashMap::new();
    for (param, arg) in func.dfg.block_params(entry).iter().zip(args) {
        values.insert(*param, *arg);
    }
    for inst in func.layout.block_insts(entry) {
        let result = match &func.dfg.insts[inst] {
            InstructionData::UnaryIeee64 { imm, .. } => f64::from_bits(imm.bits()),
            InstructionData::Unary { opcode: Opcode::Fneg, arg } => -values[arg],
            InstructionData::Binary { opcode, args: [a, b] } => match opcode {
                Opcode::Fadd => values[a] + values[b],
                Opcode::Fsub => values[a] - values[b],
                Opcode::Fmul => values[a] * values[b],
                Opcode::Fdiv => values[a] / values[b],
                other => panic!("{other}"),
            },
            InstructionData::Call { func_ref, .. } => {
                let args: Vec<f64> =
                    func.dfg.inst_args(inst).iter().map(|arg| values[arg]).collect();
                let ExternalName::User(name) = func.dfg.ext_funcs[*func_ref].name else {
                    panic!("not a function of the module");
                };
                let callee = func.params.user_named_funcs()[name].index;
                interpret(code, callee as usize, &args)
            }
            InstructionData::MultiAry { opcode: Opcode::Return, .. } => {
                return values[&func.dfg.inst_args(inst)[0]];
            }
            other => panic!("{other:?}"),
        };
        values.insert(func.dfg.inst_results(inst)[0], result);
    }
    panic!("the function does not return")
}

fn run(source: &str) -> f64 {
    let code = intermediate(source);
    let value = interpret(&code, code.len() - 1, &[]);
    let mut program = compile(source).unwrap();
    assert_eq!(program.main as usize, code.len() - 1);
    program.jit.module.finalize_definitions().unwrap();
    for id in 0..=program.main {
        assert!(!program.jit.module.get_finalized_function(FuncId::from_u32(id)).is_null());
    }
    value
}

#[test]
fn arithmetic() {
    assert_eq!(run("1 + 2 * 3"), 7.0);
    assert_eq!(run("10 - 4 - 3"), 3.0);
    assert_eq!(run("7 / 2"), 3.5);
    assert_eq!(run("-(1 + 2)"), -3.0);
    assert_eq!(run("--5"), 5.0);
    assert_eq!(run("2 * (3 + 4) - 10 / 4"), 11.5);
    assert_eq!(run("1 / 0"), f64::INFINITY);
    assert!(run("0 / 0").is_nan());
    assert!(run("-0").is_sign_negative());
}

#[test]
fn variables_shadow_and_come_back() {
    assert_eq!(run("let x = 1; let x = x + 1; x * 10"), 20.0);
    assert_eq!(run("let x = 2; let y = x * x; y + x"), 6.0);
    assert_eq!(run("let let = 3; let + let"), 6.0);
}

#[test]
fn calls() {
    assert_eq!(run("fn add a b = a + b; add(1, 2)"), 3.0);
    assert_eq!(run("fn sub a b = a - b; sub(sub(10, 1), 2,)"), 7.0);
    assert_eq!(run("fn f = 4; f() + f()"), 8.0);
    assert_eq!(run("fn f x = g(x) + 1; fn g x = x * 2; f(5)"), 11.0);
    assert_eq!(run("fn f x = let(x); fn let x = x; f(2)"), 2.0);
    assert_eq!(run("let x = 5; fn f x = x * 2; f(x + 1) - x"), 7.0);
}

#[test]
fn of_parameters_with_one_name_the_last_counts() {
    assert_eq!(run("fn f x x = x; f(1, 2)"), 2.0);
}

#[test]
fn intermediate_code() {
    let code = intermediate("fn f a b = a - b; let x = 3; -f(x, 4)");
    let text: Vec<String> = code[0].display().to_string().lines().map(str::to_string).collect();
    assert_eq!(
        text,
        [
            "function u0:0(f64, f64) -> f64 fast {",
            "block0(v0: f64, v1: f64):",
            "    v2 = fsub v0, v1",
            "    return v2",
            "}",
        ]
    );
    let text = code[1].display().to_string();
    assert!(text.contains("v0 = f64const 0x1.8000000000000p1"), "{text}");
    assert!(text.contains("v1 = f64const 0x1.0000000000000p2"), "{text}");
    assert!(text.contains("v2 = call fn0(v0, v1)"), "{text}");
    assert!(text.contains("v3 = fneg v2"), "{text}");
    assert!(text.contains("return v3"), "{text}");
}

#[test]
fn every_operator_has_its_instruction() {
    let text = intermediate("1 + 2 - 3 * 4 / 5")[0].display().to_string();
    for opcode in ["fadd v0, v1", "fsub v2", "fmul v3, v4", "fdiv v5, v6"] {
        assert!(text.contains(opcode), "{opcode} in {text}");
    }
}

#[test]
fn modules_declare_the_functions_of_a_program() {
    let program = compile("fn f a b = a; fn g = fun(1); fn fun x = f(x, x); g()").unwrap();
    let decls = program.jit.module.declarations();
    let found: Vec<(u32, String, Linkage, usize, usize)> = decls
        .get_functions()
        .map(|(id, decl)| {
            (
                id.as_u32(),
                decl.name.clone().unwrap(),
                decl.linkage,
                decl.signature.params.len(),
                decl.signature.returns.len(),
            )
        })
        .collect();
    assert_eq!(
        found,
        [
            (0, "f".to_string(), Linkage::Local, 2, 1),
            (1, "g".to_string(), Linkage::Local, 0, 1),
            (2, "fun".to_string(), Linkage::Local, 1, 1),
            (3, "__main".to_string(), Linkage::Export, 0, 1),
        ]
    );
    assert_eq!(program.main, 3);
}

#[test]
fn modules_are_made_for_the_host() {
    let jit = JITCompiler::new().unwrap();
    let flags = jit.module.isa().flags();
    assert!(!flags.is_pic());
    assert!(!flags.use_colocated_libcalls());
    assert_eq!(jit.module.declarations().get_functions().count(), 0);
    assert_eq!(jit.ctx.func.signature.call_conv, jit.module.isa().default_call_conv());
}

#[test]
fn the_answer_for_the_host_decides() {
    let flags = host_flags();
    assert!(!flags.is_pic());
    assert!(!flags.use_colocated_libcalls());
    let isa = cranelift::native::builder().unwrap().finish(flags).unwrap();
    let jit = JITCompiler::for_host(Ok(JITBuilder::with_isa(isa, default_libcall_names()))).unwrap();
    assert_eq!(jit.module.declarations().get_functions().count(), 0);
    assert!(!jit.module.isa().flags().is_pic());
    let refused = JITCompiler::for_host(Err("no such machine".to_string()));
    assert_eq!(refused.err(), Some("no such machine".to_string()));
}

#[test]
fn the_context_is_empty_between_functions() {
    let (nodes, root) = read("fn f x = x + 1; f(1)");
    let mut jit = JITCompiler::new().unwrap();
    let mut arities = StringHashMap::new();
    jit.pre_declare(root, &nodes, &mut arities).unwrap();
    jit.compile_functions(root, &nodes, &arities).unwrap();
    assert!(jit.ctx.func.signature.params.is_empty());
    assert!(jit.ctx.func.layout.entry_block().is_none());
    assert_eq!(jit.run_main(root, &nodes, &arities).unwrap(), 1);
    assert!(jit.ctx.func.layout.entry_block().is_none());
}

#[test]
fn the_main_expression_is_compiled_once() {
    let (mut nodes, first) = read("1 + 2");
    let bits = |text: &str| text.parse::<f64>().unwrap().to_bits();
    let second = parse("3", bits, &mut nodes).unwrap();
    let faulty = parse("x", bits, &mut nodes).unwrap();
    let mut jit = JITCompiler::new().unwrap();
    let arities = StringHashMap::new();
    assert!(jit.run_main(faulty, &nodes, &arities).is_err());
    assert_eq!(jit.module.declarations().get_functions().count(), 0);
    assert_eq!(jit.run_main(first, &nodes, &arities).unwrap(), 0);
    for root in [first, second] {
        let again = jit.run_main(root, &nodes, &arities).unwrap_err();
        assert!(matches!(again, CompilerError::JitError(_)));
    }
}

#[test]
fn compilations_agree() {
    for source in ["fn f x = x + 1; f(2)", "fn f = 1; g()", "x", "fn f = 1; fn f = 2; 3"] {
        match (compile(source), compile(source)) {
            (Ok(a), Ok(b)) => assert_eq!(a.main, b.main),
            (Err(a), Err(b)) => assert_eq!(a.message(), b.message()),
            _ => panic!("{source:?}"),
        }
    }
}

#[test]
fn a_function_is_compiled_once() {
    let (nodes, root) = read("fn f x = x + 1; f(1)");
    let mut jit = JITCompiler::new().unwrap();
    let mut arities = StringHashMap::new();
    jit.pre_declare(root, &nodes, &mut arities).unwrap();
    jit.compile_functions(root, &nodes, &arities).unwrap();
    let again = jit.compile_functions(root, &nodes, &arities).unwrap_err();
    assert!(matches!(again, CompilerError::JitError(_)));
    let twice = jit.pre_declare(root, &nodes, &mut arities).unwrap_err();
    assert_eq!(twice.message(), "Redefinition of function `f` in the same scope");
}

#[test]
fn unknown_variables() {
    assert_eq!(message("x"), "Variable `x` not found in scope");
    assert_eq!(message("(let_ + 1)"), "Variable `let_` not found in scope");
    assert_eq!(message("fn f x = y; 1"), "Variable `y` not found in scope");
    assert_eq!(message("let y = 1; fn f x = y; f(1)"), "Variable `y` not found in scope");
    assert_eq!(message("let x = x; x"), "Variable `x` not found in scope");
}

#[test]
fn unknown_functions() {
    assert_eq!(message("f(1)"), "Function `f` not found in scope");
    assert_eq!(message("let f = 1; f(1)"), "Function `f` not found in scope");
    assert_eq!(message("f(y)"), "Function `f` not found in scope");
}

#[test]
fn wrong_numbers_of_arguments() {
    assert_eq!(
        message("fn f a b = a; f(1)"),
        "Wrong number of arguments for function `f`: expected 2, found 1"
    );
    assert_eq!(
        message("fn f = 1; f(1, 2, 3, 4, 5, 6, 7, 8, 9, 10, 11, 12)"),
        "Wrong number of arguments for function `f`: expected 0, found 12"
    );
    assert_eq!(
        message("fn f a = a; f(y, y)"),
        "Wrong number of arguments for function `f`: expected 1, found 2"
    );
}

#[test]
fn functions_defined_twice() {
    assert_eq!(
        message("fn f = x; fn g = 1; fn f a = 2; 1"),
        "Redefinition of function `f` in the same scope"
    );
}

#[test]
fn the_first_fault_is_told() {
    assert_eq!(message("x + y"), "Variable `x` not found in scope");
    assert_eq!(message("fn f = p; q"), "Variable `p` not found in scope");
    assert_eq!(message("fn f = 1; fn g = p; q"), "Variable `p` not found in scope");
    assert_eq!(message("let x = a; b"), "Variable `a` not found in scope");
}

#[test]
fn the_name_of_the_main_function_is_taken() {
    for source in ["fn __main = 1; 2", "fn __main x = x; 2"] {
        let error = compile(source).err().unwrap();
        assert!(matches!(error, CompilerError::JitError(_)));
        let text = error.message();
        assert!(text.starts_with("JIT Compilation Error: "), "{text}");
        assert!(text.contains("__main"), "{text}");
    }
    assert_eq!(message("fn __main = x; 2"), "Variable `x` not found in scope");
}

#[test]
fn answers_of_the_code_generator() {
    assert!(matches!(lift::<u32>(Ok(7)), Ok(7)));
    let refused = lift::<u32>(Err(ModuleError::Undeclared("f".to_string())));
    let Err(CompilerError::JitError(text)) = refused else {
        panic!("an error is lost");
    };
    assert_eq!(text, ModuleError::Undeclared("f".to_string()).to_string());
}

#[test]
fn messages() {
    let name = || "f".to_string();
    assert_eq!(
        CompilerError::ArgumentCountMismatch { name: name(), expected: 1234567890, found: 100 }
            .message(),
        "Wrong number of arguments for function `f`: expected 1234567890, found 100"
    );
    assert_eq!(CompilerError::JitError(name()).message(), "JIT Compilation Error: f");
    assert_eq!(CompilerError::VariableNotFound(name()).message(), "Variable `f` not found in scope");
    assert_eq!(CompilerError::FunctionNotFound(name()).message(), "Function `f` not found in scope");
}

#[test]
fn functions_with_too_many_parameters_do_not_fit() {
    let (nodes, root) = read(&format!("fn f {} = 1; 2", "a ".repeat(65536)));
    assert!(fits(&nodes, root));
    let (nodes, root) = read(&format!("fn f {} = 1; 2", "a ".repeat(65537)));
    assert!(!fits(&nodes, root));
}

#[test]
fn a_program_may_run_on_without_end() {
    let code = intermediate("fn f x = f(x); 1");
    assert_eq!(interpret(&code, 1, &[]), 1.0);
    assert!(compile("fn f x = g(x); fn g x = f(x); f(1)").is_ok());
}

#[test]
fn values_agree_with_the_tree() {
    let program = "fn sq x = x * x; fn norm a b = sq(a) + sq(b); fn mean a b = (a + b) / 2;";
    for (expression, value) in [
        ("norm(3, 4)", 25.0),
        ("mean(norm(1, 2), sq(3))", 7.0),
        ("let d = mean(2, 4); norm(d, -d) - sq(d)", 9.0),
        ("sq(sq(sq(2)))", 256.0),
    ] {
        assert_eq!(run(&format!("{program} {expression}")), value);
    }
}

#[test]
fn the_place_of_a_function_does_not_matter() {
    let value = run("fn f x = g(x) + 1; let a = 2; fn g x = x * 3; f(a) - g(1)");
    assert_eq!(value, 4.0);
    for source in [
        "fn g x = x * 3; fn f x = g(x) + 1; let a = 2; f(a) - g(1)",
        "let a = 2; fn f x = g(x) + 1; fn g x = x * 3; f(a) - g(1)",
        "fn g x = x * 3; let a = 2; fn f x = g(x) + 1; f(a) - g(1)",
    ] {
        assert_eq!(run(source), value);
    }
}

#[test]
fn a_variable_is_its_right_side() {
    let with = run("let a = 2; let x = a * 3 + 1; fn f y = y - 1; let b = x; f(x) * b + x");
    let without = run(
        "let a = 2; fn f y = y - 1; let b = a * 3 + 1; f(a * 3 + 1) * b + (a * 3 + 1)",
    );
    assert_eq!(with, 49.0);
    assert_eq!(without, with);
    assert_eq!(run("let a = 1; let x = a; let a = 5; x"), 1.0);
    assert_eq!(run("let a = 1; let a = 5; a"), 5.0);
}

#[test]
fn every_other_setting_has_its_default() {
    let defaults = Flags::new(settings::builder()).to_string();
    assert!(defaults.contains("opt_level = \"none\""), "{defaults}");
    assert!(defaults.contains("is_pic = false"), "{defaults}");
    assert!(defaults.contains("use_colocated_libcalls = false"), "{defaults}");
    assert_eq!(host_flags().to_string(), defaults);
    assert_eq!(JITCompiler::new().unwrap().module.isa().flags().to_string(), defaults);
}

#[test]
fn only_free_variables_matter() {
    let (nodes, root) = read("let y = x; y * x - 1");
    let arities = StringHashMap::new();
    let mut jit = JITCompiler::new().unwrap();
    let mut code = |args: [&str; 3]| {
        translate(&mut jit, &nodes, &arities, &args.map(str::to_string), root)
    };
    let one = code(["y", "x", "a"]).unwrap();
    let other = code(["b", "x", "c"]).unwrap();
    assert_eq!(one.display().to_string(), other.display().to_string());
    assert_eq!(interpret(&[one], 0, &[7.0, 3.0, 8.0]), 8.0);
    assert_eq!(interpret(&[other], 0, &[1.0, 3.0, 2.0]), 8.0);
    for args in [["y", "a", "b"], ["c", "d", "e"]] {
        let error = code(args).unwrap_err();
        assert_eq!(error.message(), "Variable `x` not found in scope");
    }
}

#[test]
fn functions_have_their_values_before_the_main_expression() {
    let (nodes, root) = read("fn f x = g(x) + 1; fn g x = x * 3; f(y)");
    let mut jit = JITCompiler::new().unwrap();
    let mut arities = StringHashMap::new();
    jit.pre_declare(root, &nodes, &mut arities).unwrap();
    jit.compile_functions(root, &nodes, &arities).unwrap();
    let error = jit.run_main(root, &nodes, &arities).unwrap_err();
    assert_eq!(error.message(), "Variable `y` not found in scope");
    let mut found = Vec::new();
    functions(&nodes, root, &mut found);
    let code: Vec<Function> = found
        .iter()
        .map(|(_, args, body)| translate(&mut jit, &nodes, &arities, args, *body).unwrap())
        .collect();
    assert_eq!(interpret(&code, 0, &[2.0]), 7.0);
    assert_eq!(interpret(&code, 1, &[2.0]), 6.0);
    jit.module.finalize_definitions().unwrap();
    for id in 0..2 {
        assert!(!jit.module.get_finalized_function(FuncId::from_u32(id)).is_null());
    }
}

#[test]
fn functions_are_declared_once() {
    let (nodes, root) = read("fn f a = 1; fn g = 2; 3");
    let mut jit = JITCompiler::new().unwrap();
    let mut arities = StringHashMap::new();
    jit.pre_declare(root, &nodes, &mut arities).unwrap();
    for _ in 0..2 {
        let again = jit.pre_declare(root, &nodes, &mut arities).unwrap_err();
        assert_eq!(again.message(), "Redefinition of function `f` in the same scope");
        assert_eq!((arities.get("f"), arities.get("g")), (Some(&1), Some(&0)));
        assert_eq!((jit.funcs.get("f"), jit.funcs.get("g")), (Some(&0), Some(&1)));
        assert_eq!(jit.module.declarations().get_functions().count(), 2);
    }
}

#[test]
fn without_functions_nothing_is_refused_twice() {
    let (nodes, root) = read("1 + 2");
    let mut jit = JITCompiler::new().unwrap();
    let mut arities = StringHashMap::new();
    for _ in 0..2 {
        jit.pre_declare(root, &nodes, &mut arities).unwrap();
        jit.compile_functions(root, &nodes, &arities).unwrap();
    }
}

#[test]
fn noted_functions_stay_declared() {
    let (nodes, root) = read("fn f = 1; fn g a = 2; fn f = 3; fn h = 4; 5");
    let mut jit = JITCompiler::new().unwrap();
    let mut arities = StringHashMap::new();
    let error = jit.pre_declare(root, &nodes, &mut arities).unwrap_err();
    assert_eq!(error.message(), "Redefinition of function `f` in the same scope");
    for (name, number) in [("f", Some(&0)), ("g", Some(&1)), ("h", None)] {
        assert_eq!(jit.funcs.get(name), number);
        assert_eq!(arities.contains_key(name), number.is_some());
    }
}

#[test]
fn a_function_is_what_is_behind_it() {
    let code = intermediate("fn f x = x * 2; let a = 1; a + 2");
    let plain = intermediate("let a = 1; a + 2");
    assert_eq!(code[1].display().to_string(), plain[0].display().to_string());
}

#[test]
fn a_right_side_is_compiled_as_often_as_it_is_used() {
    let length = |source: &str| intermediate(source)[0].dfg.num_insts();
    assert_eq!(length("let x = 1 + 2; x * x"), 5);
    assert_eq!(length("(1 + 2) * (1 + 2)"), 8);
    assert_eq!(length("let x = 1 + 2; 5"), 5);
    assert_eq!(length("5"), 2);
}

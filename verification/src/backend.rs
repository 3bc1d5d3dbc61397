//! The code generator. A function here that the verifier does not look into does one thing with
//! cranelift: it calls one function, adds one instruction or uses one field, and turns numbers
//! into cranelift's own and back. Only [`host_builder`] makes four calls. What comes of it is said
//! over the values of [`crate::ir`].
//!
//! Blocks, values, variables, instructions and functions are given by their numbers.

use crate::ast::Op;
use crate::ir::{
    declared, declared_number, Body, Callee, Convention, Decl, Draft, Instr, Linkage, Shape,
    MAX_PARAMETERS,
};
use cranelift::codegen::ir::immediates::Ieee64;
use cranelift::codegen::ir::{AbiParam, Block, FuncRef, Inst, Signature, Value};
use cranelift::codegen::settings::{Configurable, Flags, SetError};
use cranelift::codegen::{settings, Context};
use cranelift::jit::{JITBuilder, JITModule};
use cranelift::module::{default_libcall_names, FuncId, Module, ModuleError};
use cranelift::prelude::{types, FunctionBuilder, FunctionBuilderContext, InstBuilder, Variable};
use vstd::prelude::*;

verus! {

#[verifier::external_type_specification]
#[verifier::external_body]
pub struct ExSettings(settings::Builder);

#[verifier::external_type_specification]
#[verifier::external_body]
pub struct ExSetError(SetError);

#[verifier::external_type_specification]
#[verifier::external_body]
pub struct ExFlags(Flags);

#[verifier::external_type_specification]
#[verifier::external_body]
pub struct ExJITBuilder(JITBuilder);

#[verifier::external_type_specification]
#[verifier::external_body]
pub struct ExJITModule(JITModule);

#[verifier::external_type_specification]
#[verifier::external_body]
pub struct ExModuleError(ModuleError);

#[verifier::external_type_specification]
#[verifier::external_body]
pub struct ExSignature(Signature);

#[verifier::external_type_specification]
#[verifier::external_body]
pub struct ExContext(Context);

#[verifier::external_type_specification]
#[verifier::external_body]
pub struct ExFunctionBuilderContext(FunctionBuilderContext);

#[verifier::external_type_specification]
#[verifier::external_body]
pub struct ExFunctionBuilder<'a>(FunctionBuilder<'a>);

/// The value that a setting has by default. There is none where no setting has the name. Settings
/// are here those that all machines share.
pub uninterp spec fn default_setting(name: Seq<char>) -> Option<Seq<char>>;

/// The values of all settings in a settings builder, by the settings' names.
pub uninterp spec fn switches(builder: settings::Builder) -> Map<Seq<char>, Seq<char>>;

/// The values of all settings, by the settings' names.
pub uninterp spec fn flags(flags: Flags) -> Map<Seq<char>, Seq<char>>;

/// The values of all settings under which the module to be built will generate code.
pub uninterp spec fn options(builder: JITBuilder) -> Map<Seq<char>, Seq<char>>;

/// The values of all settings under which a module generates code.
pub uninterp spec fn configuration(module: JITModule) -> Map<Seq<char>, Seq<char>>;

/// The functions that a module declares.
pub uninterp spec fn decls(module: JITModule) -> Seq<Decl>;

/// The functions that a module defines, by their numbers.
pub uninterp spec fn bodies(module: JITModule) -> Map<u32, Body>;

/// The type of a function that a signature describes.
pub uninterp spec fn shape(signature: Signature) -> Shape;

/// The function that a context holds.
pub uninterp spec fn function(context: Context) -> Body;

/// Nothing is left in a builder's working memory of functions built before.
pub uninterp spec fn is_clear(memory: FunctionBuilderContext) -> bool;

/// What a builder has built.
pub uninterp spec fn draft(builder: FunctionBuilder<'_>) -> Draft;

/// What the context that lent its function to a builder will hold once it has it back.
pub uninterp spec fn outcome(builder: FunctionBuilder<'_>) -> Body;

/// The two settings that the compiler changes, which are on or off.
pub open spec fn is_switch(name: Seq<char>) -> bool {
    name == "use_colocated_libcalls"@ || name == "is_pic"@
}

/// `cranelift::codegen::settings::builder`: every setting has its default.
#[verifier::external_body]
pub(crate) fn settings_builder() -> (builder: settings::Builder)
    ensures
        switches(builder) == (Map::new(
            |name: Seq<char>| default_setting(name) is Some,
            |name: Seq<char>| default_setting(name)->Some_0,
        )),
{
    settings::builder()
}

/// `set` of `cranelift::codegen::settings::Builder`: a setting that is on or off can be set to
/// `false`, which leaves the others as they are. Nothing is said of other names and values.
#[verifier::external_body]
pub(crate) fn set_flag(builder: &mut settings::Builder, name: &str, value: &str) -> (result: Result<
    (),
    SetError,
>)
    ensures
        is_switch(name@) && value@ == "false"@ ==> result is Ok && switches(*final(builder))
            == switches(*old(builder)).insert(name@, value@),
{
    builder.set(name, value)
}

/// `cranelift::codegen::settings::Flags::new`: the settings that the builder holds.
#[verifier::external_body]
pub(crate) fn make_flags(builder: settings::Builder) -> (made: Flags)
    ensures
        flags(made) == switches(builder),
{
    Flags::new(builder)
}

/// Four calls: `cranelift::native::builder`, `finish` of the builder that it gives,
/// `cranelift::module::default_libcall_names`, and `cranelift::jit::JITBuilder::with_isa` on what
/// the last two give. Together they give a module builder for the machine that this runs on, under
/// the given settings, or the message of the error with which one of the first two tells that the
/// machine is not supported. They stand in one function because the description of the machine
/// and the naming of library calls, which go from each to the next, are trait objects, which cannot
/// be declared to the verifier.
#[verifier::external_body]
pub(crate) fn host_builder(settings: Flags) -> (result: Result<JITBuilder, String>)
    ensures
        result matches Ok(builder) ==> options(builder) == flags(settings),
{
    match cranelift::native::builder() {
        Ok(machine) => match machine.finish(settings) {
            Ok(isa) => Ok(JITBuilder::with_isa(isa, default_libcall_names())),
            Err(error) => Err(error.to_string()),
        },
        Err(message) => Err(message.to_string()),
    }
}

/// `cranelift::jit::JITModule::new`: a module without functions. It panics where the code is
/// asked to be position-independent.
#[verifier::external_body]
pub(crate) fn make_module(builder: JITBuilder) -> (module: JITModule)
    requires
        options(builder).contains_pair("is_pic"@, "false"@),
    ensures
        configuration(module) == options(builder),
        decls(module) == (Seq::<Decl>::empty()),
        bodies(module) == (Map::<u32, Body>::empty()),
{
    JITModule::new(builder)
}

/// `make_context` of `cranelift::module::Module`: a context with an empty function, to be called
/// as the host's functions are.
#[verifier::external_body]
pub(crate) fn make_context(module: &JITModule) -> (context: Context)
    ensures
        function(context) == Body::blank(
            (Shape { convention: Convention::Host, params: 0, results: 0 }),
        ),
{
    module.make_context()
}

/// `clear` of `cranelift::codegen::Context`: the function is empty.
#[verifier::external_body]
pub(crate) fn clear(context: &mut Context)
    ensures
        function(*final(context)) == Body::blank(
            (Shape { convention: Convention::Fast, params: 0, results: 0 }),
        ),
{
    context.clear()
}

/// `clear_context` of `cranelift::module::Module`: the function is empty, to be called as the
/// host's functions are.
#[verifier::external_body]
pub(crate) fn clear_context(module: &JITModule, context: &mut Context)
    ensures
        function(*final(context)) == Body::blank(
            (Shape { convention: Convention::Host, params: 0, results: 0 }),
        ),
{
    module.clear_context(context)
}

/// The field `signature` of the function in a `cranelift::codegen::Context`.
#[verifier::external_body]
pub(crate) fn signature_mut(context: &mut Context) -> (signature: &mut Signature)
    ensures
        shape(*signature) == function(*old(context)).shape,
        function(*final(context)) == (Body {
            shape: shape(*final(signature)),
            ..function(*old(context))
        }),
{
    &mut context.func.signature
}

/// `make_signature` of `cranelift::module::Module`: a function that takes and returns nothing,
/// to be called as the host's functions are.
#[verifier::external_body]
pub(crate) fn make_signature(module: &JITModule) -> (signature: Signature)
    ensures
        shape(signature) == (Shape { convention: Convention::Host, params: 0, results: 0 }),
{
    module.make_signature()
}

/// `push` on the field `params` of `cranelift::codegen::ir::Signature`: one more parameter, a
/// double.
#[verifier::external_body]
pub(crate) fn push_param(signature: &mut Signature)
    ensures
        shape(*final(signature)) == (Shape {
            params: shape(*old(signature)).params + 1,
            ..shape(*old(signature))
        }),
{
    signature.params.push(AbiParam::new(types::F64))
}

/// `push` on the field `returns` of `cranelift::codegen::ir::Signature`: one more result, a
/// double.
#[verifier::external_body]
pub(crate) fn push_result(signature: &mut Signature)
    ensures
        shape(*final(signature)) == (Shape {
            results: shape(*old(signature)).results + 1,
            ..shape(*old(signature))
        }),
{
    signature.returns.push(AbiParam::new(types::F64))
}

/// `declare_function` of `cranelift::module::Module`: a function with a new name gets the next
/// number. Where the module has a function of that name it gets that one's number, and an error
/// where the two differ in type; either way the function is exported if one of the two was.
#[verifier::external_body]
pub(crate) fn declare_function(
    module: &mut JITModule,
    name: &str,
    linkage: Linkage,
    signature: &Signature,
) -> (result: Result<u32, ModuleError>)
    requires
        decls(*old(module)).len() < u32::MAX,
    ensures
        decls(*final(module)) == declared(
            decls(*old(module)),
            (Decl { name: name@, linkage, shape: shape(*signature) }),
        ),
        (match declared_number(
            decls(*old(module)),
            (Decl { name: name@, linkage, shape: shape(*signature) }),
        ) {
            Some(number) => result matches Ok(id) && id == number,
            None => result is Err,
        }),
        configuration(*final(module)) == configuration(*old(module)),
        bodies(*final(module)) == bodies(*old(module)),
{
    let linkage = match linkage {
        Linkage::Local => cranelift::module::Linkage::Local,
        Linkage::Export => cranelift::module::Linkage::Export,
    };
    module.declare_function(name, linkage, signature).map(|id| id.as_u32())
}

/// `define_function` of `cranelift::module::Module`: compiles the function that the context
/// holds. A function that the module defines already is refused; otherwise whether there is an
/// error rests on the machine code generator and on the memory that it gets. Nothing is said of
/// what the context holds afterwards.
#[verifier::external_body]
pub(crate) fn define_function(module: &mut JITModule, id: u32, context: &mut Context) -> (result:
    Result<(), ModuleError>)
    requires
        id < decls(*old(module)).len(),
        function(*old(context)).ended(),
    ensures
        bodies(*old(module)).contains_key(id) ==> result is Err,
        result is Ok ==> bodies(*final(module)) == bodies(*old(module)).insert(
            id,
            function(*old(context)),
        ),
        result is Err ==> bodies(*final(module)) == bodies(*old(module)),
        configuration(*final(module)) == configuration(*old(module)),
        decls(*final(module)) == decls(*old(module)),
{
    module.define_function(FuncId::from_u32(id), context)
}

/// `to_string` on `cranelift::module::ModuleError`. Nothing is said of the text, part of which
/// can come from the operating system.
#[verifier::external_body]
pub(crate) fn describe(error: &ModuleError) -> (text: String)
{
    error.to_string()
}

/// `cranelift::frontend::FunctionBuilderContext::new`: working memory with nothing in it.
#[verifier::external_body]
pub(crate) fn make_memory() -> (memory: FunctionBuilderContext)
    ensures
        is_clear(memory),
{
    FunctionBuilderContext::new()
}

/// `cranelift::frontend::FunctionBuilder::new` on the function in a context: a builder of that
/// function. The context gets it back when the builder is gone.
#[verifier::external_body]
pub(crate) fn make_builder<'a>(
    context: &'a mut Context,
    memory: &'a mut FunctionBuilderContext,
) -> (builder: FunctionBuilder<'a>)
    requires
        is_clear(*old(memory)),
        function(*old(context)) == Body::blank(function(*old(context)).shape),
    ensures
        draft(builder) == Draft::blank(function(*old(context)).shape),
        function(*final(context)) == outcome(builder),
{
    FunctionBuilder::new(&mut context.func, memory)
}

/// `create_block` of `cranelift::frontend::FunctionBuilder`, for a function's first block.
#[verifier::external_body]
pub(crate) fn create_block(builder: &mut FunctionBuilder<'_>) -> (block: u32)
    requires
        !draft(*old(builder)).created,
    ensures
        block == 0,
        draft(*final(builder)) == draft(*old(builder)).create(),
        outcome(*final(builder)) == outcome(*old(builder)),
{
    builder.create_block().as_u32()
}

/// `append_block_params_for_function_params` of `cranelift::frontend::FunctionBuilder`: the
/// block gets one parameter for each parameter of the function.
#[verifier::external_body]
pub(crate) fn append_block_params(builder: &mut FunctionBuilder<'_>, block: u32)
    requires
        block == 0,
        draft(*old(builder)).created,
        !draft(*old(builder)).entered,
        draft(*old(builder)).values == 0,
        draft(*old(builder)).body.shape.params <= MAX_PARAMETERS,
    ensures
        draft(*final(builder)) == draft(*old(builder)).bind_params(),
        outcome(*final(builder)) == outcome(*old(builder)),
{
    builder.append_block_params_for_function_params(Block::from_u32(block))
}

/// `switch_to_block` of `cranelift::frontend::FunctionBuilder`: instructions go to the block.
#[verifier::external_body]
pub(crate) fn switch_to_block(builder: &mut FunctionBuilder<'_>, block: u32)
    requires
        block == 0,
        draft(*old(builder)).created,
        !draft(*old(builder)).entered,
    ensures
        draft(*final(builder)) == draft(*old(builder)).enter(),
        outcome(*final(builder)) == outcome(*old(builder)),
{
    builder.switch_to_block(Block::from_u32(block))
}

/// `seal_block` of `cranelift::frontend::FunctionBuilder`: no further jump to the block comes.
#[verifier::external_body]
pub(crate) fn seal_block(builder: &mut FunctionBuilder<'_>, block: u32)
    requires
        block == 0,
        draft(*old(builder)).created,
        !draft(*old(builder)).sealed,
    ensures
        draft(*final(builder)) == draft(*old(builder)).seal(),
        outcome(*final(builder)) == outcome(*old(builder)),
{
    builder.seal_block(Block::from_u32(block))
}

/// `block_params` of `cranelift::frontend::FunctionBuilder`: the value of a parameter.
#[verifier::external_body]
pub(crate) fn block_param(builder: &FunctionBuilder<'_>, block: u32, i: usize) -> (value: u32)
    requires
        block == 0,
        draft(*builder).created,
        i < draft(*builder).body.params.len(),
    ensures
        value == draft(*builder).body.params[i as int],
{
    builder.block_params(Block::from_u32(block))[i].as_u32()
}

/// `declare_var` of `cranelift::frontend::FunctionBuilder`: one more variable, a double.
#[verifier::external_body]
pub(crate) fn declare_var(builder: &mut FunctionBuilder<'_>) -> (var: u32)
    requires
        draft(*old(builder)).vars.len() < u32::MAX,
    ensures
        var == draft(*old(builder)).vars.len(),
        draft(*final(builder)) == draft(*old(builder)).declare(),
        outcome(*final(builder)) == outcome(*old(builder)),
{
    builder.declare_var(types::F64).as_u32()
}

/// `def_var` of `cranelift::frontend::FunctionBuilder`: the variable stands for the value.
#[verifier::external_body]
pub(crate) fn def_var(builder: &mut FunctionBuilder<'_>, var: u32, value: u32)
    requires
        draft(*old(builder)).entered,
        var < draft(*old(builder)).vars.len(),
        value < draft(*old(builder)).values,
    ensures
        draft(*final(builder)) == draft(*old(builder)).define(var, value),
        outcome(*final(builder)) == outcome(*old(builder)),
{
    builder.def_var(Variable::from_u32(var), Value::from_u32(value))
}

/// `use_var` of `cranelift::frontend::FunctionBuilder`: the value that the variable stands for,
/// in a function of one block.
#[verifier::external_body]
pub(crate) fn use_var(builder: &mut FunctionBuilder<'_>, var: u32) -> (value: u32)
    requires
        draft(*old(builder)).entered,
        draft(*old(builder)).sealed,
        !draft(*old(builder)).body.ended(),
        var < draft(*old(builder)).vars.len(),
        draft(*old(builder)).vars[var as int] is Some,
    ensures
        Some(value) == draft(*old(builder)).vars[var as int],
        draft(*final(builder)) == draft(*old(builder)),
        outcome(*final(builder)) == outcome(*old(builder)),
{
    builder.use_var(Variable::from_u32(var)).as_u32()
}

/// The instruction `f64const`: a number, by its bits.
#[verifier::external_body]
pub(crate) fn constant(builder: &mut FunctionBuilder<'_>, bits: u64) -> (dst: u32)
    requires
        draft(*old(builder)).accepts(),
        draft(*old(builder)).values < u32::MAX,
    ensures
        dst == draft(*old(builder)).next(),
        draft(*final(builder)) == draft(*old(builder)).emit((Instr::Const { dst, bits })),
        outcome(*final(builder)) == outcome(*old(builder)),
{
    builder.ins().f64const(Ieee64::with_bits(bits)).as_u32()
}

/// The instruction `fneg`.
#[verifier::external_body]
pub(crate) fn fneg(builder: &mut FunctionBuilder<'_>, src: u32) -> (dst: u32)
    requires
        draft(*old(builder)).accepts(),
        draft(*old(builder)).values < u32::MAX,
        src < draft(*old(builder)).values,
    ensures
        dst == draft(*old(builder)).next(),
        draft(*final(builder)) == draft(*old(builder)).emit((Instr::Neg { dst, src })),
        outcome(*final(builder)) == outcome(*old(builder)),
{
    builder.ins().fneg(Value::from_u32(src)).as_u32()
}

/// The instruction `fadd`.
#[verifier::external_body]
pub(crate) fn fadd(builder: &mut FunctionBuilder<'_>, lhs: u32, rhs: u32) -> (dst: u32)
    requires
        draft(*old(builder)).accepts(),
        draft(*old(builder)).values < u32::MAX,
        lhs < draft(*old(builder)).values,
        rhs < draft(*old(builder)).values,
    ensures
        dst == draft(*old(builder)).next(),
        draft(*final(builder)) == draft(*old(builder)).emit(
            (Instr::Bin { op: Op::Add, dst, lhs, rhs }),
        ),
        outcome(*final(builder)) == outcome(*old(builder)),
{
    builder.ins().fadd(Value::from_u32(lhs), Value::from_u32(rhs)).as_u32()
}

/// The instruction `fsub`.
#[verifier::external_body]
pub(crate) fn fsub(builder: &mut FunctionBuilder<'_>, lhs: u32, rhs: u32) -> (dst: u32)
    requires
        draft(*old(builder)).accepts(),
        draft(*old(builder)).values < u32::MAX,
        lhs < draft(*old(builder)).values,
        rhs < draft(*old(builder)).values,
    ensures
        dst == draft(*old(builder)).next(),
        draft(*final(builder)) == draft(*old(builder)).emit(
            (Instr::Bin { op: Op::Sub, dst, lhs, rhs }),
        ),
        outcome(*final(builder)) == outcome(*old(builder)),
{
    builder.ins().fsub(Value::from_u32(lhs), Value::from_u32(rhs)).as_u32()
}

/// The instruction `fmul`.
#[verifier::external_body]
pub(crate) fn fmul(builder: &mut FunctionBuilder<'_>, lhs: u32, rhs: u32) -> (dst: u32)
    requires
        draft(*old(builder)).accepts(),
        draft(*old(builder)).values < u32::MAX,
        lhs < draft(*old(builder)).values,
        rhs < draft(*old(builder)).values,
    ensures
        dst == draft(*old(builder)).next(),
        draft(*final(builder)) == draft(*old(builder)).emit(
            (Instr::Bin { op: Op::Mul, dst, lhs, rhs }),
        ),
        outcome(*final(builder)) == outcome(*old(builder)),
{
    builder.ins().fmul(Value::from_u32(lhs), Value::from_u32(rhs)).as_u32()
}

/// The instruction `fdiv`.
#[verifier::external_body]
pub(crate) fn fdiv(builder: &mut FunctionBuilder<'_>, lhs: u32, rhs: u32) -> (dst: u32)
    requires
        draft(*old(builder)).accepts(),
        draft(*old(builder)).values < u32::MAX,
        lhs < draft(*old(builder)).values,
        rhs < draft(*old(builder)).values,
    ensures
        dst == draft(*old(builder)).next(),
        draft(*final(builder)) == draft(*old(builder)).emit(
            (Instr::Bin { op: Op::Div, dst, lhs, rhs }),
        ),
        outcome(*final(builder)) == outcome(*old(builder)),
{
    builder.ins().fdiv(Value::from_u32(lhs), Value::from_u32(rhs)).as_u32()
}

/// `declare_func_in_func` of `cranelift::module::Module`, for the function of a builder: a
/// function of the module can be called from it, under the number that is returned.
#[verifier::external_body]
pub(crate) fn declare_func_in_func(
    module: &mut JITModule,
    id: u32,
    builder: &mut FunctionBuilder<'_>,
) -> (callee: u32)
    requires
        id < decls(*old(module)).len(),
        draft(*old(builder)).callees.len() < u32::MAX,
    ensures
        callee == draft(*old(builder)).callees.len(),
        draft(*final(builder)) == draft(*old(builder)).import(
            (Callee { id, shape: decls(*old(module))[id as int].shape }),
        ),
        outcome(*final(builder)) == outcome(*old(builder)),
        configuration(*final(module)) == configuration(*old(module)),
        decls(*final(module)) == decls(*old(module)),
        bodies(*final(module)) == bodies(*old(module)),
{
    module.declare_func_in_func(FuncId::from_u32(id), builder.func).as_u32()
}

/// The instruction `call`, on a function that returns one double. The number of the instruction
/// is returned.
#[verifier::external_body]
pub(crate) fn call(builder: &mut FunctionBuilder<'_>, callee: u32, args: &Vec<u32>) -> (inst: u32)
    requires
        draft(*old(builder)).accepts(),
        draft(*old(builder)).values < u32::MAX,
        callee < draft(*old(builder)).callees.len(),
        draft(*old(builder)).callees[callee as int].shape.params == args@.len(),
        draft(*old(builder)).callees[callee as int].shape.results == 1,
        forall|i: int| 0 <= i < args@.len() ==> #[trigger] args@[i] < draft(*old(builder)).values,
    ensures
        inst == draft(*old(builder)).body.code.len(),
        draft(*final(builder)) == draft(*old(builder)).emit(
            (Instr::Call {
                dst: draft(*old(builder)).next(),
                callee: draft(*old(builder)).callees[callee as int].id,
                args: args@,
            }),
        ),
        outcome(*final(builder)) == outcome(*old(builder)),
{
    let values: Vec<Value> = args.iter().map(|value| Value::from_u32(*value)).collect();
    builder.ins().call(FuncRef::from_u32(callee), &values).as_u32()
}

/// `inst_results` of `cranelift::frontend::FunctionBuilder`: the value that a call results in.
#[verifier::external_body]
pub(crate) fn inst_result(builder: &FunctionBuilder<'_>, inst: u32) -> (value: u32)
    requires
        inst < draft(*builder).body.code.len(),
        draft(*builder).body.code[inst as int] is Call,
    ensures
        value == draft(*builder).body.code[inst as int]->Call_dst,
{
    builder.inst_results(Inst::from_u32(inst))[0].as_u32()
}

/// The instruction `return`, with one value. It ends the only block of the function, so that the
/// function is then what its context gets back.
#[verifier::external_body]
pub(crate) fn return_(builder: &mut FunctionBuilder<'_>, value: u32)
    requires
        draft(*old(builder)).accepts(),
        draft(*old(builder)).body.shape.results == 1,
        value < draft(*old(builder)).values,
    ensures
        draft(*final(builder)) == draft(*old(builder)).push(
            (Instr::Return { values: seq![value] }),
        ),
        outcome(*final(builder)) == outcome(*old(builder)),
        outcome(*final(builder)) == draft(*final(builder)).body,
{
    builder.ins().return_(&[Value::from_u32(value)]);
}

/// `finalize` of `cranelift::frontend::FunctionBuilder`: the builder gives its function back. It
/// panics on a block that is not sealed or does not end by returning.
#[verifier::external_body]
pub(crate) fn finalize(builder: FunctionBuilder<'_>)
    requires
        draft(builder).sealed,
        draft(builder).body.ended(),
{
    builder.finalize()
}

} // verus!

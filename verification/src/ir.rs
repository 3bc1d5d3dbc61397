//! Functions of the code generator's intermediate representation, as mathematical values.

use crate::ast::Op;
use vstd::prelude::*;

verus! {

/// The number of instructions that a function can hold.
pub const MAX_INSTRUCTIONS: u32 = 0xff_ffff;

/// The number of parameters that a function can have.
pub const MAX_PARAMETERS: u32 = 0x1_0000;

/// How a function is called.
pub enum Convention {
    /// As the host's own functions are.
    Host,
    /// The code generator's own convention, which a cleared function has.
    Fast,
}

/// The type of a function on doubles: how it is called, and how many it takes and returns.
pub struct Shape {
    pub convention: Convention,
    pub params: nat,
    pub results: nat,
}

/// Whether a function can be seen from outside its module.
#[derive(Clone, Copy, Debug, PartialEq, Eq, Structural)]
pub enum Linkage {
    Local,
    Export,
}

/// A function that a module knows of. Its place in the module is its number.
pub struct Decl {
    pub name: Seq<char>,
    pub linkage: Linkage,
    pub shape: Shape,
}

/// An instruction. Values are numbered within a function, callees within a module.
pub enum Instr {
    Const { dst: u32, bits: u64 },
    Neg { dst: u32, src: u32 },
    Bin { op: Op, dst: u32, lhs: u32, rhs: u32 },
    Call { dst: u32, callee: u32, args: Seq<u32> },
    Return { values: Seq<u32> },
}

/// A function of one block: the values of its parameters and its instructions in order.
#[verifier::ext_equal]
pub struct Body {
    pub shape: Shape,
    pub params: Seq<u32>,
    pub code: Seq<Instr>,
}

impl Body {
    /// A function without a block.
    pub open spec fn blank(shape: Shape) -> Self {
        Body { shape, params: Seq::empty(), code: Seq::empty() }
    }

    /// The function ends by returning.
    pub open spec fn ended(self) -> bool {
        self.code.len() > 0 && self.code.last() is Return
    }

    /// The function calls the one with the number `id`.
    pub open spec fn calls(self, id: u32) -> bool {
        exists|i: int|
            0 <= i < self.code.len() && (#[trigger] self.code[i] matches Instr::Call { callee, .. }
                && callee == id)
    }
}

/// A function of a module that another function can call.
pub struct Callee {
    pub id: u32,
    pub shape: Shape,
}

/// A function that is being built.
#[verifier::ext_equal]
pub struct Draft {
    pub body: Body,
    /// The function has its block.
    pub created: bool,
    /// Instructions go to the block.
    pub entered: bool,
    /// No further jump to the block will come.
    pub sealed: bool,
    /// How many values there are.
    pub values: nat,
    /// The value that each variable stands for, once it has one.
    pub vars: Seq<Option<u32>>,
    pub callees: Seq<Callee>,
}

impl Draft {
    /// Nothing is built yet.
    pub open spec fn blank(shape: Shape) -> Self {
        Draft {
            body: Body::blank(shape),
            created: false,
            entered: false,
            sealed: false,
            values: 0,
            vars: Seq::empty(),
            callees: Seq::empty(),
        }
    }

    /// The function has its block, and no instruction yet.
    pub open spec fn create(self) -> Self {
        Draft { created: true, ..self }
    }

    /// The block has one parameter for each parameter of the function.
    pub open spec fn bind_params(self) -> Self {
        Draft {
            body: Body {
                params: Seq::new(self.body.shape.params, |i: int| (self.values + i) as u32),
                ..self.body
            },
            values: self.values + self.body.shape.params,
            ..self
        }
    }

    pub open spec fn enter(self) -> Self {
        Draft { entered: true, ..self }
    }

    pub open spec fn seal(self) -> Self {
        Draft { sealed: true, ..self }
    }

    /// An instruction can be added.
    pub open spec fn accepts(self) -> bool {
        self.entered && !self.body.ended() && self.body.code.len() < MAX_INSTRUCTIONS
    }

    /// An instruction without result is added.
    pub open spec fn push(self, instr: Instr) -> Self {
        Draft { body: Body { code: self.body.code.push(instr), ..self.body }, ..self }
    }

    /// An instruction with a result is added.
    pub open spec fn emit(self, instr: Instr) -> Self {
        Draft { values: self.values + 1, ..self.push(instr) }
    }

    /// The number that the next value will have.
    pub open spec fn next(self) -> u32 {
        self.values as u32
    }

    pub open spec fn declare(self) -> Self {
        Draft { vars: self.vars.push(None), ..self }
    }

    pub open spec fn define(self, var: u32, value: u32) -> Self {
        Draft { vars: self.vars.update(var as int, Some(value)), ..self }
    }

    pub open spec fn import(self, callee: Callee) -> Self {
        Draft { callees: self.callees.push(callee), ..self }
    }
}

/// Some function of a module has the name.
pub open spec fn is_declared(decls: Seq<Decl>, name: Seq<char>) -> bool {
    exists|i: int| 0 <= i < decls.len() && (#[trigger] decls[i]).name == name
}

/// The number of the function with the name.
pub open spec fn number_of(decls: Seq<Decl>, name: Seq<char>) -> int {
    choose|i: int| 0 <= i < decls.len() && (#[trigger] decls[i]).name == name
}

/// The functions of a module after one more is declared.
pub open spec fn declared(decls: Seq<Decl>, decl: Decl) -> Seq<Decl> {
    if is_declared(decls, decl.name) {
        let i = number_of(decls, decl.name);
        decls.update(
            i,
            Decl {
                linkage: if decl.linkage == Linkage::Export {
                    Linkage::Export
                } else {
                    decls[i].linkage
                },
                ..decls[i]
            },
        )
    } else {
        decls.push(decl)
    }
}

/// The number that a function gets where it is declared: that of the function with its name,
/// which must be of its shape, or the next.
pub open spec fn declared_number(decls: Seq<Decl>, decl: Decl) -> Option<int> {
    if !is_declared(decls, decl.name) {
        Some(decls.len() as int)
    } else {
        let i = number_of(decls, decl.name);
        if decls[i].shape == decl.shape {
            Some(i)
        } else {
            None
        }
    }
}

} // verus!

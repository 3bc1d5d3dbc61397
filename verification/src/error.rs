//! What can be wrong with a source text, and with a program.

use vstd::prelude::*;
use vstd::string::StringExecFns;

verus! {

/// The words with which definitions begin.
#[derive(Clone, Copy, Debug, PartialEq, Eq, Structural)]
pub enum Keyword {
    Let,
    Fn,
}

/// What a reader looks for in a source text.
#[derive(Clone, Copy, Debug, PartialEq, Eq, Structural)]
pub enum Expected {
    Token(char),
    Identifier,
    Int,
    Keyword(Keyword),
    /// Any character, where the text ends.
    Any,
    /// A character that goes on with a word or a number.
    SomethingElse,
    EndOfInput,
}

/// Why a source text is not a program.
#[derive(Debug)]
pub struct ParseError {
    /// The place of a character in the text, or the length of the text.
    pub at: usize,
    /// The character there, unless the text ends.
    pub found: Option<char>,
    /// What could stand there.
    pub expected: Vec<Expected>,
}

/// Why a program was not compiled.
#[derive(Debug)]
pub enum CompilerError {
    VariableNotFound(String),
    FunctionNotFound(String),
    ArgumentCountMismatch { name: String, expected: usize, found: usize },
    DuplicateFunction(String),
    /// The code generator refused the program.
    JitError(String),
}

/// A [`CompilerError`] as a mathematical value.
pub enum Fault {
    VariableNotFound(Seq<char>),
    FunctionNotFound(Seq<char>),
    ArgumentCountMismatch { name: Seq<char>, expected: nat, found: nat },
    DuplicateFunction(Seq<char>),
    JitError(Seq<char>),
}

impl View for CompilerError {
    type V = Fault;

    open spec fn view(&self) -> Fault {
        match self {
            CompilerError::VariableNotFound(name) => Fault::VariableNotFound(name@),
            CompilerError::FunctionNotFound(name) => Fault::FunctionNotFound(name@),
            CompilerError::ArgumentCountMismatch { name, expected, found } => {
                Fault::ArgumentCountMismatch {
                    name: name@,
                    expected: *expected as nat,
                    found: *found as nat,
                }
            },
            CompilerError::DuplicateFunction(name) => Fault::DuplicateFunction(name@),
            CompilerError::JitError(text) => Fault::JitError(text@),
        }
    }
}

/// A decimal digit.
pub open spec fn digit(n: nat) -> Seq<char> {
    if n == 0 {
        "0"@
    } else if n == 1 {
        "1"@
    } else if n == 2 {
        "2"@
    } else if n == 3 {
        "3"@
    } else if n == 4 {
        "4"@
    } else if n == 5 {
        "5"@
    } else if n == 6 {
        "6"@
    } else if n == 7 {
        "7"@
    } else if n == 8 {
        "8"@
    } else {
        "9"@
    }
}

/// A number in decimal, without leading zeros.
pub open spec fn decimal(n: nat) -> Seq<char>
    decreases n,
{
    if n < 10 {
        digit(n)
    } else {
        decimal(n / 10) + digit(n % 10)
    }
}

/// What a [`CompilerError`] is told to the user as.
pub open spec fn message(fault: Fault) -> Seq<char> {
    match fault {
        Fault::VariableNotFound(name) => "Variable `"@ + name + "` not found in scope"@,
        Fault::FunctionNotFound(name) => "Function `"@ + name + "` not found in scope"@,
        Fault::ArgumentCountMismatch { name, expected, found } => {
            "Wrong number of arguments for function `"@ + name + "`: expected "@ + decimal(expected)
                + ", found "@ + decimal(found)
        },
        Fault::DuplicateFunction(name) => {
            "Redefinition of function `"@ + name + "` in the same scope"@
        },
        Fault::JitError(text) => "JIT Compilation Error: "@ + text,
    }
}

/// Appends a number in decimal.
fn append_decimal(text: &mut String, n: usize)
    ensures
        final(text)@ == old(text)@ + decimal(n as nat),
    decreases n,
{
    if n >= 10 {
        append_decimal(text, n / 10);
    }
    let last: usize = n % 10;
    text.append(
        if last == 0 {
            "0"
        } else if last == 1 {
            "1"
        } else if last == 2 {
            "2"
        } else if last == 3 {
            "3"
        } else if last == 4 {
            "4"
        } else if last == 5 {
            "5"
        } else if last == 6 {
            "6"
        } else if last == 7 {
            "7"
        } else if last == 8 {
            "8"
        } else {
            "9"
        },
    );
}

impl CompilerError {
    /// The text for the user.
    pub fn message(&self) -> (text: String)
        ensures
            text@ == message(self@),
    {
        match self {
            CompilerError::VariableNotFound(name) => {
                let mut text = "Variable `".to_owned();
                text.append(name.as_str());
                text.append("` not found in scope");
                text
            },
            CompilerError::FunctionNotFound(name) => {
                let mut text = "Function `".to_owned();
                text.append(name.as_str());
                text.append("` not found in scope");
                text
            },
            CompilerError::ArgumentCountMismatch { name, expected, found } => {
                let mut text = "Wrong number of arguments for function `".to_owned();
                text.append(name.as_str());
                text.append("`: expected ");
                append_decimal(&mut text, *expected);
                text.append(", found ");
                append_decimal(&mut text, *found);
                text
            },
            CompilerError::DuplicateFunction(name) => {
                let mut text = "Redefinition of function `".to_owned();
                text.append(name.as_str());
                text.append("` in the same scope");
                text
            },
            CompilerError::JitError(reason) => {
                let mut text = "JIT Compilation Error: ".to_owned();
                text.append(reason.as_str());
                text
            },
        }
    }
}

/// The number that a text of digits stands for.
pub open spec fn number_meant(text: Seq<char>) -> nat
    decreases text.len(),
{
    if text.len() == 0 {
        0
    } else {
        10 * number_meant(text.drop_last()) + (text.last() as nat - '0' as nat) as nat
    }
}

proof fn lemma_digit(n: nat)
    requires
        n < 10,
    ensures
        digit(n).len() == 1,
        '0' <= digit(n)[0] <= '9',
        digit(n)[0] as nat == '0' as nat + n,
{
    reveal_strlit("0");
    reveal_strlit("1");
    reveal_strlit("2");
    reveal_strlit("3");
    reveal_strlit("4");
    reveal_strlit("5");
    reveal_strlit("6");
    reveal_strlit("7");
    reveal_strlit("8");
    reveal_strlit("9");
}

/// A number in decimal stands for the number, in digits, the first of which is no zero unless it is
/// the only one.
pub proof fn law_a_number_in_decimal_stands_for_it(n: nat)
    ensures
        number_meant(decimal(n)) == n,
        decimal(n).len() > 0,
        forall|i: int| 0 <= i < decimal(n).len() ==> '0' <= #[trigger] decimal(n)[i] <= '9',
        decimal(n)[0] == '0' ==> decimal(n).len() == 1,
    decreases n,
{
    if n < 10 {
        lemma_digit(n);
        assert(decimal(n).drop_last() =~= Seq::empty());
        assert(number_meant(decimal(n).drop_last()) == 0);
    } else {
        let front = decimal(n / 10);
        lemma_digit(n % 10);
        law_a_number_in_decimal_stands_for_it(n / 10);
        assert(decimal(n) =~= front.push(digit(n % 10)[0]));
        assert(decimal(n).drop_last() =~= front);
        assert(n / 10 > 0);
        if front[0] == '0' {
            assert(front.len() == 1);
            assert(front.drop_last() =~= Seq::empty());
            assert(number_meant(front.drop_last()) == 0);
        }
    }
}

/// What an error is told as, in full.
pub proof fn law_messages(name: Seq<char>, expected: nat, found: nat)
    ensures
        message(Fault::VariableNotFound(name)) == "Variable `"@ + name + "` not found in scope"@,
        message(Fault::FunctionNotFound(name)) == "Function `"@ + name + "` not found in scope"@,
        message(Fault::ArgumentCountMismatch { name, expected, found })
            == "Wrong number of arguments for function `"@ + name + "`: expected "@ + decimal(
            expected,
        ) + ", found "@ + decimal(found),
        message(Fault::DuplicateFunction(name)) == "Redefinition of function `"@ + name
            + "` in the same scope"@,
        message(Fault::JitError(name)) == "JIT Compilation Error: "@ + name,
{
}

} // verus!

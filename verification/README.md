# foo_compiler

A compiler for a small language of floating-point expressions, with `let` and `fn` definitions:

    fn add a b = a + b;
    let x = 2;
    add(x, 3) * -4

A source text is read into a syntax tree, the tree is compiled to machine code with cranelift, and
the program is run. The library is verified with Verus; the program around it is ordinary Rust.

| module | |
|---|---|
| `ast` | the syntax tree: nodes in an arena, and the mathematical trees they stand for |
| `grammar` | the grammar, as functions from a text and a place in it |
| `extent`, `spacing`, `wording`, `printing` | what holds of the grammar: how many nodes a text needs, what white space does, which trees there are, and that they are read from their texts |
| `parser`, `graft` | reads source texts, and makes their nodes |
| `error` | what can be wrong with a text and with a program |
| `ir` | functions of the code generator, as mathematical values |
| `backend` | the calls into cranelift, and what is trusted of them |
| `lowering`, `program` | what expressions and programs are compiled to |
| `translate`, `compiler` | compile expressions and programs |
| `semantics` | what programs and their code mean, and that the two agree |
| `scoping` | which variables an expression rests on |
| `equivalence` | programs that mean the same |

`app/` holds the command line, the printing of errors, and what makes the machine code final and
calls it.

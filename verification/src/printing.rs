//! Trees in writing, and that reading gives them back.

use crate::ast::{Op, Tree};
use crate::error::Keyword;
use crate::extent::{lemma_decl, lemma_keyword, lemma_name, lemma_number, lemma_skip, lemma_token};
use crate::grammar::{
    atom, call, chain, decl, digits_end, expr, fn_decl, group, infix, is_digit, is_space,
    is_word_part, is_word_start, items, keyword, keyword_text, let_decl, link, more_items, name,
    names, number, operand, operators, program, rest, skip, token, unary, word_end, Syntax, Tier,
};
use crate::spacing::{is_inside, is_sign, lemma_first, lemma_lexemes_around, lexeme_end, lexemes};
use crate::wording::{is_decl_tree, is_expr_tree, is_numeral, is_word};
use vstd::prelude::*;

verus! {

/// The sign of an operator.
pub open spec fn sign(op: Op) -> char {
    match op {
        Op::Add => '+',
        Op::Sub => '-',
        Op::Mul => '*',
        Op::Div => '/',
    }
}

/// An expression in writing: its words, numbers and signs, with brackets around every operation.
pub open spec fn written_expr(tree: Syntax) -> Seq<Seq<char>>
    decreases tree, 0int,
{
    match tree {
        Tree::Num(digits) => seq![digits],
        Tree::Var(text) => seq![text],
        Tree::Neg(a) => seq![seq!['('], seq!['-']] + written_expr(*a) + seq![seq![')']],
        Tree::Bin(op, a, b) => {
            seq![seq!['(']] + written_expr(*a) + seq![seq![sign(op)]] + written_expr(*b) + seq![
                seq![')'],
            ]
        },
        Tree::Call(text, args) => {
            seq![text, seq!['(']] + written_list(args, 0) + seq![seq![')']]
        },
        _ => Seq::empty(),
    }
}

/// The expressions of a list from the place `i` on, in writing, with commas between them.
pub open spec fn written_list(args: Seq<Syntax>, i: int) -> Seq<Seq<char>>
    decreases args, args.len() - i,
{
    if 0 <= i < args.len() {
        if i + 1 < args.len() {
            written_expr(args[i]) + seq![seq![',']] + written_list(args, i + 1)
        } else {
            written_expr(args[i])
        }
    } else {
        Seq::empty()
    }
}

/// Definitions and an expression behind them, in writing.
pub open spec fn written(tree: Syntax) -> Seq<Seq<char>>
    decreases tree,
{
    match tree {
        Tree::Let { name: text, rhs, then } => {
            seq![keyword_text(Keyword::Let), text, seq!['=']] + written_expr(*rhs) + seq![
                seq![';'],
            ] + written(*then)
        },
        Tree::Fn { name: text, args, body, then } => {
            seq![keyword_text(Keyword::Fn), text] + args + seq![seq!['=']] + written_expr(*body)
                + seq![seq![';']] + written(*then)
        },
        _ => written_expr(tree),
    }
}

/// A text with spaces between words, numbers and signs.
pub open spec fn spaced(parts: Seq<Seq<char>>) -> Seq<char>
    decreases parts.len(),
{
    if parts.len() == 0 {
        Seq::empty()
    } else {
        parts[0] + seq![' '] + spaced(parts.drop_first())
    }
}

/// The text is a name: a word that is no keyword.
pub open spec fn is_name(text: Seq<char>) -> bool {
    &&& is_word(text)
    &&& text != keyword_text(Keyword::Let)
    &&& text != keyword_text(Keyword::Fn)
}

/// The names in an expression are no keywords.
pub open spec fn has_names(tree: Syntax) -> bool
    decreases tree,
{
    match tree {
        Tree::Num(_) => true,
        Tree::Var(text) => is_name(text),
        Tree::Neg(a) => has_names(*a),
        Tree::Bin(_, a, b) => has_names(*a) && has_names(*b),
        Tree::Call(text, args) => {
            &&& is_name(text)
            &&& forall|i: int| 0 <= i < args.len() ==> has_names(#[trigger] args[i])
        },
        Tree::Let { name: text, rhs, then } => {
            is_name(text) && has_names(*rhs) && has_names(*then)
        },
        Tree::Fn { name: text, args, body, then } => {
            &&& is_name(text)
            &&& forall|i: int| 0 <= i < args.len() ==> is_name(#[trigger] args[i])
            &&& has_names(*body)
            &&& has_names(*then)
        },
    }
}

/// The words, numbers and signs that come from the place `p` on.
#[verifier::opaque]
pub open spec fn ahead(cs: Seq<char>, p: int) -> Seq<Seq<char>> {
    lexemes(cs, p)
}

/// From the place `p` the words, numbers and signs `parts` come, and `more` behind them.
pub open spec fn comes(cs: Seq<char>, p: int, parts: Seq<Seq<char>>, more: Seq<Seq<char>>) -> bool {
    0 <= p <= cs.len() && ahead(cs, p) == parts + more
}

/// A sign is found exactly where it comes next.
pub proof fn lemma_token_comes(cs: Seq<char>, p: int, c: char)
    requires
        0 <= p <= cs.len(),
        is_sign(c),
    ensures
        match token(cs, p, c).moved(p, cs.len() as int) {
            Some((_, q)) => {
                &&& ahead(cs, p).len() > 0 && ahead(cs, p)[0] == seq![c]
                &&& 0 <= q <= cs.len()
                &&& ahead(cs, q) == ahead(cs, p).drop_first()
            },
            None => !(ahead(cs, p).len() > 0 && ahead(cs, p)[0] == seq![c]),
        },
        token(cs, p, c).value == token(cs, p, c).moved(p, cs.len() as int),
{
    reveal(ahead);
    lemma_first(cs, p);
    lemma_token(cs, p, c);
    lemma_skip(cs, p);
    let s = skip(cs, p);
    if s < cs.len() {
        if cs[s] == c {
            assert(cs.subrange(s, s + 1) =~= seq![c]);
        } else if ahead(cs, p)[0] == seq![c] {
            assert(seq![c][0] == c);
        }
    }
}

/// A word is found exactly where one comes next.
pub proof fn lemma_name_comes(cs: Seq<char>, p: int)
    requires
        0 <= p <= cs.len(),
    ensures
        match name(cs, p).moved(p, cs.len() as int) {
            Some((text, q)) => {
                &&& ahead(cs, p).len() > 0 && ahead(cs, p)[0] == text && is_word_start(text[0])
                &&& 0 <= q <= cs.len()
                &&& ahead(cs, q) == ahead(cs, p).drop_first()
            },
            None => !(ahead(cs, p).len() > 0 && is_word_start(ahead(cs, p)[0][0])),
        },
        name(cs, p).value == name(cs, p).moved(p, cs.len() as int),
{
    reveal(ahead);
    lemma_first(cs, p);
    lemma_name(cs, p);
    lemma_skip(cs, p);
}

/// A keyword is found exactly where it comes next.
pub proof fn lemma_keyword_comes(cs: Seq<char>, p: int, word: Keyword)
    requires
        0 <= p <= cs.len(),
    ensures
        match keyword(cs, p, word).moved(p, cs.len() as int) {
            Some((_, q)) => {
                &&& ahead(cs, p).len() > 0 && ahead(cs, p)[0] == keyword_text(word)
                &&& 0 <= q <= cs.len()
                &&& ahead(cs, q) == ahead(cs, p).drop_first()
            },
            None => !(ahead(cs, p).len() > 0 && ahead(cs, p)[0] == keyword_text(word)),
        },
        keyword(cs, p, word).value == keyword(cs, p, word).moved(p, cs.len() as int),
{
    reveal(ahead);
    lemma_first(cs, p);
    lemma_keyword(cs, p, word);
    lemma_skip(cs, p);
    assert(is_word_start(keyword_text(word)[0]));
}

/// A number is found exactly where one comes next.
pub proof fn lemma_number_comes(cs: Seq<char>, p: int)
    requires
        0 <= p <= cs.len(),
    ensures
        match number(cs, p).value {
            Some((text, q)) => {
                &&& ahead(cs, p).len() > 0 && ahead(cs, p)[0] == text && is_digit(text[0])
                &&& p < q <= cs.len()
                &&& ahead(cs, q) == ahead(cs, p).drop_first()
            },
            None => !(ahead(cs, p).len() > 0 && is_digit(ahead(cs, p)[0][0])),
        },
{
    reveal(ahead);
    lemma_first(cs, p);
    lemma_number(cs, p);
    lemma_skip(cs, p);
}

/// No operator and no opening bracket comes next.
pub open spec fn is_stop(more: Seq<Seq<char>>) -> bool {
    more.len() > 0 ==> {
        &&& more[0] != seq!['(']
        &&& more[0] != seq!['*']
        &&& more[0] != seq!['/']
        &&& more[0] != seq!['+']
        &&& more[0] != seq!['-']
    }
}

/// What an expression in writing begins with.
proof fn lemma_written_first(tree: Syntax)
    requires
        is_expr_tree(tree),
    ensures
        written_expr(tree).len() > 0,
        match tree {
            Tree::Num(digits) => written_expr(tree)[0] == digits && is_digit(digits[0]),
            Tree::Var(text) => written_expr(tree)[0] == text && is_word_start(text[0]),
            Tree::Call(text, _) => written_expr(tree)[0] == text && is_word_start(text[0]),
            _ => written_expr(tree)[0] == seq!['('],
        },
        written_expr(tree)[0] != seq!['-'],
        written_expr(tree)[0] != seq![')'],
{
    assert(seq!['-'][0] == '-');
    assert(seq![')'][0] == ')');
    assert(seq!['('][0] == '(');
}

/// The phrase is found at `p`, and `more` comes behind it.
pub open spec fn is_read<T>(
    cs: Seq<char>,
    value: Option<(T, int)>,
    p: int,
    phrase: T,
    more: Seq<Seq<char>>,
) -> bool {
    &&& value matches Some((found, q))
    &&& found == phrase
    &&& p < q <= cs.len()
    &&& ahead(cs, q) == more
}

#[verifier::rlimit(40)]
proof fn lemma_read_atom(cs: Seq<char>, p: int, tree: Syntax, more: Seq<Seq<char>>)
    requires
        is_expr_tree(tree),
        comes(cs, p, written_expr(tree), more),
        tree is Var ==> !(more.len() > 0 && more[0] == seq!['(']),
    ensures
        is_read(cs, atom(cs, p).value, p, tree, more),
    decreases tree, 1int, 0int,
{
    let here = ahead(cs, p);
    lemma_written_first(tree);
    lemma_number_comes(cs, p);
    assert(here[0] == written_expr(tree)[0]);
    match tree {
        Tree::Num(digits) => {
            assert(here.drop_first() =~= more);
        },
        Tree::Var(text) => {
            lemma_read_variable(cs, p, text, more);
        },
        Tree::Call(text, args) => {
            lemma_read_call(cs, p, text, args, more);
        },
        _ => {
            assert(seq!['('][0] == '(');
            lemma_read_group(cs, p, tree, more);
        },
    }
}

proof fn lemma_read_variable(cs: Seq<char>, p: int, text: Seq<char>, more: Seq<Seq<char>>)
    requires
        is_word(text),
        comes(cs, p, seq![text], more),
        !(more.len() > 0 && more[0] == seq!['(']),
    ensures
        group(cs, p).value is None,
        call(cs, p).value is None,
        is_read(cs, name(cs, p).value, p, text, more),
{
    assert(ahead(cs, p)[0] == text);
    assert(ahead(cs, p).drop_first() =~= more);
    assert(seq!['('][0] == '(');
    lemma_token_comes(cs, p, '(');
    lemma_name_comes(cs, p);
    let q = name(cs, p).value->Some_0.1;
    lemma_token_comes(cs, q, '(');
}

#[verifier::rlimit(40)]
proof fn lemma_read_call(
    cs: Seq<char>,
    p: int,
    text: Seq<char>,
    args: Seq<Syntax>,
    more: Seq<Seq<char>>,
)
    requires
        is_word(text),
        forall|i: int| 0 <= i < args.len() ==> is_expr_tree(#[trigger] args[i]),
        comes(cs, p, seq![text, seq!['(']] + written_list(args, 0) + seq![seq![')']], more),
    ensures
        group(cs, p).value is None,
        is_read(cs, call(cs, p).value, p, Tree::Call(text, args), more),
    decreases args, args.len() + 2, 0int,
{
    let n = cs.len() as int;
    let list = written_list(args, 0);
    let close = seq![seq![')']] + more;
    let open = seq![seq!['(']] + (list + close);
    assert(ahead(cs, p) =~= seq![text] + open);
    assert(ahead(cs, p)[0] == text);
    assert(ahead(cs, p).drop_first() =~= open);
    assert(seq!['('][0] == '(');
    lemma_token_comes(cs, p, '(');
    lemma_name_comes(cs, p);
    let q = name(cs, p).moved(p, n)->Some_0.1;
    lemma_token_comes(cs, q, '(');
    let r = token(cs, q, '(').moved(q, n)->Some_0.1;
    assert(open.drop_first() =~= list + close);
    assert(close[0] == seq![')']);
    lemma_read_items(cs, r, args, close);
    let t = items(cs, r).value->Some_0.1;
    lemma_token_comes(cs, t, ')');
    assert(close.drop_first() =~= more);
}

#[verifier::rlimit(40)]
proof fn lemma_read_group(cs: Seq<char>, p: int, tree: Syntax, more: Seq<Seq<char>>)
    requires
        is_expr_tree(tree),
        tree is Neg || tree is Bin,
        comes(cs, p, written_expr(tree), more),
    ensures
        is_read(cs, group(cs, p).value, p, tree, more),
    decreases tree, 0int, 1int,
{
    let n = cs.len() as int;
    let close = seq![seq![')']] + more;
    let inside = written_inside(tree);
    assert(ahead(cs, p) =~= seq![seq!['(']] + (inside + close));
    assert(ahead(cs, p)[0] == seq!['(']);
    lemma_token_comes(cs, p, '(');
    let q = token(cs, p, '(').moved(p, n)->Some_0.1;
    assert(ahead(cs, p).drop_first() =~= inside + seq![seq![')']] + more);
    lemma_read_inside(cs, q, tree, more);
    let e = expr(cs, q).value->Some_0.1;
    lemma_token_comes(cs, e, ')');
    assert(close[0] == seq![')']);
    assert(close.drop_first() =~= more);
}

/// What stands between the brackets around an operation.
pub open spec fn written_inside(tree: Syntax) -> Seq<Seq<char>> {
    match tree {
        Tree::Neg(a) => seq![seq!['-']] + written_expr(*a),
        Tree::Bin(op, a, b) => written_expr(*a) + seq![seq![sign(op)]] + written_expr(*b),
        _ => Seq::empty(),
    }
}

/// Behind an operand at which no operator of a tier comes next, the operand is all.
pub proof fn lemma_no_chain(cs: Seq<char>, p: int, tier: Tier, lhs: Syntax)
    requires
        0 <= p <= cs.len(),
        ahead(cs, p).len() > 0 ==> ahead(cs, p)[0] != seq![operators(tier).0.0]
            && ahead(cs, p)[0] != seq![operators(tier).1.0],
    ensures
        chain(cs, p, tier, lhs).value == Some((lhs, p)),
{
    let ((c, _), (d, _)) = operators(tier);
    lemma_token_comes(cs, p, c);
    lemma_token_comes(cs, p, d);
}

/// An operand without sign, read as one of a product.
proof fn lemma_read_unary(cs: Seq<char>, p: int, tree: Syntax, more: Seq<Seq<char>>)
    requires
        is_expr_tree(tree),
        comes(cs, p, written_expr(tree), more),
        tree is Var ==> !(more.len() > 0 && more[0] == seq!['(']),
    ensures
        is_read(cs, unary(cs, p).value, p, tree, more),
    decreases tree, 2int, 0int,
{
    lemma_read_atom(cs, p, tree, more);
    lemma_written_first(tree);
    assert(ahead(cs, p)[0] == written_expr(tree)[0]);
    lemma_token_comes(cs, p, '-');
}

/// A product of one factor.
proof fn lemma_read_product(cs: Seq<char>, p: int, tree: Syntax, more: Seq<Seq<char>>)
    requires
        is_expr_tree(tree),
        comes(cs, p, written_expr(tree), more),
        more.len() > 0 ==> more[0] != seq!['('] && more[0] != seq!['*'] && more[0] != seq!['/'],
    ensures
        is_read(cs, infix(cs, p, Tier::Product).value, p, tree, more),
    decreases tree, 3int, 0int,
{
    lemma_read_unary(cs, p, tree, more);
    assert(operand(cs, p, Tier::Product) == unary(cs, p));
    let q = unary(cs, p).value->Some_0.1;
    lemma_no_chain(cs, q, Tier::Product, tree);
}

/// A sum of one term.
proof fn lemma_read_expr(cs: Seq<char>, p: int, tree: Syntax, more: Seq<Seq<char>>)
    requires
        is_expr_tree(tree),
        comes(cs, p, written_expr(tree), more),
        is_stop(more),
    ensures
        is_read(cs, expr(cs, p).value, p, tree, more),
    decreases tree, 4int, 0int,
{
    lemma_read_product(cs, p, tree, more);
    assert(operand(cs, p, Tier::Sum) == infix(cs, p, Tier::Product));
    let q = infix(cs, p, Tier::Product).value->Some_0.1;
    lemma_no_chain(cs, q, Tier::Sum, tree);
    assert(infix(cs, p, Tier::Sum).value == chain(cs, q, Tier::Sum, tree).value);
}

/// An operation, between its brackets.
#[verifier::rlimit(40)]
proof fn lemma_read_inside(cs: Seq<char>, p: int, tree: Syntax, more: Seq<Seq<char>>)
    requires
        is_expr_tree(tree),
        tree is Neg || tree is Bin,
        comes(cs, p, written_inside(tree) + seq![seq![')']], more),
    ensures
        is_read(cs, expr(cs, p).value, p, tree, seq![seq![')']] + more),
    decreases tree, 0int, 0int,
{
    let n = cs.len() as int;
    let close = seq![seq![')']] + more;
    assert(seq![')'][0] == ')');
    assert(close[0] == seq![')']);
    assert(seq!['*'][0] == '*' && seq!['/'][0] == '/' && seq!['+'][0] == '+' && seq!['-'][0] == '-'
        && seq!['('][0] == '(');
    match tree {
        Tree::Neg(a) => {
            let here = ahead(cs, p);
            assert(here =~= seq![seq!['-']] + (written_expr(*a) + close));
            assert(here.drop_first() =~= written_expr(*a) + close);
            lemma_token_comes(cs, p, '-');
            let q = token(cs, p, '-').moved(p, n)->Some_0.1;
            lemma_read_unary(cs, q, *a, close);
            let e = unary(cs, q).value->Some_0.1;
            assert(unary(cs, p).value == Some((tree, e)));
            assert(operand(cs, p, Tier::Product) == unary(cs, p));
            lemma_no_chain(cs, e, Tier::Product, tree);
            assert(infix(cs, p, Tier::Product).value == Some((tree, e)));
            assert(operand(cs, p, Tier::Sum) == infix(cs, p, Tier::Product));
            lemma_no_chain(cs, e, Tier::Sum, tree);
            assert(infix(cs, p, Tier::Sum).value == Some((tree, e)));
        },
        Tree::Bin(op, a, b) => {
            let behind = written_expr(*b) + close;
            let middle = seq![seq![sign(op)]] + behind;
            assert(ahead(cs, p) =~= written_expr(*a) + middle);
            assert(seq![sign(op)][0] == sign(op));
            assert(middle[0] == seq![sign(op)]);
            assert(middle.drop_first() =~= behind);
            match op {
                Op::Mul | Op::Div => {
                    lemma_read_unary(cs, p, *a, middle);
                    assert(operand(cs, p, Tier::Product) == unary(cs, p));
                    let q = unary(cs, p).value->Some_0.1;
                    lemma_token_comes(cs, q, '*');
                    lemma_token_comes(cs, q, '/');
                    let r = token(cs, q, sign(op)).moved(q, n)->Some_0.1;
                    lemma_read_unary(cs, r, *b, close);
                    assert(operand(cs, r, Tier::Product) == unary(cs, r));
                    let e = unary(cs, r).value->Some_0.1;
                    lemma_no_chain(cs, e, Tier::Product, tree);
                    assert(link(cs, q, r, Tier::Product, op, *a).value == Some((tree, e)));
                    assert(chain(cs, q, Tier::Product, *a).value == Some((tree, e)));
                    assert(infix(cs, p, Tier::Product).value == Some((tree, e)));
                    assert(operand(cs, p, Tier::Sum) == infix(cs, p, Tier::Product));
                    lemma_no_chain(cs, e, Tier::Sum, tree);
                    assert(infix(cs, p, Tier::Sum).value == Some((tree, e)));
                },
                _ => {
                    lemma_read_product(cs, p, *a, middle);
                    assert(operand(cs, p, Tier::Sum) == infix(cs, p, Tier::Product));
                    let q = infix(cs, p, Tier::Product).value->Some_0.1;
                    lemma_token_comes(cs, q, '+');
                    lemma_token_comes(cs, q, '-');
                    let r = token(cs, q, sign(op)).moved(q, n)->Some_0.1;
                    lemma_read_product(cs, r, *b, close);
                    assert(operand(cs, r, Tier::Sum) == infix(cs, r, Tier::Product));
                    let e = infix(cs, r, Tier::Product).value->Some_0.1;
                    lemma_no_chain(cs, e, Tier::Sum, tree);
                    assert(link(cs, q, r, Tier::Sum, op, *a).value == Some((tree, e)));
                    assert(chain(cs, q, Tier::Sum, *a).value == Some((tree, e)));
                    assert(infix(cs, p, Tier::Sum).value == Some((tree, e)));
                },
            }
        },
        _ => {},
    }
}

/// The list is found at `p` or behind it, and `more` comes behind it.
pub open spec fn is_list_read(
    cs: Seq<char>,
    value: Option<(Seq<Syntax>, int)>,
    p: int,
    args: Seq<Syntax>,
    more: Seq<Seq<char>>,
) -> bool {
    &&& value matches Some((found, q))
    &&& found == args
    &&& p <= q <= cs.len()
    &&& ahead(cs, q) == more
}

#[verifier::rlimit(40)]
proof fn lemma_read_items(cs: Seq<char>, p: int, args: Seq<Syntax>, more: Seq<Seq<char>>)
    requires
        forall|i: int| 0 <= i < args.len() ==> is_expr_tree(#[trigger] args[i]),
        comes(cs, p, written_list(args, 0), more),
        more.len() > 0,
        more[0] == seq![')'],
    ensures
        is_list_read(cs, items(cs, p).value, p, args, more),
    decreases args, args.len() + 1, 0int,
{
    assert(seq![')'][0] == ')' && seq![','][0] == ',' && seq!['-'][0] == '-' && seq!['('][0] == '('
        && seq!['*'][0] == '*' && seq!['/'][0] == '/' && seq!['+'][0] == '+');
    if args.len() == 0 {
        assert(ahead(cs, p) =~= more);
        assert(args =~= Seq::empty());
        lemma_nothing_read(cs, p);
    } else {
        let next = if args.len() > 1 {
            seq![seq![',']] + written_list(args, 1) + more
        } else {
            more
        };
        assert(ahead(cs, p) =~= written_expr(args[0]) + next);
        assert(is_stop(next));
        lemma_read_expr(cs, p, args[0], next);
        let q = expr(cs, p).value->Some_0.1;
        assert(args.take(1) =~= seq![args[0]]);
        lemma_read_more_items(cs, q, args, 1, more);
    }
}

/// No expression begins with a closing bracket.
pub proof fn lemma_nothing_read(cs: Seq<char>, p: int)
    requires
        0 <= p <= cs.len(),
        ahead(cs, p).len() > 0,
        ahead(cs, p)[0] == seq![')'],
    ensures
        expr(cs, p).value is None,
{
    assert(seq![')'][0] == ')' && seq!['('][0] == '(' && seq!['-'][0] == '-');
    lemma_number_comes(cs, p);
    lemma_name_comes(cs, p);
    lemma_token_comes(cs, p, '(');
    lemma_token_comes(cs, p, '-');
    assert(group(cs, p).value is None);
    assert(call(cs, p).value is None);
    assert(atom(cs, p).value is None);
    assert(unary(cs, p).value is None);
    assert(operand(cs, p, Tier::Product).value is None);
    assert(infix(cs, p, Tier::Product).value is None);
    assert(operand(cs, p, Tier::Sum).value is None);
    assert(infix(cs, p, Tier::Sum).value is None);
}

#[verifier::rlimit(40)]
proof fn lemma_read_more_items(
    cs: Seq<char>,
    p: int,
    args: Seq<Syntax>,
    i: int,
    more: Seq<Seq<char>>,
)
    requires
        0 < i <= args.len(),
        forall|j: int| 0 <= j < args.len() ==> is_expr_tree(#[trigger] args[j]),
        0 <= p <= cs.len(),
        ahead(cs, p) == if i < args.len() {
            seq![seq![',']] + written_list(args, i) + more
        } else {
            more
        },
        more.len() > 0,
        more[0] == seq![')'],
    ensures
        is_list_read(cs, more_items(cs, p, args.take(i)).value, p, args, more),
    decreases args, args.len() - i, 0int,
{
    let n = cs.len() as int;
    assert(seq![')'][0] == ')' && seq![','][0] == ',' && seq!['-'][0] == '-' && seq!['('][0] == '('
        && seq!['*'][0] == '*' && seq!['/'][0] == '/' && seq!['+'][0] == '+');
    lemma_token_comes(cs, p, ',');
    if i < args.len() {
        let q = token(cs, p, ',').moved(p, n)->Some_0.1;
        let next = if i + 1 < args.len() {
            seq![seq![',']] + written_list(args, i + 1) + more
        } else {
            more
        };
        assert(ahead(cs, p).drop_first() =~= written_expr(args[i]) + next);
        assert(is_stop(next));
        lemma_read_expr(cs, q, args[i], next);
        let r = expr(cs, q).value->Some_0.1;
        assert(args.take(i + 1) =~= args.take(i).push(args[i]));
        lemma_read_more_items(cs, r, args, i + 1, more);
    } else {
        assert(args.take(i) =~= args);
    }
}

pub proof fn lemma_read_names(
    cs: Seq<char>,
    p: int,
    words: Seq<Seq<char>>,
    i: int,
    more: Seq<Seq<char>>,
)
    requires
        0 <= i <= words.len(),
        forall|j: int| 0 <= j < words.len() ==> is_word(#[trigger] words[j]),
        comes(cs, p, words.skip(i), more),
        more.len() > 0,
        more[0] == seq!['='],
    ensures
        ({
            let value = names(cs, p, words.take(i)).value;
            &&& value matches Some((found, q))
            &&& found == words
            &&& p <= q <= cs.len()
            &&& ahead(cs, q) == more
        }),
    decreases words.len() - i,
{
    lemma_name_comes(cs, p);
    assert(seq!['='][0] == '=');
    if i < words.len() {
        assert(ahead(cs, p)[0] == words[i]);
        assert(is_word(words[i]));
        let q = name(cs, p).moved(p, cs.len() as int)->Some_0.1;
        assert(ahead(cs, p).drop_first() =~= words.skip(i + 1) + more);
        assert(words.take(i + 1) =~= words.take(i).push(words[i]));
        lemma_read_names(cs, q, words, i + 1, more);
    } else {
        assert(ahead(cs, p) =~= more);
        assert(words.take(i) =~= words);
    }
}

/// The right side of a definition, in writing, and what comes behind it.
pub open spec fn written_side(rhs: Syntax, more: Seq<Seq<char>>) -> Seq<Seq<char>> {
    seq![seq!['=']] + (written_expr(rhs) + (seq![seq![';']] + more))
}

/// The right side of a definition, in writing, is read up to the place `t`, from which `more` comes.
#[verifier::rlimit(40)]
proof fn lemma_read_side(cs: Seq<char>, p: int, rhs: Syntax, more: Seq<Seq<char>>) -> (places: (
    int,
    int,
    int,
))
    requires
        is_expr_tree(rhs),
        0 <= p <= cs.len(),
        ahead(cs, p) == written_side(rhs, more),
    ensures
        ({
            let n = cs.len() as int;
            let (q, r, t) = places;
            &&& token(cs, p, '=').moved(p, n) == Some(((), q))
            &&& expr(cs, q).moved(q, n) == Some((rhs, r))
            &&& token(cs, r, ';').moved(r, n) == Some(((), t))
            &&& 0 <= p < t <= n
            &&& ahead(cs, t) == more
        }),
{
    let n = cs.len() as int;
    assert(seq!['='][0] == '=' && seq![';'][0] == ';' && seq!['-'][0] == '-' && seq!['('][0] == '('
        && seq!['*'][0] == '*' && seq!['/'][0] == '/' && seq!['+'][0] == '+');
    let next = seq![seq![';']] + more;
    assert(ahead(cs, p)[0] == seq!['=']);
    lemma_token_comes(cs, p, '=');
    let q = token(cs, p, '=').moved(p, n)->Some_0.1;
    assert(ahead(cs, p).drop_first() =~= written_expr(rhs) + next);
    assert(next[0] == seq![';']);
    lemma_read_expr(cs, q, rhs, next);
    let r = expr(cs, q).value->Some_0.1;
    lemma_token_comes(cs, r, ';');
    let t = token(cs, r, ';').moved(r, n)->Some_0.1;
    assert(next.drop_first() =~= more);
    (q, r, t)
}

#[verifier::rlimit(60)]
proof fn lemma_read_rest(cs: Seq<char>, p: int, rhs: Syntax, then: Syntax)
    requires
        is_expr_tree(rhs),
        is_decl_tree(then),
        has_names(then),
        0 <= p <= cs.len(),
        ahead(cs, p) == written_side(rhs, written(then)),
    ensures
        is_read(cs, rest(cs, p).value, p, (rhs, then), Seq::empty()),
    decreases then, 6int,
{
    let (q, r, t) = lemma_read_side(cs, p, rhs, written(then));
    lemma_read_decl(cs, t, then);
}

#[verifier::rlimit(40)]
proof fn lemma_read_let(cs: Seq<char>, p: int, text: Seq<char>, rhs: Syntax, then: Syntax)
    requires
        is_word(text),
        is_expr_tree(rhs),
        is_decl_tree(then),
        has_names(then),
        0 <= p <= cs.len(),
        ahead(cs, p) == seq![keyword_text(Keyword::Let), text] + written_side(
            rhs,
            written(then),
        ),
    ensures
        is_read(
            cs,
            let_decl(cs, p).value,
            p,
            Tree::Let { name: text, rhs: Box::new(rhs), then: Box::new(then) },
            Seq::empty(),
        ),
    decreases then, 7int,
{
    let n = cs.len() as int;
    let side = written_side(rhs, written(then));
    lemma_keyword_comes(cs, p, Keyword::Let);
    assert(ahead(cs, p)[0] == keyword_text(Keyword::Let));
    assert(ahead(cs, p).drop_first() =~= seq![text] + side);
    let q = keyword(cs, p, Keyword::Let).moved(p, n)->Some_0.1;
    lemma_name_comes(cs, q);
    assert(ahead(cs, q)[0] == text);
    let r = name(cs, q).moved(q, n)->Some_0.1;
    assert((seq![text] + side).drop_first() =~= side);
    lemma_read_rest(cs, r, rhs, then);
}

#[verifier::rlimit(40)]
proof fn lemma_read_fn(
    cs: Seq<char>,
    p: int,
    text: Seq<char>,
    args: Seq<Seq<char>>,
    body: Syntax,
    then: Syntax,
)
    requires
        is_word(text),
        forall|i: int| 0 <= i < args.len() ==> is_word(#[trigger] args[i]),
        is_expr_tree(body),
        is_decl_tree(then),
        has_names(then),
        0 <= p <= cs.len(),
        ahead(cs, p) == seq![keyword_text(Keyword::Fn), text] + (args + written_side(
            body,
            written(then),
        )),
    ensures
        is_read(
            cs,
            fn_decl(cs, p).value,
            p,
            Tree::Fn { name: text, args, body: Box::new(body), then: Box::new(then) },
            Seq::empty(),
        ),
        let_decl(cs, p).value is None,
    decreases then, 7int,
{
    let n = cs.len() as int;
    let side = written_side(body, written(then));
    lemma_keyword_comes(cs, p, Keyword::Fn);
    lemma_keyword_comes(cs, p, Keyword::Let);
    assert(keyword_text(Keyword::Let).len() == 3 && keyword_text(Keyword::Fn).len() == 2);
    assert(ahead(cs, p)[0] == keyword_text(Keyword::Fn));
    assert(ahead(cs, p).drop_first() =~= seq![text] + (args + side));
    let q = keyword(cs, p, Keyword::Fn).moved(p, n)->Some_0.1;
    lemma_name_comes(cs, q);
    assert(ahead(cs, q)[0] == text);
    let r = name(cs, q).moved(q, n)->Some_0.1;
    assert((seq![text] + (args + side)).drop_first() =~= args + side);
    assert(args.skip(0) =~= args && args.take(0) =~= Seq::empty());
    assert(side[0] == seq!['=']);
    lemma_read_names(cs, r, args, 0, side);
    let t = names(cs, r, Seq::empty()).value->Some_0.1;
    lemma_read_rest(cs, t, body, then);
}

#[verifier::rlimit(60)]
proof fn lemma_read_decl(cs: Seq<char>, p: int, tree: Syntax)
    requires
        is_decl_tree(tree),
        has_names(tree),
        0 <= p <= cs.len(),
        ahead(cs, p) == written(tree),
    ensures
        is_read(cs, decl(cs, p).value, p, tree, Seq::empty()),
    decreases tree, 5int,
{
    let here = ahead(cs, p);
    match tree {
        Tree::Let { name: text, rhs, then } => {
            assert(here =~= seq![keyword_text(Keyword::Let), text] + written_side(
                *rhs,
                written(*then),
            ));
            lemma_read_let(cs, p, text, *rhs, *then);
        },
        Tree::Fn { name: text, args, body, then } => {
            assert(here =~= seq![keyword_text(Keyword::Fn), text] + (args + written_side(
                *body,
                written(*then),
            )));
            lemma_read_fn(cs, p, text, args, *body, *then);
        },
        _ => {
            lemma_keyword_comes(cs, p, Keyword::Let);
            lemma_keyword_comes(cs, p, Keyword::Fn);
            lemma_written_first(tree);
            assert(is_word_start(keyword_text(Keyword::Let)[0]));
            assert(is_word_start(keyword_text(Keyword::Fn)[0]));
            assert(seq!['('][0] == '(');
            assert(let_decl(cs, p).value is None);
            assert(fn_decl(cs, p).value is None);
            assert(here =~= written_expr(tree) + Seq::empty());
            lemma_read_expr(cs, p, tree, Seq::empty());
        },
    }
}

/// A tree in writing, however it is spaced, is read as the tree.
pub proof fn law_what_is_written_is_read(cs: Seq<char>, tree: Syntax)
    requires
        is_decl_tree(tree),
        has_names(tree),
        lexemes(cs, 0) == written(tree),
    ensures
        program(cs).value == Some((tree, cs.len() as int)),
{
    reveal(ahead);
    lemma_read_decl(cs, 0, tree);
    lemma_decl(cs, 0);
    let q = decl(cs, 0).value->Some_0.1;
    lemma_first(cs, q);
}

/// The text is a word, a number or a sign.
pub open spec fn is_lexeme(text: Seq<char>) -> bool {
    is_word(text) || is_numeral(text) || (text.len() == 1 && is_sign(text[0]) && !is_space(text[0]))
}

pub open spec fn are_lexemes(parts: Seq<Seq<char>>) -> bool {
    forall|i: int| 0 <= i < parts.len() ==> is_lexeme(#[trigger] parts[i])
}

/// Words, numbers and signs with spaces between them are found again.
pub proof fn law_spaced_parts_are_found(parts: Seq<Seq<char>>)
    requires
        are_lexemes(parts),
    ensures
        lexemes(spaced(parts), 0) == parts,
    decreases parts.len(),
{
    let ds = spaced(parts);
    if parts.len() > 0 {
        let first = parts[0];
        let others = parts.drop_first();
        let tail = spaced(others);
        let k = first.len() as int;
        assert(is_lexeme(first));
        assert forall|i: int| 0 <= i < others.len() implies is_lexeme(#[trigger] others[i]) by {
            assert(others[i] == parts[i + 1]);
        }
        law_spaced_parts_are_found(others);
        assert(ds =~= first + seq![' '] + tail);
        assert(ds[0] == first[0]);
        assert(ds[k] == ' ');
        if is_word(first) {
            assert(is_word_part(first[0]));
            lemma_word_stops(ds, first, 1);
        } else if is_numeral(first) {
            assert(is_digit(first[0]));
            if first[0] != '0' {
                lemma_digits_stop(ds, first, 1);
            }
        }
        assert(!is_space(ds[0]));
        assert(skip(ds, 0) == 0);
        assert(lexeme_end(ds, 0) == k);
        assert(ds.subrange(0, k) =~= first);
        assert(is_inside(tail, ds, k + 1));
        lemma_lexemes_around(tail, ds, k + 1, 0);
        assert(skip(ds, k) == skip(ds, k + 1));
        lemma_skip(ds, k + 1);
        assert(lexemes(ds, k) == lexemes(ds, k + 1));
        assert(seq![first] + others =~= parts);
    } else {
        assert(lexemes(ds, 0) =~= parts);
    }
}

proof fn lemma_word_stops(ds: Seq<char>, text: Seq<char>, i: int)
    requires
        is_word(text),
        0 <= i <= text.len() < ds.len(),
        forall|j: int| 0 <= j < text.len() ==> #[trigger] ds[j] == text[j],
        ds[text.len() as int] == ' ',
    ensures
        word_end(ds, i) == text.len(),
    decreases text.len() - i,
{
    if i < text.len() {
        assert(ds[i] == text[i]);
        assert(is_word_part(text[i]));
        lemma_word_stops(ds, text, i + 1);
    }
}

proof fn lemma_digits_stop(ds: Seq<char>, text: Seq<char>, i: int)
    requires
        is_numeral(text),
        0 <= i <= text.len() < ds.len(),
        forall|j: int| 0 <= j < text.len() ==> #[trigger] ds[j] == text[j],
        ds[text.len() as int] == ' ',
    ensures
        digits_end(ds, i) == text.len(),
    decreases text.len() - i,
{
    if i < text.len() {
        assert(ds[i] == text[i]);
        assert(is_digit(text[i]));
        lemma_digits_stop(ds, text, i + 1);
    }
}

pub proof fn lemma_joined(a: Seq<Seq<char>>, b: Seq<Seq<char>>)
    requires
        are_lexemes(a),
        are_lexemes(b),
    ensures
        are_lexemes(a + b),
{
    assert forall|i: int| 0 <= i < (a + b).len() implies is_lexeme(#[trigger] (a + b)[i]) by {
        if i < a.len() {
            assert((a + b)[i] == a[i]);
        } else {
            assert((a + b)[i] == b[i - a.len()]);
        }
    }
}

pub proof fn lemma_sign_is_lexeme(c: char)
    requires
        is_sign(c),
        !is_space(c),
    ensures
        are_lexemes(seq![seq![c]]),
{
    assert(seq![c][0] == c);
}

proof fn lemma_written_expr_is_lexemes(tree: Syntax)
    requires
        is_expr_tree(tree),
    ensures
        are_lexemes(written_expr(tree)),
    decreases tree, 0int,
{
    lemma_sign_is_lexeme('(');
    lemma_sign_is_lexeme(')');
    lemma_sign_is_lexeme('-');
    let open = seq![seq!['(']];
    let close = seq![seq![')']];
    match tree {
        Tree::Neg(a) => {
            lemma_written_expr_is_lexemes(*a);
            lemma_joined(open, seq![seq!['-']]);
            assert(open + seq![seq!['-']] =~= seq![seq!['('], seq!['-']]);
            lemma_joined(seq![seq!['('], seq!['-']], written_expr(*a));
            lemma_joined(seq![seq!['('], seq!['-']] + written_expr(*a), close);
        },
        Tree::Bin(op, a, b) => {
            lemma_written_expr_is_lexemes(*a);
            lemma_written_expr_is_lexemes(*b);
            lemma_sign_is_lexeme(sign(op));
            let middle = seq![seq![sign(op)]];
            lemma_joined(open, written_expr(*a));
            lemma_joined(open + written_expr(*a), middle);
            lemma_joined(open + written_expr(*a) + middle, written_expr(*b));
            lemma_joined(open + written_expr(*a) + middle + written_expr(*b), close);
        },
        Tree::Call(text, args) => {
            lemma_written_list_is_lexemes(args, 0);
            let head = seq![text, seq!['(']];
            assert(head =~= seq![text] + open);
            lemma_joined(seq![text], open);
            lemma_joined(head, written_list(args, 0));
            lemma_joined(head + written_list(args, 0), close);
        },
        _ => {},
    }
}

proof fn lemma_written_list_is_lexemes(args: Seq<Syntax>, i: int)
    requires
        0 <= i,
        forall|j: int| 0 <= j < args.len() ==> is_expr_tree(#[trigger] args[j]),
    ensures
        are_lexemes(written_list(args, i)),
    decreases args, args.len() - i,
{
    if i < args.len() {
        lemma_written_expr_is_lexemes(args[i]);
        if i + 1 < args.len() {
            lemma_sign_is_lexeme(',');
            let comma = seq![seq![',']];
            lemma_written_list_is_lexemes(args, i + 1);
            lemma_joined(written_expr(args[i]), comma);
            lemma_joined(written_expr(args[i]) + comma, written_list(args, i + 1));
        }
    }
}

proof fn lemma_written_is_lexemes(tree: Syntax)
    requires
        is_decl_tree(tree),
    ensures
        are_lexemes(written(tree)),
    decreases tree,
{
    lemma_sign_is_lexeme('=');
    lemma_sign_is_lexeme(';');
    let equals = seq![seq!['=']];
    let end = seq![seq![';']];
    match tree {
        Tree::Let { name: text, rhs, then } => {
            assert(is_word(keyword_text(Keyword::Let)));
            lemma_written_expr_is_lexemes(*rhs);
            lemma_written_is_lexemes(*then);
            let head = seq![keyword_text(Keyword::Let), text, seq!['=']];
            assert(head =~= seq![keyword_text(Keyword::Let), text] + equals);
            lemma_joined(seq![keyword_text(Keyword::Let), text], equals);
            lemma_joined(head, written_expr(*rhs));
            lemma_joined(head + written_expr(*rhs), end);
            lemma_joined(head + written_expr(*rhs) + end, written(*then));
        },
        Tree::Fn { name: text, args, body, then } => {
            assert(is_word(keyword_text(Keyword::Fn)));
            lemma_written_expr_is_lexemes(*body);
            lemma_written_is_lexemes(*then);
            let head = seq![keyword_text(Keyword::Fn), text];
            lemma_joined(head, args);
            lemma_joined(head + args, equals);
            lemma_joined(head + args + equals, written_expr(*body));
            lemma_joined(head + args + equals + written_expr(*body), end);
            lemma_joined(head + args + equals + written_expr(*body) + end, written(*then));
        },
        _ => {
            lemma_written_expr_is_lexemes(tree);
        },
    }
}

/// A tree of definitions and an expression behind them, whose names are no keywords, is read from
/// its text.
pub proof fn law_a_printed_tree_is_read(tree: Syntax)
    requires
        is_decl_tree(tree),
        has_names(tree),
    ensures
        program(spaced(written(tree))).value == Some(
            (tree, spaced(written(tree)).len() as int),
        ),
{
    lemma_written_is_lexemes(tree);
    law_spaced_parts_are_found(written(tree));
    law_what_is_written_is_read(spaced(written(tree)), tree);
}

/// What comes behind a word or a number would go on with it.
pub open spec fn goes_on(first: Seq<char>, text: Seq<char>) -> bool {
    &&& text.len() > 0
    &&& (is_word(first) && is_word_part(text[0])) || (is_numeral(first) && first[0] != '0'
        && is_digit(text[0]))
}

proof fn lemma_word_stops_at(ds: Seq<char>, text: Seq<char>, i: int)
    requires
        is_word(text),
        0 <= i <= text.len() <= ds.len(),
        forall|j: int| 0 <= j < text.len() ==> #[trigger] ds[j] == text[j],
        text.len() < ds.len() ==> !is_word_part(ds[text.len() as int]),
    ensures
        word_end(ds, i) == text.len(),
    decreases text.len() - i,
{
    if i < text.len() {
        assert(ds[i] == text[i]);
        assert(is_word_part(text[i]));
        lemma_word_stops_at(ds, text, i + 1);
    }
}

proof fn lemma_digits_stop_at(ds: Seq<char>, text: Seq<char>, i: int)
    requires
        is_numeral(text),
        0 <= i <= text.len() <= ds.len(),
        forall|j: int| 0 <= j < text.len() ==> #[trigger] ds[j] == text[j],
        text.len() < ds.len() ==> !is_digit(ds[text.len() as int]),
    ensures
        digits_end(ds, i) == text.len(),
    decreases text.len() - i,
{
    if i < text.len() {
        assert(ds[i] == text[i]);
        assert(is_digit(text[i]));
        lemma_digits_stop_at(ds, text, i + 1);
    }
}

/// A word, a number or a sign before a text is found first, and what is found behind it is what is
/// found in the text, unless the text goes on with the word or the number.
pub proof fn law_a_lexeme_comes_first(first: Seq<char>, text: Seq<char>)
    requires
        is_lexeme(first),
        !goes_on(first, text),
    ensures
        lexemes(first + text, 0) == seq![first] + lexemes(text, 0),
{
    let ds = first + text;
    let k = first.len() as int;
    assert(ds[0] == first[0]);
    if text.len() > 0 {
        assert(ds[k] == text[0]);
    }
    if is_word(first) {
        assert(is_word_part(first[0]));
        lemma_word_stops_at(ds, first, 1);
    } else if is_numeral(first) {
        assert(is_digit(first[0]));
        if first[0] != '0' {
            lemma_digits_stop_at(ds, first, 1);
        }
    }
    assert(!is_space(ds[0]));
    assert(skip(ds, 0) == 0);
    assert(lexeme_end(ds, 0) == k);
    assert(ds.subrange(0, k) =~= first);
    assert(is_inside(text, ds, k));
    lemma_lexemes_around(text, ds, k, 0);
}

} // verus!

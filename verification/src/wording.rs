//! What trees can be written: their names are words, their numbers are numbers, and definitions
//! come first.

use crate::ast::{Op, Tree};
use crate::error::Keyword;
use crate::extent::{lemma_digits_end, lemma_skip, lemma_word_end};
use crate::grammar::{
    atom, call, chain, decl, digits_end, expr, fn_decl, group, infix, is_digit, is_space,
    is_word_part, is_word_start, items, keyword, let_decl, link, more_items, name, names, number,
    operand, operators, program, rest, skip, token, unary, word_end, Outcome, Syntax, Tier,
};
use vstd::prelude::*;

verus! {

/// The text is a word.
pub open spec fn is_word(text: Seq<char>) -> bool {
    &&& text.len() > 0
    &&& is_word_start(text[0])
    &&& forall|i: int| 0 <= i < text.len() ==> is_word_part(#[trigger] text[i])
}

/// The text is a number: zero, or digits that do not begin with a zero.
pub open spec fn is_numeral(text: Seq<char>) -> bool {
    &&& text.len() > 0
    &&& text[0] == '0' ==> text.len() == 1
    &&& forall|i: int| 0 <= i < text.len() ==> is_digit(#[trigger] text[i])
}

/// The tree is that of an expression: no definition is in it, its names are words and its numbers
/// are numbers.
pub open spec fn is_expr_tree(tree: Syntax) -> bool
    decreases tree,
{
    match tree {
        Tree::Num(digits) => is_numeral(digits),
        Tree::Var(text) => is_word(text),
        Tree::Neg(a) => is_expr_tree(*a),
        Tree::Bin(_, a, b) => is_expr_tree(*a) && is_expr_tree(*b),
        Tree::Call(text, args) => {
            &&& is_word(text)
            &&& forall|i: int| 0 <= i < args.len() ==> is_expr_tree(#[trigger] args[i])
        },
        Tree::Let { .. } => false,
        Tree::Fn { .. } => false,
    }
}

/// The tree is that of definitions and an expression behind them.
pub open spec fn is_decl_tree(tree: Syntax) -> bool
    decreases tree,
{
    match tree {
        Tree::Let { name: text, rhs, then } => {
            is_word(text) && is_expr_tree(*rhs) && is_decl_tree(*then)
        },
        Tree::Fn { name: text, args, body, then } => {
            &&& is_word(text)
            &&& forall|i: int| 0 <= i < args.len() ==> is_word(#[trigger] args[i])
            &&& is_expr_tree(*body)
            &&& is_decl_tree(*then)
        },
        _ => is_expr_tree(tree),
    }
}

/// A word holds no white space.
pub proof fn law_words_hold_no_white_space(text: Seq<char>, i: int)
    requires
        is_word(text),
        0 <= i < text.len(),
    ensures
        !is_space(text[i]),
{
    assert(is_word_part(text[i]));
}

proof fn lemma_word_parts(cs: Seq<char>, p: int, i: int)
    requires
        0 <= p <= i < word_end(cs, p),
        p <= cs.len(),
    ensures
        i < cs.len(),
        is_word_part(cs[i]),
    decreases cs.len() - p,
{
    if p < i && p < cs.len() && is_word_part(cs[p]) {
        lemma_word_parts(cs, p + 1, i);
    }
}

proof fn lemma_digits(cs: Seq<char>, p: int, i: int)
    requires
        0 <= p <= i < digits_end(cs, p),
        p <= cs.len(),
    ensures
        i < cs.len(),
        is_digit(cs[i]),
    decreases cs.len() - p,
{
    if p < i && p < cs.len() && is_digit(cs[p]) {
        lemma_digits(cs, p + 1, i);
    }
}

pub proof fn lemma_name_is_word(cs: Seq<char>, p: int)
    requires
        0 <= p <= cs.len(),
    ensures
        name(cs, p).value matches Some((text, _)) ==> is_word(text),
{
    lemma_skip(cs, p);
    let s = skip(cs, p);
    if s < cs.len() && is_word_start(cs[s]) {
        let e = word_end(cs, s + 1);
        lemma_word_end(cs, s + 1);
        let text = cs.subrange(s, e);
        assert forall|i: int| 0 <= i < text.len() implies is_word_part(#[trigger] text[i]) by {
            if i > 0 {
                lemma_word_parts(cs, s + 1, s + i);
            }
        }
    }
}

pub proof fn lemma_number_is_numeral(cs: Seq<char>, p: int)
    requires
        0 <= p <= cs.len(),
    ensures
        number(cs, p).value matches Some((text, _)) ==> is_numeral(text),
{
    lemma_skip(cs, p);
    let s = skip(cs, p);
    if s < cs.len() && is_digit(cs[s]) && cs[s] != '0' {
        let e = digits_end(cs, s + 1);
        lemma_digits_end(cs, s + 1);
        let text = cs.subrange(s, e);
        assert forall|i: int| 0 <= i < text.len() implies is_digit(#[trigger] text[i]) by {
            if i > 0 {
                lemma_digits(cs, s + 1, s + i);
            }
        }
    }
}

/// What is found, if anything is, is an expression.
pub open spec fn gives_expr(o: Outcome<Syntax>) -> bool {
    o.value matches Some((tree, _)) ==> is_expr_tree(tree)
}

/// What is found, if anything is, are expressions.
pub open spec fn gives_exprs(o: Outcome<Seq<Syntax>>) -> bool {
    o.value matches Some((trees, _)) ==> are_exprs(trees)
}

pub open spec fn are_exprs(trees: Seq<Syntax>) -> bool {
    forall|i: int| 0 <= i < trees.len() ==> is_expr_tree(#[trigger] trees[i])
}

proof fn lemma_atom_gives(cs: Seq<char>, p: int)
    requires
        0 <= p <= cs.len(),
    ensures
        gives_expr(atom(cs, p)),
    decreases cs.len() - p, 2int,
{
    lemma_number_is_numeral(cs, p);
    lemma_group_gives(cs, p);
    lemma_call_gives(cs, p);
    lemma_name_is_word(cs, p);
}

proof fn lemma_group_gives(cs: Seq<char>, p: int)
    requires
        0 <= p <= cs.len(),
    ensures
        gives_expr(group(cs, p)),
    decreases cs.len() - p, 1int,
{
    match token(cs, p, '(').moved(p, cs.len() as int) {
        None => {},
        Some((_, q)) => {
            lemma_expr_gives(cs, q);
        },
    }
}

#[verifier::rlimit(40)]
proof fn lemma_call_gives(cs: Seq<char>, p: int)
    requires
        0 <= p <= cs.len(),
    ensures
        gives_expr(call(cs, p)),
    decreases cs.len() - p, 1int,
{
    lemma_name_is_word(cs, p);
    match name(cs, p).moved(p, cs.len() as int) {
        None => {},
        Some((_, q)) => {
            match token(cs, q, '(').moved(q, cs.len() as int) {
                None => {},
                Some((_, r)) => {
                    lemma_items_give(cs, r);
                },
            }
        },
    }
}

proof fn lemma_items_give(cs: Seq<char>, p: int)
    requires
        0 <= p <= cs.len(),
    ensures
        gives_exprs(items(cs, p)),
    decreases cs.len() - p, 9int,
{
    lemma_expr_gives(cs, p);
    match expr(cs, p).moved(p, cs.len() as int) {
        None => {},
        Some((tree, q)) => {
            lemma_more_items_give(cs, q, seq![tree]);
        },
    }
}

proof fn lemma_more_items_give(cs: Seq<char>, p: int, found: Seq<Syntax>)
    requires
        0 <= p <= cs.len(),
        are_exprs(found),
    ensures
        gives_exprs(more_items(cs, p, found)),
    decreases cs.len() - p, 8int,
{
    match token(cs, p, ',').moved(p, cs.len() as int) {
        None => {},
        Some((_, q)) => {
            lemma_expr_gives(cs, q);
            match expr(cs, q).moved(q, cs.len() as int) {
                None => {},
                Some((tree, r)) => {
                    lemma_more_items_give(cs, r, found.push(tree));
                },
            }
        },
    }
}

proof fn lemma_unary_gives(cs: Seq<char>, p: int)
    requires
        0 <= p <= cs.len(),
    ensures
        gives_expr(unary(cs, p)),
    decreases cs.len() - p, 3int,
{
    match token(cs, p, '-').moved(p, cs.len() as int) {
        None => {
            lemma_atom_gives(cs, p);
        },
        Some((_, q)) => {
            lemma_unary_gives(cs, q);
        },
    }
}

proof fn lemma_operand_gives(cs: Seq<char>, p: int, tier: Tier)
    requires
        0 <= p <= cs.len(),
    ensures
        gives_expr(operand(cs, p, tier)),
    decreases
            cs.len() - p,
            (match tier {
                Tier::Sum => 6int,
                Tier::Product => 4int,
            }),
{
    match tier {
        Tier::Sum => {
            lemma_infix_gives(cs, p, Tier::Product);
        },
        Tier::Product => {
            lemma_unary_gives(cs, p);
        },
    }
}

proof fn lemma_infix_gives(cs: Seq<char>, p: int, tier: Tier)
    requires
        0 <= p <= cs.len(),
    ensures
        gives_expr(infix(cs, p, tier)),
    decreases
            cs.len() - p,
            (match tier {
                Tier::Sum => 7int,
                Tier::Product => 5int,
            }),
{
    lemma_operand_gives(cs, p, tier);
    match operand(cs, p, tier).moved(p, cs.len() as int) {
        None => {},
        Some((lhs, q)) => {
            lemma_chain_gives(cs, q, tier, lhs);
        },
    }
}

proof fn lemma_chain_gives(cs: Seq<char>, p: int, tier: Tier, lhs: Syntax)
    requires
        0 <= p <= cs.len(),
        is_expr_tree(lhs),
    ensures
        gives_expr(chain(cs, p, tier, lhs)),
    decreases cs.len() - p, 8int,
{
    let ((c, op), (d, other)) = operators(tier);
    match token(cs, p, c).moved(p, cs.len() as int) {
        Some((_, q)) => {
            lemma_link_gives(cs, p, q, tier, op, lhs);
        },
        None => {
            match token(cs, p, d).moved(p, cs.len() as int) {
                Some((_, q)) => {
                    lemma_link_gives(cs, p, q, tier, other, lhs);
                },
                None => {},
            }
        },
    }
}

proof fn lemma_link_gives(cs: Seq<char>, p: int, q: int, tier: Tier, op: Op, lhs: Syntax)
    requires
        0 <= p < q <= cs.len(),
        is_expr_tree(lhs),
    ensures
        gives_expr(link(cs, p, q, tier, op, lhs)),
    decreases cs.len() - q, 9int,
{
    lemma_operand_gives(cs, q, tier);
    match operand(cs, q, tier).moved(q, cs.len() as int) {
        None => {},
        Some((rhs, e)) => {
            lemma_chain_gives(cs, e, tier, Tree::Bin(op, Box::new(lhs), Box::new(rhs)));
        },
    }
}

proof fn lemma_expr_gives(cs: Seq<char>, p: int)
    requires
        0 <= p <= cs.len(),
    ensures
        gives_expr(expr(cs, p)),
    decreases cs.len() - p, 8int,
{
    lemma_infix_gives(cs, p, Tier::Sum);
}

pub proof fn lemma_names_are_words(cs: Seq<char>, p: int, found: Seq<Seq<char>>)
    requires
        0 <= p <= cs.len(),
        forall|i: int| 0 <= i < found.len() ==> is_word(#[trigger] found[i]),
    ensures
        names(cs, p, found).value matches Some((words, _)) ==> forall|i: int|
            0 <= i < words.len() ==> is_word(#[trigger] words[i]),
    decreases cs.len() - p,
{
    lemma_name_is_word(cs, p);
    match name(cs, p).moved(p, cs.len() as int) {
        None => {},
        Some((word, q)) => {
            lemma_names_are_words(cs, q, found.push(word));
        },
    }
}

#[verifier::rlimit(40)]
proof fn lemma_rest_gives(cs: Seq<char>, p: int)
    requires
        0 <= p <= cs.len(),
    ensures
        rest(cs, p).value matches Some(((rhs, then), _)) ==> is_expr_tree(rhs) && is_decl_tree(then),
    decreases cs.len() - p, 8int,
{
    let n = cs.len() as int;
    match token(cs, p, '=').moved(p, n) {
        None => {},
        Some((_, q)) => {
            lemma_expr_gives(cs, q);
            match expr(cs, q).moved(q, n) {
                None => {},
                Some((_, r)) => {
                    match token(cs, r, ';').moved(r, n) {
                        None => {},
                        Some((_, t)) => {
                            lemma_decl_gives(cs, t);
                        },
                    }
                },
            }
        },
    }
}

#[verifier::rlimit(40)]
proof fn lemma_let_decl_gives(cs: Seq<char>, p: int)
    requires
        0 <= p <= cs.len(),
    ensures
        let_decl(cs, p).value matches Some((tree, _)) ==> is_decl_tree(tree),
    decreases cs.len() - p, 8int,
{
    let n = cs.len() as int;
    match keyword(cs, p, Keyword::Let).moved(p, n) {
        None => {},
        Some((_, q)) => {
            lemma_name_is_word(cs, q);
            match name(cs, q).moved(q, n) {
                None => {},
                Some((_, r)) => {
                    lemma_rest_gives(cs, r);
                },
            }
        },
    }
}

#[verifier::rlimit(40)]
proof fn lemma_fn_decl_gives(cs: Seq<char>, p: int)
    requires
        0 <= p <= cs.len(),
    ensures
        fn_decl(cs, p).value matches Some((tree, _)) ==> is_decl_tree(tree),
    decreases cs.len() - p, 8int,
{
    let n = cs.len() as int;
    match keyword(cs, p, Keyword::Fn).moved(p, n) {
        None => {},
        Some((_, q)) => {
            lemma_name_is_word(cs, q);
            match name(cs, q).moved(q, n) {
                None => {},
                Some((_, r)) => {
                    lemma_names_are_words(cs, r, Seq::empty());
                    match names(cs, r, Seq::empty()).moved(q, n) {
                        None => {},
                        Some((_, t)) => {
                            lemma_rest_gives(cs, t);
                        },
                    }
                },
            }
        },
    }
}

proof fn lemma_decl_gives(cs: Seq<char>, p: int)
    requires
        0 <= p <= cs.len(),
    ensures
        decl(cs, p).value matches Some((tree, _)) ==> is_decl_tree(tree),
    decreases cs.len() - p, 9int,
{
    lemma_let_decl_gives(cs, p);
    lemma_fn_decl_gives(cs, p);
    lemma_expr_gives(cs, p);
    match expr(cs, p).value {
        Some((tree, _)) => {
            assert(is_expr_tree(tree) ==> is_decl_tree(tree));
        },
        None => {},
    }
}

/// The tree of a program is one of definitions and an expression behind them. Every name in it is a
/// word.
pub proof fn law_programs_are_definitions_and_an_expression(cs: Seq<char>)
    ensures
        program(cs).value matches Some((tree, _)) ==> is_decl_tree(tree),
{
    lemma_decl_gives(cs, 0);
}

} // verus!

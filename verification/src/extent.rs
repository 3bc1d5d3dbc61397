//! How far phrases reach in a text, and how many nodes are made for them.

use crate::ast::{size, size_of_all, Op, Tree};
use crate::error::Keyword;
use crate::grammar::{
    atom, call, chain, decl, digits_end, expr, fn_decl, furthest, group, infix, is_digit, is_space,
    is_word_part, is_word_start, items, keyword, let_decl, link, more_items, name, names, number,
    operand, operators, program, rest, skip, sought_at, token, unary, word_end, Miss, Outcome,
    Syntax, Tier,
};
use vstd::prelude::*;

verus! {

pub proof fn lemma_skip(cs: Seq<char>, p: int)
    requires
        0 <= p <= cs.len(),
    ensures
        p <= skip(cs, p) <= cs.len(),
        skip(cs, skip(cs, p)) == skip(cs, p),
    decreases cs.len() - p,
{
    if p < cs.len() && is_space(cs[p]) {
        lemma_skip(cs, p + 1);
    }
}

pub proof fn lemma_word_end(cs: Seq<char>, p: int)
    requires
        0 <= p <= cs.len(),
    ensures
        p <= word_end(cs, p) <= cs.len(),
    decreases cs.len() - p,
{
    if p < cs.len() && is_word_part(cs[p]) {
        lemma_word_end(cs, p + 1);
    }
}

pub proof fn lemma_digits_end(cs: Seq<char>, p: int)
    requires
        0 <= p <= cs.len(),
    ensures
        p <= digits_end(cs, p) <= cs.len(),
    decreases cs.len() - p,
{
    if p < cs.len() && is_digit(cs[p]) {
        lemma_digits_end(cs, p + 1);
    }
}

/// Something was looked for in vain, last at some place of the text.
pub open spec fn has_reason(misses: Seq<Miss>) -> bool {
    misses.len() > 0 && misses.last().at >= 0
}

/// The phrase is a lexical one: it makes no node, and where it is found it takes up characters
/// and the spaces behind them.
pub open spec fn is_lexical<T>(cs: Seq<char>, o: Outcome<T>, p: int) -> bool {
    &&& o.nodes == 0
    &&& match o.value {
        Some((_, q)) => {
            &&& p <= skip(cs, p) < q <= cs.len()
            &&& skip(cs, q) == q
        },
        None => has_reason(o.misses),
    }
}

pub proof fn lemma_token(cs: Seq<char>, p: int, c: char)
    requires
        0 <= p <= cs.len(),
    ensures
        is_lexical(cs, token(cs, p, c), p),
{
    lemma_skip(cs, p);
    let s = skip(cs, p);
    if s < cs.len() {
        lemma_skip(cs, s + 1);
    }
}

pub proof fn lemma_name(cs: Seq<char>, p: int)
    requires
        0 <= p <= cs.len(),
    ensures
        is_lexical(cs, name(cs, p), p),
{
    lemma_skip(cs, p);
    let s = skip(cs, p);
    if s < cs.len() {
        lemma_word_end(cs, s + 1);
        lemma_skip(cs, word_end(cs, s + 1));
    }
}

pub proof fn lemma_keyword(cs: Seq<char>, p: int, word: Keyword)
    requires
        0 <= p <= cs.len(),
    ensures
        is_lexical(cs, keyword(cs, p, word), p),
{
    lemma_skip(cs, p);
    let s = skip(cs, p);
    if s < cs.len() {
        lemma_word_end(cs, s + 1);
        lemma_skip(cs, word_end(cs, s + 1));
    }
}

pub proof fn lemma_number(cs: Seq<char>, p: int)
    requires
        0 <= p <= cs.len(),
    ensures
        is_lexical(cs, number(cs, p), p),
{
    lemma_skip(cs, p);
    let s = skip(cs, p);
    if s < cs.len() {
        lemma_digits_end(cs, s + 1);
        lemma_skip(cs, digits_end(cs, s + 1));
        lemma_skip(cs, s + 1);
    }
}

pub proof fn lemma_names(cs: Seq<char>, p: int, found: Seq<Seq<char>>)
    requires
        0 <= p <= cs.len(),
        skip(cs, p) == p,
    ensures
        names(cs, p, found).nodes == 0,
        names(cs, p, found).value matches Some((_, q)) && p <= q <= cs.len() && skip(cs, q) == q,
    decreases cs.len() - p,
{
    lemma_name(cs, p);
    match name(cs, p).moved(p, cs.len() as int) {
        None => {},
        Some((word, q)) => {
            lemma_names(cs, q, found.push(word));
        },
    }
}

/// An expression ends at `q`, before a bracket or an operator that nothing can take: no more than
/// operators up to some level were tried there.
pub open spec fn is_stuck(cs: Seq<char>, q: int, level: int) -> bool {
    &&& 0 <= q < cs.len()
    &&& {
        ||| cs[q] == '('
        ||| level >= 1 && (cs[q] == '*' || cs[q] == '/')
        ||| level >= 2 && (cs[q] == '+' || cs[q] == '-')
    }
}

pub open spec fn level(tier: Tier) -> int {
    match tier {
        Tier::Sum => 2,
        Tier::Product => 1,
    }
}

/// Where a phrase that ends at `q` begins at `p`, it makes the nodes of its tree and no others, at
/// most one for each of its characters; or else it is stuck, and there is at most one for each
/// character left.
pub open spec fn is_bounded(
    cs: Seq<char>,
    nodes: nat,
    own: int,
    p: int,
    q: int,
    level: int,
) -> bool {
    (nodes == own && nodes <= q - p) || (nodes <= cs.len() - p && is_stuck(cs, q, level))
}

/// An expression takes up characters and the spaces behind them, and makes no more nodes than
/// there are characters left.
pub open spec fn is_expression(cs: Seq<char>, o: Outcome<Syntax>, p: int, level: int) -> bool {
    match o.value {
        Some((tree, q)) => {
            &&& p < q <= cs.len()
            &&& skip(cs, q) == q
            &&& is_bounded(cs, o.nodes, size(tree) as int, p, q, level)
        },
        None => o.nodes <= cs.len() - p && has_reason(o.misses),
    }
}

#[verifier::rlimit(40)]
pub proof fn lemma_atom(cs: Seq<char>, p: int)
    requires
        0 <= p <= cs.len(),
    ensures
        is_expression(cs, atom(cs, p), p, 0),
    decreases cs.len() - p, 2int,
{
    lemma_number(cs, p);
    lemma_group(cs, p);
    lemma_call(cs, p);
    lemma_name(cs, p);
}

#[verifier::rlimit(40)]
pub proof fn lemma_group(cs: Seq<char>, p: int)
    requires
        0 <= p <= cs.len(),
    ensures
        is_expression(cs, group(cs, p), p, -1),
        group(cs, p).value matches Some((tree, q)) ==> group(cs, p).nodes == size(tree) && group(
            cs,
            p,
        ).nodes <= q - p,
        group(cs, p).nodes > 0 ==> skip(cs, p) < cs.len() && cs[skip(cs, p)] == '(',
    decreases cs.len() - p, 1int,
{
    lemma_token(cs, p, '(');
    lemma_skip(cs, p);
    match token(cs, p, '(').moved(p, cs.len() as int) {
        None => {},
        Some((_, q)) => {
            lemma_expr(cs, q);
            match expr(cs, q).value {
                None => {},
                Some((_, r)) => {
                    lemma_token(cs, r, ')');
                },
            }
        },
    }
}

#[verifier::rlimit(40)]
pub proof fn lemma_call(cs: Seq<char>, p: int)
    requires
        0 <= p <= cs.len(),
    ensures
        is_expression(cs, call(cs, p), p, -1),
        call(cs, p).value matches Some((tree, q)) ==> call(cs, p).nodes == size(tree) && call(
            cs,
            p,
        ).nodes <= q - p,
        call(cs, p).value is None && call(cs, p).nodes > 0 ==> call(cs, p).nodes <= cs.len() - p
            - 2 && (name(cs, p).value matches Some((_, q)) && q < cs.len() && cs[q] == '('),
    decreases cs.len() - p, 1int,
{
    lemma_name(cs, p);
    match name(cs, p).moved(p, cs.len() as int) {
        None => {},
        Some((_, q)) => {
            lemma_token(cs, q, '(');
            match token(cs, q, '(').moved(q, cs.len() as int) {
                None => {},
                Some((_, r)) => {
                    lemma_items(cs, r);
                    match items(cs, r).value {
                        None => {},
                        Some((_, t)) => {
                            lemma_token(cs, t, ')');
                        },
                    }
                },
            }
        },
    }
}

/// A list, behind the expressions `found`, takes up characters and the spaces behind them, and makes
/// the nodes of its trees, no more than it takes up characters; or it makes no more than there are
/// characters left, and is not at its closing bracket.
pub open spec fn is_list(
    cs: Seq<char>,
    o: Outcome<Seq<Syntax>>,
    p: int,
    found: Seq<Syntax>,
) -> bool {
    match o.value {
        Some((trees, q)) => {
            &&& p <= q <= cs.len()
            &&& skip(cs, q) == q
            &&& {
                ||| o.nodes == size_of_all(trees) - size_of_all(found) && o.nodes <= q - p
                ||| o.nodes <= cs.len() - p && !(q < cs.len() && cs[q] == ')')
            }
        },
        None => false,
    }
}

/// No expression begins with a closing bracket.
proof fn lemma_no_expr(cs: Seq<char>, p: int)
    requires
        0 <= p < cs.len(),
        skip(cs, p) == p,
        cs[p] == ')',
    ensures
        expr(cs, p).nodes == 0,
{
    assert(number(cs, p).value is None);
    assert(group(cs, p).nodes == 0 && group(cs, p).value is None);
    assert(call(cs, p).nodes == 0 && call(cs, p).value is None);
    assert(atom(cs, p).nodes == 0 && atom(cs, p).value is None);
    assert(unary(cs, p).nodes == 0 && unary(cs, p).value is None);
    assert(operand(cs, p, Tier::Product).nodes == 0);
    assert(infix(cs, p, Tier::Product).nodes == 0);
    assert(operand(cs, p, Tier::Sum).nodes == 0);
    assert(infix(cs, p, Tier::Sum).nodes == 0);
}

pub proof fn lemma_items(cs: Seq<char>, p: int)
    requires
        0 <= p <= cs.len(),
        skip(cs, p) == p,
    ensures
        is_list(cs, items(cs, p), p, Seq::empty()),
    decreases cs.len() - p, 9int,
{
    lemma_expr(cs, p);
    match expr(cs, p).moved(p, cs.len() as int) {
        None => {
            if p < cs.len() && cs[p] == ')' {
                lemma_no_expr(cs, p);
            }
        },
        Some((tree, q)) => {
            assert(seq![tree].drop_last() =~= Seq::empty());
            lemma_more_items(cs, q, seq![tree]);
        },
    }
}

#[verifier::rlimit(40)]
pub proof fn lemma_more_items(cs: Seq<char>, p: int, found: Seq<Syntax>)
    requires
        0 <= p <= cs.len(),
        skip(cs, p) == p,
    ensures
        is_list(cs, more_items(cs, p, found), p, found),
        is_stuck(cs, p, 2) ==> more_items(cs, p, found).nodes == 0 && more_items(
            cs,
            p,
            found,
        ).value == Some((found, p)),
    decreases cs.len() - p, 8int,
{
    lemma_token(cs, p, ',');
    match token(cs, p, ',').moved(p, cs.len() as int) {
        None => {},
        Some((_, q)) => {
            lemma_expr(cs, q);
            match expr(cs, q).moved(q, cs.len() as int) {
                None => {
                    if q < cs.len() && cs[q] == ')' {
                        lemma_no_expr(cs, q);
                    }
                },
                Some((tree, r)) => {
                    assert(found.push(tree).drop_last() =~= found);
                    lemma_more_items(cs, r, found.push(tree));
                },
            }
        },
    }
}

pub proof fn lemma_unary(cs: Seq<char>, p: int)
    requires
        0 <= p <= cs.len(),
    ensures
        is_expression(cs, unary(cs, p), p, 0),
    decreases cs.len() - p, 3int,
{
    lemma_token(cs, p, '-');
    match token(cs, p, '-').moved(p, cs.len() as int) {
        None => {
            lemma_atom(cs, p);
        },
        Some((_, q)) => {
            lemma_unary(cs, q);
        },
    }
}

pub proof fn lemma_operand(cs: Seq<char>, p: int, tier: Tier)
    requires
        0 <= p <= cs.len(),
    ensures
        is_expression(cs, operand(cs, p, tier), p, level(tier) - 1),
    decreases
            cs.len() - p,
            (match tier {
                Tier::Sum => 6int,
                Tier::Product => 4int,
            }),
{
    match tier {
        Tier::Sum => {
            lemma_infix(cs, p, Tier::Product);
        },
        Tier::Product => {
            lemma_unary(cs, p);
        },
    }
}

pub proof fn lemma_infix(cs: Seq<char>, p: int, tier: Tier)
    requires
        0 <= p <= cs.len(),
    ensures
        is_expression(cs, infix(cs, p, tier), p, level(tier)),
    decreases
            cs.len() - p,
            (match tier {
                Tier::Sum => 7int,
                Tier::Product => 5int,
            }),
{
    lemma_operand(cs, p, tier);
    match operand(cs, p, tier).moved(p, cs.len() as int) {
        None => {},
        Some((lhs, q)) => {
            lemma_chain(cs, q, tier, lhs);
        },
    }
}

#[verifier::rlimit(40)]
pub proof fn lemma_chain(cs: Seq<char>, p: int, tier: Tier, lhs: Syntax)
    requires
        0 <= p <= cs.len(),
        skip(cs, p) == p,
    ensures
        chain(cs, p, tier, lhs).value matches Some((tree, q)) && p <= q <= cs.len() && skip(cs, q)
            == q && is_bounded(
            cs,
            chain(cs, p, tier, lhs).nodes,
            size(tree) - size(lhs),
            p,
            q,
            level(tier),
        ),
        is_stuck(cs, p, level(tier) - 1) ==> chain(cs, p, tier, lhs).nodes == 0 && chain(
            cs,
            p,
            tier,
            lhs,
        ).value == Some((lhs, p)),
    decreases cs.len() - p, 8int,
{
    let ((c, op), (d, other)) = operators(tier);
    lemma_token(cs, p, c);
    lemma_token(cs, p, d);
    match token(cs, p, c).moved(p, cs.len() as int) {
        Some((_, q)) => {
            lemma_link(cs, p, q, tier, op, lhs);
        },
        None => {
            match token(cs, p, d).moved(p, cs.len() as int) {
                Some((_, q)) => {
                    lemma_link(cs, p, q, tier, other, lhs);
                },
                None => {},
            }
        },
    }
}

#[verifier::rlimit(40)]
pub proof fn lemma_link(cs: Seq<char>, p: int, q: int, tier: Tier, op: Op, lhs: Syntax)
    requires
        0 <= p < q <= cs.len(),
        skip(cs, p) == p,
        is_stuck(cs, p, level(tier)),
    ensures
        link(cs, p, q, tier, op, lhs).value matches Some((tree, e)) && p <= e <= cs.len() && skip(
            cs,
            e,
        ) == e && is_bounded(
            cs,
            link(cs, p, q, tier, op, lhs).nodes,
            size(tree) - size(lhs),
            p,
            e,
            level(tier),
        ),
    decreases cs.len() - q, 9int,
{
    lemma_operand(cs, q, tier);
    match operand(cs, q, tier).moved(q, cs.len() as int) {
        None => {},
        Some((rhs, e)) => {
            let both = Tree::Bin(op, Box::new(lhs), Box::new(rhs));
            assert(size(both) == size(lhs) + size(rhs) + 1);
            lemma_chain(cs, e, tier, both);
        },
    }
}

pub proof fn lemma_expr(cs: Seq<char>, p: int)
    requires
        0 <= p <= cs.len(),
    ensures
        is_expression(cs, expr(cs, p), p, 2),
    decreases cs.len() - p, 8int,
{
    lemma_infix(cs, p, Tier::Sum);
}

/// A word before a word is an expression of one node.
#[verifier::rlimit(40)]
proof fn lemma_word_before_word(cs: Seq<char>, p: int, q: int)
    requires
        0 <= p <= cs.len(),
        name(cs, p).value matches Some((_, e)) && e == q,
        q < cs.len(),
        skip(cs, q) == q,
        is_word_start(cs[q]),
    ensures
        expr(cs, p).nodes <= 1,
        expr(cs, p).value matches Some((_, e)) && e == q,
{
    lemma_name(cs, p);
    lemma_skip(cs, p);
    let s = skip(cs, p);
    let n = cs.len() as int;
    assert(is_word_start(cs[s]));
    assert(number(cs, p).value is None && number(cs, p).nodes == 0);
    assert(group(cs, p).value is None && group(cs, p).nodes == 0);
    assert(token(cs, q, '(').value is None);
    assert(call(cs, p).value is None && call(cs, p).nodes == 0);
    let a = atom(cs, p);
    assert(a.nodes == 1 && (a.value matches Some((_, e)) && e == q));
    let u = unary(cs, p);
    assert(token(cs, p, '-').value is None);
    assert(u.nodes == 1 && (u.value matches Some((_, e)) && e == q));
    assert(operand(cs, p, Tier::Product) == u);
    assert(token(cs, q, '*').value is None && token(cs, q, '/').value is None);
    let (tree, _) = u.value->Some_0;
    let c = chain(cs, q, Tier::Product, tree);
    assert(c.nodes == 0 && (c.value matches Some((_, e)) && e == q));
    let x = infix(cs, p, Tier::Product);
    assert(x.nodes == 1 && (x.value matches Some((_, e)) && e == q));
    assert(operand(cs, p, Tier::Sum) == x);
    assert(token(cs, q, '+').value is None && token(cs, q, '-').value is None);
    let d = chain(cs, q, Tier::Sum, x.value->Some_0.0);
    assert(d.nodes == 0 && (d.value matches Some((_, e)) && e == q));
    let y = infix(cs, p, Tier::Sum);
    assert(y.nodes <= 1 && (y.value matches Some((_, e)) && e == q));
}

/// What begins with definitions takes up characters and the spaces behind them, and makes no more
/// nodes than there are characters left; those of its trees, whose number is `own`, and no others,
/// if it goes up to the end of the text.
pub open spec fn is_program<T>(cs: Seq<char>, o: Outcome<T>, p: int, own: nat) -> bool {
    &&& o.nodes <= cs.len() - p
    &&& match o.value {
        Some((_, q)) => {
            &&& p < q <= cs.len()
            &&& skip(cs, q) == q
            &&& o.nodes == own || q < cs.len()
        },
        None => has_reason(o.misses),
    }
}

/// How many nodes the tree of an outcome has.
pub open spec fn own_size(o: Outcome<Syntax>) -> nat {
    match o.value {
        Some((tree, _)) => size(tree),
        None => 0,
    }
}

/// How many nodes the two trees of an outcome have.
pub open spec fn own_sizes(o: Outcome<(Syntax, Syntax)>) -> nat {
    match o.value {
        Some(((rhs, then), _)) => size(rhs) + size(then),
        None => 0,
    }
}

#[verifier::rlimit(40)]
pub proof fn lemma_rest(cs: Seq<char>, p: int)
    requires
        0 <= p <= cs.len(),
    ensures
        is_program(cs, rest(cs, p), p, own_sizes(rest(cs, p))),
    decreases cs.len() - p, 8int,
{
    let n = cs.len() as int;
    lemma_token(cs, p, '=');
    match token(cs, p, '=').moved(p, n) {
        None => {},
        Some((_, q)) => {
            lemma_expr(cs, q);
            match expr(cs, q).moved(q, n) {
                None => {},
                Some((_, r)) => {
                    lemma_token(cs, r, ';');
                    match token(cs, r, ';').moved(r, n) {
                        None => {},
                        Some((_, t)) => {
                            lemma_decl(cs, t);
                        },
                    }
                },
            }
        },
    }
}

/// A definition that is given up after nodes were made begins with two words, of which the first
/// is its keyword.
pub open spec fn is_definition(cs: Seq<char>, o: Outcome<Syntax>, p: int, word: Keyword) -> bool {
    &&& is_program(cs, o, p, own_size(o))
    &&& o.value is None && o.nodes > 0 ==> {
        &&& o.nodes <= cs.len() - p - 2
        &&& keyword(cs, p, word).value matches Some((_, q)) && q < cs.len() && is_word_start(cs[q])
    }
}

#[verifier::rlimit(40)]
pub proof fn lemma_let_decl(cs: Seq<char>, p: int)
    requires
        0 <= p <= cs.len(),
    ensures
        is_definition(cs, let_decl(cs, p), p, Keyword::Let),
    decreases cs.len() - p, 8int,
{
    let n = cs.len() as int;
    lemma_keyword(cs, p, Keyword::Let);
    match keyword(cs, p, Keyword::Let).moved(p, n) {
        None => {},
        Some((_, q)) => {
            lemma_name(cs, q);
            match name(cs, q).moved(q, n) {
                None => {},
                Some((_, r)) => {
                    lemma_rest(cs, r);
                },
            }
        },
    }
}

#[verifier::rlimit(40)]
pub proof fn lemma_fn_decl(cs: Seq<char>, p: int)
    requires
        0 <= p <= cs.len(),
    ensures
        is_definition(cs, fn_decl(cs, p), p, Keyword::Fn),
    decreases cs.len() - p, 8int,
{
    let n = cs.len() as int;
    lemma_keyword(cs, p, Keyword::Fn);
    match keyword(cs, p, Keyword::Fn).moved(p, n) {
        None => {},
        Some((_, q)) => {
            lemma_name(cs, q);
            match name(cs, q).moved(q, n) {
                None => {},
                Some((_, r)) => {
                    lemma_names(cs, r, Seq::empty());
                    match names(cs, r, Seq::empty()).moved(q, n) {
                        None => {},
                        Some((_, t)) => {
                            lemma_rest(cs, t);
                        },
                    }
                },
            }
        },
    }
}

/// A keyword is a word, and no other keyword.
proof fn lemma_keyword_is_word(cs: Seq<char>, p: int, word: Keyword)
    requires
        0 <= p <= cs.len(),
        keyword(cs, p, word).value is Some,
    ensures
        name(cs, p).value is Some,
        name(cs, p).value->Some_0.1 == keyword(cs, p, word).value->Some_0.1,
        word == Keyword::Let ==> keyword(cs, p, Keyword::Fn).value is None,
{
    let s = skip(cs, p);
    let e = word_end(cs, s + 1);
    if word == Keyword::Let {
        assert(cs.subrange(s, e)[0] == 'l');
    }
}

/// Where definitions are given up, what is left to be tried makes few nodes.
proof fn lemma_given_up(cs: Seq<char>, p: int)
    requires
        0 <= p <= cs.len(),
        is_definition(cs, let_decl(cs, p), p, Keyword::Let),
        is_definition(cs, fn_decl(cs, p), p, Keyword::Fn),
        let_decl(cs, p).value is None,
    ensures
        let_decl(cs, p).nodes > 0 ==> fn_decl(cs, p).nodes == 0 && fn_decl(cs, p).value is None
            && expr(cs, p).nodes <= 1 && (expr(cs, p).value matches Some((_, q)) && q < cs.len()),
        fn_decl(cs, p).nodes > 0 && fn_decl(cs, p).value is None ==> expr(cs, p).nodes <= 1 && (
        expr(cs, p).value matches Some((_, q)) && q < cs.len()),
{
    if let_decl(cs, p).nodes > 0 {
        lemma_keyword(cs, p, Keyword::Let);
        lemma_keyword_is_word(cs, p, Keyword::Let);
        lemma_word_before_word(cs, p, keyword(cs, p, Keyword::Let).value->Some_0.1);
    } else if fn_decl(cs, p).value is None && fn_decl(cs, p).nodes > 0 {
        lemma_keyword(cs, p, Keyword::Fn);
        lemma_keyword_is_word(cs, p, Keyword::Fn);
        lemma_word_before_word(cs, p, keyword(cs, p, Keyword::Fn).value->Some_0.1);
    }
}

#[verifier::rlimit(40)]
pub proof fn lemma_decl(cs: Seq<char>, p: int)
    requires
        0 <= p <= cs.len(),
    ensures
        is_program(cs, decl(cs, p), p, own_size(decl(cs, p))),
    decreases cs.len() - p, 9int,
{
    lemma_let_decl(cs, p);
    lemma_fn_decl(cs, p);
    lemma_expr(cs, p);
    if let_decl(cs, p).value is None {
        lemma_given_up(cs, p);
    }
}

/// Reading a text makes no more nodes than it has characters.
pub proof fn law_a_node_for_a_character(cs: Seq<char>)
    ensures
        program(cs).nodes <= cs.len(),
{
    lemma_decl(cs, 0);
}

/// What was looked for somewhere in vain is among what was looked for there.
proof fn lemma_sought(misses: Seq<Miss>, i: int)
    requires
        0 <= i < misses.len(),
    ensures
        sought_at(misses, misses[i].at).len() > 0,
        misses[i].at <= furthest(misses),
    decreases misses.len(),
{
    let rest = misses.drop_last();
    if i < rest.len() {
        lemma_sought(rest, i);
    } else {
        let before = sought_at(rest, misses[i].at);
        if before.contains(misses[i].sought) {
            let j = choose|j: int| 0 <= j < before.len() && before[j] == misses[i].sought;
            assert(before.len() > 0);
        }
    }
}

/// Something was looked for in vain at the last place, if it is not the first of the text.
proof fn lemma_furthest(misses: Seq<Miss>)
    ensures
        furthest(misses) >= 0,
        furthest(misses) > 0 ==> sought_at(misses, furthest(misses)).len() > 0,
    decreases misses.len(),
{
    if misses.len() > 0 {
        lemma_furthest(misses.drop_last());
        if misses.last().at == furthest(misses) {
            lemma_sought(misses, misses.len() - 1);
        }
    }
}

/// Reading a program makes the nodes of its tree and no others.
pub proof fn law_no_node_is_left_over(cs: Seq<char>)
    ensures
        program(cs).value matches Some((tree, _)) ==> program(cs).nodes == size(tree),
{
    lemma_decl(cs, 0);
}

/// A text that is not a program is refused for something that it lacks: at the last place where
/// something was looked for in vain, there is something that was.
pub proof fn law_refusals_have_a_reason(cs: Seq<char>)
    ensures
        program(cs).value is None ==> sought_at(
            program(cs).misses,
            furthest(program(cs).misses),
        ).len() > 0,
{
    lemma_decl(cs, 0);
    let misses = program(cs).misses;
    if program(cs).value is None {
        lemma_furthest(misses);
        lemma_sought(misses, misses.len() - 1);
    }
}

/// A program is the whole of its text.
pub proof fn law_programs_are_whole(cs: Seq<char>)
    ensures
        program(cs).value matches Some((_, q)) ==> q == cs.len(),
{
}

} // verus!

//! White space only sets words, numbers and signs apart.

use crate::ast::{Op, Tree};
use crate::error::Keyword;
use crate::extent::{
    lemma_decl, lemma_digits_end, lemma_expr, lemma_keyword, lemma_name, lemma_names, lemma_number,
    lemma_operand, lemma_skip, lemma_token, lemma_word_end,
};
use crate::grammar::{
    atom, call, chain, decl, digits_end, expr, fn_decl, group, infix, is_digit, is_space,
    is_word_part, is_word_start, items, keyword, let_decl, link, more_items, name, names, number,
    operand, operators, program, rest, skip, token, unary, word_end, Outcome, Syntax, Tier,
};
use vstd::prelude::*;

verus! {

/// The place behind the word, the number or the sign at `s`.
pub open spec fn lexeme_end(cs: Seq<char>, s: int) -> int {
    if is_word_start(cs[s]) {
        word_end(cs, s + 1)
    } else if is_digit(cs[s]) && cs[s] != '0' {
        digits_end(cs, s + 1)
    } else {
        s + 1
    }
}

/// The words, numbers and signs of a text from the place `p` on.
pub open spec fn lexemes(cs: Seq<char>, p: int) -> Seq<Seq<char>>
    decreases cs.len() - p,
{
    let s = skip(cs, p);
    let e = lexeme_end(cs, s);
    if p <= s < e <= cs.len() {
        seq![cs.subrange(s, e)] + lexemes(cs, e)
    } else {
        Seq::empty()
    }
}

/// Two texts go on alike.
pub open spec fn alike(cs: Seq<char>, p: int, ds: Seq<char>, q: int) -> bool {
    &&& 0 <= p <= cs.len()
    &&& 0 <= q <= ds.len()
    &&& lexemes(cs, p) == lexemes(ds, q)
}

/// The same is found in two texts, which go on alike behind it.
pub open spec fn same<T>(cs: Seq<char>, o: Outcome<T>, ds: Seq<char>, u: Outcome<T>) -> bool {
    match (o.value, u.value) {
        (Some((a, p)), Some((b, q))) => a == b && alike(cs, p, ds, q),
        (None, None) => true,
        _ => false,
    }
}

/// The first of the words, numbers and signs, and what comes behind it.
pub proof fn lemma_first(cs: Seq<char>, p: int)
    requires
        0 <= p <= cs.len(),
    ensures
        ({
            let s = skip(cs, p);
            let e = lexeme_end(cs, s);
            if s < cs.len() {
                &&& s < e <= cs.len()
                &&& lexemes(cs, p).len() > 0
                &&& lexemes(cs, p)[0] == cs.subrange(s, e)
                &&& lexemes(cs, p)[0][0] == cs[s]
                &&& lexemes(cs, skip(cs, e)) == lexemes(cs, p).drop_first()
            } else {
                lexemes(cs, p).len() == 0
            }
        }),
{
    lemma_skip(cs, p);
    let s = skip(cs, p);
    if s < cs.len() {
        lemma_word_end(cs, s + 1);
        lemma_digits_end(cs, s + 1);
        let e = lexeme_end(cs, s);
        lemma_skip(cs, e);
        assert(lexemes(cs, skip(cs, e)) == lexemes(cs, e));
        assert(lexemes(cs, p).drop_first() =~= lexemes(cs, e));
    }
}

/// The character is a sign: it belongs to no word and no number.
pub open spec fn is_sign(c: char) -> bool {
    !is_word_start(c) && !is_digit(c)
}

proof fn lemma_same_token(cs: Seq<char>, p: int, ds: Seq<char>, q: int, c: char)
    requires
        alike(cs, p, ds, q),
        is_sign(c),
    ensures
        same(cs, token(cs, p, c), ds, token(ds, q, c)),
{
    lemma_first(cs, p);
    lemma_first(ds, q);
    lemma_token(cs, p, c);
    lemma_token(ds, q, c);
}

proof fn lemma_same_name(cs: Seq<char>, p: int, ds: Seq<char>, q: int)
    requires
        alike(cs, p, ds, q),
    ensures
        same(cs, name(cs, p), ds, name(ds, q)),
{
    lemma_first(cs, p);
    lemma_first(ds, q);
    lemma_name(cs, p);
    lemma_name(ds, q);
}

proof fn lemma_same_keyword(cs: Seq<char>, p: int, ds: Seq<char>, q: int, word: Keyword)
    requires
        alike(cs, p, ds, q),
    ensures
        same(cs, keyword(cs, p, word), ds, keyword(ds, q, word)),
{
    lemma_first(cs, p);
    lemma_first(ds, q);
    lemma_keyword(cs, p, word);
    lemma_keyword(ds, q, word);
}

proof fn lemma_same_number(cs: Seq<char>, p: int, ds: Seq<char>, q: int)
    requires
        alike(cs, p, ds, q),
    ensures
        same(cs, number(cs, p), ds, number(ds, q)),
{
    lemma_first(cs, p);
    lemma_first(ds, q);
    lemma_number(cs, p);
    lemma_number(ds, q);
}

#[verifier::rlimit(40)]
proof fn lemma_same_atom(cs: Seq<char>, p: int, ds: Seq<char>, q: int)
    requires
        alike(cs, p, ds, q),
    ensures
        same(cs, atom(cs, p), ds, atom(ds, q)),
    decreases cs.len() - p, 2int,
{
    lemma_same_number(cs, p, ds, q);
    lemma_same_group(cs, p, ds, q);
    lemma_same_call(cs, p, ds, q);
    lemma_same_name(cs, p, ds, q);
}

proof fn lemma_same_group(cs: Seq<char>, p: int, ds: Seq<char>, q: int)
    requires
        alike(cs, p, ds, q),
    ensures
        same(cs, group(cs, p), ds, group(ds, q)),
    decreases cs.len() - p, 1int,
{
    lemma_same_token(cs, p, ds, q, '(');
    lemma_token(cs, p, '(');
    lemma_token(ds, q, '(');
    if token(cs, p, '(').value is Some {
        let p2 = token(cs, p, '(').value->Some_0.1;
        let q2 = token(ds, q, '(').value->Some_0.1;
        lemma_same_expr(cs, p2, ds, q2);
        if expr(cs, p2).value is Some {
            lemma_same_token(cs, expr(cs, p2).value->Some_0.1, ds, expr(ds, q2).value->Some_0.1, ')');
        }
    }
}

#[verifier::rlimit(40)]
proof fn lemma_same_call(cs: Seq<char>, p: int, ds: Seq<char>, q: int)
    requires
        alike(cs, p, ds, q),
    ensures
        same(cs, call(cs, p), ds, call(ds, q)),
    decreases cs.len() - p, 1int,
{
    lemma_same_name(cs, p, ds, q);
    lemma_name(cs, p);
    lemma_name(ds, q);
    if name(cs, p).value is Some {
        let p2 = name(cs, p).value->Some_0.1;
        let q2 = name(ds, q).value->Some_0.1;
        lemma_same_token(cs, p2, ds, q2, '(');
        lemma_token(cs, p2, '(');
        lemma_token(ds, q2, '(');
        if token(cs, p2, '(').value is Some {
            let p3 = token(cs, p2, '(').value->Some_0.1;
            let q3 = token(ds, q2, '(').value->Some_0.1;
            lemma_same_items(cs, p3, ds, q3);
            if items(cs, p3).value is Some {
                lemma_same_token(
                    cs,
                    items(cs, p3).value->Some_0.1,
                    ds,
                    items(ds, q3).value->Some_0.1,
                    ')',
                );
            }
        }
    }
}

proof fn lemma_same_items(cs: Seq<char>, p: int, ds: Seq<char>, q: int)
    requires
        alike(cs, p, ds, q),
    ensures
        same(cs, items(cs, p), ds, items(ds, q)),
    decreases cs.len() - p, 9int,
{
    lemma_same_expr(cs, p, ds, q);
    lemma_expr(cs, p);
    lemma_expr(ds, q);
    if expr(cs, p).value is Some {
        let (tree, p2) = expr(cs, p).value->Some_0;
        let (_, q2) = expr(ds, q).value->Some_0;
        lemma_same_more_items(cs, p2, ds, q2, seq![tree]);
    }
}

proof fn lemma_same_more_items(cs: Seq<char>, p: int, ds: Seq<char>, q: int, found: Seq<Syntax>)
    requires
        alike(cs, p, ds, q),
    ensures
        same(cs, more_items(cs, p, found), ds, more_items(ds, q, found)),
    decreases cs.len() - p, 8int,
{
    lemma_same_token(cs, p, ds, q, ',');
    lemma_token(cs, p, ',');
    lemma_token(ds, q, ',');
    if token(cs, p, ',').value is Some {
        let p2 = token(cs, p, ',').value->Some_0.1;
        let q2 = token(ds, q, ',').value->Some_0.1;
        lemma_same_expr(cs, p2, ds, q2);
        lemma_expr(cs, p2);
        lemma_expr(ds, q2);
        if expr(cs, p2).value is Some {
            let (tree, p3) = expr(cs, p2).value->Some_0;
            let (_, q3) = expr(ds, q2).value->Some_0;
            lemma_same_more_items(cs, p3, ds, q3, found.push(tree));
        }
    }
}

proof fn lemma_same_unary(cs: Seq<char>, p: int, ds: Seq<char>, q: int)
    requires
        alike(cs, p, ds, q),
    ensures
        same(cs, unary(cs, p), ds, unary(ds, q)),
    decreases cs.len() - p, 3int,
{
    lemma_same_token(cs, p, ds, q, '-');
    lemma_token(cs, p, '-');
    lemma_token(ds, q, '-');
    if token(cs, p, '-').value is Some {
        let p2 = token(cs, p, '-').value->Some_0.1;
        let q2 = token(ds, q, '-').value->Some_0.1;
        lemma_same_unary(cs, p2, ds, q2);
    } else {
        lemma_same_atom(cs, p, ds, q);
    }
}

proof fn lemma_same_operand(cs: Seq<char>, p: int, ds: Seq<char>, q: int, tier: Tier)
    requires
        alike(cs, p, ds, q),
    ensures
        same(cs, operand(cs, p, tier), ds, operand(ds, q, tier)),
    decreases
            cs.len() - p,
            (match tier {
                Tier::Sum => 6int,
                Tier::Product => 4int,
            }),
{
    match tier {
        Tier::Sum => {
            lemma_same_infix(cs, p, ds, q, Tier::Product);
        },
        Tier::Product => {
            lemma_same_unary(cs, p, ds, q);
        },
    }
}

proof fn lemma_same_infix(cs: Seq<char>, p: int, ds: Seq<char>, q: int, tier: Tier)
    requires
        alike(cs, p, ds, q),
    ensures
        same(cs, infix(cs, p, tier), ds, infix(ds, q, tier)),
    decreases
            cs.len() - p,
            (match tier {
                Tier::Sum => 7int,
                Tier::Product => 5int,
            }),
{
    lemma_same_operand(cs, p, ds, q, tier);
    lemma_operand(cs, p, tier);
    lemma_operand(ds, q, tier);
    if operand(cs, p, tier).value is Some {
        let (lhs, p2) = operand(cs, p, tier).value->Some_0;
        let (_, q2) = operand(ds, q, tier).value->Some_0;
        lemma_same_chain(cs, p2, ds, q2, tier, lhs);
    }
}

#[verifier::rlimit(40)]
proof fn lemma_same_chain(
    cs: Seq<char>,
    p: int,
    ds: Seq<char>,
    q: int,
    tier: Tier,
    lhs: Syntax,
)
    requires
        alike(cs, p, ds, q),
    ensures
        same(cs, chain(cs, p, tier, lhs), ds, chain(ds, q, tier, lhs)),
    decreases cs.len() - p, 8int,
{
    let ((c, op), (d, other)) = operators(tier);
    lemma_same_token(cs, p, ds, q, c);
    lemma_token(cs, p, c);
    lemma_token(ds, q, c);
    lemma_same_token(cs, p, ds, q, d);
    lemma_token(cs, p, d);
    lemma_token(ds, q, d);
    if token(cs, p, c).value is Some {
        let p2 = token(cs, p, c).value->Some_0.1;
        let q2 = token(ds, q, c).value->Some_0.1;
        lemma_same_link(cs, p, p2, ds, q, q2, tier, op, lhs);
    } else if token(cs, p, d).value is Some {
        let p2 = token(cs, p, d).value->Some_0.1;
        let q2 = token(ds, q, d).value->Some_0.1;
        lemma_same_link(cs, p, p2, ds, q, q2, tier, other, lhs);
    }
}

proof fn lemma_same_link(
    cs: Seq<char>,
    p: int,
    p2: int,
    ds: Seq<char>,
    q: int,
    q2: int,
    tier: Tier,
    op: Op,
    lhs: Syntax,
)
    requires
        alike(cs, p, ds, q),
        alike(cs, p2, ds, q2),
    ensures
        same(cs, link(cs, p, p2, tier, op, lhs), ds, link(ds, q, q2, tier, op, lhs)),
    decreases cs.len() - p2, 9int,
{
    lemma_same_operand(cs, p2, ds, q2, tier);
    lemma_operand(cs, p2, tier);
    lemma_operand(ds, q2, tier);
    if operand(cs, p2, tier).value is Some {
        let (rhs, p3) = operand(cs, p2, tier).value->Some_0;
        let (_, q3) = operand(ds, q2, tier).value->Some_0;
        lemma_same_chain(cs, p3, ds, q3, tier, Tree::Bin(op, Box::new(lhs), Box::new(rhs)));
    }
}

proof fn lemma_same_expr(cs: Seq<char>, p: int, ds: Seq<char>, q: int)
    requires
        alike(cs, p, ds, q),
    ensures
        same(cs, expr(cs, p), ds, expr(ds, q)),
    decreases cs.len() - p, 8int,
{
    lemma_same_infix(cs, p, ds, q, Tier::Sum);
}

proof fn lemma_same_names(cs: Seq<char>, p: int, ds: Seq<char>, q: int, found: Seq<Seq<char>>)
    requires
        alike(cs, p, ds, q),
    ensures
        same(cs, names(cs, p, found), ds, names(ds, q, found)),
    decreases cs.len() - p,
{
    lemma_same_name(cs, p, ds, q);
    lemma_name(cs, p);
    lemma_name(ds, q);
    if name(cs, p).value is Some {
        let (word, p2) = name(cs, p).value->Some_0;
        let (_, q2) = name(ds, q).value->Some_0;
        lemma_same_names(cs, p2, ds, q2, found.push(word));
    }
}

#[verifier::rlimit(40)]
proof fn lemma_same_rest(cs: Seq<char>, p: int, ds: Seq<char>, q: int)
    requires
        alike(cs, p, ds, q),
    ensures
        same(cs, rest(cs, p), ds, rest(ds, q)),
    decreases cs.len() - p, 8int,
{
    lemma_same_token(cs, p, ds, q, '=');
    lemma_token(cs, p, '=');
    lemma_token(ds, q, '=');
    if token(cs, p, '=').value is Some {
        let p2 = token(cs, p, '=').value->Some_0.1;
        let q2 = token(ds, q, '=').value->Some_0.1;
        lemma_same_expr(cs, p2, ds, q2);
        lemma_expr(cs, p2);
        lemma_expr(ds, q2);
        if expr(cs, p2).value is Some {
            let p3 = expr(cs, p2).value->Some_0.1;
            let q3 = expr(ds, q2).value->Some_0.1;
            lemma_same_token(cs, p3, ds, q3, ';');
            lemma_token(cs, p3, ';');
            lemma_token(ds, q3, ';');
            if token(cs, p3, ';').value is Some {
                let p4 = token(cs, p3, ';').value->Some_0.1;
                let q4 = token(ds, q3, ';').value->Some_0.1;
                lemma_same_decl(cs, p4, ds, q4);
            }
        }
    }
}

#[verifier::rlimit(40)]
proof fn lemma_same_let_decl(cs: Seq<char>, p: int, ds: Seq<char>, q: int)
    requires
        alike(cs, p, ds, q),
    ensures
        same(cs, let_decl(cs, p), ds, let_decl(ds, q)),
    decreases cs.len() - p, 8int,
{
    lemma_same_keyword(cs, p, ds, q, Keyword::Let);
    lemma_keyword(cs, p, Keyword::Let);
    lemma_keyword(ds, q, Keyword::Let);
    if keyword(cs, p, Keyword::Let).value is Some {
        let p2 = keyword(cs, p, Keyword::Let).value->Some_0.1;
        let q2 = keyword(ds, q, Keyword::Let).value->Some_0.1;
        lemma_same_name(cs, p2, ds, q2);
        lemma_name(cs, p2);
        lemma_name(ds, q2);
        if name(cs, p2).value is Some {
            let p3 = name(cs, p2).value->Some_0.1;
            let q3 = name(ds, q2).value->Some_0.1;
            lemma_same_rest(cs, p3, ds, q3);
        }
    }
}

#[verifier::rlimit(40)]
proof fn lemma_same_fn_decl(cs: Seq<char>, p: int, ds: Seq<char>, q: int)
    requires
        alike(cs, p, ds, q),
    ensures
        same(cs, fn_decl(cs, p), ds, fn_decl(ds, q)),
    decreases cs.len() - p, 8int,
{
    lemma_same_keyword(cs, p, ds, q, Keyword::Fn);
    lemma_keyword(cs, p, Keyword::Fn);
    lemma_keyword(ds, q, Keyword::Fn);
    if keyword(cs, p, Keyword::Fn).value is Some {
        let p2 = keyword(cs, p, Keyword::Fn).value->Some_0.1;
        let q2 = keyword(ds, q, Keyword::Fn).value->Some_0.1;
        lemma_same_name(cs, p2, ds, q2);
        lemma_name(cs, p2);
        lemma_name(ds, q2);
        if name(cs, p2).value is Some {
            let p3 = name(cs, p2).value->Some_0.1;
            let q3 = name(ds, q2).value->Some_0.1;
            lemma_same_names(cs, p3, ds, q3, Seq::empty());
            lemma_names(cs, p3, Seq::empty());
            lemma_names(ds, q3, Seq::empty());
            let p4 = names(cs, p3, Seq::empty()).value->Some_0.1;
            let q4 = names(ds, q3, Seq::empty()).value->Some_0.1;
            lemma_same_rest(cs, p4, ds, q4);
        }
    }
}

#[verifier::rlimit(40)]
proof fn lemma_same_decl(cs: Seq<char>, p: int, ds: Seq<char>, q: int)
    requires
        alike(cs, p, ds, q),
    ensures
        same(cs, decl(cs, p), ds, decl(ds, q)),
    decreases cs.len() - p, 9int,
{
    lemma_same_let_decl(cs, p, ds, q);
    lemma_same_fn_decl(cs, p, ds, q);
    lemma_same_expr(cs, p, ds, q);
}

/// White space only sets words, numbers and signs apart: of two texts with the same words, numbers
/// and signs either both are programs, and the same, or neither is one.
pub proof fn law_white_space_only_separates(cs: Seq<char>, ds: Seq<char>)
    requires
        lexemes(cs, 0) == lexemes(ds, 0),
    ensures
        match (program(cs).value, program(ds).value) {
            (Some((a, _)), Some((b, _))) => a == b,
            (None, None) => true,
            _ => false,
        },
{
    lemma_same_decl(cs, 0, ds, 0);
    lemma_decl(cs, 0);
    lemma_decl(ds, 0);
    if decl(cs, 0).value is Some {
        let p = decl(cs, 0).value->Some_0.1;
        let q = decl(ds, 0).value->Some_0.1;
        lemma_first(cs, p);
        lemma_first(ds, q);
    }
}

/// White space around a text does not change its words, numbers and signs.
pub proof fn law_white_space_around_is_nothing(cs: Seq<char>, before: Seq<char>, behind: Seq<char>)
    requires
        forall|i: int| 0 <= i < before.len() ==> is_space(#[trigger] before[i]),
        forall|i: int| 0 <= i < behind.len() ==> is_space(#[trigger] behind[i]),
    ensures
        lexemes(before + cs + behind, 0) == lexemes(cs, 0),
{
    let ds = before + cs + behind;
    lemma_skip_all(ds, 0, before.len() as int);
    lemma_lexemes_around(cs, ds, before.len() as int, 0);
    assert(lexemes(ds, 0) == lexemes(ds, before.len() as int)) by {
        lemma_skip(ds, before.len() as int);
    }
}

/// What begins with spaces goes on behind them.
proof fn lemma_skip_all(ds: Seq<char>, p: int, q: int)
    requires
        0 <= p <= q <= ds.len(),
        forall|i: int| p <= i < q ==> is_space(#[trigger] ds[i]),
    ensures
        skip(ds, p) == skip(ds, q),
    decreases q - p,
{
    if p < q {
        lemma_skip_all(ds, p + 1, q);
    }
}

/// The text `ds` holds the text `cs` from the place `k` on, and nothing but spaces behind it.
pub open spec fn is_inside(cs: Seq<char>, ds: Seq<char>, k: int) -> bool {
    &&& 0 <= k
    &&& k + cs.len() <= ds.len()
    &&& forall|i: int| 0 <= i < cs.len() ==> #[trigger] ds[k + i] == cs[i]
    &&& forall|i: int| k + cs.len() <= i < ds.len() ==> is_space(#[trigger] ds[i])
}

pub proof fn lemma_lexemes_around(cs: Seq<char>, ds: Seq<char>, k: int, p: int)
    requires
        is_inside(cs, ds, k),
        0 <= p <= cs.len(),
    ensures
        lexemes(ds, k + p) == lexemes(cs, p),
    decreases cs.len() - p,
{
    lemma_skip(cs, p);
    lemma_skip_around(cs, ds, k, p);
    let s = skip(cs, p);
    if s < cs.len() {
        assert(ds[k + s] == cs[s]);
        lemma_word_end(cs, s + 1);
        lemma_digits_end(cs, s + 1);
        lemma_word_end_around(cs, ds, k, s + 1);
        lemma_digits_end_around(cs, ds, k, s + 1);
        let e = lexeme_end(cs, s);
        lemma_lexemes_around(cs, ds, k, e);
        assert(ds.subrange(k + s, k + e) =~= cs.subrange(s, e)) by {
            assert forall|i: int| 0 <= i < e - s implies ds.subrange(k + s, k + e)[i]
                == cs.subrange(s, e)[i] by {
                assert(ds[k + (s + i)] == cs[s + i]);
            }
        }
    }
}

proof fn lemma_skip_around(cs: Seq<char>, ds: Seq<char>, k: int, p: int)
    requires
        is_inside(cs, ds, k),
        0 <= p <= cs.len(),
    ensures
        skip(ds, k + p) == if skip(cs, p) < cs.len() {
            k + skip(cs, p)
        } else {
            ds.len() as int
        },
    decreases cs.len() - p,
{
    if p < cs.len() {
        assert(ds[k + p] == cs[p]);
        if is_space(cs[p]) {
            lemma_skip_around(cs, ds, k, p + 1);
        }
    } else {
        lemma_skip_all(ds, k + p, ds.len() as int);
    }
}

proof fn lemma_word_end_around(cs: Seq<char>, ds: Seq<char>, k: int, p: int)
    requires
        is_inside(cs, ds, k),
        0 <= p <= cs.len(),
    ensures
        word_end(ds, k + p) == k + word_end(cs, p),
    decreases cs.len() - p,
{
    if p < cs.len() {
        assert(ds[k + p] == cs[p]);
        if is_word_part(cs[p]) {
            lemma_word_end_around(cs, ds, k, p + 1);
        }
    }
}

proof fn lemma_digits_end_around(cs: Seq<char>, ds: Seq<char>, k: int, p: int)
    requires
        is_inside(cs, ds, k),
        0 <= p <= cs.len(),
    ensures
        digits_end(ds, k + p) == k + digits_end(cs, p),
    decreases cs.len() - p,
{
    if p < cs.len() {
        assert(ds[k + p] == cs[p]);
        if is_digit(cs[p]) {
            lemma_digits_end_around(cs, ds, k, p + 1);
        }
    }
}

/// The place `k` of a text is not inside a word or a number, as far as the place `p` is not.
pub open spec fn is_between(cs: Seq<char>, p: int, k: int) -> bool
    decreases cs.len() - p,
{
    let s = skip(cs, p);
    let e = lexeme_end(cs, s);
    if p <= s < e <= cs.len() && s < k {
        e <= k && is_between(cs, e, k)
    } else {
        true
    }
}

/// White space put into a text before, behind or between its words, numbers and signs changes none
/// of them, nor the program.
pub proof fn law_white_space_between_is_nothing(cs: Seq<char>, k: int, spaces: Seq<char>)
    requires
        0 <= k <= cs.len(),
        is_between(cs, 0, k),
        forall|i: int| 0 <= i < spaces.len() ==> is_space(#[trigger] spaces[i]),
    ensures
        lexemes(cs.take(k) + spaces + cs.skip(k), 0) == lexemes(cs, 0),
        match (program(cs).value, program(cs.take(k) + spaces + cs.skip(k)).value) {
            (Some((a, _)), Some((b, _))) => a == b,
            (None, None) => true,
            _ => false,
        },
{
    let ds = cs.take(k) + spaces + cs.skip(k);
    if spaces.len() == 0 {
        assert(ds =~= cs);
    } else {
        assert(is_spread(cs, ds, k, spaces.len() as int));
        lemma_lexemes_spread(cs, ds, k, spaces.len() as int, 0);
    }
    law_white_space_only_separates(cs, ds);
}

/// The text `ds` is the text `cs` with `m` spaces put in at the place `k`.
spec fn is_spread(cs: Seq<char>, ds: Seq<char>, k: int, m: int) -> bool {
    &&& 0 <= k <= cs.len()
    &&& m > 0
    &&& ds.len() == cs.len() + m
    &&& forall|i: int| 0 <= i < k ==> #[trigger] ds[i] == cs[i]
    &&& forall|i: int| k <= i < k + m ==> is_space(#[trigger] ds[i])
    &&& forall|i: int| k + m <= i < ds.len() ==> #[trigger] ds[i] == cs[i - m]
}

proof fn lemma_lexemes_spread(cs: Seq<char>, ds: Seq<char>, k: int, m: int, p: int)
    requires
        is_spread(cs, ds, k, m),
        0 <= p <= k,
        is_between(cs, p, k),
    ensures
        lexemes(ds, p) == lexemes(cs, p),
    decreases cs.len() - p,
{
    lemma_skip(cs, p);
    lemma_skip_spread(cs, ds, k, m, p);
    let s = skip(cs, p);
    if s < k {
        lemma_word_end(cs, s + 1);
        lemma_digits_end(cs, s + 1);
        let e = lexeme_end(cs, s);
        assert(e <= k);
        assert(ds[s] == cs[s]);
        if is_word_start(cs[s]) {
            lemma_word_end_spread(cs, ds, k, m, s + 1);
        } else if is_digit(cs[s]) && cs[s] != '0' {
            lemma_digits_end_spread(cs, ds, k, m, s + 1);
        }
        assert(lexeme_end(ds, s) == e);
        assert(ds.subrange(s, e) =~= cs.subrange(s, e));
        lemma_lexemes_spread(cs, ds, k, m, e);
    } else {
        let behind = cs.skip(k);
        assert(is_inside(behind, ds, k + m)) by {
            assert forall|i: int| 0 <= i < behind.len() implies #[trigger] ds[k + m + i]
                == behind[i] by {
                assert(ds[k + m + i] == cs[k + i]);
            }
        }
        assert(is_inside(behind, cs, k));
        lemma_lexemes_around(behind, ds, k + m, 0);
        lemma_lexemes_around(behind, cs, k, 0);
        lemma_skip(ds, k + m);
        lemma_skip(cs, k);
        assert(lexemes(ds, p) == lexemes(ds, k + m));
        assert(lexemes(cs, p) == lexemes(cs, k));
    }
}

proof fn lemma_skip_spread(cs: Seq<char>, ds: Seq<char>, k: int, m: int, p: int)
    requires
        is_spread(cs, ds, k, m),
        0 <= p <= k,
    ensures
        skip(cs, p) < k ==> skip(ds, p) == skip(cs, p),
        skip(cs, p) >= k ==> skip(ds, p) == skip(ds, k + m) && skip(cs, p) == skip(cs, k),
    decreases k - p,
{
    if p < k {
        assert(ds[p] == cs[p]);
        if is_space(cs[p]) {
            lemma_skip_spread(cs, ds, k, m, p + 1);
        }
    } else {
        lemma_skip(cs, p);
        lemma_skip_all(ds, k, k + m);
    }
}

proof fn lemma_word_end_spread(cs: Seq<char>, ds: Seq<char>, k: int, m: int, p: int)
    requires
        is_spread(cs, ds, k, m),
        0 <= p <= k,
        word_end(cs, p) <= k,
    ensures
        word_end(ds, p) == word_end(cs, p),
    decreases k - p,
{
    lemma_word_end(cs, p);
    if p < k {
        assert(ds[p] == cs[p]);
        if is_word_part(cs[p]) {
            lemma_word_end_spread(cs, ds, k, m, p + 1);
        }
    } else {
        assert(is_space(ds[p]));
    }
}

proof fn lemma_digits_end_spread(cs: Seq<char>, ds: Seq<char>, k: int, m: int, p: int)
    requires
        is_spread(cs, ds, k, m),
        0 <= p <= k,
        digits_end(cs, p) <= k,
    ensures
        digits_end(ds, p) == digits_end(cs, p),
    decreases k - p,
{
    lemma_digits_end(cs, p);
    if p < k {
        assert(ds[p] == cs[p]);
        if is_digit(cs[p]) {
            lemma_digits_end_spread(cs, ds, k, m, p + 1);
        }
    } else {
        assert(is_space(ds[p]));
    }
}

/// White space is what Unicode has as such: these characters and no others.
pub proof fn law_white_space(c: char)
    ensures
        is_space(c) <==> seq![
            0x9u32,
            0xa,
            0xb,
            0xc,
            0xd,
            0x20,
            0x85,
            0xa0,
            0x1680,
            0x2000,
            0x2001,
            0x2002,
            0x2003,
            0x2004,
            0x2005,
            0x2006,
            0x2007,
            0x2008,
            0x2009,
            0x200a,
            0x2028,
            0x2029,
            0x202f,
            0x205f,
            0x3000,
        ].contains(c as u32),
{
    let all = seq![
        0x9u32,
        0xa,
        0xb,
        0xc,
        0xd,
        0x20,
        0x85,
        0xa0,
        0x1680,
        0x2000,
        0x2001,
        0x2002,
        0x2003,
        0x2004,
        0x2005,
        0x2006,
        0x2007,
        0x2008,
        0x2009,
        0x200a,
        0x2028,
        0x2029,
        0x202f,
        0x205f,
        0x3000,
    ];
    let n = c as u32;
    if is_space(c) {
        let i: int = if n <= 0xd {
            n - 0x9
        } else if n == 0x20 {
            5
        } else if n == 0x85 {
            6
        } else if n == 0xa0 {
            7
        } else if n == 0x1680 {
            8
        } else if n <= 0x200a {
            n - 0x2000 + 9
        } else if n == 0x2028 {
            20
        } else if n == 0x2029 {
            21
        } else if n == 0x202f {
            22
        } else if n == 0x205f {
            23
        } else {
            24
        };
        assert(all[i] == n);
    }
}

/// Words are made of the letters of ASCII, the underscore and digits, and do not begin with a digit.
pub proof fn law_characters_of_words(c: char)
    ensures
        is_digit(c) <==> 0x30 <= c as u32 <= 0x39,
        is_word_start(c) <==> (0x41 <= c as u32 <= 0x5a || 0x61 <= c as u32 <= 0x7a || c as u32
            == 0x5f),
        is_word_part(c) <==> is_word_start(c) || is_digit(c),
{
}

/// A space before a text changes none of its words, numbers and signs.
pub proof fn law_a_space_is_skipped(c: char, text: Seq<char>)
    requires
        is_space(c),
    ensures
        lexemes(seq![c] + text, 0) == lexemes(text, 0),
        lexemes(Seq::empty(), 0) == Seq::<Seq<char>>::empty(),
{
    let ds = seq![c] + text;
    assert(ds[0] == c);
    assert(is_inside(text, ds, 1));
    lemma_lexemes_around(text, ds, 1, 0);
    assert(skip(ds, 0) == skip(ds, 1));
    lemma_skip(ds, 1);
    assert(lexemes(ds, 0) == lexemes(ds, 1));
}

} // verus!

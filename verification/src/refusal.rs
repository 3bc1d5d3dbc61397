//! Where a text that is not a program is refused: what comes behind that place has no part in it.

use crate::ast::{Op, Tree};
use crate::error::{Expected, Keyword};
use crate::extent::{
    lemma_decl, lemma_digits_end, lemma_expr, lemma_items, lemma_keyword, lemma_name, lemma_names,
    lemma_operand, lemma_skip, lemma_token, lemma_word_end,
};
use crate::grammar::{
    atom, call, chain, decl, digits_end, ended, expr, fn_decl, furthest, going_on, group, here,
    infix, is_digit, is_space, is_word_part, is_word_start, items, keyword, let_decl, link, missed,
    more_items, name, names, number, operand, operators, program, rest, skip, sought_at, token,
    unary, word_end, Miss, Outcome, Syntax, Tier,
};
use vstd::prelude::*;

verus! {

/// Two texts have the same first `m` characters.
pub open spec fn agree_up_to(cs: Seq<char>, ds: Seq<char>, m: int) -> bool {
    &&& 0 <= m <= cs.len()
    &&& m <= ds.len()
    &&& forall|i: int| 0 <= i < m ==> #[trigger] cs[i] == ds[i]
}

/// The character is one with which what was looked for could begin, or with which a word or a number
/// could go on.
pub open spec fn could_be(sought: Expected, c: char) -> bool {
    match sought {
        Expected::Token(sign) => c == sign,
        Expected::Identifier => is_word_start(c),
        Expected::Int => is_digit(c),
        Expected::Keyword(_) => is_word_start(c),
        Expected::SomethingElse => is_word_part(c),
        Expected::Any => true,
        Expected::EndOfInput => false,
    }
}

/// A place in two texts, up to which they are the same: whether the character there is the same too,
/// and which it is in the second text.
pub struct Fork {
    pub at: int,
    pub same: bool,
    pub c: char,
}

/// The texts part at the fork, or behind it.
pub open spec fn is_fork(cs: Seq<char>, ds: Seq<char>, m: Fork) -> bool {
    &&& agree_up_to(cs, ds, m.at)
    &&& m.at < cs.len()
    &&& m.at < ds.len()
    &&& ds[m.at] == m.c
    &&& m.same ==> cs[m.at] == m.c
    &&& !m.same ==> !is_space(m.c)
}

/// What was looked for in vain would be so in the second text: it was before the fork, or at the
/// fork, where the character is the same or none that it could be.
pub open spec fn is_vain(miss: Miss, m: Fork) -> bool {
    miss.at < m.at || (miss.at == m.at && (m.same || !could_be(miss.sought, m.c)))
}

/// Nothing that was looked for in vain could be in the second text.
pub open spec fn all_before(misses: Seq<Miss>, m: Fork) -> bool {
    forall|i: int| 0 <= i < misses.len() ==> is_vain(#[trigger] misses[i], m)
}

/// All that was looked for in vain would be so in the second text, and what was found does not go
/// beyond the fork.
pub open spec fn is_before<T>(o: Outcome<T>, m: Fork) -> bool {
    all_before(o.misses, m) && (o.value matches Some((_, q)) ==> q <= m.at)
}

proof fn lemma_both_before(a: Seq<Miss>, b: Seq<Miss>, m: Fork)
    ensures
        all_before(a + b, m) <==> all_before(a, m) && all_before(b, m),
{
    if all_before(a + b, m) {
        assert forall|i: int| 0 <= i < a.len() implies is_vain(#[trigger] a[i], m) by {
            assert((a + b)[i] == a[i]);
        }
        assert forall|i: int| 0 <= i < b.len() implies is_vain(#[trigger] b[i], m) by {
            assert((a + b)[a.len() + i] == b[i]);
        }
    }
    if all_before(a, m) && all_before(b, m) {
        assert forall|i: int| 0 <= i < (a + b).len() implies is_vain(#[trigger] (a + b)[i], m) by {
            if i < a.len() {
                assert((a + b)[i] == a[i]);
            } else {
                assert((a + b)[i] == b[i - a.len()]);
            }
        }
    }
}

/// An attempt made after another.
proof fn lemma_after<T, S>(o: Outcome<T>, first: Outcome<S>, m: Fork)
    ensures
        is_before(o.after(first), m) <==> is_before(o, m) && all_before(first.misses, m),
        all_before(o.after(first).misses, m) <==> all_before(o.misses, m) && all_before(
            first.misses,
            m,
        ),
{
    lemma_both_before(first.misses, o.misses, m);
}

proof fn lemma_skip_local(cs: Seq<char>, ds: Seq<char>, m: Fork, p: int)
    requires
        is_fork(cs, ds, m),
        0 <= p <= cs.len(),
        skip(cs, p) <= m.at,
    ensures
        p <= m.at,
        skip(ds, p) == skip(cs, p),
    decreases cs.len() - p,
{
    lemma_skip(cs, p);
    if p < m.at {
        assert(cs[p] == ds[p]);
        if is_space(cs[p]) {
            lemma_skip_local(cs, ds, m, p + 1);
        }
    } else if is_space(cs[p]) {
        lemma_skip(cs, p + 1);
    }
}

proof fn lemma_word_end_local(cs: Seq<char>, ds: Seq<char>, m: Fork, p: int)
    requires
        is_fork(cs, ds, m),
        0 <= p <= cs.len(),
        word_end(cs, p) <= m.at,
        word_end(cs, p) == m.at && !m.same ==> !is_word_part(m.c),
    ensures
        word_end(ds, p) == word_end(cs, p),
    decreases cs.len() - p,
{
    lemma_word_end(cs, p);
    if p < m.at {
        assert(cs[p] == ds[p]);
        if is_word_part(cs[p]) {
            lemma_word_end_local(cs, ds, m, p + 1);
        }
    } else if is_word_part(cs[p]) {
        lemma_word_end(cs, p + 1);
    }
}

proof fn lemma_digits_end_local(cs: Seq<char>, ds: Seq<char>, m: Fork, p: int)
    requires
        is_fork(cs, ds, m),
        0 <= p <= cs.len(),
        digits_end(cs, p) <= m.at,
        digits_end(cs, p) == m.at && !m.same ==> !is_digit(m.c),
    ensures
        digits_end(ds, p) == digits_end(cs, p),
    decreases cs.len() - p,
{
    lemma_digits_end(cs, p);
    if p < m.at {
        assert(cs[p] == ds[p]);
        if is_digit(cs[p]) {
            lemma_digits_end_local(cs, ds, m, p + 1);
        }
    } else if is_digit(cs[p]) {
        lemma_digits_end(cs, p + 1);
    }
}

proof fn lemma_token_local(cs: Seq<char>, ds: Seq<char>, m: Fork, p: int, c: char)
    requires
        is_fork(cs, ds, m),
        0 <= p <= cs.len(),
        is_before(token(cs, p, c), m),
    ensures
        p <= m.at,
        token(ds, p, c) == token(cs, p, c),
{
    let s = skip(cs, p);
    lemma_skip(cs, p);
    if s < cs.len() && cs[s] == c {
        lemma_skip(cs, s + 1);
        lemma_skip_local(cs, ds, m, s + 1);
    } else {
        assert(is_vain(token(cs, p, c).misses[0], m));
    }
    lemma_skip_local(cs, ds, m, p);
    if s < m.at {
        assert(cs[s] == ds[s]);
    }
}

/// A phrase that ends before `m` and could have gone on.
proof fn lemma_ended_local<T>(cs: Seq<char>, ds: Seq<char>, m: Fork, phrase: T, e: int)
    requires
        is_fork(cs, ds, m),
        0 <= e <= cs.len(),
        is_before(ended(cs, phrase, e), m),
    ensures
        e <= m.at,
        e == m.at && !m.same ==> !is_word_part(m.c),
        ended(ds, phrase, e) == ended(cs, phrase, e),
{
    assert(is_vain(ended(cs, phrase, e).misses[0], m));
    lemma_skip_local(cs, ds, m, e);
}

proof fn lemma_name_local(cs: Seq<char>, ds: Seq<char>, m: Fork, p: int)
    requires
        is_fork(cs, ds, m),
        0 <= p <= cs.len(),
        is_before(name(cs, p), m),
    ensures
        p <= m.at,
        name(ds, p) == name(cs, p),
{
    let s = skip(cs, p);
    lemma_skip(cs, p);
    if s < cs.len() && is_word_start(cs[s]) {
        let e = word_end(cs, s + 1);
        lemma_word_end(cs, s + 1);
        lemma_ended_local(cs, ds, m, cs.subrange(s, e), e);
        lemma_word_end_local(cs, ds, m, s + 1);
        assert(ds.subrange(s, e) =~= cs.subrange(s, e));
    } else {
        assert(is_vain(name(cs, p).misses[0], m));
    }
    lemma_skip_local(cs, ds, m, p);
    if s < m.at {
        assert(cs[s] == ds[s]);
    }
}

proof fn lemma_number_local(cs: Seq<char>, ds: Seq<char>, m: Fork, p: int)
    requires
        is_fork(cs, ds, m),
        0 <= p <= cs.len(),
        is_before(number(cs, p), m),
    ensures
        p <= m.at,
        number(ds, p) == number(cs, p),
{
    let s = skip(cs, p);
    lemma_skip(cs, p);
    if s < cs.len() && cs[s] == '0' {
        lemma_skip(cs, s + 1);
        lemma_skip_local(cs, ds, m, s + 1);
        assert(ds.subrange(s, s + 1) =~= cs.subrange(s, s + 1));
    } else if s < cs.len() && is_digit(cs[s]) {
        let e = digits_end(cs, s + 1);
        lemma_digits_end(cs, s + 1);
        lemma_ended_local(cs, ds, m, cs.subrange(s, e), e);
        lemma_digits_end_local(cs, ds, m, s + 1);
        assert(ds.subrange(s, e) =~= cs.subrange(s, e));
    } else {
        assert(is_vain(number(cs, p).misses[0], m));
    }
    lemma_skip_local(cs, ds, m, p);
    if s < m.at {
        assert(cs[s] == ds[s]);
    }
}

/// A word that comes next ends before the fork, or at it, and does not go on in the second text.
pub open spec fn word_is_before(cs: Seq<char>, p: int, m: Fork) -> bool {
    let s = skip(cs, p);
    let e = word_end(cs, s + 1);
    s < cs.len() && is_word_start(cs[s]) ==> e <= m.at && (e == m.at && !m.same ==> !is_word_part(
        m.c,
    ))
}

proof fn lemma_keyword_local(cs: Seq<char>, ds: Seq<char>, m: Fork, p: int, word: Keyword)
    requires
        is_fork(cs, ds, m),
        0 <= p <= cs.len(),
        is_before(keyword(cs, p, word), m),
        word_is_before(cs, p, m),
    ensures
        p <= m.at,
        keyword(ds, p, word) == keyword(cs, p, word),
{
    let s = skip(cs, p);
    let e = word_end(cs, s + 1);
    lemma_skip(cs, p);
    if s < cs.len() && is_word_start(cs[s]) {
        lemma_word_end(cs, s + 1);
        lemma_word_end_local(cs, ds, m, s + 1);
        assert(ds.subrange(s, e) =~= cs.subrange(s, e));
        if keyword(cs, p, word).value is Some {
            lemma_ended_local(cs, ds, m, (), e);
        }
    } else {
        assert(is_vain(keyword(cs, p, word).misses[0], m));
    }
    lemma_skip_local(cs, ds, m, p);
    if s < m.at {
        assert(cs[s] == ds[s]);
    }
}

#[verifier::rlimit(40)]
proof fn lemma_atom_local(cs: Seq<char>, ds: Seq<char>, m: Fork, p: int)
    requires
        is_fork(cs, ds, m),
        0 <= p <= cs.len(),
        is_before(atom(cs, p), m),
    ensures
        p <= m.at,
        atom(ds, p) == atom(cs, p),
    decreases cs.len() - p, 2int,
{
    let i = number(cs, p);
    let g = group(cs, p);
    let c = call(cs, p);
    let x = name(cs, p);
    match i.value {
        Some((digits, q)) => {
            lemma_after(here::<Syntax>(Tree::Num(digits), q).plus_node(), i, m);
            lemma_number_local(cs, ds, m, p);
        },
        None => {
            if g.value is Some {
                lemma_after(g, i, m);
                lemma_number_local(cs, ds, m, p);
                lemma_group_local(cs, ds, m, p);
            } else if c.value is Some {
                lemma_after(c.after(g), i, m);
                lemma_after(c, g, m);
                lemma_number_local(cs, ds, m, p);
                lemma_group_local(cs, ds, m, p);
                lemma_call_local(cs, ds, m, p);
            } else {
                let last = match x.value {
                    Some((word, q)) => here::<Syntax>(Tree::Var(word), q).plus_node().after(x),
                    None => x.dropped(),
                };
                lemma_after(last.after(c).after(g), i, m);
                lemma_after(last.after(c), g, m);
                lemma_after(last, c, m);
                match x.value {
                    Some((word, q)) => {
                        lemma_after(here::<Syntax>(Tree::Var(word), q).plus_node(), x, m);
                    },
                    None => {},
                }
                lemma_number_local(cs, ds, m, p);
                lemma_group_local(cs, ds, m, p);
                lemma_call_local(cs, ds, m, p);
                lemma_name_local(cs, ds, m, p);
            }
        },
    }
}

#[verifier::rlimit(40)]
proof fn lemma_group_local(cs: Seq<char>, ds: Seq<char>, m: Fork, p: int)
    requires
        is_fork(cs, ds, m),
        0 <= p <= cs.len(),
        is_before(group(cs, p), m),
    ensures
        group(ds, p) == group(cs, p),
    decreases cs.len() - p, 1int,
{
    let n = cs.len() as int;
    let a = token(cs, p, '(');
    lemma_token(cs, p, '(');
    match a.moved(p, n) {
        None => {
            lemma_token_local(cs, ds, m, p, '(');
        },
        Some((_, q)) => {
            let x = expr(cs, q);
            lemma_expr(cs, q);
            match x.value {
                None => {
                    lemma_after(x, a, m);
                },
                Some((tree, r)) => {
                    let b = token(cs, r, ')');
                    let last = match b.value {
                        None => b.dropped::<Syntax>(),
                        Some((_, e)) => here(tree, e).after(b),
                    };
                    lemma_token(cs, r, ')');
                    lemma_after(last.after(x), a, m);
                    lemma_after(last, x, m);
                    match b.value {
                        None => {},
                        Some((_, e)) => {
                            lemma_after(here(tree, e), b, m);
                        },
                    }
                    lemma_token_local(cs, ds, m, r, ')');
                },
            }
            lemma_expr_local(cs, ds, m, q);
            lemma_token_local(cs, ds, m, p, '(');
        },
    }
}

#[verifier::rlimit(60)]
proof fn lemma_call_local(cs: Seq<char>, ds: Seq<char>, m: Fork, p: int)
    requires
        is_fork(cs, ds, m),
        0 <= p <= cs.len(),
        is_before(call(cs, p), m),
    ensures
        call(ds, p) == call(cs, p),
    decreases cs.len() - p, 1int,
{
    let n = cs.len() as int;
    let f = name(cs, p);
    lemma_name(cs, p);
    match f.moved(p, n) {
        None => {
            lemma_name_local(cs, ds, m, p);
        },
        Some((word, q)) => {
            let a = token(cs, q, '(');
            lemma_token(cs, q, '(');
            match a.moved(q, n) {
                None => {
                    lemma_after(a.dropped::<Syntax>(), f, m);
                    lemma_token_local(cs, ds, m, q, '(');
                    lemma_name_local(cs, ds, m, p);
                },
                Some((_, r)) => {
                    let xs = items(cs, r);
                    lemma_items(cs, r);
                    lemma_items_found(cs, r);
                    let (args, t) = xs.value->Some_0;
                    let b = token(cs, t, ')');
                    let last = match b.value {
                        None => b.dropped(),
                        Some((_, e)) => {
                            here::<Syntax>(Tree::Call(word, args), e).plus_node().after(b)
                        },
                    };
                    lemma_token(cs, t, ')');
                    lemma_after(last.after(xs).after(a), f, m);
                    lemma_after(last.after(xs), a, m);
                    lemma_after(last, xs, m);
                    match b.value {
                        None => {},
                        Some((_, e)) => {
                            lemma_after(
                                here::<Syntax>(Tree::Call(word, args), e).plus_node(),
                                b,
                                m,
                            );
                        },
                    }
                    lemma_token_local(cs, ds, m, t, ')');
                    lemma_items_local(cs, ds, m, r);
                    lemma_token_local(cs, ds, m, q, '(');
                    lemma_name_local(cs, ds, m, p);
                },
            }
        },
    }
}

/// A list of expressions is always found, if only an empty one.
proof fn lemma_items_found(cs: Seq<char>, p: int)
    requires
        0 <= p <= cs.len(),
    ensures
        items(cs, p).value matches Some((_, q)) && p <= q <= cs.len(),
{
    lemma_expr(cs, p);
    match expr(cs, p).moved(p, cs.len() as int) {
        None => {},
        Some((tree, q)) => {
            lemma_more_items_found(cs, q, seq![tree]);
        },
    }
}

proof fn lemma_more_items_found(cs: Seq<char>, p: int, found: Seq<Syntax>)
    requires
        0 <= p <= cs.len(),
    ensures
        more_items(cs, p, found).value matches Some((_, q)) && p <= q <= cs.len(),
    decreases cs.len() - p,
{
    let n = cs.len() as int;
    match token(cs, p, ',').moved(p, n) {
        None => {},
        Some((_, q)) => {
            match expr(cs, q).moved(q, n) {
                None => {},
                Some((tree, r)) => {
                    lemma_more_items_found(cs, r, found.push(tree));
                },
            }
        },
    }
}

#[verifier::rlimit(40)]
proof fn lemma_items_local(cs: Seq<char>, ds: Seq<char>, m: Fork, p: int)
    requires
        is_fork(cs, ds, m),
        0 <= p <= cs.len(),
        is_before(items(cs, p), m),
    ensures
        p <= m.at,
        items(ds, p) == items(cs, p),
    decreases cs.len() - p, 9int,
{
    let x = expr(cs, p);
    lemma_expr(cs, p);
    match x.moved(p, cs.len() as int) {
        None => {
            lemma_after(here(Seq::<Syntax>::empty(), p), x, m);
            lemma_expr_local(cs, ds, m, p);
        },
        Some((tree, q)) => {
            lemma_after(more_items(cs, q, seq![tree]), x, m);
            lemma_more_items_found(cs, q, seq![tree]);
            lemma_more_items_local(cs, ds, m, q, seq![tree]);
            lemma_expr_local(cs, ds, m, p);
        },
    }
}

#[verifier::rlimit(40)]
proof fn lemma_more_items_local(
    cs: Seq<char>,
    ds: Seq<char>,
    m: Fork,
    p: int,
    found: Seq<Syntax>,
)
    requires
        is_fork(cs, ds, m),
        0 <= p <= cs.len(),
        is_before(more_items(cs, p, found), m),
    ensures
        p <= m.at,
        more_items(ds, p, found) == more_items(cs, p, found),
    decreases cs.len() - p, 8int,
{
    let n = cs.len() as int;
    let c = token(cs, p, ',');
    lemma_token(cs, p, ',');
    match c.moved(p, n) {
        None => {
            lemma_after(here(found, p), c, m);
            lemma_token_local(cs, ds, m, p, ',');
        },
        Some((_, q)) => {
            let x = expr(cs, q);
            lemma_expr(cs, q);
            let last = match x.moved(q, n) {
                None => here(found, q),
                Some((tree, r)) => more_items(cs, r, found.push(tree)),
            };
            lemma_after(last.after(x), c, m);
            lemma_after(last, x, m);
            match x.moved(q, n) {
                None => {},
                Some((tree, r)) => {
                    lemma_more_items_local(cs, ds, m, r, found.push(tree));
                },
            }
            lemma_expr_local(cs, ds, m, q);
            lemma_token_local(cs, ds, m, p, ',');
        },
    }
}

#[verifier::rlimit(40)]
proof fn lemma_unary_local(cs: Seq<char>, ds: Seq<char>, m: Fork, p: int)
    requires
        is_fork(cs, ds, m),
        0 <= p <= cs.len(),
        is_before(unary(cs, p), m),
    ensures
        p <= m.at,
        unary(ds, p) == unary(cs, p),
    decreases cs.len() - p, 3int,
{
    let n = cs.len() as int;
    let t = token(cs, p, '-');
    lemma_token(cs, p, '-');
    match t.moved(p, n) {
        None => {
            lemma_after(atom(cs, p), t, m);
            lemma_token_local(cs, ds, m, p, '-');
            lemma_atom_local(cs, ds, m, p);
        },
        Some((_, q)) => {
            let x = unary(cs, q);
            let last = match x.value {
                None => x,
                Some((tree, r)) => {
                    Outcome { value: Some((Tree::Neg(Box::new(tree)), r)), ..x.plus_node() }
                },
            };
            lemma_after(last, t, m);
            assert(is_before(x, m));
            lemma_unary_local(cs, ds, m, q);
            lemma_token_local(cs, ds, m, p, '-');
        },
    }
}

proof fn lemma_operand_local(cs: Seq<char>, ds: Seq<char>, m: Fork, p: int, tier: Tier)
    requires
        is_fork(cs, ds, m),
        0 <= p <= cs.len(),
        is_before(operand(cs, p, tier), m),
    ensures
        p <= m.at,
        operand(ds, p, tier) == operand(cs, p, tier),
    decreases
            cs.len() - p,
            (match tier {
                Tier::Sum => 6int,
                Tier::Product => 4int,
            }),
{
    match tier {
        Tier::Sum => {
            lemma_infix_local(cs, ds, m, p, Tier::Product);
        },
        Tier::Product => {
            lemma_unary_local(cs, ds, m, p);
        },
    }
}

/// Behind an expression something is always found, if only the expression.
proof fn lemma_chain_found(cs: Seq<char>, p: int, tier: Tier, lhs: Syntax)
    requires
        0 <= p <= cs.len(),
    ensures
        chain(cs, p, tier, lhs).value matches Some((_, q)) && p <= q <= cs.len(),
    decreases cs.len() - p, 8int,
{
    let n = cs.len() as int;
    let ((c, op), (d, other)) = operators(tier);
    match token(cs, p, c).moved(p, n) {
        Some((_, q)) => {
            lemma_link_found(cs, p, q, tier, op, lhs);
        },
        None => {
            match token(cs, p, d).moved(p, n) {
                Some((_, q)) => {
                    lemma_link_found(cs, p, q, tier, other, lhs);
                },
                None => {},
            }
        },
    }
}

proof fn lemma_link_found(cs: Seq<char>, p: int, q: int, tier: Tier, op: Op, lhs: Syntax)
    requires
        0 <= p < q <= cs.len(),
    ensures
        link(cs, p, q, tier, op, lhs).value matches Some((_, e)) && p <= e <= cs.len(),
    decreases cs.len() - q, 9int,
{
    match operand(cs, q, tier).moved(q, cs.len() as int) {
        None => {},
        Some((rhs, e)) => {
            lemma_chain_found(cs, e, tier, Tree::Bin(op, Box::new(lhs), Box::new(rhs)));
        },
    }
}

#[verifier::rlimit(40)]
proof fn lemma_infix_local(cs: Seq<char>, ds: Seq<char>, m: Fork, p: int, tier: Tier)
    requires
        is_fork(cs, ds, m),
        0 <= p <= cs.len(),
        is_before(infix(cs, p, tier), m),
    ensures
        p <= m.at,
        infix(ds, p, tier) == infix(cs, p, tier),
    decreases
            cs.len() - p,
            (match tier {
                Tier::Sum => 7int,
                Tier::Product => 5int,
            }),
{
    let x = operand(cs, p, tier);
    lemma_operand(cs, p, tier);
    match x.moved(p, cs.len() as int) {
        None => {
            lemma_operand_local(cs, ds, m, p, tier);
        },
        Some((lhs, q)) => {
            lemma_after(chain(cs, q, tier, lhs), x, m);
            lemma_chain_found(cs, q, tier, lhs);
            lemma_operand_local(cs, ds, m, p, tier);
            lemma_chain_local(cs, ds, m, q, tier, lhs);
        },
    }
}

#[verifier::rlimit(40)]
proof fn lemma_chain_local(
    cs: Seq<char>,
    ds: Seq<char>,
    m: Fork,
    p: int,
    tier: Tier,
    lhs: Syntax,
)
    requires
        is_fork(cs, ds, m),
        0 <= p <= cs.len(),
        is_before(chain(cs, p, tier, lhs), m),
    ensures
        chain(ds, p, tier, lhs) == chain(cs, p, tier, lhs),
    decreases cs.len() - p, 8int,
{
    let n = cs.len() as int;
    let ((c, op), (d, other)) = operators(tier);
    let a = token(cs, p, c);
    let b = token(cs, p, d);
    lemma_token(cs, p, c);
    lemma_token(cs, p, d);
    match a.moved(p, n) {
        Some((_, q)) => {
            lemma_after(link(cs, p, q, tier, op, lhs), a, m);
            lemma_link_local(cs, ds, m, p, q, tier, op, lhs);
            lemma_token_local(cs, ds, m, p, c);
        },
        None => {
            match b.moved(p, n) {
                Some((_, q)) => {
                    lemma_after(link(cs, p, q, tier, other, lhs).after(b), a, m);
                    lemma_after(link(cs, p, q, tier, other, lhs), b, m);
                    lemma_link_local(cs, ds, m, p, q, tier, other, lhs);
                },
                None => {
                    lemma_after(here(lhs, p).after(b), a, m);
                    lemma_after(here(lhs, p), b, m);
                },
            }
            lemma_token_local(cs, ds, m, p, c);
            lemma_token_local(cs, ds, m, p, d);
        },
    }
}

#[verifier::rlimit(40)]
proof fn lemma_link_local(
    cs: Seq<char>,
    ds: Seq<char>,
    m: Fork,
    p: int,
    q: int,
    tier: Tier,
    op: Op,
    lhs: Syntax,
)
    requires
        is_fork(cs, ds, m),
        0 <= p < q <= cs.len(),
        is_before(link(cs, p, q, tier, op, lhs), m),
    ensures
        q <= m.at,
        link(ds, p, q, tier, op, lhs) == link(cs, p, q, tier, op, lhs),
    decreases cs.len() - q, 9int,
{
    let y = operand(cs, q, tier);
    lemma_operand(cs, q, tier);
    match y.moved(q, cs.len() as int) {
        None => {
            lemma_after(here(lhs, p), y, m);
            lemma_operand_local(cs, ds, m, q, tier);
        },
        Some((rhs, e)) => {
            let both = Tree::Bin(op, Box::new(lhs), Box::new(rhs));
            lemma_after(chain(cs, e, tier, both).plus_node(), y, m);
            lemma_chain_found(cs, e, tier, both);
            assert(is_before(chain(cs, e, tier, both), m));
            lemma_operand_local(cs, ds, m, q, tier);
            lemma_chain_local(cs, ds, m, e, tier, both);
        },
    }
}

proof fn lemma_expr_local(cs: Seq<char>, ds: Seq<char>, m: Fork, p: int)
    requires
        is_fork(cs, ds, m),
        0 <= p <= cs.len(),
        is_before(expr(cs, p), m),
    ensures
        p <= m.at,
        expr(ds, p) == expr(cs, p),
    decreases cs.len() - p, 8int,
{
    lemma_infix_local(cs, ds, m, p, Tier::Sum);
}

/// Where an expression is looked for and a word comes next, the end of the word is looked at.
#[verifier::rlimit(40)]
proof fn lemma_expr_looks_at_word(cs: Seq<char>, p: int, m: Fork)
    requires
        0 <= p <= cs.len(),
        m.at < cs.len(),
        all_before(expr(cs, p).misses, m),
    ensures
        word_is_before(cs, p, m),
{
    let n = cs.len() as int;
    let s = skip(cs, p);
    lemma_skip(cs, p);
    if s < n && is_word_start(cs[s]) {
        let f = name(cs, p);
        let c = call(cs, p);
        lemma_name(cs, p);
        assert(all_before(c.misses, m) ==> all_before(f.misses, m)) by {
            let (word, q) = f.moved(p, n)->Some_0;
            let a = token(cs, q, '(');
            match a.moved(q, n) {
                None => {
                    lemma_after(a.dropped::<Syntax>(), f, m);
                },
                Some((_, r)) => {
                    lemma_items_found(cs, r);
                    let xs = items(cs, r);
                    let (args, t) = xs.value->Some_0;
                    let b = token(cs, t, ')');
                    let last = match b.value {
                        None => b.dropped(),
                        Some((_, e)) => {
                            here::<Syntax>(Tree::Call(word, args), e).plus_node().after(b)
                        },
                    };
                    lemma_after(last.after(xs).after(a), f, m);
                },
            }
        }
        let e = word_end(cs, s + 1);
        lemma_word_end(cs, s + 1);
        assert(f.misses[0] == (Miss { at: e, sought: going_on(cs, e) }));
        assert(all_before(f.misses, m) ==> is_vain(f.misses[0], m));
        let i = number(cs, p);
        let g = group(cs, p);
        assert(i.value is None);
        assert(g.value is None);
        assert(all_before(atom(cs, p).misses, m) ==> all_before(c.misses, m)) by {
            if c.value is Some {
                lemma_after(c.after(g), i, m);
                lemma_after(c, g, m);
            } else {
                let last = match f.value {
                    Some((word, q)) => here::<Syntax>(Tree::Var(word), q).plus_node().after(f),
                    None => f.dropped(),
                };
                lemma_after(last.after(c).after(g), i, m);
                lemma_after(last.after(c), g, m);
                lemma_after(last, c, m);
            }
        }
        let t = token(cs, p, '-');
        assert(t.value is None);
        lemma_after(atom(cs, p), t, m);
        let x = operand(cs, p, Tier::Product);
        assert(x == unary(cs, p));
        let y = operand(cs, p, Tier::Sum);
        assert(y == infix(cs, p, Tier::Product));
        match x.moved(p, n) {
            None => {},
            Some((lhs, q)) => {
                lemma_after(chain(cs, q, Tier::Product, lhs), x, m);
            },
        }
        match y.moved(p, n) {
            None => {},
            Some((lhs, q)) => {
                lemma_after(chain(cs, q, Tier::Sum, lhs), y, m);
            },
        }
    }
}

proof fn lemma_names_local(
    cs: Seq<char>,
    ds: Seq<char>,
    m: Fork,
    p: int,
    found: Seq<Seq<char>>,
)
    requires
        is_fork(cs, ds, m),
        0 <= p <= cs.len(),
        is_before(names(cs, p, found), m),
    ensures
        p <= m.at,
        names(ds, p, found) == names(cs, p, found),
    decreases cs.len() - p,
{
    let x = name(cs, p);
    lemma_name(cs, p);
    match x.moved(p, cs.len() as int) {
        None => {
            lemma_after(here(found, p), x, m);
            lemma_name_local(cs, ds, m, p);
        },
        Some((word, q)) => {
            lemma_after(names(cs, q, found.push(word)), x, m);
            lemma_names_local(cs, ds, m, q, found.push(word));
            lemma_name_local(cs, ds, m, p);
        },
    }
}

#[verifier::rlimit(60)]
proof fn lemma_rest_local(cs: Seq<char>, ds: Seq<char>, m: Fork, p: int)
    requires
        is_fork(cs, ds, m),
        0 <= p <= cs.len(),
        is_before(rest(cs, p), m),
    ensures
        p <= m.at,
        rest(ds, p) == rest(cs, p),
    decreases cs.len() - p, 8int,
{
    let n = cs.len() as int;
    let e = token(cs, p, '=');
    lemma_token(cs, p, '=');
    match e.moved(p, n) {
        None => {
            lemma_token_local(cs, ds, m, p, '=');
        },
        Some((_, q)) => {
            let x = expr(cs, q);
            lemma_expr(cs, q);
            match x.moved(q, n) {
                None => {
                    lemma_after(x.dropped::<(Syntax, Syntax)>(), e, m);
                },
                Some((rhs, r)) => {
                    let s = token(cs, r, ';');
                    lemma_token(cs, r, ';');
                    match s.moved(r, n) {
                        None => {
                            lemma_after(s.dropped::<(Syntax, Syntax)>().after(x), e, m);
                            lemma_after(s.dropped::<(Syntax, Syntax)>(), x, m);
                        },
                        Some((_, t)) => {
                            let d = decl(cs, t);
                            lemma_decl(cs, t);
                            let last = match d.value {
                                None => d.dropped::<(Syntax, Syntax)>(),
                                Some((then, u)) => here((rhs, then), u).after(d),
                            };
                            lemma_after(last.after(s).after(x), e, m);
                            lemma_after(last.after(s), x, m);
                            lemma_after(last, s, m);
                            match d.value {
                                None => {},
                                Some((then, u)) => {
                                    lemma_after(here((rhs, then), u), d, m);
                                },
                            }
                            lemma_decl_local(cs, ds, m, t);
                        },
                    }
                    lemma_token_local(cs, ds, m, r, ';');
                },
            }
            lemma_expr_local(cs, ds, m, q);
            lemma_token_local(cs, ds, m, p, '=');
        },
    }
}

#[verifier::rlimit(60)]
proof fn lemma_let_local(cs: Seq<char>, ds: Seq<char>, m: Fork, p: int)
    requires
        is_fork(cs, ds, m),
        0 <= p <= cs.len(),
        is_before(let_decl(cs, p), m),
        word_is_before(cs, p, m),
    ensures
        p <= m.at,
        let_decl(ds, p) == let_decl(cs, p),
    decreases cs.len() - p, 8int,
{
    let n = cs.len() as int;
    let k = keyword(cs, p, Keyword::Let);
    lemma_keyword(cs, p, Keyword::Let);
    match k.moved(p, n) {
        None => {
            lemma_keyword_local(cs, ds, m, p, Keyword::Let);
        },
        Some((_, q)) => {
            let x = name(cs, q);
            lemma_name(cs, q);
            match x.moved(q, n) {
                None => {
                    lemma_after(x.dropped::<Syntax>(), k, m);
                },
                Some((word, r)) => {
                    let d = rest(cs, r);
                    let last = match d.value {
                        None => d.dropped(),
                        Some(((rhs, then), e)) => here(
                            Tree::<Seq<char>>::Let {
                                name: word,
                                rhs: Box::new(rhs),
                                then: Box::new(then),
                            },
                            e,
                        ).plus_node().after(d),
                    };
                    lemma_after(last.after(x), k, m);
                    lemma_after(last, x, m);
                    match d.value {
                        None => {},
                        Some(((rhs, then), e)) => {
                            lemma_after(
                                here(
                                    Tree::<Seq<char>>::Let {
                                        name: word,
                                        rhs: Box::new(rhs),
                                        then: Box::new(then),
                                    },
                                    e,
                                ).plus_node(),
                                d,
                                m,
                            );
                        },
                    }
                    lemma_rest_local(cs, ds, m, r);
                },
            }
            lemma_name_local(cs, ds, m, q);
            lemma_keyword_local(cs, ds, m, p, Keyword::Let);
        },
    }
}

#[verifier::rlimit(60)]
proof fn lemma_fn_local(cs: Seq<char>, ds: Seq<char>, m: Fork, p: int)
    requires
        is_fork(cs, ds, m),
        0 <= p <= cs.len(),
        is_before(fn_decl(cs, p), m),
        word_is_before(cs, p, m),
    ensures
        p <= m.at,
        fn_decl(ds, p) == fn_decl(cs, p),
    decreases cs.len() - p, 8int,
{
    let n = cs.len() as int;
    let k = keyword(cs, p, Keyword::Fn);
    lemma_keyword(cs, p, Keyword::Fn);
    match k.moved(p, n) {
        None => {
            lemma_keyword_local(cs, ds, m, p, Keyword::Fn);
        },
        Some((_, q)) => {
            let x = name(cs, q);
            lemma_name(cs, q);
            match x.moved(q, n) {
                None => {
                    lemma_after(x.dropped::<Syntax>(), k, m);
                },
                Some((word, r)) => {
                    let xs = names(cs, r, Seq::empty());
                    lemma_names(cs, r, Seq::empty());
                    let (args, t) = xs.value->Some_0;
                    let d = rest(cs, t);
                    let last = match d.value {
                        None => d.dropped(),
                        Some(((body, then), e)) => here(
                            Tree::<Seq<char>>::Fn {
                                name: word,
                                args,
                                body: Box::new(body),
                                then: Box::new(then),
                            },
                            e,
                        ).plus_node().after(d),
                    };
                    lemma_after(last.after(xs).after(x), k, m);
                    lemma_after(last.after(xs), x, m);
                    lemma_after(last, xs, m);
                    match d.value {
                        None => {},
                        Some(((body, then), e)) => {
                            lemma_after(
                                here(
                                    Tree::<Seq<char>>::Fn {
                                        name: word,
                                        args,
                                        body: Box::new(body),
                                        then: Box::new(then),
                                    },
                                    e,
                                ).plus_node(),
                                d,
                                m,
                            );
                        },
                    }
                    lemma_rest_local(cs, ds, m, t);
                    lemma_names_local(cs, ds, m, r, Seq::empty());
                },
            }
            lemma_name_local(cs, ds, m, q);
            lemma_keyword_local(cs, ds, m, p, Keyword::Fn);
        },
    }
}

/// Where a keyword is found, the end of the word is looked at.
#[verifier::rlimit(40)]
proof fn lemma_let_looks_at_word(cs: Seq<char>, p: int, m: Fork)
    requires
        0 <= p <= cs.len(),
        m.at < cs.len(),
        keyword(cs, p, Keyword::Let).value is Some,
        all_before(let_decl(cs, p).misses, m),
    ensures
        word_is_before(cs, p, m),
{
    let n = cs.len() as int;
    let k = keyword(cs, p, Keyword::Let);
    lemma_keyword(cs, p, Keyword::Let);
    let q = k.moved(p, n)->Some_0.1;
    let x = name(cs, q);
    match x.moved(q, n) {
        None => {
            lemma_after(x.dropped::<Syntax>(), k, m);
        },
        Some((word, r)) => {
            let d = rest(cs, r);
            let last = match d.value {
                None => d.dropped(),
                Some(((rhs, then), e)) => here(
                    Tree::<Seq<char>>::Let {
                        name: word,
                        rhs: Box::new(rhs),
                        then: Box::new(then),
                    },
                    e,
                ).plus_node().after(d),
            };
            lemma_after(last.after(x), k, m);
        },
    }
    let e = word_end(cs, skip(cs, p) + 1);
    assert(k.misses[0] == (Miss { at: e, sought: going_on(cs, e) }));
    assert(is_vain(k.misses[0], m));
}

#[verifier::rlimit(40)]
proof fn lemma_fn_looks_at_word(cs: Seq<char>, p: int, m: Fork)
    requires
        0 <= p <= cs.len(),
        m.at < cs.len(),
        keyword(cs, p, Keyword::Fn).value is Some,
        all_before(fn_decl(cs, p).misses, m),
    ensures
        word_is_before(cs, p, m),
{
    let n = cs.len() as int;
    let k = keyword(cs, p, Keyword::Fn);
    lemma_keyword(cs, p, Keyword::Fn);
    let q = k.moved(p, n)->Some_0.1;
    let x = name(cs, q);
    lemma_name(cs, q);
    match x.moved(q, n) {
        None => {
            lemma_after(x.dropped::<Syntax>(), k, m);
        },
        Some((word, r)) => {
            let xs = names(cs, r, Seq::empty());
            lemma_names(cs, r, Seq::empty());
            let (args, t) = xs.value->Some_0;
            let d = rest(cs, t);
            let last = match d.value {
                None => d.dropped(),
                Some(((body, then), e)) => here(
                    Tree::<Seq<char>>::Fn {
                        name: word,
                        args,
                        body: Box::new(body),
                        then: Box::new(then),
                    },
                    e,
                ).plus_node().after(d),
            };
            lemma_after(last.after(xs).after(x), k, m);
        },
    }
    let e = word_end(cs, skip(cs, p) + 1);
    assert(k.misses[0] == (Miss { at: e, sought: going_on(cs, e) }));
    assert(is_vain(k.misses[0], m));
}

#[verifier::rlimit(60)]
proof fn lemma_decl_local(cs: Seq<char>, ds: Seq<char>, m: Fork, p: int)
    requires
        is_fork(cs, ds, m),
        0 <= p <= cs.len(),
        is_before(decl(cs, p), m),
    ensures
        p <= m.at,
        decl(ds, p) == decl(cs, p),
    decreases cs.len() - p, 9int,
{
    let l = let_decl(cs, p);
    let f = fn_decl(cs, p);
    let x = expr(cs, p);
    if l.value is Some {
        lemma_let_looks_at_word(cs, p, m);
        lemma_let_local(cs, ds, m, p);
    } else if f.value is Some {
        lemma_after(f, l, m);
        lemma_fn_looks_at_word(cs, p, m);
        lemma_fn_local(cs, ds, m, p);
        lemma_let_local(cs, ds, m, p);
    } else {
        lemma_after(x.after(f), l, m);
        lemma_after(x, f, m);
        lemma_expr_looks_at_word(cs, p, m);
        lemma_fn_local(cs, ds, m, p);
        lemma_let_local(cs, ds, m, p);
        lemma_expr_local(cs, ds, m, p);
    }
}

proof fn lemma_up_to_furthest(misses: Seq<Miss>)
    ensures
        forall|i: int| 0 <= i < misses.len() ==> (#[trigger] misses[i]).at <= furthest(misses),
        furthest(misses) >= 0,
    decreases misses.len(),
{
    if misses.len() > 0 {
        let rest = misses.drop_last();
        lemma_up_to_furthest(rest);
        assert forall|i: int| 0 <= i < misses.len() implies (#[trigger] misses[i]).at <= furthest(
            misses,
        ) by {
            if i < rest.len() {
                assert(misses[i] == rest[i]);
            }
        }
    }
}

/// Where all that was looked for in vain would be so in another text, it is refused alike.
proof fn lemma_refused_alike(cs: Seq<char>, ds: Seq<char>, m: Fork)
    requires
        program(cs).value is None,
        is_fork(cs, ds, m),
        all_before(program(cs).misses, m),
    ensures
        program(ds).value is None,
        program(ds).misses == program(cs).misses,
{
    let d = decl(cs, 0);
    match d.value {
        None => {},
        Some((_, q)) => {
            let end = missed::<Syntax>(q, Expected::EndOfInput);
            lemma_after(end, d, m);
            assert(is_vain(end.misses[0], m));
        },
    }
    lemma_decl_local(cs, ds, m, 0);
}

/// What comes behind the place at which a text is refused has no part in it: every text with the
/// same characters up to that place, and there, is refused at the same place and for the same
/// reasons.
pub proof fn law_a_refusal_rests_on_what_is_before(cs: Seq<char>, ds: Seq<char>)
    requires
        program(cs).value is None,
        furthest(program(cs).misses) < cs.len(),
        agree_up_to(cs, ds, furthest(program(cs).misses) + 1),
    ensures
        program(ds).value is None,
        program(ds).misses == program(cs).misses,
{
    let misses = program(cs).misses;
    let at = furthest(misses);
    lemma_up_to_furthest(misses);
    let m = Fork { at, same: true, c: ds[at] };
    assert(cs[at] == ds[at]);
    lemma_refused_alike(cs, ds, m);
}

/// Nothing but what is told could stand at the place at which a text is refused: with another
/// character there, one with which none of the things begins that are told to be expected, it is
/// refused at the same place and for the same reasons, whatever comes behind it.
pub proof fn law_only_what_is_told_could_stand_there(cs: Seq<char>, ds: Seq<char>)
    requires
        program(cs).value is None,
        furthest(program(cs).misses) < cs.len(),
        furthest(program(cs).misses) < ds.len(),
        agree_up_to(cs, ds, furthest(program(cs).misses)),
        !is_space(ds[furthest(program(cs).misses)]),
        forall|sought: Expected|
            sought_at(program(cs).misses, furthest(program(cs).misses)).contains(sought)
                ==> !(#[trigger] could_be(sought, ds[furthest(program(cs).misses)])),
    ensures
        program(ds).value is None,
        program(ds).misses == program(cs).misses,
{
    let misses = program(cs).misses;
    let at = furthest(misses);
    lemma_up_to_furthest(misses);
    let m = Fork { at, same: false, c: ds[at] };
    assert forall|i: int| 0 <= i < misses.len() implies is_vain(#[trigger] misses[i], m) by {
        let sought = misses[i].sought;
        law_the_last_place_is_told(misses, at, sought);
        if misses[i].at == at {
            assert(sought_at(misses, at).contains(sought));
            assert(!could_be(sought, ds[at]));
        }
    }
    lemma_refused_alike(cs, ds, m);
}

/// A text that could be gone on with to a program, and is none itself, is refused at its end and not
/// before.
pub proof fn law_what_is_cut_short_is_refused_at_its_end(cs: Seq<char>, more: Seq<char>)
    requires
        program(cs).value is None,
        program(cs + more).value is Some,
    ensures
        furthest(program(cs).misses) >= cs.len(),
{
    if furthest(program(cs).misses) < cs.len() {
        let m = furthest(program(cs).misses) + 1;
        lemma_up_to_furthest(program(cs).misses);
        assert forall|i: int| 0 <= i < m implies #[trigger] cs[i] == (cs + more)[i] by {}
        law_a_refusal_rests_on_what_is_before(cs, cs + more);
    }
}

/// The place at which a text is refused is the last at which something was looked for in vain, and
/// told is what was looked for there: all of it, nothing else, and each thing once.
pub proof fn law_the_last_place_is_told(misses: Seq<Miss>, at: int, sought: Expected)
    ensures
        forall|i: int| 0 <= i < misses.len() ==> (#[trigger] misses[i]).at <= furthest(misses),
        furthest(misses) == 0 || exists|i: int|
            0 <= i < misses.len() && (#[trigger] misses[i]).at == furthest(misses),
        sought_at(misses, at).contains(sought) <==> exists|i: int|
            0 <= i < misses.len() && (#[trigger] misses[i]).at == at && misses[i].sought == sought,
        sought_at(misses, at).no_duplicates(),
    decreases misses.len(),
{
    lemma_up_to_furthest(misses);
    if misses.len() > 0 {
        let rest = misses.drop_last();
        let last = misses.last();
        let before = sought_at(rest, at);
        law_the_last_place_is_told(rest, at, sought);
        if furthest(misses) != 0 {
            if last.at > furthest(rest) {
                assert(misses[misses.len() - 1].at == furthest(misses));
            } else {
                let i = choose|i: int|
                    0 <= i < rest.len() && (#[trigger] rest[i]).at == furthest(rest);
                assert(misses[i].at == furthest(misses));
            }
        }
        if before.contains(sought) {
            let i = choose|i: int|
                0 <= i < rest.len() && (#[trigger] rest[i]).at == at && rest[i].sought == sought;
            assert(misses[i] == rest[i]);
            let j = choose|j: int| 0 <= j < before.len() && before[j] == sought;
            assert(sought_at(misses, at)[j] == sought);
        }
        if last.at == at && last.sought == sought {
            assert(misses[misses.len() - 1] == last);
            if !before.contains(sought) {
                assert(sought_at(misses, at)[before.len() as int] == sought);
            }
        }
        if exists|i: int|
            0 <= i < misses.len() && (#[trigger] misses[i]).at == at && misses[i].sought == sought {
            let i = choose|i: int|
                0 <= i < misses.len() && (#[trigger] misses[i]).at == at && misses[i].sought
                    == sought;
            if i < rest.len() {
                assert(rest[i] == misses[i]);
            }
        }
        if sought_at(misses, at).contains(sought) {
            let j = choose|j: int|
                0 <= j < sought_at(misses, at).len() && sought_at(misses, at)[j] == sought;
            if j < before.len() {
                assert(before[j] == sought);
            }
        }
    }
}

} // verus!

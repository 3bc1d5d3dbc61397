//! The grammar, as functions from a text and a place in it to what stands there.

use crate::ast::{Op, Tree};
use crate::error::{Expected, Keyword};
use vstd::prelude::*;

verus! {

/// A syntax tree as it is written: its numbers are texts.
pub type Syntax = Tree<Seq<char>>;

/// Something was looked for in vain.
pub struct Miss {
    pub at: int,
    pub sought: Expected,
}

/// What comes of looking for a phrase at some place.
#[verifier::ext_equal]
pub struct Outcome<T> {
    /// The phrase and the place behind it and behind the spaces after it.
    pub value: Option<(T, int)>,
    /// What was looked for in vain, in order.
    pub misses: Seq<Miss>,
    /// How many nodes were made, those of attempts that failed included.
    pub nodes: nat,
}

impl<T> Outcome<T> {
    /// The phrase and the place behind it, if it is one behind `p` in a text of length `n`.
    pub open spec fn moved(self, p: int, n: int) -> Option<(T, int)> {
        match self.value {
            Some((phrase, q)) => if p < q <= n {
                Some((phrase, q))
            } else {
                None
            },
            None => None,
        }
    }

    /// The same attempt, made after another.
    pub open spec fn after<S>(self, first: Outcome<S>) -> Self {
        Outcome {
            value: self.value,
            misses: first.misses + self.misses,
            nodes: first.nodes + self.nodes,
        }
    }

    /// The attempt is given up.
    pub open spec fn dropped<S>(self) -> Outcome<S> {
        Outcome { value: None, misses: self.misses, nodes: self.nodes }
    }

    /// One more node is made.
    pub open spec fn plus_node(self) -> Self {
        Outcome { nodes: self.nodes + 1, ..self }
    }
}

/// The phrase is there without looking further.
pub open spec fn here<T>(phrase: T, p: int) -> Outcome<T> {
    Outcome { value: Some((phrase, p)), misses: Seq::empty(), nodes: 0 }
}

/// Nothing but a miss.
pub open spec fn missed<T>(at: int, sought: Expected) -> Outcome<T> {
    Outcome { value: None, misses: seq![Miss { at, sought }], nodes: 0 }
}

/// The white space of Unicode.
pub open spec fn is_space(c: char) -> bool {
    let n = c as u32;
    ||| 0x9 <= n <= 0xd
    ||| n == 0x20
    ||| n == 0x85
    ||| n == 0xa0
    ||| n == 0x1680
    ||| 0x2000 <= n <= 0x200a
    ||| n == 0x2028
    ||| n == 0x2029
    ||| n == 0x202f
    ||| n == 0x205f
    ||| n == 0x3000
}

pub open spec fn is_digit(c: char) -> bool {
    '0' <= c <= '9'
}

/// A word can begin with the character.
pub open spec fn is_word_start(c: char) -> bool {
    'a' <= c <= 'z' || 'A' <= c <= 'Z' || c == '_'
}

/// A word can go on with the character.
pub open spec fn is_word_part(c: char) -> bool {
    is_word_start(c) || is_digit(c)
}

/// The place behind the spaces at `p`.
pub open spec fn skip(cs: Seq<char>, p: int) -> int
    decreases cs.len() - p,
{
    if 0 <= p < cs.len() && is_space(cs[p]) {
        skip(cs, p + 1)
    } else {
        p
    }
}

/// The place behind the characters of a word at `p`.
pub open spec fn word_end(cs: Seq<char>, p: int) -> int
    decreases cs.len() - p,
{
    if 0 <= p < cs.len() && is_word_part(cs[p]) {
        word_end(cs, p + 1)
    } else {
        p
    }
}

/// The place behind the digits at `p`.
pub open spec fn digits_end(cs: Seq<char>, p: int) -> int
    decreases cs.len() - p,
{
    if 0 <= p < cs.len() && is_digit(cs[p]) {
        digits_end(cs, p + 1)
    } else {
        p
    }
}

/// What could have gone on at the end of a word or a number.
pub open spec fn going_on(cs: Seq<char>, e: int) -> Expected {
    if e < cs.len() {
        Expected::SomethingElse
    } else {
        Expected::Any
    }
}

/// A phrase that ends at `e` and could have gone on.
pub open spec fn ended<T>(cs: Seq<char>, phrase: T, e: int) -> Outcome<T> {
    Outcome {
        value: Some((phrase, skip(cs, e))),
        misses: seq![Miss { at: e, sought: going_on(cs, e) }],
        nodes: 0,
    }
}

/// A character.
pub open spec fn token(cs: Seq<char>, p: int, c: char) -> Outcome<()> {
    let s = skip(cs, p);
    if 0 <= s < cs.len() && cs[s] == c {
        here((), skip(cs, s + 1))
    } else {
        missed(s, Expected::Token(c))
    }
}

/// A word.
pub open spec fn name(cs: Seq<char>, p: int) -> Outcome<Seq<char>> {
    let s = skip(cs, p);
    if 0 <= s < cs.len() && is_word_start(cs[s]) {
        let e = word_end(cs, s + 1);
        ended(cs, cs.subrange(s, e), e)
    } else {
        missed(s, Expected::Identifier)
    }
}

pub open spec fn keyword_text(word: Keyword) -> Seq<char> {
    match word {
        Keyword::Let => seq!['l', 'e', 't'],
        Keyword::Fn => seq!['f', 'n'],
    }
}

/// A certain word.
pub open spec fn keyword(cs: Seq<char>, p: int, word: Keyword) -> Outcome<()> {
    let s = skip(cs, p);
    let e = word_end(cs, s + 1);
    if 0 <= s < cs.len() && is_word_start(cs[s]) && cs.subrange(s, e) == keyword_text(word) {
        ended(cs, (), e)
    } else {
        missed(s, Expected::Keyword(word))
    }
}

/// A number: zero, or digits that do not begin with a zero.
pub open spec fn number(cs: Seq<char>, p: int) -> Outcome<Seq<char>> {
    let s = skip(cs, p);
    if 0 <= s < cs.len() && cs[s] == '0' {
        Outcome {
            value: Some((cs.subrange(s, s + 1), skip(cs, s + 1))),
            ..missed(s, Expected::Int)
        }
    } else if 0 <= s < cs.len() && is_digit(cs[s]) {
        let e = digits_end(cs, s + 1);
        ended(cs, cs.subrange(s, e), e)
    } else {
        missed(s, Expected::Int)
    }
}

/// Operators that bind alike.
#[derive(Clone, Copy)]
pub enum Tier {
    Sum,
    Product,
}

/// The operators of a tier.
pub open spec fn operators(tier: Tier) -> ((char, Op), (char, Op)) {
    match tier {
        Tier::Sum => (('+', Op::Add), ('-', Op::Sub)),
        Tier::Product => (('*', Op::Mul), ('/', Op::Div)),
    }
}

/// A number, an expression in brackets, a call or a variable.
pub open spec fn atom(cs: Seq<char>, p: int) -> Outcome<Syntax>
    decreases cs.len() - p, 2int,
{
    let i = number(cs, p);
    match i.value {
        Some((digits, q)) => here(Tree::Num(digits), q).plus_node().after(i),
        None => {
            let g = group(cs, p);
            if g.value is Some {
                g.after(i)
            } else {
                let c = call(cs, p);
                if c.value is Some {
                    c.after(g).after(i)
                } else {
                    let x = name(cs, p);
                    (match x.value {
                        Some((word, q)) => here(Tree::Var(word), q).plus_node().after(x),
                        None => x.dropped(),
                    }).after(c).after(g).after(i)
                }
            }
        },
    }
}

/// An expression in brackets.
pub open spec fn group(cs: Seq<char>, p: int) -> Outcome<Syntax>
    decreases cs.len() - p, 1int,
{
    let n = cs.len() as int;
    let a = token(cs, p, '(');
    match a.moved(p, n) {
        None => a.dropped(),
        Some((_, q)) => {
            let x = expr(cs, q);
            match x.value {
                None => x.after(a),
                Some((tree, r)) => {
                    let b = token(cs, r, ')');
                    (match b.value {
                        None => b.dropped(),
                        Some((_, e)) => here(tree, e).after(b),
                    }).after(x).after(a)
                },
            }
        },
    }
}

/// A call: a word, and expressions in brackets with commas between them.
pub open spec fn call(cs: Seq<char>, p: int) -> Outcome<Syntax>
    decreases cs.len() - p, 1int,
{
    let n = cs.len() as int;
    let f = name(cs, p);
    match f.moved(p, n) {
        None => f.dropped(),
        Some((word, q)) => {
            let a = token(cs, q, '(');
            match a.moved(q, n) {
                None => a.dropped().after(f),
                Some((_, r)) => {
                    let xs = items(cs, r);
                    match xs.value {
                        None => xs.dropped().after(a).after(f),
                        Some((args, t)) => {
                            let b = token(cs, t, ')');
                            (match b.value {
                                None => b.dropped(),
                                Some((_, e)) => {
                                    here(Tree::Call(word, args), e).plus_node().after(b)
                                },
                            }).after(xs).after(a).after(f)
                        },
                    }
                },
            }
        },
    }
}

/// Expressions with commas between them, of which one may come after the last.
pub open spec fn items(cs: Seq<char>, p: int) -> Outcome<Seq<Syntax>>
    decreases cs.len() - p, 9int,
{
    let x = expr(cs, p);
    match x.moved(p, cs.len() as int) {
        None => here(Seq::empty(), p).after(x),
        Some((tree, q)) => more_items(cs, q, seq![tree]).after(x),
    }
}

/// What comes behind the expressions `found`.
pub open spec fn more_items(cs: Seq<char>, p: int, found: Seq<Syntax>) -> Outcome<Seq<Syntax>>
    decreases cs.len() - p, 8int,
{
    let n = cs.len() as int;
    let c = token(cs, p, ',');
    match c.moved(p, n) {
        None => here(found, p).after(c),
        Some((_, q)) => {
            let x = expr(cs, q);
            (match x.moved(q, n) {
                None => here(found, q),
                Some((tree, r)) => more_items(cs, r, found.push(tree)),
            }).after(x).after(c)
        },
    }
}

/// An atom with signs before it.
pub open spec fn unary(cs: Seq<char>, p: int) -> Outcome<Syntax>
    decreases cs.len() - p, 3int,
{
    let m = token(cs, p, '-');
    match m.moved(p, cs.len() as int) {
        None => atom(cs, p).after(m),
        Some((_, q)) => {
            let x = unary(cs, q);
            (match x.value {
                None => x,
                Some((tree, r)) => {
                    Outcome { value: Some((Tree::Neg(Box::new(tree)), r)), ..x.plus_node() }
                },
            }).after(m)
        },
    }
}

/// What the operators of a tier stand between.
pub open spec fn operand(cs: Seq<char>, p: int, tier: Tier) -> Outcome<Syntax>
    decreases
            cs.len() - p,
            (match tier {
                Tier::Sum => 6int,
                Tier::Product => 4int,
            }),
{
    match tier {
        Tier::Sum => infix(cs, p, Tier::Product),
        Tier::Product => unary(cs, p),
    }
}

/// Operands with operators of a tier between them.
pub open spec fn infix(cs: Seq<char>, p: int, tier: Tier) -> Outcome<Syntax>
    decreases
            cs.len() - p,
            (match tier {
                Tier::Sum => 7int,
                Tier::Product => 5int,
            }),
{
    let x = operand(cs, p, tier);
    match x.moved(p, cs.len() as int) {
        None => x.dropped(),
        Some((lhs, q)) => chain(cs, q, tier, lhs).after(x),
    }
}

/// What comes behind the expression `lhs`: operators and operands, which bind to the left.
pub open spec fn chain(cs: Seq<char>, p: int, tier: Tier, lhs: Syntax) -> Outcome<Syntax>
    decreases cs.len() - p, 8int,
{
    let n = cs.len() as int;
    let ((c, op), (d, other)) = operators(tier);
    let a = token(cs, p, c);
    match a.moved(p, n) {
        Some((_, q)) => link(cs, p, q, tier, op, lhs).after(a),
        None => {
            let b = token(cs, p, d);
            (match b.moved(p, n) {
                Some((_, q)) => link(cs, p, q, tier, other, lhs),
                None => here(lhs, p),
            }).after(b).after(a)
        },
    }
}

/// What comes behind the expression `lhs`, which ends at `p`, and an operator, which ends at `q`.
/// Without an operand behind it the operator is not taken.
pub open spec fn link(cs: Seq<char>, p: int, q: int, tier: Tier, op: Op, lhs: Syntax) -> Outcome<
    Syntax,
>
    decreases cs.len() - q, 9int,
{
    let y = operand(cs, q, tier);
    (match y.moved(q, cs.len() as int) {
        None => here(lhs, p),
        Some((rhs, e)) => {
            chain(cs, e, tier, Tree::Bin(op, Box::new(lhs), Box::new(rhs))).plus_node()
        },
    }).after(y)
}

/// An expression.
pub open spec fn expr(cs: Seq<char>, p: int) -> Outcome<Syntax>
    decreases cs.len() - p, 8int,
{
    infix(cs, p, Tier::Sum)
}

/// Words, behind the words `found`.
pub open spec fn names(cs: Seq<char>, p: int, found: Seq<Seq<char>>) -> Outcome<Seq<Seq<char>>>
    decreases cs.len() - p,
{
    let x = name(cs, p);
    (match x.moved(p, cs.len() as int) {
        None => here(found, p),
        Some((word, q)) => names(cs, q, found.push(word)),
    }).after(x)
}

/// The right side of a definition and what comes behind it.
pub open spec fn rest(cs: Seq<char>, p: int) -> Outcome<(Syntax, Syntax)>
    decreases cs.len() - p, 8int,
{
    let n = cs.len() as int;
    let e = token(cs, p, '=');
    match e.moved(p, n) {
        None => e.dropped(),
        Some((_, q)) => {
            let x = expr(cs, q);
            match x.moved(q, n) {
                None => x.dropped().after(e),
                Some((rhs, r)) => {
                    let s = token(cs, r, ';');
                    match s.moved(r, n) {
                        None => s.dropped().after(x).after(e),
                        Some((_, t)) => {
                            let d = decl(cs, t);
                            (match d.value {
                                None => d.dropped(),
                                Some((then, u)) => here((rhs, then), u).after(d),
                            }).after(s).after(x).after(e)
                        },
                    }
                },
            }
        },
    }
}

/// The definition of a variable, and what comes behind it.
pub open spec fn let_decl(cs: Seq<char>, p: int) -> Outcome<Syntax>
    decreases cs.len() - p, 8int,
{
    let n = cs.len() as int;
    let k = keyword(cs, p, Keyword::Let);
    match k.moved(p, n) {
        None => k.dropped(),
        Some((_, q)) => {
            let x = name(cs, q);
            match x.moved(q, n) {
                None => x.dropped().after(k),
                Some((word, r)) => {
                    let d = rest(cs, r);
                    (match d.value {
                        None => d.dropped(),
                        Some(((rhs, then), e)) => here(
                            Tree::Let { name: word, rhs: Box::new(rhs), then: Box::new(then) },
                            e,
                        ).plus_node().after(d),
                    }).after(x).after(k)
                },
            }
        },
    }
}

/// The definition of a function, and what comes behind it.
pub open spec fn fn_decl(cs: Seq<char>, p: int) -> Outcome<Syntax>
    decreases cs.len() - p, 8int,
{
    let n = cs.len() as int;
    let k = keyword(cs, p, Keyword::Fn);
    match k.moved(p, n) {
        None => k.dropped(),
        Some((_, q)) => {
            let x = name(cs, q);
            match x.moved(q, n) {
                None => x.dropped().after(k),
                Some((word, r)) => {
                    let xs = names(cs, r, Seq::empty());
                    match xs.moved(q, n) {
                        None => xs.dropped().after(x).after(k),
                        Some((args, t)) => {
                            let d = rest(cs, t);
                            (match d.value {
                                None => d.dropped(),
                                Some(((body, then), e)) => here(
                                    Tree::Fn {
                                        name: word,
                                        args,
                                        body: Box::new(body),
                                        then: Box::new(then),
                                    },
                                    e,
                                ).plus_node().after(d),
                            }).after(xs).after(x).after(k)
                        },
                    }
                },
            }
        },
    }
}

/// Definitions and an expression behind them.
pub open spec fn decl(cs: Seq<char>, p: int) -> Outcome<Syntax>
    decreases cs.len() - p, 9int,
{
    let l = let_decl(cs, p);
    if l.value is Some {
        l
    } else {
        let f = fn_decl(cs, p);
        if f.value is Some {
            f.after(l)
        } else {
            expr(cs, p).after(f).after(l)
        }
    }
}

/// A program: definitions, an expression, and nothing more.
pub open spec fn program(cs: Seq<char>) -> Outcome<Syntax> {
    let d = decl(cs, 0);
    match d.value {
        None => d,
        Some((_, q)) => if q == cs.len() {
            d
        } else {
            missed(q, Expected::EndOfInput).after(d)
        },
    }
}

/// The last place where something was looked for in vain.
pub open spec fn furthest(misses: Seq<Miss>) -> int
    decreases misses.len(),
{
    if misses.len() == 0 {
        0
    } else {
        let before = furthest(misses.drop_last());
        if misses.last().at > before {
            misses.last().at
        } else {
            before
        }
    }
}

/// What was looked for at a place in vain, each thing once.
pub open spec fn sought_at(misses: Seq<Miss>, at: int) -> Seq<Expected>
    decreases misses.len(),
{
    if misses.len() == 0 {
        Seq::empty()
    } else {
        let before = sought_at(misses.drop_last(), at);
        if misses.last().at == at && !before.contains(misses.last().sought) {
            before.push(misses.last().sought)
        } else {
            before
        }
    }
}

} // verus!

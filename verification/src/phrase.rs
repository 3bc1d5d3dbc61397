//! Texts as they are built up: with brackets where the writer puts them, and operators between
//! operands. A text is read as a tree exactly where it is built up so as to mean that tree.

use crate::ast::{Op, Tree};
use crate::error::Keyword;
use crate::extent::{lemma_decl, lemma_skip};
use crate::grammar::{
    atom, call, chain, decl, expr, fn_decl, group, infix, is_digit, is_word_start, items, keyword,
    keyword_text, let_decl, link, more_items, name, names, number, operand, operators, program,
    rest, token, unary, Syntax, Tier,
};
use crate::printing::{
    ahead, comes, is_list_read, is_read, is_stop, lemma_keyword_comes, lemma_name_comes,
    lemma_no_chain, lemma_nothing_read, lemma_number_comes, lemma_read_names, lemma_token_comes,
    sign,
};
use crate::spacing::{lemma_first, lexemes};
use crate::wording::{
    is_numeral, is_word, lemma_name_is_word, lemma_names_are_words, lemma_number_is_numeral,
};
use vstd::prelude::*;

verus! {

/// An expression as it is built up.
pub enum Phrase {
    Number(Seq<char>),
    Variable(Seq<char>),
    /// Brackets around an expression.
    Group(Box<Phrase>),
    /// A call. A comma may come behind the last argument.
    Call { name: Seq<char>, args: Seq<Phrase>, comma: bool },
    /// A sign before an operand.
    Minus(Box<Phrase>),
    /// An operator between two operands, without brackets around them.
    Infix(Op, Box<Phrase>, Box<Phrase>),
}

/// How loosely the parts of a phrase hang together: not at all, as an operand with a sign does, as
/// a product, or as a sum.
pub open spec fn looseness(phrase: Phrase) -> int {
    match phrase {
        Phrase::Minus(_) => 1,
        Phrase::Infix(op, _, _) => operator_looseness(op),
        _ => 0,
    }
}

pub open spec fn operator_looseness(op: Op) -> int {
    match op {
        Op::Mul | Op::Div => 2,
        Op::Add | Op::Sub => 3,
    }
}

/// The phrase is rightly built: the right operand of an operator hangs together more tightly than the
/// operator binds, the left one no more loosely, and what a sign stands before is no operation.
pub open spec fn is_phrase(phrase: Phrase) -> bool
    decreases phrase,
{
    match phrase {
        Phrase::Number(digits) => is_numeral(digits),
        Phrase::Variable(text) => is_word(text),
        Phrase::Group(a) => is_phrase(*a),
        Phrase::Call { name: text, args, comma } => {
            &&& is_word(text)
            &&& comma ==> args.len() > 0
            &&& forall|i: int| 0 <= i < args.len() ==> is_phrase(#[trigger] args[i])
        },
        Phrase::Minus(a) => is_phrase(*a) && looseness(*a) <= 1,
        Phrase::Infix(op, a, b) => {
            &&& is_phrase(*a)
            &&& is_phrase(*b)
            &&& looseness(*a) <= operator_looseness(op)
            &&& looseness(*b) < operator_looseness(op)
        },
    }
}

/// The words, numbers and signs of a phrase.
pub open spec fn text_of(phrase: Phrase) -> Seq<Seq<char>>
    decreases phrase, 0int,
{
    match phrase {
        Phrase::Number(digits) => seq![digits],
        Phrase::Variable(text) => seq![text],
        Phrase::Group(a) => seq![seq!['(']] + text_of(*a) + seq![seq![')']],
        Phrase::Call { name: text, args, comma } => {
            seq![text, seq!['(']] + text_of_list(args, 0) + if comma {
                seq![seq![','], seq![')']]
            } else {
                seq![seq![')']]
            }
        },
        Phrase::Minus(a) => seq![seq!['-']] + text_of(*a),
        Phrase::Infix(op, a, b) => text_of(*a) + seq![seq![sign(op)]] + text_of(*b),
    }
}

/// Those of the phrases of a list from the place `i` on, with commas between them.
pub open spec fn text_of_list(args: Seq<Phrase>, i: int) -> Seq<Seq<char>>
    decreases args, args.len() - i,
{
    if 0 <= i < args.len() {
        if i + 1 < args.len() {
            text_of(args[i]) + seq![seq![',']] + text_of_list(args, i + 1)
        } else {
            text_of(args[i])
        }
    } else {
        Seq::empty()
    }
}

/// What a phrase means: brackets leave no trace, and each operator stands between its operands.
pub open spec fn meant(phrase: Phrase) -> Syntax
    decreases phrase,
{
    match phrase {
        Phrase::Number(digits) => Tree::Num(digits),
        Phrase::Variable(text) => Tree::Var(text),
        Phrase::Group(a) => meant(*a),
        Phrase::Call { name: text, args, .. } => Tree::Call(text, all_meant(args)),
        Phrase::Minus(a) => Tree::Neg(Box::new(meant(*a))),
        Phrase::Infix(op, a, b) => Tree::Bin(op, Box::new(meant(*a)), Box::new(meant(*b))),
    }
}

pub open spec fn all_meant(args: Seq<Phrase>) -> Seq<Syntax>
    decreases args,
{
    if args.len() == 0 {
        Seq::empty()
    } else {
        all_meant(args.drop_last()).push(meant(args.last()))
    }
}

pub proof fn lemma_all_meant(args: Seq<Phrase>)
    ensures
        all_meant(args).len() == args.len(),
        forall|i: int| 0 <= i < args.len() ==> #[trigger] all_meant(args)[i] == meant(args[i]),
    decreases args.len(),
{
    if args.len() > 0 {
        lemma_all_meant(args.drop_last());
    }
}

/// What a phrase begins with.
proof fn lemma_begins(phrase: Phrase)
    requires
        is_phrase(phrase),
    ensures
        text_of(phrase).len() > 0,
        match phrase {
            Phrase::Number(digits) => text_of(phrase)[0] == digits && is_digit(digits[0]),
            Phrase::Variable(text) => text_of(phrase)[0] == text && is_word_start(text[0]),
            Phrase::Call { name: text, .. } => text_of(phrase)[0] == text && is_word_start(text[0]),
            Phrase::Group(_) => text_of(phrase)[0] == seq!['('],
            Phrase::Minus(_) => text_of(phrase)[0] == seq!['-'],
            Phrase::Infix(..) => true,
        },
        looseness(phrase) == 0 ==> text_of(phrase)[0] != seq!['-'],
    decreases phrase,
{
    assert(seq!['-'][0] == '-');
    assert(seq!['('][0] == '(');
    match phrase {
        Phrase::Infix(_, a, _) => {
            lemma_begins(*a);
        },
        _ => {},
    }
}

/// A word at the beginning of a phrase, with `more` behind the phrase, is followed by a sign.
proof fn lemma_second(phrase: Phrase, more: Seq<Seq<char>>)
    requires
        is_phrase(phrase),
        more.len() > 0 ==> !is_word_start(more[0][0]),
    ensures
        ({
            let all = text_of(phrase) + more;
            is_word_start(all[0][0]) && all.len() > 1 ==> !is_word_start(all[1][0])
        }),
    decreases phrase,
{
    assert(seq!['-'][0] == '-' && seq!['('][0] == '(');
    lemma_begins(phrase);
    match phrase {
        Phrase::Infix(op, a, b) => {
            let behind = seq![seq![sign(op)]] + text_of(*b) + more;
            assert(seq![sign(op)][0] == sign(op));
            assert(behind[0] == seq![sign(op)]);
            assert(text_of(phrase) + more =~= text_of(*a) + behind);
            lemma_second(*a, behind);
        },
        _ => {},
    }
}

/// An opening bracket does not come next.
pub open spec fn no_bracket(more: Seq<Seq<char>>) -> bool {
    more.len() > 0 ==> more[0] != seq!['(']
}

/// No operator comes next that would draw a product on.
pub open spec fn no_factor(more: Seq<Seq<char>>) -> bool {
    more.len() > 0 ==> more[0] != seq!['*'] && more[0] != seq!['/']
}

proof fn lemma_atom_read(cs: Seq<char>, p: int, phrase: Phrase, more: Seq<Seq<char>>)
    requires
        is_phrase(phrase),
        looseness(phrase) == 0,
        comes(cs, p, text_of(phrase), more),
        no_bracket(more),
    ensures
        is_read(cs, atom(cs, p).value, p, meant(phrase), more),
    decreases phrase, 0int,
{
    let here = ahead(cs, p);
    lemma_begins(phrase);
    lemma_number_comes(cs, p);
    assert(here[0] == text_of(phrase)[0]);
    assert(seq!['('][0] == '(');
    match phrase {
        Phrase::Number(_) => {
            assert(here.drop_first() =~= more);
        },
        Phrase::Variable(text) => {
            assert(here.drop_first() =~= more);
            lemma_token_comes(cs, p, '(');
            lemma_name_comes(cs, p);
            let q = name(cs, p).value->Some_0.1;
            lemma_token_comes(cs, q, '(');
            assert(group(cs, p).value is None);
            assert(call(cs, p).value is None);
        },
        Phrase::Call { name: text, args, comma } => {
            lemma_call_read(cs, p, text, args, comma, more);
        },
        Phrase::Group(a) => {
            lemma_group_read(cs, p, *a, more);
        },
        _ => {},
    }
}

proof fn lemma_group_read(cs: Seq<char>, p: int, inner: Phrase, more: Seq<Seq<char>>)
    requires
        is_phrase(inner),
        comes(cs, p, seq![seq!['(']] + text_of(inner) + seq![seq![')']], more),
    ensures
        is_read(cs, group(cs, p).value, p, meant(inner), more),
    decreases inner, 5int,
{
    let n = cs.len() as int;
    let close = seq![seq![')']] + more;
    lemma_signs();
    assert(ahead(cs, p) =~= seq![seq!['(']] + (text_of(inner) + close));
    assert(ahead(cs, p)[0] == seq!['(']);
    lemma_token_comes(cs, p, '(');
    let q = token(cs, p, '(').moved(p, n)->Some_0.1;
    assert(ahead(cs, p).drop_first() =~= text_of(inner) + close);
    assert(close[0] == seq![')']);
    lemma_expr_read(cs, q, inner, close);
    let e = expr(cs, q).value->Some_0.1;
    lemma_token_comes(cs, e, ')');
    assert(close.drop_first() =~= more);
}

/// Signs differ.
proof fn lemma_signs()
    ensures
        seq![')'][0] == ')' && seq!['('][0] == '(' && seq![','][0] == ',' && seq!['='][0] == '='
            && seq![';'][0] == ';' && seq!['+'][0] == '+' && seq!['-'][0] == '-' && seq!['*'][0]
            == '*' && seq!['/'][0] == '/',
{
}

/// Where the parts of a call are found, the call is.
proof fn lemma_call_of_parts(cs: Seq<char>, p: int)
    ensures
        ({
            let n = cs.len() as int;
            let (text, q) = name(cs, p).moved(p, n)->Some_0;
            let r = token(cs, q, '(').moved(q, n)->Some_0.1;
            let (args, t) = items(cs, r).value->Some_0;
            let e = token(cs, t, ')').value->Some_0.1;
            name(cs, p).moved(p, n) is Some && token(cs, q, '(').moved(q, n) is Some && items(
                cs,
                r,
            ).value is Some && token(cs, t, ')').value is Some ==> call(cs, p).value == Some(
                (Tree::Call(text, args), e),
            )
        }),
{
}

#[verifier::rlimit(40)]
proof fn lemma_call_read(
    cs: Seq<char>,
    p: int,
    text: Seq<char>,
    args: Seq<Phrase>,
    comma: bool,
    more: Seq<Seq<char>>,
)
    requires
        is_phrase(Phrase::Call { name: text, args, comma }),
        comes(cs, p, text_of(Phrase::Call { name: text, args, comma }), more),
    ensures
        group(cs, p).value is None,
        is_read(cs, call(cs, p).value, p, Tree::Call(text, all_meant(args)), more),
    decreases args, args.len() + 2,
{
    let n = cs.len() as int;
    let close = seq![seq![')']] + more;
    let inside = text_of_list(args, 0) + if comma {
        seq![seq![',']] + close
    } else {
        close
    };
    let open = seq![seq!['(']] + inside;
    lemma_signs();
    lemma_call_text(text, args, comma, inside, more);
    assert(ahead(cs, p) == seq![text] + open);
    assert(ahead(cs, p)[0] == text);
    assert(ahead(cs, p).drop_first() =~= open);
    lemma_token_comes(cs, p, '(');
    lemma_name_comes(cs, p);
    let q = name(cs, p).moved(p, n)->Some_0.1;
    lemma_token_comes(cs, q, '(');
    assert(open[0] == seq!['(']);
    let r = token(cs, q, '(').moved(q, n)->Some_0.1;
    assert(open.drop_first() =~= inside);
    assert(close[0] == seq![')']);
    lemma_items_read(cs, r, args, comma, close);
    let t = items(cs, r).value->Some_0.1;
    lemma_token_comes(cs, t, ')');
    assert(close.drop_first() =~= more);
    lemma_call_of_parts(cs, p);
    assert(group(cs, p).value is None);
}

#[verifier::rlimit(40)]
proof fn lemma_items_read(
    cs: Seq<char>,
    p: int,
    args: Seq<Phrase>,
    comma: bool,
    close: Seq<Seq<char>>,
)
    requires
        forall|i: int| 0 <= i < args.len() ==> is_phrase(#[trigger] args[i]),
        comma ==> args.len() > 0,
        0 <= p <= cs.len(),
        ahead(cs, p) == text_of_list(args, 0) + (if comma {
            seq![seq![',']] + close
        } else {
            close
        }),
        close.len() > 0,
        close[0] == seq![')'],
    ensures
        is_list_read(cs, items(cs, p).value, p, all_meant(args), close),
    decreases args, args.len() + 1,
{
    lemma_signs();
    if args.len() == 0 {
        assert(ahead(cs, p) =~= close);
        assert(all_meant(args) =~= Seq::empty());
        lemma_nothing_read(cs, p);
    } else {
        let end = if comma {
            seq![seq![',']] + close
        } else {
            close
        };
        let next = if args.len() > 1 {
            seq![seq![',']] + text_of_list(args, 1) + end
        } else {
            end
        };
        assert(ahead(cs, p) =~= text_of(args[0]) + next);
        assert(is_stop(next));
        lemma_expr_read(cs, p, args[0], next);
        let q = expr(cs, p).value->Some_0.1;
        lemma_all_meant(args);
        assert(all_meant(args).take(1) =~= seq![meant(args[0])]);
        lemma_more_items_read(cs, q, args, 1, comma, close);
    }
}

#[verifier::rlimit(40)]
proof fn lemma_more_items_read(
    cs: Seq<char>,
    p: int,
    args: Seq<Phrase>,
    i: int,
    comma: bool,
    close: Seq<Seq<char>>,
)
    requires
        0 < i <= args.len(),
        forall|j: int| 0 <= j < args.len() ==> is_phrase(#[trigger] args[j]),
        0 <= p <= cs.len(),
        ({
            let end = if comma {
                seq![seq![',']] + close
            } else {
                close
            };
            ahead(cs, p) == if i < args.len() {
                seq![seq![',']] + text_of_list(args, i) + end
            } else {
                end
            }
        }),
        close.len() > 0,
        close[0] == seq![')'],
    ensures
        is_list_read(
            cs,
            more_items(cs, p, all_meant(args).take(i)).value,
            p,
            all_meant(args),
            close,
        ),
    decreases args, args.len() - i,
{
    let n = cs.len() as int;
    lemma_signs();
    lemma_token_comes(cs, p, ',');
    lemma_all_meant(args);
    let end = if comma {
        seq![seq![',']] + close
    } else {
        close
    };
    if i < args.len() {
        let q = token(cs, p, ',').moved(p, n)->Some_0.1;
        let next = if i + 1 < args.len() {
            seq![seq![',']] + text_of_list(args, i + 1) + end
        } else {
            end
        };
        assert(ahead(cs, p)[0] == seq![',']);
        assert(ahead(cs, p).drop_first() =~= text_of(args[i]) + next);
        assert(is_stop(next));
        lemma_expr_read(cs, q, args[i], next);
        let r = expr(cs, q).value->Some_0.1;
        assert(all_meant(args).take(i + 1) =~= all_meant(args).take(i).push(meant(args[i])));
        lemma_more_items_read(cs, r, args, i + 1, comma, close);
    } else {
        assert(all_meant(args).take(i) =~= all_meant(args));
        if comma {
            assert(ahead(cs, p)[0] == seq![',']);
            let q = token(cs, p, ',').moved(p, n)->Some_0.1;
            assert(ahead(cs, p).drop_first() =~= close);
            lemma_nothing_read(cs, q);
        }
    }
}

proof fn lemma_unary_read(cs: Seq<char>, p: int, phrase: Phrase, more: Seq<Seq<char>>)
    requires
        is_phrase(phrase),
        looseness(phrase) <= 1,
        comes(cs, p, text_of(phrase), more),
        no_bracket(more),
    ensures
        is_read(cs, unary(cs, p).value, p, meant(phrase), more),
    decreases phrase, 1int,
{
    lemma_begins(phrase);
    lemma_token_comes(cs, p, '-');
    assert(ahead(cs, p)[0] == text_of(phrase)[0]);
    match phrase {
        Phrase::Minus(a) => {
            let q = token(cs, p, '-').moved(p, cs.len() as int)->Some_0.1;
            assert(ahead(cs, p).drop_first() =~= text_of(*a) + more);
            lemma_unary_read(cs, q, *a, more);
        },
        _ => {
            lemma_atom_read(cs, p, phrase, more);
        },
    }
}

/// The tier of an operator.
pub open spec fn tier_of(op: Op) -> Tier {
    match op {
        Op::Mul | Op::Div => Tier::Product,
        Op::Add | Op::Sub => Tier::Sum,
    }
}

/// An operator that comes next is found. The place behind it is returned.
proof fn lemma_operator(cs: Seq<char>, p: int, op: Op, behind: Seq<Seq<char>>) -> (q: int)
    requires
        comes(cs, p, seq![seq![sign(op)]], behind),
    ensures
        p < q <= cs.len(),
        ahead(cs, q) == behind,
        forall|lhs: Syntax| #[trigger]
            chain(cs, p, tier_of(op), lhs).value == link(cs, p, q, tier_of(op), op, lhs).value,
{
    let n = cs.len() as int;
    let ((c, _), (d, _)) = operators(tier_of(op));
    lemma_signs();
    assert(seq![sign(op)][0] == sign(op));
    assert(ahead(cs, p)[0] == seq![sign(op)]);
    assert(ahead(cs, p).drop_first() =~= behind);
    lemma_token_comes(cs, p, c);
    lemma_token_comes(cs, p, d);
    token(cs, p, sign(op)).moved(p, n)->Some_0.1
}

/// Behind a product, what comes is what comes of going on with operators of products.
proof fn lemma_product_read(cs: Seq<char>, p: int, phrase: Phrase, more: Seq<Seq<char>>) -> (q: int)
    requires
        is_phrase(phrase),
        looseness(phrase) <= 2,
        comes(cs, p, text_of(phrase), more),
        no_bracket(more),
    ensures
        p < q <= cs.len(),
        ahead(cs, q) == more,
        infix(cs, p, Tier::Product).value == chain(cs, q, Tier::Product, meant(phrase)).value,
    decreases phrase, 2int,
{
    match phrase {
        Phrase::Infix(op, a, b) => {
            let behind = text_of(*b) + more;
            let middle = seq![seq![sign(op)]] + behind;
            assert(ahead(cs, p) =~= text_of(*a) + middle);
            lemma_signs();
            assert(seq![sign(op)][0] == sign(op));
            assert(middle[0] == seq![sign(op)]);
            let q = lemma_product_read(cs, p, *a, middle);
            let r = lemma_operator(cs, q, op, behind);
            lemma_unary_read(cs, r, *b, more);
            assert(operand(cs, r, Tier::Product) == unary(cs, r));
            let e = unary(cs, r).value->Some_0.1;
            assert(chain(cs, q, Tier::Product, meant(*a)).value == link(
                cs,
                q,
                r,
                Tier::Product,
                op,
                meant(*a),
            ).value);
            e
        },
        _ => {
            lemma_unary_read(cs, p, phrase, more);
            assert(operand(cs, p, Tier::Product) == unary(cs, p));
            unary(cs, p).value->Some_0.1
        },
    }
}

/// Behind a sum, what comes is what comes of going on with operators of sums.
proof fn lemma_sum_read(cs: Seq<char>, p: int, phrase: Phrase, more: Seq<Seq<char>>) -> (q: int)
    requires
        is_phrase(phrase),
        comes(cs, p, text_of(phrase), more),
        no_bracket(more),
        no_factor(more),
    ensures
        p < q <= cs.len(),
        ahead(cs, q) == more,
        infix(cs, p, Tier::Sum).value == chain(cs, q, Tier::Sum, meant(phrase)).value,
    decreases phrase, 3int,
{
    if looseness(phrase) <= 2 {
        let q = lemma_product_read(cs, p, phrase, more);
        lemma_no_chain(cs, q, Tier::Product, meant(phrase));
        assert(operand(cs, p, Tier::Sum) == infix(cs, p, Tier::Product));
        q
    } else {
        let op = phrase->Infix_0;
        let a = *phrase->Infix_1;
        let b = *phrase->Infix_2;
        let behind = text_of(b) + more;
        let middle = seq![seq![sign(op)]] + behind;
        assert(ahead(cs, p) =~= text_of(a) + middle);
        lemma_signs();
        assert(seq![sign(op)][0] == sign(op));
        assert(middle[0] == seq![sign(op)]);
        let q = lemma_sum_read(cs, p, a, middle);
        let r = lemma_operator(cs, q, op, behind);
        let e = lemma_product_read(cs, r, b, more);
        lemma_no_chain(cs, e, Tier::Product, meant(b));
        assert(operand(cs, r, Tier::Sum) == infix(cs, r, Tier::Product));
        assert(chain(cs, q, Tier::Sum, meant(a)).value == link(
            cs,
            q,
            r,
            Tier::Sum,
            op,
            meant(a),
        ).value);
        e
    }
}

proof fn lemma_expr_read(cs: Seq<char>, p: int, phrase: Phrase, more: Seq<Seq<char>>)
    requires
        is_phrase(phrase),
        comes(cs, p, text_of(phrase), more),
        is_stop(more),
    ensures
        is_read(cs, expr(cs, p).value, p, meant(phrase), more),
    decreases phrase, 4int,
{
    let q = lemma_sum_read(cs, p, phrase, more);
    lemma_no_chain(cs, q, Tier::Sum, meant(phrase));
}

/// A program as it is built up.
pub enum Source {
    Let { name: Seq<char>, rhs: Phrase, then: Box<Source> },
    Fn { name: Seq<char>, args: Seq<Seq<char>>, body: Phrase, then: Box<Source> },
    Last(Phrase),
}

pub open spec fn is_source(source: Source) -> bool
    decreases source,
{
    match source {
        Source::Let { name: text, rhs, then } => {
            is_word(text) && is_phrase(rhs) && is_source(*then)
        },
        Source::Fn { name: text, args, body, then } => {
            &&& is_word(text)
            &&& forall|i: int| 0 <= i < args.len() ==> is_word(#[trigger] args[i])
            &&& is_phrase(body)
            &&& is_source(*then)
        },
        Source::Last(phrase) => is_phrase(phrase),
    }
}

/// The right side of a definition, and `more` behind it.
pub open spec fn side(rhs: Phrase, more: Seq<Seq<char>>) -> Seq<Seq<char>> {
    seq![seq!['=']] + (text_of(rhs) + (seq![seq![';']] + more))
}

/// The words, numbers and signs of a program.
pub open spec fn source_text(source: Source) -> Seq<Seq<char>>
    decreases source,
{
    match source {
        Source::Let { name: text, rhs, then } => {
            seq![seq!['l', 'e', 't'], text] + side(rhs, source_text(*then))
        },
        Source::Fn { name: text, args, body, then } => {
            seq![seq!['f', 'n'], text] + (args + side(body, source_text(*then)))
        },
        Source::Last(phrase) => text_of(phrase),
    }
}

/// What a program means.
pub open spec fn source_meant(source: Source) -> Syntax
    decreases source,
{
    match source {
        Source::Let { name: text, rhs, then } => Tree::Let {
            name: text,
            rhs: Box::new(meant(rhs)),
            then: Box::new(source_meant(*then)),
        },
        Source::Fn { name: text, args, body, then } => Tree::Fn {
            name: text,
            args,
            body: Box::new(meant(body)),
            then: Box::new(source_meant(*then)),
        },
        Source::Last(phrase) => meant(phrase),
    }
}

#[verifier::rlimit(40)]
proof fn lemma_rest_read(cs: Seq<char>, p: int, rhs: Phrase, then: Source)
    requires
        is_phrase(rhs),
        is_source(then),
        0 <= p <= cs.len(),
        ahead(cs, p) == side(rhs, source_text(then)),
    ensures
        is_read(cs, rest(cs, p).value, p, (meant(rhs), source_meant(then)), Seq::empty()),
    decreases then, 6int,
{
    let n = cs.len() as int;
    let more = source_text(then);
    let next = seq![seq![';']] + more;
    lemma_signs();
    assert(ahead(cs, p)[0] == seq!['=']);
    lemma_token_comes(cs, p, '=');
    let q = token(cs, p, '=').moved(p, n)->Some_0.1;
    assert(ahead(cs, p).drop_first() =~= text_of(rhs) + next);
    assert(next[0] == seq![';']);
    lemma_expr_read(cs, q, rhs, next);
    let r = expr(cs, q).value->Some_0.1;
    lemma_token_comes(cs, r, ';');
    let t = token(cs, r, ';').moved(r, n)->Some_0.1;
    assert(next.drop_first() =~= more);
    lemma_source_read(cs, t, then);
}

#[verifier::rlimit(40)]
proof fn lemma_let_read(cs: Seq<char>, p: int, text: Seq<char>, rhs: Phrase, then: Source)
    requires
        is_word(text),
        is_phrase(rhs),
        is_source(then),
        0 <= p <= cs.len(),
        ahead(cs, p) == seq![seq!['l', 'e', 't'], text] + side(rhs, source_text(then)),
    ensures
        is_read(
            cs,
            let_decl(cs, p).value,
            p,
            Tree::Let {
                name: text,
                rhs: Box::new(meant(rhs)),
                then: Box::new(source_meant(then)),
            },
            Seq::empty(),
        ),
    decreases then, 7int,
{
    let n = cs.len() as int;
    let right = side(rhs, source_text(then));
    lemma_keyword_comes(cs, p, Keyword::Let);
    assert(keyword_text(Keyword::Let) =~= seq!['l', 'e', 't']);
    assert(ahead(cs, p)[0] == seq!['l', 'e', 't']);
    assert(ahead(cs, p).drop_first() =~= seq![text] + right);
    let q = keyword(cs, p, Keyword::Let).moved(p, n)->Some_0.1;
    lemma_name_comes(cs, q);
    assert(ahead(cs, q)[0] == text);
    let r = name(cs, q).moved(q, n)->Some_0.1;
    assert((seq![text] + right).drop_first() =~= right);
    lemma_rest_read(cs, r, rhs, then);
}

#[verifier::rlimit(40)]
proof fn lemma_fn_read(
    cs: Seq<char>,
    p: int,
    text: Seq<char>,
    args: Seq<Seq<char>>,
    body: Phrase,
    then: Source,
)
    requires
        is_word(text),
        forall|i: int| 0 <= i < args.len() ==> is_word(#[trigger] args[i]),
        is_phrase(body),
        is_source(then),
        0 <= p <= cs.len(),
        ahead(cs, p) == seq![seq!['f', 'n'], text] + (args + side(body, source_text(then))),
    ensures
        is_read(
            cs,
            fn_decl(cs, p).value,
            p,
            Tree::Fn {
                name: text,
                args,
                body: Box::new(meant(body)),
                then: Box::new(source_meant(then)),
            },
            Seq::empty(),
        ),
        let_decl(cs, p).value is None,
    decreases then, 7int,
{
    let n = cs.len() as int;
    let right = side(body, source_text(then));
    lemma_keyword_comes(cs, p, Keyword::Fn);
    lemma_keyword_comes(cs, p, Keyword::Let);
    assert(keyword_text(Keyword::Fn) =~= seq!['f', 'n']);
    assert(keyword_text(Keyword::Let).len() == 3);
    assert(ahead(cs, p)[0] == seq!['f', 'n']);
    assert(ahead(cs, p).drop_first() =~= seq![text] + (args + right));
    let q = keyword(cs, p, Keyword::Fn).moved(p, n)->Some_0.1;
    lemma_name_comes(cs, q);
    assert(ahead(cs, q)[0] == text);
    let r = name(cs, q).moved(q, n)->Some_0.1;
    assert((seq![text] + (args + right)).drop_first() =~= args + right);
    assert(args.skip(0) =~= args && args.take(0) =~= Seq::empty());
    assert(right[0] == seq!['=']);
    lemma_read_names(cs, r, args, 0, right);
    let t = names(cs, r, Seq::empty()).value->Some_0.1;
    lemma_rest_read(cs, t, body, then);
}

#[verifier::rlimit(40)]
proof fn lemma_source_read(cs: Seq<char>, p: int, source: Source)
    requires
        is_source(source),
        0 <= p <= cs.len(),
        ahead(cs, p) == source_text(source),
    ensures
        is_read(cs, decl(cs, p).value, p, source_meant(source), Seq::empty()),
    decreases source, 5int,
{
    match source {
        Source::Let { name: text, rhs, then } => {
            lemma_let_read(cs, p, text, rhs, *then);
        },
        Source::Fn { name: text, args, body, then } => {
            lemma_fn_read(cs, p, text, args, body, *then);
        },
        Source::Last(phrase) => {
            let n = cs.len() as int;
            assert(ahead(cs, p) =~= text_of(phrase) + Seq::empty());
            lemma_second(phrase, Seq::empty());
            lemma_keyword_comes(cs, p, Keyword::Let);
            lemma_keyword_comes(cs, p, Keyword::Fn);
            assert(is_word_start(keyword_text(Keyword::Let)[0]));
            assert(is_word_start(keyword_text(Keyword::Fn)[0]));
            match keyword(cs, p, Keyword::Let).moved(p, n) {
                Some((_, q)) => {
                    lemma_name_comes(cs, q);
                },
                None => {},
            }
            match keyword(cs, p, Keyword::Fn).moved(p, n) {
                Some((_, q)) => {
                    lemma_name_comes(cs, q);
                },
                None => {},
            }
            assert(let_decl(cs, p).value is None);
            assert(fn_decl(cs, p).value is None);
            lemma_expr_read(cs, p, phrase, Seq::empty());
        },
    }
}

/// A text that is built up as a program is, however it is spaced, is read as what it means.
pub proof fn law_a_text_is_read_as_it_is_meant(cs: Seq<char>, source: Source)
    requires
        is_source(source),
        lexemes(cs, 0) == source_text(source),
    ensures
        program(cs).value == Some((source_meant(source), cs.len() as int)),
{
    reveal(ahead);
    lemma_source_read(cs, 0, source);
    lemma_decl(cs, 0);
    let q = decl(cs, 0).value->Some_0.1;
    lemma_first(cs, q);
}

/// Operands with operators between them, built up from the left.
pub open spec fn run_of(first: Phrase, others: Seq<(Op, Phrase)>) -> Phrase
    decreases others.len(),
{
    if others.len() == 0 {
        first
    } else {
        let (op, last) = others.last();
        Phrase::Infix(op, Box::new(run_of(first, others.drop_last())), Box::new(last))
    }
}

/// Operators and operands, one after the other.
pub open spec fn text_of_others(others: Seq<(Op, Phrase)>) -> Seq<Seq<char>>
    decreases others.len(),
{
    if others.len() == 0 {
        Seq::empty()
    } else {
        let (op, last) = others.last();
        text_of_others(others.drop_last()) + seq![seq![sign(op)]] + text_of(last)
    }
}

/// What is read of operands with operators between them: each operator stands between all that is
/// before it and the one operand behind it.
pub open spec fn folded(first: Syntax, others: Seq<(Op, Phrase)>) -> Syntax
    decreases others.len(),
{
    if others.len() == 0 {
        first
    } else {
        let (op, last) = others.last();
        Tree::Bin(op, Box::new(folded(first, others.drop_last())), Box::new(meant(last)))
    }
}

proof fn lemma_run(first: Phrase, others: Seq<(Op, Phrase)>, tier: Tier)
    requires
        is_phrase(first),
        looseness(first) < tier_looseness(tier),
        forall|i: int|
            #![trigger others[i]]
            0 <= i < others.len() ==> {
                &&& tier_of(others[i].0) == tier
                &&& is_phrase(others[i].1)
                &&& looseness(others[i].1) < tier_looseness(tier)
            },
    ensures
        is_phrase(run_of(first, others)),
        looseness(run_of(first, others)) <= tier_looseness(tier),
        text_of(run_of(first, others)) == text_of(first) + text_of_others(others),
        meant(run_of(first, others)) == folded(meant(first), others),
    decreases others.len(),
{
    if others.len() > 0 {
        let rest = others.drop_last();
        assert forall|i: int| #![trigger rest[i]] 0 <= i < rest.len() implies {
            &&& tier_of(rest[i].0) == tier
            &&& is_phrase(rest[i].1)
            &&& looseness(rest[i].1) < tier_looseness(tier)
        } by {
            assert(rest[i] == others[i]);
        }
        lemma_run(first, rest, tier);
        let (op, last) = others.last();
        assert(others[others.len() - 1] == (op, last));
        assert(text_of(run_of(first, others)) =~= text_of(first) + text_of_others(others));
    } else {
        assert(text_of(first) + text_of_others(others) =~= text_of(first));
    }
}

/// How loosely the operators of a tier bind.
pub open spec fn tier_looseness(tier: Tier) -> int {
    match tier {
        Tier::Product => 2,
        Tier::Sum => 3,
    }
}

/// Operators bind to the left: a text of operands with operators of one tier between them, and
/// without brackets around them, is read so that each operator, whatever comes behind its right
/// operand, stands between all that is before it and that operand.
pub proof fn law_operators_bind_to_the_left(
    cs: Seq<char>,
    first: Phrase,
    others: Seq<(Op, Phrase)>,
    tier: Tier,
)
    requires
        is_phrase(first),
        looseness(first) < tier_looseness(tier),
        forall|i: int|
            #![trigger others[i]]
            0 <= i < others.len() ==> {
                &&& tier_of(others[i].0) == tier
                &&& is_phrase(others[i].1)
                &&& looseness(others[i].1) < tier_looseness(tier)
            },
        lexemes(cs, 0) == text_of(first) + text_of_others(others),
    ensures
        program(cs).value == Some((folded(meant(first), others), cs.len() as int)),
{
    lemma_run(first, others, tier);
    law_a_text_is_read_as_it_is_meant(cs, Source::Last(run_of(first, others)));
}

/// Brackets around an expression that is a whole program leave no trace.
pub proof fn law_brackets_leave_no_trace(cs: Seq<char>, ds: Seq<char>, phrase: Phrase)
    requires
        is_phrase(phrase),
        lexemes(cs, 0) == text_of(phrase),
        lexemes(ds, 0) == seq![seq!['(']] + text_of(phrase) + seq![seq![')']],
    ensures
        program(cs).value is Some,
        program(ds).value is Some,
        program(ds).value->Some_0.0 == program(cs).value->Some_0.0,
{
    law_a_text_is_read_as_it_is_meant(cs, Source::Last(phrase));
    law_a_text_is_read_as_it_is_meant(ds, Source::Last(Phrase::Group(Box::new(phrase))));
}

/// What is found from `p` up to `q` is what the phrase, which stands there, means.
pub open spec fn stands(cs: Seq<char>, p: int, q: int, phrase: Phrase, tree: Syntax) -> bool {
    &&& is_phrase(phrase)
    &&& meant(phrase) == tree
    &&& 0 <= p < q <= cs.len()
    &&& ahead(cs, p) == text_of(phrase) + ahead(cs, q)
}

proof fn lemma_atom_stands(cs: Seq<char>, p: int) -> (phrase: Phrase)
    requires
        0 <= p <= cs.len(),
        atom(cs, p).value is Some,
    ensures
        stands(cs, p, atom(cs, p).value->Some_0.1, phrase, atom(cs, p).value->Some_0.0),
        looseness(phrase) == 0,
    decreases cs.len() - p, 2int,
{
    lemma_number_comes(cs, p);
    lemma_number_is_numeral(cs, p);
    lemma_name_comes(cs, p);
    lemma_name_is_word(cs, p);
    if number(cs, p).value is Some {
        let (digits, q) = number(cs, p).value->Some_0;
        assert(ahead(cs, p) =~= seq![digits] + ahead(cs, q));
        Phrase::Number(digits)
    } else if group(cs, p).value is Some {
        lemma_group_stands(cs, p)
    } else if call(cs, p).value is Some {
        lemma_call_stands(cs, p)
    } else {
        let (text, q) = name(cs, p).value->Some_0;
        assert(ahead(cs, p) =~= seq![text] + ahead(cs, q));
        Phrase::Variable(text)
    }
}

#[verifier::rlimit(40)]
proof fn lemma_group_stands(cs: Seq<char>, p: int) -> (phrase: Phrase)
    requires
        0 <= p <= cs.len(),
        group(cs, p).value is Some,
    ensures
        stands(cs, p, group(cs, p).value->Some_0.1, phrase, group(cs, p).value->Some_0.0),
        looseness(phrase) == 0,
    decreases cs.len() - p, 1int,
{
    let n = cs.len() as int;
    lemma_token_comes(cs, p, '(');
    let q = token(cs, p, '(').moved(p, n)->Some_0.1;
    let inner = lemma_expr_stands(cs, q);
    let r = expr(cs, q).value->Some_0.1;
    lemma_token_comes(cs, r, ')');
    let e = token(cs, r, ')').value->Some_0.1;
    let phrase = Phrase::Group(Box::new(inner));
    assert(ahead(cs, r) =~= seq![seq![')']] + ahead(cs, e));
    assert(ahead(cs, p) =~= seq![seq!['(']] + ahead(cs, q));
    assert(ahead(cs, p) =~= text_of(phrase) + ahead(cs, e));
    phrase
}

/// What comes next, and what comes behind it.
pub proof fn lemma_split(here: Seq<Seq<char>>, first: Seq<char>, behind: Seq<Seq<char>>)
    requires
        here.len() > 0,
        here[0] == first,
        behind == here.drop_first(),
    ensures
        here == seq![first] + behind,
{
    assert(here =~= seq![first] + behind);
}

/// Where a call is found, its parts are.
proof fn lemma_call_parts(cs: Seq<char>, p: int)
    requires
        call(cs, p).value is Some,
    ensures
        ({
            let n = cs.len() as int;
            let (text, q) = name(cs, p).moved(p, n)->Some_0;
            let r = token(cs, q, '(').moved(q, n)->Some_0.1;
            let (args, t) = items(cs, r).value->Some_0;
            let e = token(cs, t, ')').value->Some_0.1;
            &&& name(cs, p).moved(p, n) is Some
            &&& token(cs, q, '(').moved(q, n) is Some
            &&& items(cs, r).value is Some
            &&& token(cs, t, ')').value is Some
            &&& call(cs, p).value == Some((Tree::Call(text, args), e))
        }),
{
}

/// The words, numbers and signs of a call, put together.
proof fn lemma_call_text(
    text: Seq<char>,
    args: Seq<Phrase>,
    comma: bool,
    inside: Seq<Seq<char>>,
    more: Seq<Seq<char>>,
)
    requires
        inside == text_of_list(args, 0) + (if comma {
            seq![seq![',']] + (seq![seq![')']] + more)
        } else {
            seq![seq![')']] + more
        }),
    ensures
        seq![text] + (seq![seq!['(']] + inside) == text_of(Phrase::Call { name: text, args, comma })
            + more,
{
    assert(seq![text] + (seq![seq!['(']] + inside) =~= text_of(
        Phrase::Call { name: text, args, comma },
    ) + more);
}

#[verifier::rlimit(40)]
proof fn lemma_call_stands(cs: Seq<char>, p: int) -> (phrase: Phrase)
    requires
        0 <= p <= cs.len(),
        call(cs, p).value is Some,
    ensures
        stands(cs, p, call(cs, p).value->Some_0.1, phrase, call(cs, p).value->Some_0.0),
        looseness(phrase) == 0,
    decreases cs.len() - p, 1int,
{
    let n = cs.len() as int;
    lemma_call_parts(cs, p);
    lemma_name_comes(cs, p);
    lemma_name_is_word(cs, p);
    let (text, q) = name(cs, p).moved(p, n)->Some_0;
    lemma_token_comes(cs, q, '(');
    let r = token(cs, q, '(').moved(q, n)->Some_0.1;
    let (args, comma) = lemma_items_stand(cs, r);
    let t = items(cs, r).value->Some_0.1;
    lemma_token_comes(cs, t, ')');
    let e = token(cs, t, ')').value->Some_0.1;
    lemma_split(ahead(cs, t), seq![')'], ahead(cs, e));
    lemma_split(ahead(cs, q), seq!['('], ahead(cs, r));
    lemma_split(ahead(cs, p), text, ahead(cs, q));
    lemma_call_text(text, args, comma, ahead(cs, r), ahead(cs, e));
    Phrase::Call { name: text, args, comma }
}

/// What is found from `p` up to `q` is what the phrases mean that stand there, with commas between
/// them and, where `comma` says so, behind the last.
pub open spec fn stand(
    cs: Seq<char>,
    p: int,
    q: int,
    args: Seq<Phrase>,
    comma: bool,
    trees: Seq<Syntax>,
) -> bool {
    &&& forall|i: int| 0 <= i < args.len() ==> is_phrase(#[trigger] args[i])
    &&& all_meant(args) == trees
    &&& comma ==> args.len() > 0
    &&& 0 <= p <= q <= cs.len()
    &&& ahead(cs, p) == text_of_list(args, 0) + (if comma {
        seq![seq![',']] + ahead(cs, q)
    } else {
        ahead(cs, q)
    })
}

pub proof fn lemma_items_stand(cs: Seq<char>, p: int) -> (found: (Seq<Phrase>, bool))
    requires
        0 <= p <= cs.len(),
    ensures
        items(cs, p).value matches Some((trees, q)) && stand(cs, p, q, found.0, found.1, trees),
    decreases cs.len() - p, 9int,
{
    match expr(cs, p).moved(p, cs.len() as int) {
        None => {
            let args = Seq::<Phrase>::empty();
            assert(all_meant(args) =~= Seq::empty());
            assert(ahead(cs, p) =~= text_of_list(args, 0) + ahead(cs, p));
            (args, false)
        },
        Some((tree, q)) => {
            let phrase = lemma_expr_stands(cs, p);
            let args = seq![phrase];
            lemma_all_meant(args);
            assert(all_meant(args) =~= seq![tree]);
            assert(text_of_list(args, 0) == text_of(phrase));
            lemma_more_items_stand(cs, p, q, args)
        },
    }
}

/// One more phrase behind those of a list.
pub proof fn lemma_list_grows(args: Seq<Phrase>, last: Phrase, i: int)
    requires
        0 <= i < args.len(),
    ensures
        text_of_list(args.push(last), i) == text_of_list(args, i) + seq![seq![',']] + text_of(last),
    decreases args.len() - i,
{
    let more = args.push(last);
    assert(more[i] == args[i]);
    if i + 1 < args.len() {
        lemma_list_grows(args, last, i + 1);
    } else {
        assert(text_of_list(more, i + 1) == text_of(last));
    }
    assert(text_of_list(more, i) =~= text_of_list(args, i) + seq![seq![',']] + text_of(last));
}

#[verifier::rlimit(40)]
pub proof fn lemma_more_items_stand(cs: Seq<char>, start: int, p: int, args: Seq<Phrase>) -> (found: (
    Seq<Phrase>,
    bool,
))
    requires
        args.len() > 0,
        stand(cs, start, p, args, false, all_meant(args)),
    ensures
        more_items(cs, p, all_meant(args)).value matches Some((trees, q)) && stand(
            cs,
            start,
            q,
            found.0,
            found.1,
            trees,
        ),
    decreases cs.len() - p, 8int,
{
    let n = cs.len() as int;
    lemma_token_comes(cs, p, ',');
    match token(cs, p, ',').moved(p, n) {
        None => (args, false),
        Some((_, q)) => {
            assert(ahead(cs, p) =~= seq![seq![',']] + ahead(cs, q));
            match expr(cs, q).moved(q, n) {
                None => (args, true),
                Some((tree, r)) => {
                    let phrase = lemma_expr_stands(cs, q);
                    let all = args.push(phrase);
                    lemma_list_grows(args, phrase, 0);
                    assert(all.drop_last() =~= args);
                    assert(all_meant(all) =~= all_meant(args).push(tree));
                    assert(ahead(cs, start) =~= text_of_list(all, 0) + ahead(cs, r));
                    assert forall|i: int| 0 <= i < all.len() implies is_phrase(
                        #[trigger] all[i],
                    ) by {
                        if i < args.len() {
                            assert(all[i] == args[i]);
                        }
                    }
                    lemma_more_items_stand(cs, start, r, all)
                },
            }
        },
    }
}

proof fn lemma_unary_stands(cs: Seq<char>, p: int) -> (phrase: Phrase)
    requires
        0 <= p <= cs.len(),
        unary(cs, p).value is Some,
    ensures
        stands(cs, p, unary(cs, p).value->Some_0.1, phrase, unary(cs, p).value->Some_0.0),
        looseness(phrase) <= 1,
    decreases cs.len() - p, 3int,
{
    lemma_token_comes(cs, p, '-');
    match token(cs, p, '-').moved(p, cs.len() as int) {
        None => lemma_atom_stands(cs, p),
        Some((_, q)) => {
            let inner = lemma_unary_stands(cs, q);
            let phrase = Phrase::Minus(Box::new(inner));
            let e = unary(cs, p).value->Some_0.1;
            assert(ahead(cs, p) =~= seq![seq!['-']] + ahead(cs, q));
            assert(ahead(cs, p) =~= text_of(phrase) + ahead(cs, e));
            phrase
        },
    }
}

pub proof fn lemma_operand_stands(cs: Seq<char>, p: int, tier: Tier) -> (phrase: Phrase)
    requires
        0 <= p <= cs.len(),
        operand(cs, p, tier).value is Some,
    ensures
        stands(
            cs,
            p,
            operand(cs, p, tier).value->Some_0.1,
            phrase,
            operand(cs, p, tier).value->Some_0.0,
        ),
        looseness(phrase) < tier_looseness(tier),
    decreases
            cs.len() - p,
            (match tier {
                Tier::Sum => 6int,
                Tier::Product => 4int,
            }),
{
    match tier {
        Tier::Sum => lemma_infix_stands(cs, p, Tier::Product),
        Tier::Product => lemma_unary_stands(cs, p),
    }
}

proof fn lemma_infix_stands(cs: Seq<char>, p: int, tier: Tier) -> (phrase: Phrase)
    requires
        0 <= p <= cs.len(),
        infix(cs, p, tier).value is Some,
    ensures
        stands(
            cs,
            p,
            infix(cs, p, tier).value->Some_0.1,
            phrase,
            infix(cs, p, tier).value->Some_0.0,
        ),
        looseness(phrase) <= tier_looseness(tier),
    decreases
            cs.len() - p,
            (match tier {
                Tier::Sum => 7int,
                Tier::Product => 5int,
            }),
{
    let first = lemma_operand_stands(cs, p, tier);
    let q = operand(cs, p, tier).value->Some_0.1;
    lemma_chain_stands(cs, p, q, tier, first)
}

/// What is found behind a phrase goes on with it.
proof fn lemma_chain_stands(cs: Seq<char>, start: int, p: int, tier: Tier, lhs: Phrase) -> (phrase:
    Phrase)
    requires
        stands(cs, start, p, lhs, meant(lhs)),
        looseness(lhs) <= tier_looseness(tier),
    ensures
        chain(cs, p, tier, meant(lhs)).value matches Some((tree, e)) && stands(
            cs,
            start,
            e,
            phrase,
            tree,
        ),
        looseness(phrase) <= tier_looseness(tier),
    decreases cs.len() - p, 8int,
{
    let n = cs.len() as int;
    let ((c, op), (d, other)) = operators(tier);
    lemma_token_comes(cs, p, c);
    lemma_token_comes(cs, p, d);
    match token(cs, p, c).moved(p, n) {
        Some((_, q)) => lemma_link_stands(cs, start, p, q, tier, op, lhs),
        None => match token(cs, p, d).moved(p, n) {
            Some((_, q)) => lemma_link_stands(cs, start, p, q, tier, other, lhs),
            None => lhs,
        },
    }
}

proof fn lemma_link_stands(
    cs: Seq<char>,
    start: int,
    p: int,
    q: int,
    tier: Tier,
    op: Op,
    lhs: Phrase,
) -> (phrase: Phrase)
    requires
        stands(cs, start, p, lhs, meant(lhs)),
        looseness(lhs) <= tier_looseness(tier),
        tier_of(op) == tier,
        p < q <= cs.len(),
        ahead(cs, p).len() > 0,
        ahead(cs, p)[0] == seq![sign(op)],
        ahead(cs, q) == ahead(cs, p).drop_first(),
    ensures
        link(cs, p, q, tier, op, meant(lhs)).value matches Some((tree, e)) && stands(
            cs,
            start,
            e,
            phrase,
            tree,
        ),
        looseness(phrase) <= tier_looseness(tier),
    decreases cs.len() - q, 9int,
{
    match operand(cs, q, tier).moved(q, cs.len() as int) {
        None => lhs,
        Some((tree, e)) => {
            let rhs = lemma_operand_stands(cs, q, tier);
            let both = Phrase::Infix(op, Box::new(lhs), Box::new(rhs));
            assert(ahead(cs, p) =~= seq![seq![sign(op)]] + ahead(cs, q));
            assert(ahead(cs, start) =~= text_of(both) + ahead(cs, e));
            lemma_chain_stands(cs, start, e, tier, both)
        },
    }
}

pub proof fn lemma_expr_stands(cs: Seq<char>, p: int) -> (phrase: Phrase)
    requires
        0 <= p <= cs.len(),
        expr(cs, p).value is Some,
    ensures
        stands(cs, p, expr(cs, p).value->Some_0.1, phrase, expr(cs, p).value->Some_0.0),
    decreases cs.len() - p, 8int,
{
    lemma_infix_stands(cs, p, Tier::Sum)
}

/// What is found from `p` up to `q` is what the program, which stands there, means.
pub open spec fn source_stands(
    cs: Seq<char>,
    p: int,
    q: int,
    source: Source,
    tree: Syntax,
) -> bool {
    &&& is_source(source)
    &&& source_meant(source) == tree
    &&& 0 <= p < q <= cs.len()
    &&& ahead(cs, p) == source_text(source) + ahead(cs, q)
}

#[verifier::rlimit(40)]
proof fn lemma_rest_stands(cs: Seq<char>, p: int) -> (found: (Phrase, Source))
    requires
        0 <= p <= cs.len(),
        rest(cs, p).value is Some,
    ensures
        rest(cs, p).value matches Some(((rhs, then), q)) && {
            &&& is_phrase(found.0)
            &&& meant(found.0) == rhs
            &&& is_source(found.1)
            &&& source_meant(found.1) == then
            &&& p < q <= cs.len()
            &&& ahead(cs, p) == side(found.0, source_text(found.1)) + ahead(cs, q)
        },
    decreases cs.len() - p, 8int,
{
    let n = cs.len() as int;
    lemma_token_comes(cs, p, '=');
    let q = token(cs, p, '=').moved(p, n)->Some_0.1;
    let rhs = lemma_expr_stands(cs, q);
    let r = expr(cs, q).moved(q, n)->Some_0.1;
    lemma_token_comes(cs, r, ';');
    let t = token(cs, r, ';').moved(r, n)->Some_0.1;
    let then = lemma_decl_stands(cs, t);
    let u = decl(cs, t).value->Some_0.1;
    assert(ahead(cs, p) =~= seq![seq!['=']] + ahead(cs, q));
    assert(ahead(cs, r) =~= seq![seq![';']] + ahead(cs, t));
    assert(ahead(cs, p) =~= side(rhs, source_text(then)) + ahead(cs, u));
    (rhs, then)
}

/// Where the definition of a variable is found, its parts are.
proof fn lemma_let_parts(cs: Seq<char>, p: int)
    requires
        let_decl(cs, p).value is Some,
    ensures
        ({
            let n = cs.len() as int;
            let q = keyword(cs, p, Keyword::Let).moved(p, n)->Some_0.1;
            let (text, r) = name(cs, q).moved(q, n)->Some_0;
            let ((rhs, then), e) = rest(cs, r).value->Some_0;
            &&& keyword(cs, p, Keyword::Let).moved(p, n) is Some
            &&& name(cs, q).moved(q, n) is Some
            &&& rest(cs, r).value is Some
            &&& let_decl(cs, p).value == Some(
                (Tree::Let { name: text, rhs: Box::new(rhs), then: Box::new(then) }, e),
            )
        }),
{
}

/// The words, numbers and signs of a definition, put together.
proof fn lemma_definition_text(
    word: Seq<char>,
    text: Seq<char>,
    args: Seq<Seq<char>>,
    right: Seq<Seq<char>>,
    more: Seq<Seq<char>>,
)
    ensures
        seq![word] + (seq![text] + (args + (right + more))) == seq![word, text] + (args + right)
            + more,
        seq![word] + (seq![text] + (right + more)) == seq![word, text] + right + more,
{
    assert(seq![word] + (seq![text] + (args + (right + more))) =~= seq![word, text] + (args + right)
        + more);
    assert(seq![word] + (seq![text] + (right + more)) =~= seq![word, text] + right + more);
}

#[verifier::rlimit(40)]
proof fn lemma_let_stands(cs: Seq<char>, p: int) -> (source: Source)
    requires
        0 <= p <= cs.len(),
        let_decl(cs, p).value is Some,
    ensures
        source_stands(
            cs,
            p,
            let_decl(cs, p).value->Some_0.1,
            source,
            let_decl(cs, p).value->Some_0.0,
        ),
    decreases cs.len() - p, 8int,
{
    let n = cs.len() as int;
    let word = seq!['l', 'e', 't'];
    lemma_let_parts(cs, p);
    lemma_keyword_comes(cs, p, Keyword::Let);
    assert(keyword_text(Keyword::Let) =~= word);
    let q = keyword(cs, p, Keyword::Let).moved(p, n)->Some_0.1;
    lemma_name_comes(cs, q);
    lemma_name_is_word(cs, q);
    let (text, r) = name(cs, q).moved(q, n)->Some_0;
    let (rhs, then) = lemma_rest_stands(cs, r);
    let e = rest(cs, r).value->Some_0.1;
    lemma_split(ahead(cs, p), word, ahead(cs, q));
    lemma_split(ahead(cs, q), text, ahead(cs, r));
    lemma_definition_text(
        word,
        text,
        Seq::empty(),
        side(rhs, source_text(then)),
        ahead(cs, e),
    );
    Source::Let { name: text, rhs, then: Box::new(then) }
}

/// The words of a list are those that stand there.
pub proof fn lemma_names_stand(cs: Seq<char>, p: int, found: Seq<Seq<char>>)
    requires
        0 <= p <= cs.len(),
    ensures
        names(cs, p, found).value matches Some((words, q)) && {
            &&& p <= q <= cs.len()
            &&& found.len() <= words.len()
            &&& words.take(found.len() as int) == found
            &&& ahead(cs, p) == words.skip(found.len() as int) + ahead(cs, q)
        },
    decreases cs.len() - p,
{
    lemma_name_comes(cs, p);
    match name(cs, p).moved(p, cs.len() as int) {
        None => {
            assert(found.take(found.len() as int) =~= found);
            assert(ahead(cs, p) =~= found.skip(found.len() as int) + ahead(cs, p));
        },
        Some((word, q)) => {
            lemma_names_stand(cs, q, found.push(word));
            let (words, e) = names(cs, q, found.push(word)).value->Some_0;
            let k = found.len() as int;
            assert(words[k] == words.take(k + 1)[k]);
            assert(words.take(k) =~= words.take(k + 1).drop_last());
            assert(found.push(word).drop_last() =~= found);
            assert(words.skip(k) =~= seq![word] + words.skip(k + 1));
            assert(ahead(cs, p) =~= seq![word] + ahead(cs, q));
            assert(ahead(cs, p) =~= words.skip(k) + ahead(cs, e));
        },
    }
}

/// Where the definition of a function is found, its parts are.
proof fn lemma_fn_parts(cs: Seq<char>, p: int)
    requires
        fn_decl(cs, p).value is Some,
    ensures
        ({
            let n = cs.len() as int;
            let q = keyword(cs, p, Keyword::Fn).moved(p, n)->Some_0.1;
            let (text, r) = name(cs, q).moved(q, n)->Some_0;
            let (args, t) = names(cs, r, Seq::empty()).value->Some_0;
            let ((body, then), e) = rest(cs, t).value->Some_0;
            &&& keyword(cs, p, Keyword::Fn).moved(p, n) is Some
            &&& name(cs, q).moved(q, n) is Some
            &&& names(cs, r, Seq::empty()).value is Some
            &&& rest(cs, t).value is Some
            &&& fn_decl(cs, p).value == Some(
                (
                    Tree::Fn { name: text, args, body: Box::new(body), then: Box::new(then) },
                    e,
                ),
            )
        }),
{
}

#[verifier::rlimit(40)]
proof fn lemma_fn_stands(cs: Seq<char>, p: int) -> (source: Source)
    requires
        0 <= p <= cs.len(),
        fn_decl(cs, p).value is Some,
    ensures
        source_stands(
            cs,
            p,
            fn_decl(cs, p).value->Some_0.1,
            source,
            fn_decl(cs, p).value->Some_0.0,
        ),
    decreases cs.len() - p, 8int,
{
    let n = cs.len() as int;
    let word = seq!['f', 'n'];
    lemma_fn_parts(cs, p);
    lemma_keyword_comes(cs, p, Keyword::Fn);
    assert(keyword_text(Keyword::Fn) =~= word);
    let q = keyword(cs, p, Keyword::Fn).moved(p, n)->Some_0.1;
    lemma_name_comes(cs, q);
    lemma_name_is_word(cs, q);
    let (text, r) = name(cs, q).moved(q, n)->Some_0;
    lemma_names_stand(cs, r, Seq::empty());
    lemma_names_are_words(cs, r, Seq::empty());
    let (args, t) = names(cs, r, Seq::empty()).value->Some_0;
    assert(args.skip(0) =~= args);
    let (body, then) = lemma_rest_stands(cs, t);
    let e = rest(cs, t).value->Some_0.1;
    lemma_split(ahead(cs, p), word, ahead(cs, q));
    lemma_split(ahead(cs, q), text, ahead(cs, r));
    lemma_definition_text(word, text, args, side(body, source_text(then)), ahead(cs, e));
    Source::Fn { name: text, args, body, then: Box::new(then) }
}

pub proof fn lemma_decl_stands(cs: Seq<char>, p: int) -> (source: Source)
    requires
        0 <= p <= cs.len(),
        decl(cs, p).value is Some,
    ensures
        source_stands(cs, p, decl(cs, p).value->Some_0.1, source, decl(cs, p).value->Some_0.0),
    decreases cs.len() - p, 9int,
{
    if let_decl(cs, p).value is Some {
        lemma_let_stands(cs, p)
    } else if fn_decl(cs, p).value is Some {
        lemma_fn_stands(cs, p)
    } else {
        Source::Last(lemma_expr_stands(cs, p))
    }
}

/// A text is read as a tree exactly where it is built up, however it is spaced, as a program that
/// means the tree. No other text is read, and none as anything else.
pub proof fn law_texts_and_trees(cs: Seq<char>, tree: Syntax)
    ensures
        program(cs).value == Some((tree, cs.len() as int)) <==> exists|source: Source|
            #[trigger] is_source(source) && source_meant(source) == tree && lexemes(cs, 0)
                == source_text(source),
        program(cs).value matches Some((_, q)) ==> q == cs.len(),
{
    if program(cs).value == Some((tree, cs.len() as int)) {
        let n = cs.len() as int;
        let source = lemma_decl_stands(cs, 0);
        reveal(ahead);
        lemma_first(cs, n);
        lemma_skip(cs, n);
        assert(ahead(cs, n) =~= Seq::empty());
        assert(lexemes(cs, 0) =~= source_text(source));
    }
    if exists|source: Source|
        #[trigger] is_source(source) && source_meant(source) == tree && lexemes(cs, 0)
            == source_text(source) {
        let source = choose|source: Source|
            #[trigger] is_source(source) && source_meant(source) == tree && lexemes(cs, 0)
                == source_text(source);
        law_a_text_is_read_as_it_is_meant(cs, source);
    }
}

} // verus!

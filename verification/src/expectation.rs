//! What is told to be expected, where a text is refused: what is before that place is the beginning
//! of a program that goes on with it.

use crate::ast::Op;
use crate::error::{Expected, Keyword, ParseError};
use crate::extent::{
    lemma_decl, lemma_digits_end, lemma_expr, lemma_keyword, lemma_name, lemma_number,
    lemma_operand, lemma_skip, lemma_word_end,
};
use crate::grammar::{
    atom, call, chain, decl, expr, fn_decl, furthest, group, infix, is_space, items, keyword,
    keyword_text,
    let_decl, link, more_items, name, names, number, operand, operators, program, rest, skip,
    sought_at, token, unary, Miss, Syntax, Tier,
};
use crate::parser::explains;
use crate::phrase::{
    all_meant, is_phrase, is_source, lemma_all_meant, lemma_decl_stands, lemma_expr_stands,
    lemma_items_stand, lemma_list_grows, lemma_names_stand, lemma_operand_stands, lemma_split,
    looseness, meant, side, source_text, stand, stands, text_of, text_of_list, tier_looseness,
    tier_of, Phrase, Source,
};
use crate::printing::{
    ahead, lemma_keyword_comes, lemma_name_comes, lemma_number_comes, lemma_token_comes, sign,
};
use crate::refusal::{
    agree_up_to, could_be, law_a_refusal_rests_on_what_is_before,
    law_only_what_is_told_could_stand_there, law_the_last_place_is_told,
};
use crate::spacing::lexemes;
use crate::wording::{
    is_numeral, is_word, lemma_name_is_word, lemma_names_are_words, lemma_number_is_numeral,
};
use vstd::prelude::*;

verus! {

/// What comes is what was looked for. Of what could have gone on with a word or a number nothing is
/// said.
pub open spec fn is_sought(sought: Expected, more: Seq<Seq<char>>) -> bool {
    match sought {
        Expected::Token(c) => more.len() > 0 && more[0] == seq![c],
        Expected::Identifier => more.len() > 0 && is_word(more[0]),
        Expected::Int => more.len() > 0 && is_numeral(more[0]),
        Expected::Keyword(word) => more.len() > 0 && more[0] == keyword_text(word),
        Expected::EndOfInput => more.len() == 0,
        Expected::SomethingElse | Expected::Any => true,
    }
}

/// Where a word or a number could have gone on there is one before, and another character comes or
/// the text ends, as is told.
pub open spec fn has_stopped(cs: Seq<char>, miss: Miss, before: Seq<Seq<char>>) -> bool {
    miss.sought is SomethingElse || miss.sought is Any ==> {
        &&& before.len() > 0
        &&& is_word(before.last()) || is_numeral(before.last())
        &&& miss.sought is Any <==> miss.at == cs.len()
    }
}

/// What comes from `p` up to the place of the miss is the beginning `before` of the whole, which goes
/// on with what was looked for there.
pub open spec fn is_hope(
    cs: Seq<char>,
    p: int,
    miss: Miss,
    whole: Seq<Seq<char>>,
    before: Seq<Seq<char>>,
    more: Seq<Seq<char>>,
) -> bool {
    &&& 0 <= miss.at <= cs.len()
    &&& whole == before + more
    &&& ahead(cs, p) == before + ahead(cs, miss.at)
    &&& is_sought(miss.sought, more)
    &&& has_stopped(cs, miss, before)
}

/// Some phrase, no looser than that, begins as the text does from `p` up to the place of the miss, and
/// goes on with what was looked for there.
pub open spec fn has_hope(cs: Seq<char>, p: int, miss: Miss, loosest: int) -> bool {
    &&& !(miss.sought is EndOfInput)
    &&& exists|phrase: Phrase, before: Seq<Seq<char>>, more: Seq<Seq<char>>|
        #![trigger is_phrase(phrase), is_hope(cs, p, miss, text_of(phrase), before, more)]
        is_phrase(phrase) && looseness(phrase) <= loosest && is_hope(
            cs,
            p,
            miss,
            text_of(phrase),
            before,
            more,
        )
}

pub open spec fn all_hope(cs: Seq<char>, p: int, misses: Seq<Miss>, loosest: int) -> bool {
    forall|i: int| 0 <= i < misses.len() ==> has_hope(cs, p, #[trigger] misses[i], loosest)
}

/// [`has_hope`] for the phrases of a list, of which there is at least one.
pub open spec fn has_list_hope(cs: Seq<char>, p: int, miss: Miss) -> bool {
    &&& !(miss.sought is EndOfInput)
    &&& exists|args: Seq<Phrase>, before: Seq<Seq<char>>, more: Seq<Seq<char>>|
        #![trigger is_hope(cs, p, miss, text_of_list(args, 0), before, more)]
        are_phrases(args) && args.len() > 0 && is_hope(
            cs,
            p,
            miss,
            text_of_list(args, 0),
            before,
            more,
        )
}

pub open spec fn are_phrases(args: Seq<Phrase>) -> bool {
    forall|i: int| 0 <= i < args.len() ==> is_phrase(#[trigger] args[i])
}

pub open spec fn all_list_hope(cs: Seq<char>, p: int, misses: Seq<Miss>) -> bool {
    forall|i: int| 0 <= i < misses.len() ==> has_list_hope(cs, p, #[trigger] misses[i])
}

/// [`has_hope`] for the right side of a definition and what comes behind it.
pub open spec fn has_side_hope(cs: Seq<char>, p: int, miss: Miss) -> bool {
    &&& !(miss.sought is EndOfInput)
    &&& exists|rhs: Phrase, then: Source, before: Seq<Seq<char>>, more: Seq<Seq<char>>|
        #![trigger is_hope(cs, p, miss, side(rhs, source_text(then)), before, more)]
        is_phrase(rhs) && is_source(then) && is_hope(
            cs,
            p,
            miss,
            side(rhs, source_text(then)),
            before,
            more,
        )
}

pub open spec fn all_side_hope(cs: Seq<char>, p: int, misses: Seq<Miss>) -> bool {
    forall|i: int| 0 <= i < misses.len() ==> has_side_hope(cs, p, #[trigger] misses[i])
}

/// [`has_hope`] for programs.
pub open spec fn has_source_hope(cs: Seq<char>, p: int, miss: Miss) -> bool {
    exists|source: Source, before: Seq<Seq<char>>, more: Seq<Seq<char>>|
        #![trigger is_hope(cs, p, miss, source_text(source), before, more)]
        is_source(source) && is_hope(cs, p, miss, source_text(source), before, more)
}

pub open spec fn all_source_hope(cs: Seq<char>, p: int, misses: Seq<Miss>) -> bool {
    forall|i: int|
        0 <= i < misses.len() ==> !((#[trigger] misses[i]).sought is EndOfInput) && has_source_hope(
            cs,
            p,
            misses[i],
        )
}

proof fn lemma_joined(cs: Seq<char>, p: int, a: Seq<Miss>, b: Seq<Miss>, loosest: int)
    requires
        all_hope(cs, p, a, loosest),
        all_hope(cs, p, b, loosest),
    ensures
        all_hope(cs, p, a + b, loosest),
{
    assert forall|i: int| 0 <= i < (a + b).len() implies has_hope(
        cs,
        p,
        #[trigger] (a + b)[i],
        loosest,
    ) by {
        if i < a.len() {
            assert((a + b)[i] == a[i]);
        } else {
            assert((a + b)[i] == b[i - a.len()]);
        }
    }
}

proof fn lemma_list_joined(cs: Seq<char>, p: int, a: Seq<Miss>, b: Seq<Miss>)
    requires
        all_list_hope(cs, p, a),
        all_list_hope(cs, p, b),
    ensures
        all_list_hope(cs, p, a + b),
{
    assert forall|i: int| 0 <= i < (a + b).len() implies has_list_hope(
        cs,
        p,
        #[trigger] (a + b)[i],
    ) by {
        if i < a.len() {
            assert((a + b)[i] == a[i]);
        } else {
            assert((a + b)[i] == b[i - a.len()]);
        }
    }
}

proof fn lemma_side_joined(cs: Seq<char>, p: int, a: Seq<Miss>, b: Seq<Miss>)
    requires
        all_side_hope(cs, p, a),
        all_side_hope(cs, p, b),
    ensures
        all_side_hope(cs, p, a + b),
{
    assert forall|i: int| 0 <= i < (a + b).len() implies has_side_hope(
        cs,
        p,
        #[trigger] (a + b)[i],
    ) by {
        if i < a.len() {
            assert((a + b)[i] == a[i]);
        } else {
            assert((a + b)[i] == b[i - a.len()]);
        }
    }
}

proof fn lemma_source_joined(cs: Seq<char>, p: int, a: Seq<Miss>, b: Seq<Miss>)
    requires
        all_source_hope(cs, p, a),
        all_source_hope(cs, p, b),
    ensures
        all_source_hope(cs, p, a + b),
{
    assert forall|i: int| 0 <= i < (a + b).len() implies !((#[trigger] (a + b)[i]).sought
        is EndOfInput) && has_source_hope(cs, p, (a + b)[i]) by {
        if i < a.len() {
            assert((a + b)[i] == a[i]);
        } else {
            assert((a + b)[i] == b[i - a.len()]);
        }
    }
}

/// What hangs together more tightly is no looser than that either.
proof fn lemma_looser(cs: Seq<char>, p: int, misses: Seq<Miss>, tight: int, loosest: int)
    requires
        all_hope(cs, p, misses, tight),
        tight <= loosest,
    ensures
        all_hope(cs, p, misses, loosest),
{
    assert forall|i: int| 0 <= i < misses.len() implies has_hope(
        cs,
        p,
        #[trigger] misses[i],
        loosest,
    ) by {
        assert(has_hope(cs, p, misses[i], tight));
    }
}

/// The number nought.
pub open spec fn nought() -> Phrase {
    Phrase::Number(seq!['0'])
}

proof fn lemma_nought()
    ensures
        is_phrase(nought()),
        looseness(nought()) == 0,
        text_of(nought()) == seq![seq!['0']],
        is_numeral(seq!['0']),
        is_word(seq!['a']),
{
    assert(seq!['0'][0] == '0');
    assert(seq!['a'][0] == 'a');
}

/// At a place with spaces behind it, what comes is what comes behind the spaces.
proof fn lemma_spaces(cs: Seq<char>, p: int)
    requires
        0 <= p <= cs.len(),
    ensures
        ahead(cs, skip(cs, p)) == ahead(cs, p),
        p <= skip(cs, p) <= cs.len(),
{
    reveal(ahead);
    lemma_skip(cs, p);
}

/// A phrase that begins with what was looked for at the beginning.
proof fn lemma_at_once(cs: Seq<char>, p: int, miss: Miss, phrase: Phrase, loosest: int)
    requires
        0 <= p <= cs.len(),
        miss.at == skip(cs, p),
        !(miss.sought is EndOfInput || miss.sought is SomethingElse || miss.sought is Any),
        is_phrase(phrase),
        looseness(phrase) <= loosest,
        is_sought(miss.sought, text_of(phrase)),
    ensures
        has_hope(cs, p, miss, loosest),
{
    let none = Seq::<Seq<char>>::empty();
    lemma_spaces(cs, p);
    assert(text_of(phrase) =~= none + text_of(phrase));
    assert(ahead(cs, p) =~= none + ahead(cs, miss.at));
    assert(is_hope(cs, p, miss, text_of(phrase), none, text_of(phrase)));
}

/// The misses of a sign that is looked for and not there.
proof fn lemma_token_missed(cs: Seq<char>, p: int, c: char)
    ensures
        token(cs, p, c).value is None ==> token(cs, p, c).misses =~= seq![
            Miss { at: skip(cs, p), sought: Expected::Token(c) },
        ],
        token(cs, p, c).value is Some ==> token(cs, p, c).misses =~= Seq::empty(),
{
}

/// A word or a number that is found could have gone on, and one that is not could be there.
proof fn lemma_number_hopes(cs: Seq<char>, p: int)
    requires
        0 <= p <= cs.len(),
    ensures
        all_hope(cs, p, number(cs, p).misses, 0),
{
    let o = number(cs, p);
    let s = skip(cs, p);
    lemma_nought();
    lemma_spaces(cs, p);
    lemma_number(cs, p);
    lemma_number_comes(cs, p);
    lemma_number_is_numeral(cs, p);
    assert forall|i: int| 0 <= i < o.misses.len() implies has_hope(
        cs,
        p,
        #[trigger] o.misses[i],
        0,
    ) by {
        let miss = o.misses[i];
        if miss.sought is Int {
            lemma_at_once(cs, p, miss, nought(), 0);
        } else {
            let (digits, q) = o.value->Some_0;
            let phrase = Phrase::Number(digits);
            lemma_digits_end(cs, s + 1);
            lemma_spaces(cs, miss.at);
            lemma_split(ahead(cs, p), digits, ahead(cs, q));
            assert(is_phrase(phrase) && looseness(phrase) == 0);
            assert(text_of(phrase) =~= seq![digits] + Seq::empty());
            assert(is_hope(cs, p, miss, text_of(phrase), seq![digits], Seq::empty()));
        }
    }
}

proof fn lemma_name_hopes(cs: Seq<char>, p: int)
    requires
        0 <= p <= cs.len(),
    ensures
        all_hope(cs, p, name(cs, p).misses, 0),
{
    let o = name(cs, p);
    let s = skip(cs, p);
    lemma_nought();
    lemma_spaces(cs, p);
    lemma_name(cs, p);
    lemma_name_comes(cs, p);
    lemma_name_is_word(cs, p);
    assert forall|i: int| 0 <= i < o.misses.len() implies has_hope(
        cs,
        p,
        #[trigger] o.misses[i],
        0,
    ) by {
        let miss = o.misses[i];
        if miss.sought is Identifier {
            lemma_at_once(cs, p, miss, Phrase::Variable(seq!['a']), 0);
        } else {
            let (text, q) = o.value->Some_0;
            let phrase = Phrase::Variable(text);
            lemma_word_end(cs, s + 1);
            lemma_spaces(cs, miss.at);
            lemma_split(ahead(cs, p), text, ahead(cs, q));
            assert(is_phrase(phrase) && looseness(phrase) == 0);
            assert(text_of(phrase) =~= seq![text] + Seq::empty());
            assert(is_hope(cs, p, miss, text_of(phrase), seq![text], Seq::empty()));
        }
    }
}

/// What is hoped for in brackets is hoped for with the brackets.
proof fn lemma_lift_group(cs: Seq<char>, p: int, q: int, misses: Seq<Miss>)
    requires
        ahead(cs, p) == seq![seq!['(']] + ahead(cs, q),
        all_hope(cs, q, misses, 3),
    ensures
        all_hope(cs, p, misses, 0),
{
    assert forall|i: int| 0 <= i < misses.len() implies has_hope(cs, p, #[trigger] misses[i], 0) by {
        let miss = misses[i];
        assert(has_hope(cs, q, miss, 3));
        let (inner, before, more) = choose|
            phrase: Phrase,
            before: Seq<Seq<char>>,
            more: Seq<Seq<char>>,
        |
            #![trigger is_phrase(phrase), is_hope(cs, q, miss, text_of(phrase), before, more)]
            is_phrase(phrase) && looseness(phrase) <= 3 && is_hope(
                cs,
                q,
                miss,
                text_of(phrase),
                before,
                more,
            );
        let phrase = Phrase::Group(Box::new(inner));
        let head = seq![seq!['(']] + before;
        assert(before.len() > 0 ==> head.last() == before.last());
        let tail = more + seq![seq![')']];
        assert(text_of(phrase) =~= head + tail);
        assert(ahead(cs, p) =~= head + ahead(cs, miss.at));
        assert(more.len() > 0 ==> tail[0] == more[0]);
        assert(is_phrase(phrase));
        assert(is_hope(cs, p, miss, text_of(phrase), head, tail));
    }
}

proof fn lemma_group_hopes(cs: Seq<char>, p: int)
    requires
        0 <= p <= cs.len(),
    ensures
        all_hope(cs, p, group(cs, p).misses, 0),
    decreases cs.len() - p, 1int,
{
    let n = cs.len() as int;
    let a = token(cs, p, '(');
    lemma_nought();
    lemma_token_comes(cs, p, '(');
    lemma_token_missed(cs, p, '(');
    match a.moved(p, n) {
        None => {
            let phrase = Phrase::Group(Box::new(nought()));
            assert(is_phrase(phrase));
            assert(text_of(phrase)[0] == seq!['(']);
            lemma_at_once(
                cs,
                p,
                Miss { at: skip(cs, p), sought: Expected::Token('(') },
                phrase,
                0,
            );
        },
        Some((_, q)) => {
            let x = expr(cs, q);
            lemma_expr(cs, q);
            lemma_expr_hopes(cs, q);
            lemma_split(ahead(cs, p), seq!['('], ahead(cs, q));
            lemma_lift_group(cs, p, q, x.misses);
            match x.value {
                None => {
                    assert(group(cs, p).misses =~= x.misses);
                },
                Some((tree, r)) => {
                    let b = token(cs, r, ')');
                    let inner = lemma_expr_stands(cs, q);
                    let phrase = Phrase::Group(Box::new(inner));
                    let miss = Miss { at: skip(cs, r), sought: Expected::Token(')') };
                    let before = seq![seq!['(']] + text_of(inner);
                    let more = seq![seq![')']];
                    lemma_token_missed(cs, r, ')');
                    lemma_spaces(cs, r);
                    assert(is_phrase(phrase));
                    assert(text_of(phrase) =~= before + more);
                    assert(ahead(cs, p) =~= before + ahead(cs, miss.at));
                    assert(is_hope(cs, p, miss, text_of(phrase), before, more));
                    assert(has_hope(cs, p, miss, 0));
                    assert(all_hope(cs, p, b.misses, 0));
                    lemma_joined(cs, p, x.misses, b.misses, 0);
                    assert(group(cs, p).misses =~= x.misses + b.misses);
                },
            }
        },
    }
}

/// What is hoped for in the brackets of a call is hoped for in the call.
proof fn lemma_lift_call(cs: Seq<char>, p: int, r: int, text: Seq<char>, misses: Seq<Miss>)
    requires
        is_word(text),
        ahead(cs, p) == seq![text] + (seq![seq!['(']] + ahead(cs, r)),
        all_list_hope(cs, r, misses),
    ensures
        all_hope(cs, p, misses, 0),
{
    assert forall|i: int| 0 <= i < misses.len() implies has_hope(cs, p, #[trigger] misses[i], 0) by {
        let miss = misses[i];
        assert(has_list_hope(cs, r, miss));
        let (args, before, more) = choose|
            args: Seq<Phrase>,
            before: Seq<Seq<char>>,
            more: Seq<Seq<char>>,
        |
            #![trigger is_hope(cs, r, miss, text_of_list(args, 0), before, more)]
            are_phrases(args) && args.len() > 0 && is_hope(
                cs,
                r,
                miss,
                text_of_list(args, 0),
                before,
                more,
            );
        let phrase = Phrase::Call { name: text, args, comma: false };
        let head = seq![text, seq!['(']] + before;
        assert(before.len() > 0 ==> head.last() == before.last());
        let tail = more + seq![seq![')']];
        assert(text_of(phrase) =~= head + tail);
        assert(ahead(cs, p) =~= head + ahead(cs, miss.at));
        assert(more.len() > 0 ==> tail[0] == more[0]);
        assert(is_phrase(phrase));
        assert(is_hope(cs, p, miss, text_of(phrase), head, tail));
    }
}

#[verifier::rlimit(40)]
proof fn lemma_call_hopes(cs: Seq<char>, p: int)
    requires
        0 <= p <= cs.len(),
    ensures
        all_hope(cs, p, call(cs, p).misses, 0),
    decreases cs.len() - p, 1int,
{
    let n = cs.len() as int;
    let f = name(cs, p);
    lemma_name_hopes(cs, p);
    lemma_name_comes(cs, p);
    lemma_name_is_word(cs, p);
    match f.moved(p, n) {
        None => {
            assert(call(cs, p).misses =~= f.misses);
        },
        Some((text, q)) => {
            let a = token(cs, q, '(');
            lemma_split(ahead(cs, p), text, ahead(cs, q));
            lemma_token_comes(cs, q, '(');
            lemma_token_missed(cs, q, '(');
            match a.moved(q, n) {
                None => {
                    lemma_opening_hopes(cs, p, q, text);
                    lemma_joined(cs, p, f.misses, a.misses, 0);
                    assert(call(cs, p).misses =~= f.misses + a.misses);
                },
                Some((_, r)) => {
                    let xs = items(cs, r);
                    lemma_split(ahead(cs, q), seq!['('], ahead(cs, r));
                    lemma_items_hopes(cs, r);
                    lemma_lift_call(cs, p, r, text, xs.misses);
                    let (args, comma) = lemma_items_stand(cs, r);
                    let t = xs.value->Some_0.1;
                    let b = token(cs, t, ')');
                    lemma_closing_hopes(cs, p, r, t, text, args, comma, xs.value->Some_0.0);
                    lemma_joined(cs, p, xs.misses, b.misses, 0);
                    lemma_joined(cs, p, f.misses, xs.misses + b.misses, 0);
                    assert(call(cs, p).misses =~= f.misses + (xs.misses + b.misses));
                },
            }
        },
    }
}

/// The opening bracket of a call is hoped for.
proof fn lemma_opening_hopes(cs: Seq<char>, p: int, q: int, text: Seq<char>)
    requires
        is_word(text),
        0 <= q <= cs.len(),
        ahead(cs, p) == seq![text] + ahead(cs, q),
    ensures
        all_hope(cs, p, token(cs, q, '(').misses, 0),
{
    let phrase = Phrase::Call { name: text, args: Seq::empty(), comma: false };
    let miss = Miss { at: skip(cs, q), sought: Expected::Token('(') };
    let more = seq![seq!['('], seq![')']];
    lemma_token_missed(cs, q, '(');
    lemma_spaces(cs, q);
    assert(is_phrase(phrase));
    assert(text_of_list(Seq::empty(), 0) =~= Seq::empty());
    assert(text_of(phrase) =~= seq![text] + more);
    assert(is_hope(cs, p, miss, text_of(phrase), seq![text], more));
    assert(has_hope(cs, p, miss, 0));
}

/// The closing bracket of a call is hoped for.
proof fn lemma_closing_hopes(
    cs: Seq<char>,
    p: int,
    r: int,
    t: int,
    text: Seq<char>,
    args: Seq<Phrase>,
    comma: bool,
    trees: Seq<Syntax>,
)
    requires
        is_word(text),
        stand(cs, r, t, args, comma, trees),
        ahead(cs, p) == seq![text] + (seq![seq!['(']] + ahead(cs, r)),
    ensures
        all_hope(cs, p, token(cs, t, ')').misses, 0),
{
    let b = token(cs, t, ')');
    let phrase = Phrase::Call { name: text, args, comma };
    let miss = Miss { at: skip(cs, t), sought: Expected::Token(')') };
    let before = seq![text, seq!['(']] + text_of_list(args, 0) + if comma {
        seq![seq![',']]
    } else {
        Seq::empty()
    };
    let more = seq![seq![')']];
    lemma_token_missed(cs, t, ')');
    lemma_spaces(cs, t);
    assert(is_phrase(phrase));
    assert(text_of(phrase) =~= before + more);
    assert(ahead(cs, p) =~= before + ahead(cs, miss.at));
    assert(is_hope(cs, p, miss, text_of(phrase), before, more));
    assert(has_hope(cs, p, miss, 0));
}

/// What is hoped for as an expression behind those of a list is hoped for in the list.
proof fn lemma_lift_item(
    cs: Seq<char>,
    p: int,
    q: int,
    args: Seq<Phrase>,
    misses: Seq<Miss>,
)
    requires
        are_phrases(args),
        ahead(cs, p) == if args.len() > 0 {
            text_of_list(args, 0) + (seq![seq![',']] + ahead(cs, q))
        } else {
            ahead(cs, q)
        },
        all_hope(cs, q, misses, 3),
    ensures
        all_list_hope(cs, p, misses),
{
    assert forall|i: int| 0 <= i < misses.len() implies has_list_hope(
        cs,
        p,
        #[trigger] misses[i],
    ) by {
        let miss = misses[i];
        assert(has_hope(cs, q, miss, 3));
        let (last, before, more) = choose|
            phrase: Phrase,
            before: Seq<Seq<char>>,
            more: Seq<Seq<char>>,
        |
            #![trigger is_phrase(phrase), is_hope(cs, q, miss, text_of(phrase), before, more)]
            is_phrase(phrase) && looseness(phrase) <= 3 && is_hope(
                cs,
                q,
                miss,
                text_of(phrase),
                before,
                more,
            );
        let all = args.push(last);
        assert(are_phrases(all));
        if args.len() > 0 {
            let head = text_of_list(args, 0) + seq![seq![',']] + before;
            assert(before.len() > 0 ==> head.last() == before.last());
            lemma_list_grows(args, last, 0);
            assert(text_of_list(all, 0) =~= head + more);
            assert(ahead(cs, p) =~= head + ahead(cs, miss.at));
            assert(is_hope(cs, p, miss, text_of_list(all, 0), head, more));
        } else {
            assert(all[0] == last);
            assert(text_of_list(all, 0) == text_of(last));
            assert(is_hope(cs, p, miss, text_of_list(all, 0), before, more));
        }
    }
}

proof fn lemma_items_hopes(cs: Seq<char>, p: int)
    requires
        0 <= p <= cs.len(),
    ensures
        all_list_hope(cs, p, items(cs, p).misses),
    decreases cs.len() - p, 9int,
{
    let x = expr(cs, p);
    lemma_expr(cs, p);
    lemma_expr_hopes(cs, p);
    lemma_lift_item(cs, p, p, Seq::empty(), x.misses);
    match x.moved(p, cs.len() as int) {
        None => {
            assert(items(cs, p).misses =~= x.misses);
        },
        Some((tree, q)) => {
            let phrase = lemma_expr_stands(cs, p);
            let args = seq![phrase];
            lemma_all_meant(args);
            assert(all_meant(args) =~= seq![tree]);
            assert(text_of_list(args, 0) == text_of(phrase));
            lemma_more_items_hopes(cs, p, q, args);
            lemma_list_joined(cs, p, x.misses, more_items(cs, q, seq![tree]).misses);
        },
    }
}

/// A comma behind the expressions of a list is hoped for.
proof fn lemma_comma_hopes(cs: Seq<char>, start: int, p: int, args: Seq<Phrase>)
    requires
        args.len() > 0,
        stand(cs, start, p, args, false, all_meant(args)),
    ensures
        all_list_hope(cs, start, token(cs, p, ',').misses),
{
    let all = args.push(nought());
    let miss = Miss { at: skip(cs, p), sought: Expected::Token(',') };
    let more = seq![seq![','], seq!['0']];
    lemma_nought();
    lemma_token_missed(cs, p, ',');
    lemma_spaces(cs, p);
    lemma_list_grows(args, nought(), 0);
    assert(are_phrases(all));
    assert(text_of_list(all, 0) =~= text_of_list(args, 0) + more);
    assert(is_hope(cs, start, miss, text_of_list(all, 0), text_of_list(args, 0), more));
    assert(has_list_hope(cs, start, miss));
}

#[verifier::rlimit(40)]
proof fn lemma_more_items_hopes(cs: Seq<char>, start: int, p: int, args: Seq<Phrase>)
    requires
        args.len() > 0,
        stand(cs, start, p, args, false, all_meant(args)),
    ensures
        all_list_hope(cs, start, more_items(cs, p, all_meant(args)).misses),
    decreases cs.len() - p, 8int,
{
    let n = cs.len() as int;
    let found = all_meant(args);
    let c = token(cs, p, ',');
    lemma_token_comes(cs, p, ',');
    lemma_token_missed(cs, p, ',');
    lemma_comma_hopes(cs, start, p, args);
    match c.moved(p, n) {
        None => {
            assert(more_items(cs, p, found).misses =~= c.misses);
        },
        Some((_, q)) => {
            let x = expr(cs, q);
            lemma_expr(cs, q);
            lemma_expr_hopes(cs, q);
            lemma_split(ahead(cs, p), seq![','], ahead(cs, q));
            lemma_lift_item(cs, start, q, args, x.misses);
            match x.moved(q, n) {
                None => {
                    assert(more_items(cs, p, found).misses =~= x.misses);
                },
                Some((tree, r)) => {
                    let phrase = lemma_expr_stands(cs, q);
                    let all = args.push(phrase);
                    lemma_list_grows(args, phrase, 0);
                    assert(all.drop_last() =~= args);
                    assert(all_meant(all) =~= found.push(tree));
                    assert(ahead(cs, start) =~= text_of_list(all, 0) + ahead(cs, r));
                    assert(stand(cs, start, r, all, false, all_meant(all)));
                    lemma_more_items_hopes(cs, start, r, all);
                    let rest = more_items(cs, r, found.push(tree));
                    lemma_list_joined(cs, start, x.misses, rest.misses);
                    assert(more_items(cs, p, found).misses =~= x.misses + rest.misses);
                },
            }
        },
    }
}

proof fn lemma_atom_hopes(cs: Seq<char>, p: int)
    requires
        0 <= p <= cs.len(),
    ensures
        all_hope(cs, p, atom(cs, p).misses, 0),
    decreases cs.len() - p, 2int,
{
    let i = number(cs, p);
    let g = group(cs, p);
    let c = call(cs, p);
    let x = name(cs, p);
    lemma_number_hopes(cs, p);
    lemma_group_hopes(cs, p);
    lemma_call_hopes(cs, p);
    lemma_name_hopes(cs, p);
    lemma_joined(cs, p, i.misses, g.misses, 0);
    lemma_joined(cs, p, i.misses + g.misses, c.misses, 0);
    lemma_joined(cs, p, i.misses + g.misses + c.misses, x.misses, 0);
    if i.value is Some {
        assert(atom(cs, p).misses =~= i.misses);
    } else if g.value is Some {
        assert(atom(cs, p).misses =~= i.misses + g.misses);
    } else if c.value is Some {
        assert(atom(cs, p).misses =~= i.misses + g.misses + c.misses);
    } else {
        assert(atom(cs, p).misses =~= i.misses + g.misses + c.misses + x.misses);
    }
}

proof fn lemma_lift_minus(cs: Seq<char>, p: int, q: int, misses: Seq<Miss>)
    requires
        ahead(cs, p) == seq![seq!['-']] + ahead(cs, q),
        all_hope(cs, q, misses, 1),
    ensures
        all_hope(cs, p, misses, 1),
{
    assert forall|i: int| 0 <= i < misses.len() implies has_hope(cs, p, #[trigger] misses[i], 1) by {
        let miss = misses[i];
        assert(has_hope(cs, q, miss, 1));
        let (inner, before, more) = choose|
            phrase: Phrase,
            before: Seq<Seq<char>>,
            more: Seq<Seq<char>>,
        |
            #![trigger is_phrase(phrase), is_hope(cs, q, miss, text_of(phrase), before, more)]
            is_phrase(phrase) && looseness(phrase) <= 1 && is_hope(
                cs,
                q,
                miss,
                text_of(phrase),
                before,
                more,
            );
        let phrase = Phrase::Minus(Box::new(inner));
        let head = seq![seq!['-']] + before;
        assert(before.len() > 0 ==> head.last() == before.last());
        assert(text_of(phrase) =~= head + more);
        assert(ahead(cs, p) =~= head + ahead(cs, miss.at));
        assert(is_phrase(phrase));
        assert(is_hope(cs, p, miss, text_of(phrase), head, more));
    }
}

proof fn lemma_unary_hopes(cs: Seq<char>, p: int)
    requires
        0 <= p <= cs.len(),
    ensures
        all_hope(cs, p, unary(cs, p).misses, 1),
    decreases cs.len() - p, 3int,
{
    let t = token(cs, p, '-');
    lemma_nought();
    lemma_token_comes(cs, p, '-');
    lemma_token_missed(cs, p, '-');
    match t.moved(p, cs.len() as int) {
        None => {
            let phrase = Phrase::Minus(Box::new(nought()));
            assert(is_phrase(phrase));
            assert(text_of(phrase)[0] == seq!['-']);
            lemma_at_once(
                cs,
                p,
                Miss { at: skip(cs, p), sought: Expected::Token('-') },
                phrase,
                1,
            );
            assert(all_hope(cs, p, t.misses, 1));
            lemma_atom_hopes(cs, p);
            lemma_looser(cs, p, atom(cs, p).misses, 0, 1);
            lemma_joined(cs, p, t.misses, atom(cs, p).misses, 1);
        },
        Some((_, q)) => {
            lemma_split(ahead(cs, p), seq!['-'], ahead(cs, q));
            lemma_unary_hopes(cs, q);
            lemma_lift_minus(cs, p, q, unary(cs, q).misses);
            assert(unary(cs, p).misses =~= unary(cs, q).misses);
        },
    }
}

proof fn lemma_operand_hopes(cs: Seq<char>, p: int, tier: Tier)
    requires
        0 <= p <= cs.len(),
    ensures
        all_hope(cs, p, operand(cs, p, tier).misses, tier_looseness(tier) - 1),
    decreases
            cs.len() - p,
            (match tier {
                Tier::Sum => 6int,
                Tier::Product => 4int,
            }),
{
    match tier {
        Tier::Sum => {
            lemma_infix_hopes(cs, p, Tier::Product);
        },
        Tier::Product => {
            lemma_unary_hopes(cs, p);
        },
    }
}

proof fn lemma_infix_hopes(cs: Seq<char>, p: int, tier: Tier)
    requires
        0 <= p <= cs.len(),
    ensures
        all_hope(cs, p, infix(cs, p, tier).misses, tier_looseness(tier)),
    decreases
            cs.len() - p,
            (match tier {
                Tier::Sum => 7int,
                Tier::Product => 5int,
            }),
{
    let x = operand(cs, p, tier);
    let loosest = tier_looseness(tier);
    lemma_operand(cs, p, tier);
    lemma_operand_hopes(cs, p, tier);
    lemma_looser(cs, p, x.misses, loosest - 1, loosest);
    match x.moved(p, cs.len() as int) {
        None => {},
        Some((lhs, q)) => {
            let first = lemma_operand_stands(cs, p, tier);
            lemma_chain_hopes(cs, p, q, tier, first);
            lemma_joined(cs, p, x.misses, chain(cs, q, tier, lhs).misses, loosest);
        },
    }
}

/// An operator behind a phrase is hoped for.
proof fn lemma_operator_hopes(cs: Seq<char>, start: int, p: int, op: Op, lhs: Phrase)
    requires
        stands(cs, start, p, lhs, meant(lhs)),
        looseness(lhs) <= tier_looseness(tier_of(op)),
    ensures
        all_hope(cs, start, token(cs, p, sign(op)).misses, tier_looseness(tier_of(op))),
{
    let phrase = Phrase::Infix(op, Box::new(lhs), Box::new(nought()));
    let miss = Miss { at: skip(cs, p), sought: Expected::Token(sign(op)) };
    let more = seq![seq![sign(op)], seq!['0']];
    lemma_nought();
    lemma_token_missed(cs, p, sign(op));
    lemma_spaces(cs, p);
    assert(is_phrase(phrase));
    assert(text_of(phrase) =~= text_of(lhs) + more);
    assert(is_hope(cs, start, miss, text_of(phrase), text_of(lhs), more));
    assert(has_hope(cs, start, miss, tier_looseness(tier_of(op))));
}

proof fn lemma_chain_hopes(cs: Seq<char>, start: int, p: int, tier: Tier, lhs: Phrase)
    requires
        stands(cs, start, p, lhs, meant(lhs)),
        looseness(lhs) <= tier_looseness(tier),
    ensures
        all_hope(cs, start, chain(cs, p, tier, meant(lhs)).misses, tier_looseness(tier)),
    decreases cs.len() - p, 8int,
{
    let n = cs.len() as int;
    let loosest = tier_looseness(tier);
    let ((c, op), (d, other)) = operators(tier);
    let a = token(cs, p, c);
    let b = token(cs, p, d);
    lemma_token_comes(cs, p, c);
    lemma_token_comes(cs, p, d);
    lemma_operator_hopes(cs, start, p, op, lhs);
    lemma_operator_hopes(cs, start, p, other, lhs);
    match a.moved(p, n) {
        Some((_, q)) => {
            let l = link(cs, p, q, tier, op, meant(lhs));
            lemma_link_hopes(cs, start, p, q, tier, op, lhs);
            lemma_joined(cs, start, a.misses, l.misses, loosest);
        },
        None => {
            lemma_joined(cs, start, a.misses, b.misses, loosest);
            match b.moved(p, n) {
                Some((_, q)) => {
                    let l = link(cs, p, q, tier, other, meant(lhs));
                    lemma_link_hopes(cs, start, p, q, tier, other, lhs);
                    lemma_joined(cs, start, a.misses + b.misses, l.misses, loosest);
                    assert(chain(cs, p, tier, meant(lhs)).misses =~= a.misses + b.misses
                        + l.misses);
                },
                None => {
                    assert(chain(cs, p, tier, meant(lhs)).misses =~= a.misses + b.misses);
                },
            }
        },
    }
}

/// What is hoped for as the right operand of an operator is hoped for with the operator.
proof fn lemma_lift_operand(
    cs: Seq<char>,
    start: int,
    q: int,
    op: Op,
    lhs: Phrase,
    misses: Seq<Miss>,
)
    requires
        is_phrase(lhs),
        looseness(lhs) <= tier_looseness(tier_of(op)),
        ahead(cs, start) == text_of(lhs) + (seq![seq![sign(op)]] + ahead(cs, q)),
        all_hope(cs, q, misses, tier_looseness(tier_of(op)) - 1),
    ensures
        all_hope(cs, start, misses, tier_looseness(tier_of(op))),
{
    let loosest = tier_looseness(tier_of(op));
    assert forall|i: int| 0 <= i < misses.len() implies has_hope(
        cs,
        start,
        #[trigger] misses[i],
        loosest,
    ) by {
        let miss = misses[i];
        assert(has_hope(cs, q, miss, loosest - 1));
        let (rhs, before, more) = choose|
            phrase: Phrase,
            before: Seq<Seq<char>>,
            more: Seq<Seq<char>>,
        |
            #![trigger is_phrase(phrase), is_hope(cs, q, miss, text_of(phrase), before, more)]
            is_phrase(phrase) && looseness(phrase) <= loosest - 1 && is_hope(
                cs,
                q,
                miss,
                text_of(phrase),
                before,
                more,
            );
        let phrase = Phrase::Infix(op, Box::new(lhs), Box::new(rhs));
        let head = text_of(lhs) + seq![seq![sign(op)]] + before;
        assert(before.len() > 0 ==> head.last() == before.last());
        assert(text_of(phrase) =~= head + more);
        assert(ahead(cs, start) =~= head + ahead(cs, miss.at));
        assert(is_phrase(phrase));
        assert(is_hope(cs, start, miss, text_of(phrase), head, more));
    }
}

proof fn lemma_link_hopes(
    cs: Seq<char>,
    start: int,
    p: int,
    q: int,
    tier: Tier,
    op: Op,
    lhs: Phrase,
)
    requires
        stands(cs, start, p, lhs, meant(lhs)),
        looseness(lhs) <= tier_looseness(tier),
        tier_of(op) == tier,
        p < q <= cs.len(),
        ahead(cs, p).len() > 0,
        ahead(cs, p)[0] == seq![sign(op)],
        ahead(cs, q) == ahead(cs, p).drop_first(),
    ensures
        all_hope(
            cs,
            start,
            link(cs, p, q, tier, op, meant(lhs)).misses,
            tier_looseness(tier),
        ),
    decreases cs.len() - q, 9int,
{
    let y = operand(cs, q, tier);
    let loosest = tier_looseness(tier);
    lemma_operand(cs, q, tier);
    lemma_operand_hopes(cs, q, tier);
    lemma_split(ahead(cs, p), seq![sign(op)], ahead(cs, q));
    lemma_lift_operand(cs, start, q, op, lhs, y.misses);
    match y.moved(q, cs.len() as int) {
        None => {
            assert(link(cs, p, q, tier, op, meant(lhs)).misses =~= y.misses);
        },
        Some((tree, e)) => {
            let rhs = lemma_operand_stands(cs, q, tier);
            let both = Phrase::Infix(op, Box::new(lhs), Box::new(rhs));
            assert(ahead(cs, start) =~= text_of(both) + ahead(cs, e));
            lemma_chain_hopes(cs, start, e, tier, both);
            lemma_joined(cs, start, y.misses, chain(cs, e, tier, meant(both)).misses, loosest);
        },
    }
}

proof fn lemma_expr_hopes(cs: Seq<char>, p: int)
    requires
        0 <= p <= cs.len(),
    ensures
        all_hope(cs, p, expr(cs, p).misses, 3),
    decreases cs.len() - p, 8int,
{
    lemma_infix_hopes(cs, p, Tier::Sum);
}

/// The shortest program.
pub open spec fn shortest() -> Source {
    Source::Last(nought())
}

proof fn lemma_shortest()
    ensures
        is_source(shortest()),
        source_text(shortest()) == seq![seq!['0']],
{
    lemma_nought();
}

/// Something that is hoped for as an expression is hoped for as the right side of a definition.
proof fn lemma_lift_side(cs: Seq<char>, p: int, q: int, misses: Seq<Miss>)
    requires
        ahead(cs, p) == seq![seq!['=']] + ahead(cs, q),
        all_hope(cs, q, misses, 3),
    ensures
        all_side_hope(cs, p, misses),
{
    assert forall|i: int| 0 <= i < misses.len() implies has_side_hope(
        cs,
        p,
        #[trigger] misses[i],
    ) by {
        let miss = misses[i];
        assert(has_hope(cs, q, miss, 3));
        let (rhs, before, more) = choose|
            phrase: Phrase,
            before: Seq<Seq<char>>,
            more: Seq<Seq<char>>,
        |
            #![trigger is_phrase(phrase), is_hope(cs, q, miss, text_of(phrase), before, more)]
            is_phrase(phrase) && looseness(phrase) <= 3 && is_hope(
                cs,
                q,
                miss,
                text_of(phrase),
                before,
                more,
            );
        lemma_shortest();
        let whole = side(rhs, source_text(shortest()));
        let head = seq![seq!['=']] + before;
        assert(before.len() > 0 ==> head.last() == before.last());
        let tail = more + (seq![seq![';']] + source_text(shortest()));
        assert(whole =~= head + tail);
        assert(ahead(cs, p) =~= head + ahead(cs, miss.at));
        assert(more.len() > 0 ==> tail[0] == more[0]);
        assert(is_hope(cs, p, miss, whole, head, tail));
    }
}

/// What is hoped for behind a definition is hoped for with it.
proof fn lemma_lift_then(cs: Seq<char>, p: int, t: int, rhs: Phrase, misses: Seq<Miss>)
    requires
        is_phrase(rhs),
        ahead(cs, p) == seq![seq!['=']] + (text_of(rhs) + (seq![seq![';']] + ahead(cs, t))),
        all_source_hope(cs, t, misses),
    ensures
        all_side_hope(cs, p, misses),
{
    assert forall|i: int| 0 <= i < misses.len() implies has_side_hope(
        cs,
        p,
        #[trigger] misses[i],
    ) by {
        let miss = misses[i];
        assert(has_source_hope(cs, t, miss));
        let (then, before, more) = choose|
            source: Source,
            before: Seq<Seq<char>>,
            more: Seq<Seq<char>>,
        |
            #![trigger is_hope(cs, t, miss, source_text(source), before, more)]
            is_source(source) && is_hope(cs, t, miss, source_text(source), before, more);
        let whole = side(rhs, source_text(then));
        let head = seq![seq!['=']] + text_of(rhs) + seq![seq![';']] + before;
        assert(before.len() > 0 ==> head.last() == before.last());
        assert(whole =~= head + more);
        assert(ahead(cs, p) =~= head + ahead(cs, miss.at));
        assert(is_hope(cs, p, miss, whole, head, more));
    }
}

/// The end of the right side of a definition is hoped for.
proof fn lemma_semicolon_hopes(cs: Seq<char>, p: int, r: int, rhs: Phrase)
    requires
        is_phrase(rhs),
        0 <= r <= cs.len(),
        ahead(cs, p) == seq![seq!['=']] + (text_of(rhs) + ahead(cs, r)),
    ensures
        all_side_hope(cs, p, token(cs, r, ';').misses),
{
    let miss = Miss { at: skip(cs, r), sought: Expected::Token(';') };
    let whole = side(rhs, source_text(shortest()));
    let before = seq![seq!['=']] + text_of(rhs);
    let more = seq![seq![';']] + source_text(shortest());
    lemma_shortest();
    lemma_token_missed(cs, r, ';');
    lemma_spaces(cs, r);
    assert(whole =~= before + more);
    assert(ahead(cs, p) =~= before + ahead(cs, miss.at));
    assert(is_hope(cs, p, miss, whole, before, more));
    assert(has_side_hope(cs, p, miss));
}

/// The sign before the right side of a definition is hoped for.
proof fn lemma_equals_hopes(cs: Seq<char>, p: int)
    requires
        0 <= p <= cs.len(),
    ensures
        all_side_hope(cs, p, token(cs, p, '=').misses),
{
    let miss = Miss { at: skip(cs, p), sought: Expected::Token('=') };
    let whole = side(nought(), source_text(shortest()));
    let none = Seq::<Seq<char>>::empty();
    lemma_nought();
    lemma_shortest();
    lemma_token_missed(cs, p, '=');
    lemma_spaces(cs, p);
    assert(whole =~= none + whole);
    assert(ahead(cs, p) =~= none + ahead(cs, miss.at));
    assert(whole[0] == seq!['=']);
    assert(is_hope(cs, p, miss, whole, none, whole));
    assert(has_side_hope(cs, p, miss));
}

#[verifier::rlimit(40)]
proof fn lemma_rest_hopes(cs: Seq<char>, p: int)
    requires
        0 <= p <= cs.len(),
    ensures
        all_side_hope(cs, p, rest(cs, p).misses),
    decreases cs.len() - p, 8int,
{
    let n = cs.len() as int;
    let e = token(cs, p, '=');
    lemma_token_comes(cs, p, '=');
    lemma_token_missed(cs, p, '=');
    lemma_equals_hopes(cs, p);
    match e.moved(p, n) {
        None => {
            assert(rest(cs, p).misses =~= e.misses);
        },
        Some((_, q)) => {
            let x = expr(cs, q);
            lemma_expr(cs, q);
            lemma_expr_hopes(cs, q);
            lemma_split(ahead(cs, p), seq!['='], ahead(cs, q));
            lemma_lift_side(cs, p, q, x.misses);
            match x.moved(q, n) {
                None => {
                    assert(rest(cs, p).misses =~= x.misses);
                },
                Some((_, r)) => {
                    let rhs = lemma_expr_stands(cs, q);
                    let s = token(cs, r, ';');
                    lemma_token_comes(cs, r, ';');
                    lemma_token_missed(cs, r, ';');
                    lemma_semicolon_hopes(cs, p, r, rhs);
                    match s.moved(r, n) {
                        None => {
                            lemma_side_joined(cs, p, x.misses, s.misses);
                            assert(rest(cs, p).misses =~= x.misses + s.misses);
                        },
                        Some((_, t)) => {
                            let d = decl(cs, t);
                            lemma_split(ahead(cs, r), seq![';'], ahead(cs, t));
                            lemma_decl_hopes(cs, t);
                            lemma_lift_then(cs, p, t, rhs, d.misses);
                            lemma_side_joined(cs, p, x.misses, d.misses);
                            assert(rest(cs, p).misses =~= x.misses + d.misses);
                        },
                    }
                },
            }
        },
    }
}

/// A definition of a variable, and what is before its name or its right side.
pub open spec fn let_source(text: Seq<char>, rhs: Phrase, then: Source) -> Source {
    Source::Let { name: text, rhs, then: Box::new(then) }
}

pub open spec fn fn_source(
    text: Seq<char>,
    args: Seq<Seq<char>>,
    body: Phrase,
    then: Source,
) -> Source {
    Source::Fn { name: text, args, body, then: Box::new(then) }
}

/// Something hoped for with what is before it.
proof fn lemma_source_hope(
    cs: Seq<char>,
    p: int,
    miss: Miss,
    source: Source,
    before: Seq<Seq<char>>,
    more: Seq<Seq<char>>,
)
    requires
        is_source(source),
        is_hope(cs, p, miss, source_text(source), before, more),
    ensures
        has_source_hope(cs, p, miss),
{
}

/// A keyword could be there, or could have gone on.
proof fn lemma_keyword_hopes(cs: Seq<char>, p: int, word: Keyword)
    requires
        0 <= p <= cs.len(),
    ensures
        all_source_hope(cs, p, keyword(cs, p, word).misses),
{
    let o = keyword(cs, p, word);
    let s = skip(cs, p);
    let source = match word {
        Keyword::Let => let_source(seq!['a'], nought(), shortest()),
        Keyword::Fn => fn_source(seq!['a'], Seq::empty(), nought(), shortest()),
    };
    let whole = source_text(source);
    let none = Seq::<Seq<char>>::empty();
    lemma_nought();
    lemma_shortest();
    lemma_spaces(cs, p);
    lemma_keyword(cs, p, word);
    lemma_keyword_comes(cs, p, word);
    assert(is_source(source));
    assert(keyword_text(Keyword::Let) =~= seq!['l', 'e', 't']);
    assert(keyword_text(Keyword::Fn) =~= seq!['f', 'n']);
    assert(whole[0] == keyword_text(word));
    assert forall|i: int| 0 <= i < o.misses.len() implies !((#[trigger] o.misses[i]).sought
        is EndOfInput) && has_source_hope(cs, p, o.misses[i]) by {
        let miss = o.misses[i];
        if o.value is None {
            assert(whole =~= none + whole);
            assert(ahead(cs, p) =~= none + ahead(cs, miss.at));
            lemma_source_hope(cs, p, miss, source, none, whole);
        } else {
            let q = o.value->Some_0.1;
            let head = seq![keyword_text(word)];
            lemma_word_end(cs, s + 1);
            lemma_spaces(cs, miss.at);
            lemma_split(ahead(cs, p), keyword_text(word), ahead(cs, q));
            assert(whole =~= head + whole.drop_first());
            lemma_source_hope(cs, p, miss, source, head, whole.drop_first());
        }
    }
}

/// The name of a definition could be there, or could have gone on.
proof fn lemma_defined_name_hopes(cs: Seq<char>, p: int, q: int, word: Keyword)
    requires
        0 <= q <= cs.len(),
        ahead(cs, p) == seq![keyword_text(word)] + ahead(cs, q),
    ensures
        all_source_hope(cs, p, name(cs, q).misses),
{
    let o = name(cs, q);
    let s = skip(cs, q);
    lemma_nought();
    lemma_shortest();
    lemma_spaces(cs, q);
    lemma_name(cs, q);
    lemma_name_comes(cs, q);
    lemma_name_is_word(cs, q);
    assert(keyword_text(Keyword::Let) =~= seq!['l', 'e', 't']);
    assert(keyword_text(Keyword::Fn) =~= seq!['f', 'n']);
    assert forall|i: int| 0 <= i < o.misses.len() implies !((#[trigger] o.misses[i]).sought
        is EndOfInput) && has_source_hope(cs, p, o.misses[i]) by {
        let miss = o.misses[i];
        let text = if o.value is None {
            seq!['a']
        } else {
            o.value->Some_0.0
        };
        let source = match word {
            Keyword::Let => let_source(text, nought(), shortest()),
            Keyword::Fn => fn_source(text, Seq::empty(), nought(), shortest()),
        };
        let whole = source_text(source);
        assert(is_source(source));
        assert(whole[0] == keyword_text(word) && whole[1] == text);
        if o.value is None {
            let head = seq![keyword_text(word)];
            assert(whole =~= head + whole.drop_first());
            lemma_source_hope(cs, p, miss, source, head, whole.drop_first());
        } else {
            let r = o.value->Some_0.1;
            let head = seq![keyword_text(word), text];
            lemma_word_end(cs, s + 1);
            lemma_spaces(cs, miss.at);
            lemma_split(ahead(cs, q), text, ahead(cs, r));
            assert(whole =~= head + whole.skip(2));
            assert(ahead(cs, p) =~= head + ahead(cs, miss.at));
            lemma_source_hope(cs, p, miss, source, head, whole.skip(2));
        }
    }
}

/// What is hoped for as the rest of a definition is hoped for with what is before it.
proof fn lemma_lift_rest(
    cs: Seq<char>,
    p: int,
    t: int,
    word: Keyword,
    text: Seq<char>,
    args: Seq<Seq<char>>,
    misses: Seq<Miss>,
)
    requires
        is_word(text),
        word is Let ==> args.len() == 0,
        forall|i: int| 0 <= i < args.len() ==> is_word(#[trigger] args[i]),
        ahead(cs, p) == seq![keyword_text(word)] + (seq![text] + (args + ahead(cs, t))),
        all_side_hope(cs, t, misses),
    ensures
        all_source_hope(cs, p, misses),
{
    assert(keyword_text(Keyword::Let) =~= seq!['l', 'e', 't']);
    assert(keyword_text(Keyword::Fn) =~= seq!['f', 'n']);
    assert forall|i: int| 0 <= i < misses.len() implies !((#[trigger] misses[i]).sought is EndOfInput)
        && has_source_hope(cs, p, misses[i]) by {
        let miss = misses[i];
        assert(has_side_hope(cs, t, miss));
        let (rhs, then, before, more) = choose|
            rhs: Phrase,
            then: Source,
            before: Seq<Seq<char>>,
            more: Seq<Seq<char>>,
        |
            #![trigger is_hope(cs, t, miss, side(rhs, source_text(then)), before, more)]
            is_phrase(rhs) && is_source(then) && is_hope(
                cs,
                t,
                miss,
                side(rhs, source_text(then)),
                before,
                more,
            );
        let source = match word {
            Keyword::Let => let_source(text, rhs, then),
            Keyword::Fn => fn_source(text, args, rhs, then),
        };
        let head = seq![keyword_text(word)] + (seq![text] + (args + before));
        assert(before.len() > 0 ==> head.last() == before.last());
        assert(is_source(source));
        assert(source_text(source) =~= head + more);
        assert(ahead(cs, p) =~= head + ahead(cs, miss.at));
        lemma_source_hope(cs, p, miss, source, head, more);
    }
}

#[verifier::rlimit(40)]
proof fn lemma_let_hopes(cs: Seq<char>, p: int)
    requires
        0 <= p <= cs.len(),
    ensures
        all_source_hope(cs, p, let_decl(cs, p).misses),
    decreases cs.len() - p, 8int,
{
    let n = cs.len() as int;
    let k = keyword(cs, p, Keyword::Let);
    lemma_keyword_comes(cs, p, Keyword::Let);
    lemma_keyword_hopes(cs, p, Keyword::Let);
    match k.moved(p, n) {
        None => {
            assert(let_decl(cs, p).misses =~= k.misses);
        },
        Some((_, q)) => {
            let x = name(cs, q);
            lemma_split(ahead(cs, p), keyword_text(Keyword::Let), ahead(cs, q));
            lemma_name_comes(cs, q);
            lemma_name_is_word(cs, q);
            lemma_defined_name_hopes(cs, p, q, Keyword::Let);
            lemma_source_joined(cs, p, k.misses, x.misses);
            match x.moved(q, n) {
                None => {
                    assert(let_decl(cs, p).misses =~= k.misses + x.misses);
                },
                Some((text, r)) => {
                    let d = rest(cs, r);
                    let none = Seq::<Seq<char>>::empty();
                    lemma_split(ahead(cs, q), text, ahead(cs, r));
                    lemma_rest_hopes(cs, r);
                    assert(ahead(cs, r) =~= none + ahead(cs, r));
                    lemma_lift_rest(cs, p, r, Keyword::Let, text, none, d.misses);
                    lemma_source_joined(cs, p, k.misses + x.misses, d.misses);
                    assert(let_decl(cs, p).misses =~= k.misses + x.misses + d.misses);
                },
            }
        },
    }
}

/// One more parameter could be there, or the last could have gone on.
proof fn lemma_names_hopes(
    cs: Seq<char>,
    p: int,
    r: int,
    text: Seq<char>,
    found: Seq<Seq<char>>,
)
    requires
        is_word(text),
        forall|i: int| 0 <= i < found.len() ==> is_word(#[trigger] found[i]),
        0 <= r <= cs.len(),
        ahead(cs, p) == seq![seq!['f', 'n']] + (seq![text] + (found + ahead(cs, r))),
    ensures
        all_source_hope(cs, p, names(cs, r, found).misses),
    decreases cs.len() - r,
{
    let x = name(cs, r);
    let s = skip(cs, r);
    lemma_nought();
    lemma_shortest();
    lemma_spaces(cs, r);
    lemma_name(cs, r);
    lemma_name_comes(cs, r);
    lemma_name_is_word(cs, r);
    assert forall|i: int| 0 <= i < x.misses.len() implies !((#[trigger] x.misses[i]).sought
        is EndOfInput) && has_source_hope(cs, p, x.misses[i]) by {
        let miss = x.misses[i];
        let word = if x.value is None {
            seq!['a']
        } else {
            x.value->Some_0.0
        };
        let all = found.push(word);
        let source = fn_source(text, all, nought(), shortest());
        let end = side(nought(), source_text(shortest()));
        assert forall|i: int| 0 <= i < all.len() implies is_word(#[trigger] all[i]) by {
            if i < found.len() {
                assert(all[i] == found[i]);
            }
        }
        assert(is_source(source));
        if x.value is None {
            let head = seq![seq!['f', 'n']] + (seq![text] + found);
            let tail = seq![word] + end;
            assert(source_text(source) =~= head + tail);
            assert(ahead(cs, p) =~= head + ahead(cs, miss.at));
            lemma_source_hope(cs, p, miss, source, head, tail);
        } else {
            let q = x.value->Some_0.1;
            let head = seq![seq!['f', 'n']] + (seq![text] + all);
            lemma_word_end(cs, s + 1);
            lemma_spaces(cs, miss.at);
            lemma_split(ahead(cs, r), word, ahead(cs, q));
            assert(source_text(source) =~= head + end);
            assert(ahead(cs, p) =~= head + ahead(cs, miss.at));
            lemma_source_hope(cs, p, miss, source, head, end);
        }
    }
    match x.moved(r, cs.len() as int) {
        None => {
            assert(names(cs, r, found).misses =~= x.misses);
        },
        Some((word, q)) => {
            let all = found.push(word);
            lemma_split(ahead(cs, r), word, ahead(cs, q));
            assert forall|i: int| 0 <= i < all.len() implies is_word(#[trigger] all[i]) by {
                if i < found.len() {
                    assert(all[i] == found[i]);
                }
            }
            assert(ahead(cs, p) =~= seq![seq!['f', 'n']] + (seq![text] + (all + ahead(cs, q))));
            lemma_names_hopes(cs, p, q, text, all);
            lemma_source_joined(cs, p, x.misses, names(cs, q, all).misses);
        },
    }
}

#[verifier::rlimit(40)]
proof fn lemma_fn_hopes(cs: Seq<char>, p: int)
    requires
        0 <= p <= cs.len(),
    ensures
        all_source_hope(cs, p, fn_decl(cs, p).misses),
    decreases cs.len() - p, 8int,
{
    let n = cs.len() as int;
    let k = keyword(cs, p, Keyword::Fn);
    lemma_keyword_comes(cs, p, Keyword::Fn);
    lemma_keyword_hopes(cs, p, Keyword::Fn);
    assert(keyword_text(Keyword::Fn) =~= seq!['f', 'n']);
    match k.moved(p, n) {
        None => {
            assert(fn_decl(cs, p).misses =~= k.misses);
        },
        Some((_, q)) => {
            let x = name(cs, q);
            lemma_split(ahead(cs, p), keyword_text(Keyword::Fn), ahead(cs, q));
            lemma_name_comes(cs, q);
            lemma_name_is_word(cs, q);
            lemma_defined_name_hopes(cs, p, q, Keyword::Fn);
            lemma_source_joined(cs, p, k.misses, x.misses);
            match x.moved(q, n) {
                None => {
                    assert(fn_decl(cs, p).misses =~= k.misses + x.misses);
                },
                Some((text, r)) => {
                    let none = Seq::<Seq<char>>::empty();
                    let xs = names(cs, r, none);
                    lemma_split(ahead(cs, q), text, ahead(cs, r));
                    assert(ahead(cs, r) =~= none + ahead(cs, r));
                    lemma_names_hopes(cs, p, r, text, none);
                    lemma_names_stand(cs, r, none);
                    lemma_names_are_words(cs, r, none);
                    let (args, t) = xs.value->Some_0;
                    assert(args.skip(0) =~= args);
                    let d = rest(cs, t);
                    lemma_rest_hopes(cs, t);
                    lemma_lift_rest(cs, p, t, Keyword::Fn, text, args, d.misses);
                    lemma_source_joined(cs, p, k.misses + x.misses, xs.misses);
                    lemma_source_joined(cs, p, k.misses + x.misses + xs.misses, d.misses);
                    assert(fn_decl(cs, p).misses =~= k.misses + x.misses + xs.misses + d.misses);
                },
            }
        },
    }
}

/// What is hoped for as an expression is hoped for as a program.
proof fn lemma_lift_last(cs: Seq<char>, p: int, misses: Seq<Miss>)
    requires
        all_hope(cs, p, misses, 3),
    ensures
        all_source_hope(cs, p, misses),
{
    assert forall|i: int| 0 <= i < misses.len() implies !((#[trigger] misses[i]).sought is EndOfInput)
        && has_source_hope(cs, p, misses[i]) by {
        let miss = misses[i];
        assert(has_hope(cs, p, miss, 3));
        let (phrase, before, more) = choose|
            phrase: Phrase,
            before: Seq<Seq<char>>,
            more: Seq<Seq<char>>,
        |
            #![trigger is_phrase(phrase), is_hope(cs, p, miss, text_of(phrase), before, more)]
            is_phrase(phrase) && looseness(phrase) <= 3 && is_hope(
                cs,
                p,
                miss,
                text_of(phrase),
                before,
                more,
            );
        lemma_source_hope(cs, p, miss, Source::Last(phrase), before, more);
    }
}

proof fn lemma_decl_hopes(cs: Seq<char>, p: int)
    requires
        0 <= p <= cs.len(),
    ensures
        all_source_hope(cs, p, decl(cs, p).misses),
    decreases cs.len() - p, 9int,
{
    let l = let_decl(cs, p);
    let f = fn_decl(cs, p);
    let x = expr(cs, p);
    lemma_let_hopes(cs, p);
    lemma_fn_hopes(cs, p);
    lemma_expr_hopes(cs, p);
    lemma_lift_last(cs, p, x.misses);
    lemma_source_joined(cs, p, l.misses, f.misses);
    lemma_source_joined(cs, p, l.misses + f.misses, x.misses);
    if l.value is Some {
    } else if f.value is Some {
        assert(decl(cs, p).misses =~= l.misses + f.misses);
    } else {
        assert(decl(cs, p).misses =~= l.misses + f.misses + x.misses);
    }
}

/// Everything that is told to be expected, where a text is refused, could stand there: some program
/// begins with the words, numbers and signs that the text has before that place, and goes on with what
/// is expected. Where the end is expected, they are a program; where a word or a number is told to
/// have stopped, it is the last of them.
pub proof fn law_what_is_told_could_stand_there(cs: Seq<char>, sought: Expected)
    requires
        program(cs).value is None,
        sought_at(program(cs).misses, furthest(program(cs).misses)).contains(sought),
    ensures
        ({
            let at = furthest(program(cs).misses);
            &&& 0 <= at <= cs.len()
            &&& exists|source: Source, before: Seq<Seq<char>>, more: Seq<Seq<char>>|
                #![trigger is_source(source), before + more]
                {
                    &&& is_source(source)
                    &&& source_text(source) == before + more
                    &&& lexemes(cs, 0) == before + lexemes(cs, at)
                    &&& is_sought(sought, more)
                    &&& has_stopped(cs, Miss { at, sought }, before)
                }
        }),
{
    let misses = program(cs).misses;
    let at = furthest(misses);
    let d = decl(cs, 0);
    lemma_decl_hopes(cs, 0);
    lemma_decl(cs, 0);
    law_the_last_place_is_told(misses, at, sought);
    let i = choose|i: int|
        0 <= i < misses.len() && (#[trigger] misses[i]).at == at && misses[i].sought == sought;
    let miss = misses[i];
    if i < d.misses.len() {
        assert(miss == d.misses[i]);
        assert(has_source_hope(cs, 0, d.misses[i]));
    } else {
        let q = d.value->Some_0.1;
        let source = lemma_decl_stands(cs, 0);
        let none = Seq::<Seq<char>>::empty();
        assert(miss == (Miss { at: q, sought: Expected::EndOfInput }));
        assert(source_text(source) =~= source_text(source) + none);
        lemma_source_hope(cs, 0, miss, source, source_text(source), none);
    }
    assert(has_source_hope(cs, 0, miss));
    let (source, before, more) = choose|
        source: Source,
        before: Seq<Seq<char>>,
        more: Seq<Seq<char>>,
    |
        #![trigger is_hope(cs, 0, miss, source_text(source), before, more)]
        is_source(source) && is_hope(cs, 0, miss, source_text(source), before, more);
    reveal(ahead);
    assert(is_source(source) && source_text(source) == before + more);
}

/// What an error tells of a text that is not a program: the character at the place that it names, if
/// there is one, and at least one thing that could stand there, each once. Some program begins as the
/// text does up to that place and goes on with it.
pub proof fn law_an_error_tells_what_could_stand_there(
    error: ParseError,
    cs: Seq<char>,
    sought: Expected,
)
    requires
        program(cs).value is None,
        explains(error, cs),
    ensures
        error.at < cs.len() ==> error.found == Some(cs[error.at as int]),
        error.at >= cs.len() ==> error.at == cs.len() && error.found is None,
        error.expected@.len() > 0,
        error.expected@.no_duplicates(),
        error.expected@.contains(sought) ==> exists|
            source: Source,
            before: Seq<Seq<char>>,
            more: Seq<Seq<char>>,
        |
            #![trigger is_source(source), before + more]
            {
                &&& is_source(source)
                &&& source_text(source) == before + more
                &&& lexemes(cs, 0) == before + lexemes(cs, error.at as int)
                &&& is_sought(sought, more)
                &&& has_stopped(cs, Miss { at: error.at as int, sought }, before)
            },
{
    law_the_last_place_is_told(program(cs).misses, error.at as int, sought);
    if error.expected@.contains(sought) {
        law_what_is_told_could_stand_there(cs, sought);
    }
}

/// What an error tells is all that could stand there: a program that begins as the text does, up to
/// the place that the error names, does not have the same character there, but white space or
/// something that the error tells.
pub proof fn law_an_error_tells_all_that_could_stand_there(
    error: ParseError,
    cs: Seq<char>,
    ds: Seq<char>,
)
    requires
        program(cs).value is None,
        explains(error, cs),
        program(ds).value is Some,
        error.at < cs.len(),
        error.at < ds.len(),
        agree_up_to(cs, ds, error.at as int),
    ensures
        Some(ds[error.at as int]) != error.found,
        is_space(ds[error.at as int]) || exists|sought: Expected|
            error.expected@.contains(sought) && #[trigger] could_be(sought, ds[error.at as int]),
{
    let at = error.at as int;
    if ds[at] == cs[at] {
        assert(agree_up_to(cs, ds, at + 1));
        law_a_refusal_rests_on_what_is_before(cs, ds);
    }
    if !is_space(ds[at]) && forall|sought: Expected|
        error.expected@.contains(sought) ==> !(#[trigger] could_be(sought, ds[at])) {
        law_only_what_is_told_could_stand_there(cs, ds);
    }
}

} // verus!

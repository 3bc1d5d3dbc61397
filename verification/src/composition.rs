//! Texts put together from texts, and what they are read as.

use crate::ast::{Op, Tree};
use crate::extent::{lemma_digits_end, lemma_skip, lemma_word_end};
use crate::grammar::{
    digits_end, is_digit, is_space, is_word_part, is_word_start, program, skip, word_end, Syntax,
};
use crate::phrase::{
    all_meant, is_phrase, is_source, law_a_text_is_read_as_it_is_meant, law_texts_and_trees,
    looseness, meant, operator_looseness, side, source_meant, source_text, text_of, text_of_list,
    Phrase, Source,
};
use crate::printing::{ahead, law_a_lexeme_comes_first, sign};
use crate::spacing::{is_inside, is_sign, lemma_lexemes_around, lexeme_end, lexemes};
use crate::wording::{is_numeral, is_word};
use vstd::prelude::*;

verus! {

/// The text is a program and is read as the tree.
#[verifier::opaque]
pub open spec fn is_read_as(cs: Seq<char>, tree: Syntax) -> bool {
    program(cs).value == Some((tree, cs.len() as int))
}

/// No definition is at the top of the tree.
pub open spec fn is_expression(tree: Syntax) -> bool {
    !(tree is Let) && !(tree is Fn)
}

proof fn lemma_ends_split(cs: Seq<char>, c: char, more: Seq<char>, p: int)
    requires
        0 <= p <= cs.len(),
        is_sign(c),
    ensures
        word_end(cs + seq![c] + more, p) == word_end(cs, p),
        digits_end(cs + seq![c] + more, p) == digits_end(cs, p),
        !is_space(c) ==> skip(cs + seq![c] + more, p) == skip(cs, p),
        is_space(c) && skip(cs, p) < cs.len() ==> skip(cs + seq![c] + more, p) == skip(cs, p),
        is_space(c) && skip(cs, p) == cs.len() ==> skip(cs + seq![c] + more, p) == skip(
            cs + seq![c] + more,
            cs.len() as int,
        ),
    decreases cs.len() - p,
{
    let ds = cs + seq![c] + more;
    if p < cs.len() {
        assert(ds[p] == cs[p]);
        lemma_ends_split(cs, c, more, p + 1);
    } else {
        assert(ds[p] == c);
    }
}

/// A sign sets what is before it apart from what is behind it, and so does a space.
proof fn lemma_split(cs: Seq<char>, c: char, more: Seq<char>, p: int)
    requires
        0 <= p <= cs.len(),
        is_sign(c),
    ensures
        lexemes(cs + seq![c] + more, p) == if is_space(c) {
            lexemes(cs, p) + lexemes(more, 0)
        } else {
            lexemes(cs, p) + (seq![seq![c]] + lexemes(more, 0))
        },
    decreases cs.len() - p,
{
    let ds = cs + seq![c] + more;
    let n = cs.len() as int;
    let s = skip(cs, p);
    lemma_skip(cs, p);
    lemma_ends_split(cs, c, more, p);
    assert(is_inside(more, ds, n + 1));
    lemma_lexemes_around(more, ds, n + 1, 0);
    assert(ds[n] == c);
    if s < n {
        assert(ds[s] == cs[s]);
        lemma_word_end(cs, s + 1);
        lemma_digits_end(cs, s + 1);
        lemma_ends_split(cs, c, more, s + 1);
        let e = lexeme_end(cs, s);
        assert(lexeme_end(ds, s) == e);
        lemma_split(cs, c, more, e);
        assert(ds.subrange(s, e) =~= cs.subrange(s, e));
        assert(lexemes(ds, p) =~= seq![cs.subrange(s, e)] + lexemes(ds, e));
        assert(lexemes(cs, p) =~= seq![cs.subrange(s, e)] + lexemes(cs, e));
        assert(lexemes(ds, p) =~= if is_space(c) {
            lexemes(cs, p) + lexemes(more, 0)
        } else {
            lexemes(cs, p) + (seq![seq![c]] + lexemes(more, 0))
        });
    } else {
        assert(lexemes(cs, p) =~= Seq::empty());
        if is_space(c) {
            lemma_skip(ds, n + 1);
            assert(skip(ds, n) == skip(ds, n + 1));
            assert(lexemes(ds, p) == lexemes(ds, n + 1));
            assert(lexemes(ds, p) =~= lexemes(cs, p) + lexemes(more, 0));
        } else {
            assert(lexeme_end(ds, n) == n + 1);
            assert(ds.subrange(n, n + 1) =~= seq![c]);
            assert(lexemes(ds, p) =~= lexemes(cs, p) + (seq![seq![c]] + lexemes(more, 0)));
        }
    }
}

/// What a sign or a space sets apart.
proof fn lemma_apart(cs: Seq<char>, c: char, more: Seq<char>)
    requires
        is_sign(c),
    ensures
        ahead(cs + seq![c] + more, 0) == if is_space(c) {
            ahead(cs, 0) + ahead(more, 0)
        } else {
            ahead(cs, 0) + (seq![seq![c]] + ahead(more, 0))
        },
{
    reveal(ahead);
    lemma_split(cs, c, more, 0);
}

proof fn lemma_nothing()
    ensures
        ahead(Seq::empty(), 0) == Seq::<Seq<char>>::empty(),
{
    reveal(ahead);
    assert(lexemes(Seq::empty(), 0) =~= Seq::<Seq<char>>::empty());
}

/// A text that is built up as a program is read as what it means.
proof fn lemma_reads(cs: Seq<char>, source: Source)
    requires
        is_source(source),
        ahead(cs, 0) == source_text(source),
    ensures
        is_read_as(cs, source_meant(source)),
{
    reveal(ahead);
    reveal(is_read_as);
    law_a_text_is_read_as_it_is_meant(cs, source);
}

/// A sign before a text comes first.
proof fn lemma_sign_first(c: char, more: Seq<char>)
    requires
        is_sign(c),
        !is_space(c),
    ensures
        ahead(seq![c] + more, 0) == seq![seq![c]] + ahead(more, 0),
{
    lemma_apart(Seq::empty(), c, more);
    assert(Seq::<char>::empty() + seq![c] + more =~= seq![c] + more);
    lemma_nothing();
    assert(ahead(Seq::empty(), 0) + (seq![seq![c]] + ahead(more, 0)) =~= seq![seq![c]]
        + ahead(more, 0));
}

/// A word or a number alone.
proof fn lemma_alone(text: Seq<char>)
    requires
        is_word(text) || is_numeral(text),
    ensures
        ahead(text, 0) == seq![text],
{
    reveal(ahead);
    law_a_lexeme_comes_first(text, Seq::empty());
    assert(text + Seq::<char>::empty() =~= text);
    lemma_nothing();
    assert(seq![text] + Seq::<Seq<char>>::empty() =~= seq![text]);
}

/// A text that is read as an expression is built up as a phrase.
proof fn lemma_phrase(cs: Seq<char>, tree: Syntax) -> (phrase: Phrase)
    requires
        is_read_as(cs, tree),
        is_expression(tree),
    ensures
        is_phrase(phrase),
        meant(phrase) == tree,
        ahead(cs, 0) == text_of(phrase),
{
    let source = lemma_source(cs, tree);
    source->Last_0
}

proof fn lemma_source(cs: Seq<char>, tree: Syntax) -> (source: Source)
    requires
        is_read_as(cs, tree),
    ensures
        is_source(source),
        source_meant(source) == tree,
        ahead(cs, 0) == source_text(source),
{
    reveal(ahead);
    reveal(is_read_as);
    law_texts_and_trees(cs, tree);
    choose|source: Source| #[trigger]
        is_source(source) && source_meant(source) == tree && ahead(cs, 0) == source_text(source)
}

/// A text in brackets.
pub open spec fn bracketed(cs: Seq<char>) -> Seq<char> {
    seq!['('] + cs + seq![')']
}

proof fn lemma_bracketed(cs: Seq<char>, phrase: Phrase)
    requires
        ahead(cs, 0) == text_of(phrase),
    ensures
        ahead(bracketed(cs), 0) == text_of(Phrase::Group(Box::new(phrase))),
{
    lemma_apart(cs, ')', Seq::empty());
    lemma_sign_first('(', cs + seq![')'] + Seq::empty());
    assert(bracketed(cs) =~= seq!['('] + (cs + seq![')'] + Seq::empty()));
    lemma_nothing();
    assert(ahead(bracketed(cs), 0) =~= text_of(Phrase::Group(Box::new(phrase))));
}

/// An expression in brackets is read as the expression, and with a sign before the brackets as its
/// negation.
pub proof fn law_brackets_and_signs(cs: Seq<char>, tree: Syntax)
    requires
        is_read_as(cs, tree),
        is_expression(tree),
    ensures
        is_read_as(bracketed(cs), tree),
        is_read_as(seq!['-'] + bracketed(cs), Tree::Neg(Box::new(tree))),
{
    let phrase = lemma_phrase(cs, tree);
    let group = Phrase::Group(Box::new(phrase));
    let minus = Phrase::Minus(Box::new(group));
    lemma_bracketed(cs, phrase);
    assert(is_phrase(group));
    lemma_reads(bracketed(cs), Source::Last(group));
    lemma_sign_first('-', bracketed(cs));
    lemma_reads(seq!['-'] + bracketed(cs), Source::Last(minus));
}

proof fn lemma_infix(cs: Seq<char>, ds: Seq<char>, op: Op, a: Phrase, b: Phrase)
    requires
        ahead(cs, 0) == text_of(a),
        ahead(ds, 0) == text_of(b),
        is_phrase(Phrase::Infix(op, Box::new(a), Box::new(b))),
    ensures
        is_read_as(
            cs + seq![sign(op)] + ds,
            Tree::Bin(op, Box::new(meant(a)), Box::new(meant(b))),
        ),
{
    let phrase = Phrase::Infix(op, Box::new(a), Box::new(b));
    lemma_apart(cs, sign(op), ds);
    assert(ahead(cs + seq![sign(op)] + ds, 0) =~= text_of(phrase));
    lemma_reads(cs + seq![sign(op)] + ds, Source::Last(phrase));
}

/// An operator between two expressions in brackets is read as that operation on them.
pub proof fn law_operations(cs: Seq<char>, ds: Seq<char>, op: Op, a: Syntax, b: Syntax)
    requires
        is_read_as(cs, a),
        is_read_as(ds, b),
        is_expression(a),
        is_expression(b),
    ensures
        is_read_as(
            bracketed(cs) + seq![sign(op)] + bracketed(ds),
            Tree::Bin(op, Box::new(a), Box::new(b)),
        ),
{
    let x = lemma_phrase(cs, a);
    let y = lemma_phrase(ds, b);
    lemma_bracketed(cs, x);
    lemma_bracketed(ds, y);
    assert(is_phrase(Phrase::Group(Box::new(x))) && is_phrase(Phrase::Group(Box::new(y))));
    lemma_infix(
        bracketed(cs),
        bracketed(ds),
        op,
        Phrase::Group(Box::new(x)),
        Phrase::Group(Box::new(y)),
    );
}

/// How loosely the operation at the top of a tree binds.
pub open spec fn top_looseness(tree: Syntax) -> int {
    match tree {
        Tree::Bin(op, _, _) => operator_looseness(op),
        Tree::Neg(_) => 1,
        _ => 0,
    }
}

proof fn lemma_looseness(phrase: Phrase)
    ensures
        looseness(phrase) <= top_looseness(meant(phrase)),
{
}

/// An operator between two expressions without brackets around them is read as that operation on
/// them, where the left one binds at least as tightly as the operator and the right one more
/// tightly. A sign before an expression that is no operation of two operands is read as its negation.
pub proof fn law_operators_bind_as_tightly_as_they_do(
    cs: Seq<char>,
    ds: Seq<char>,
    op: Op,
    a: Syntax,
    b: Syntax,
)
    requires
        is_read_as(cs, a),
        is_read_as(ds, b),
        is_expression(a),
        is_expression(b),
    ensures
        top_looseness(a) <= operator_looseness(op) && top_looseness(b) < operator_looseness(op)
            ==> is_read_as(
            cs + seq![sign(op)] + ds,
            Tree::Bin(op, Box::new(a), Box::new(b)),
        ),
        top_looseness(a) <= 1 ==> is_read_as(seq!['-'] + cs, Tree::Neg(Box::new(a))),
{
    let x = lemma_phrase(cs, a);
    let y = lemma_phrase(ds, b);
    lemma_looseness(x);
    lemma_looseness(y);
    if top_looseness(a) <= operator_looseness(op) && top_looseness(b) < operator_looseness(op) {
        lemma_infix(cs, ds, op, x, y);
    }
    if top_looseness(a) <= 1 {
        let minus = Phrase::Minus(Box::new(x));
        lemma_sign_first('-', cs);
        lemma_reads(seq!['-'] + cs, Source::Last(minus));
    }
}

/// A number is read as that number, and a word as the variable of that name.
pub proof fn law_words_and_numbers(text: Seq<char>)
    ensures
        is_numeral(text) ==> is_read_as(text, Tree::Num(text)),
        is_word(text) ==> is_read_as(text, Tree::Var(text)),
{
    if is_numeral(text) {
        lemma_alone(text);
        lemma_reads(text, Source::Last(Phrase::Number(text)));
    }
    if is_word(text) {
        lemma_alone(text);
        lemma_reads(text, Source::Last(Phrase::Variable(text)));
    }
}

/// Words are texts of letters, underscores and digits, of any length, that do not begin with a
/// digit. Numbers are texts of digits, of any length, without a zero at the beginning unless it is
/// all.
pub proof fn law_what_words_and_numbers_are(text: Seq<char>)
    requires
        text.len() > 0,
    ensures
        is_word(text) <==> !('0' <= text[0] <= '9') && forall|i: int|
            0 <= i < text.len() ==> ('0' <= #[trigger] text[i] <= '9') || ('A' <= text[i] <= 'Z')
                || text[i] == '_' || ('a' <= text[i] <= 'z'),
        is_numeral(text) <==> (text[0] == '0' ==> text.len() == 1) && forall|i: int|
            0 <= i < text.len() ==> '0' <= #[trigger] text[i] <= '9',
{
    if is_word(text) {
        assert forall|i: int| 0 <= i < text.len() implies ('0' <= #[trigger] text[i] <= '9') || (
        'A' <= text[i] <= 'Z') || text[i] == '_' || ('a' <= text[i] <= 'z') by {
            assert(is_word_part(text[i]));
        }
        assert(is_word_start(text[0]));
    }
    if is_numeral(text) {
        assert forall|i: int| 0 <= i < text.len() implies '0' <= #[trigger] text[i] <= '9' by {
            assert(is_digit(text[i]));
        }
    }
}

/// Texts from the place `i` of a list on, with commas between them.
pub open spec fn listed(texts: Seq<Seq<char>>, i: int) -> Seq<char>
    decreases texts.len() - i,
{
    if 0 <= i < texts.len() {
        if i + 1 < texts.len() {
            texts[i] + seq![','] + listed(texts, i + 1)
        } else {
            texts[i]
        }
    } else {
        Seq::empty()
    }
}

proof fn lemma_listed(texts: Seq<Seq<char>>, args: Seq<Phrase>, i: int)
    requires
        args.len() == texts.len(),
        0 <= i,
        forall|j: int|
            0 <= j < texts.len() ==> ahead(#[trigger] texts[j], 0) == text_of(args[j]),
    ensures
        ahead(listed(texts, i), 0) == text_of_list(args, i),
    decreases texts.len() - i,
{
    if i < texts.len() {
        assert(ahead(texts[i], 0) == text_of(args[i]));
        if i + 1 < texts.len() {
            lemma_listed(texts, args, i + 1);
            lemma_apart(texts[i], ',', listed(texts, i + 1));
            assert(ahead(listed(texts, i), 0) =~= text_of_list(args, i));
        }
    } else {
        lemma_nothing();
    }
}

/// A phrase that a text is built up as.
spec fn phrase_of(cs: Seq<char>, tree: Syntax) -> Phrase {
    choose|phrase: Phrase|
        #![trigger is_phrase(phrase)]
        is_phrase(phrase) && meant(phrase) == tree && ahead(cs, 0) == text_of(phrase)
}

proof fn lemma_phrase_of(cs: Seq<char>, tree: Syntax)
    requires
        is_read_as(cs, tree),
        is_expression(tree),
    ensures
        is_phrase(phrase_of(cs, tree)),
        meant(phrase_of(cs, tree)) == tree,
        ahead(cs, 0) == text_of(phrase_of(cs, tree)),
{
    let phrase = lemma_phrase(cs, tree);
    assert(is_phrase(phrase));
}

proof fn lemma_all_meant_are(args: Seq<Phrase>, trees: Seq<Syntax>)
    requires
        args.len() == trees.len(),
        forall|i: int| 0 <= i < args.len() ==> meant(#[trigger] args[i]) == trees[i],
    ensures
        all_meant(args) == trees,
    decreases args.len(),
{
    if args.len() > 0 {
        let rest = args.drop_last();
        assert forall|i: int| 0 <= i < rest.len() implies meant(#[trigger] rest[i])
            == trees.drop_last()[i] by {
            assert(rest[i] == args[i]);
        }
        lemma_all_meant_are(rest, trees.drop_last());
        assert(meant(args[args.len() - 1]) == trees.last());
        assert(trees.drop_last().push(trees.last()) =~= trees);
    } else {
        assert(trees =~= Seq::empty());
    }
}

/// A word and expressions in brackets behind it, however many, with commas between them, are read as
/// a call with these arguments, in this order. One more comma at the end changes nothing.
pub proof fn law_calls(text: Seq<char>, texts: Seq<Seq<char>>, trees: Seq<Syntax>)
    requires
        is_word(text),
        texts.len() == trees.len(),
        forall|i: int|
            #![trigger texts[i]]
            0 <= i < texts.len() ==> is_read_as(texts[i], trees[i]) && is_expression(trees[i]),
    ensures
        is_read_as(
            text + seq!['('] + listed(texts, 0) + seq![')'],
            Tree::Call(text, trees),
        ),
        texts.len() > 0 ==> is_read_as(
            text + seq!['('] + listed(texts, 0) + seq![',', ')'],
            Tree::Call(text, trees),
        ),
{
    let args = Seq::new(texts.len(), |i: int| phrase_of(texts[i], trees[i]));
    assert forall|i: int| 0 <= i < args.len() implies is_phrase(#[trigger] args[i]) && meant(args[i])
        == trees[i] && ahead(texts[i], 0) == text_of(args[i]) by {
        assert(is_read_as(texts[i], trees[i]));
        lemma_phrase_of(texts[i], trees[i]);
    }
    assert forall|j: int| 0 <= j < texts.len() implies ahead(#[trigger] texts[j], 0) == text_of(
        args[j],
    ) by {
        assert(is_phrase(args[j]));
    }
    lemma_all_meant_are(args, trees);
    lemma_listed(texts, args, 0);
    lemma_alone(text);
    lemma_nothing();
    let list = listed(texts, 0);
    let plain = list + seq![')'] + Seq::empty();
    let call = Phrase::Call { name: text, args, comma: false };
    lemma_apart(list, ')', Seq::empty());
    lemma_apart(text, '(', plain);
    assert(ahead(text + seq!['('] + plain, 0) =~= text_of(call));
    assert(text + seq!['('] + list + seq![')'] =~= text + seq!['('] + plain);
    lemma_reads(text + seq!['('] + plain, Source::Last(call));
    if texts.len() > 0 {
        let comma = list + seq![','] + seq![')'];
        let trailing = Phrase::Call { name: text, args, comma: true };
        lemma_sign_first(')', Seq::empty());
        assert(seq![')'] + Seq::<char>::empty() =~= seq![')']);
        lemma_apart(list, ',', seq![')']);
        lemma_apart(text, '(', comma);
        assert(ahead(text + seq!['('] + comma, 0) =~= text_of(trailing));
        assert(text + seq!['('] + list + seq![',', ')'] =~= text + seq!['('] + comma);
        lemma_reads(text + seq!['('] + comma, Source::Last(trailing));
    }
}

proof fn lemma_side(cs: Seq<char>, ds: Seq<char>, rhs: Phrase, then: Source)
    requires
        ahead(cs, 0) == text_of(rhs),
        ahead(ds, 0) == source_text(then),
    ensures
        ahead(seq!['='] + (cs + seq![';'] + ds), 0) == side(rhs, source_text(then)),
{
    lemma_apart(cs, ';', ds);
    lemma_sign_first('=', cs + seq![';'] + ds);
}

/// The definition of a variable before a program is read as that definition, with the program behind
/// it.
pub proof fn law_definitions_of_variables(
    text: Seq<char>,
    cs: Seq<char>,
    ds: Seq<char>,
    rhs: Syntax,
    then: Syntax,
)
    requires
        is_word(text),
        is_read_as(cs, rhs),
        is_expression(rhs),
        is_read_as(ds, then),
    ensures
        is_read_as(
            seq!['l', 'e', 't', ' '] + text + seq!['='] + cs + seq![';'] + ds,
            Tree::Let { name: text, rhs: Box::new(rhs), then: Box::new(then) },
        ),
{
    let word = seq!['l', 'e', 't'];
    let x = lemma_phrase(cs, rhs);
    let y = lemma_source(ds, then);
    let source = Source::Let { name: text, rhs: x, then: Box::new(y) };
    let behind = cs + seq![';'] + ds;
    let tail = text + seq!['='] + behind;
    assert(is_word(word));
    lemma_alone(word);
    lemma_alone(text);
    lemma_apart(cs, ';', ds);
    lemma_apart(text, '=', behind);
    lemma_apart(word, ' ', tail);
    assert(ahead(word + seq![' '] + tail, 0) =~= source_text(source));
    assert(seq!['l', 'e', 't', ' '] + text + seq!['='] + cs + seq![';'] + ds =~= word + seq![' ']
        + tail);
    lemma_reads(word + seq![' '] + tail, source);
}

/// Words from the place `i` of a list on, each with a space behind it, and `tail` behind them.
pub open spec fn spelled(words: Seq<Seq<char>>, i: int, tail: Seq<char>) -> Seq<char>
    decreases words.len() - i,
{
    if 0 <= i < words.len() {
        words[i] + seq![' '] + spelled(words, i + 1, tail)
    } else {
        tail
    }
}

proof fn lemma_spelled(words: Seq<Seq<char>>, i: int, tail: Seq<char>)
    requires
        0 <= i <= words.len(),
        forall|j: int| 0 <= j < words.len() ==> is_word(#[trigger] words[j]),
    ensures
        ahead(spelled(words, i, tail), 0) == words.skip(i) + ahead(tail, 0),
    decreases words.len() - i,
{
    if i < words.len() {
        assert(is_word(words[i]));
        lemma_spelled(words, i + 1, tail);
        lemma_alone(words[i]);
        lemma_apart(words[i], ' ', spelled(words, i + 1, tail));
        assert(words.skip(i) =~= seq![words[i]] + words.skip(i + 1));
        assert(ahead(spelled(words, i, tail), 0) =~= words.skip(i) + ahead(tail, 0));
    } else {
        assert(words.skip(i) + ahead(tail, 0) =~= ahead(tail, 0));
    }
}

/// The definition of a function, with however many parameters, before a program is read as that
/// definition, with the program behind it.
pub proof fn law_definitions_of_functions(
    text: Seq<char>,
    params: Seq<Seq<char>>,
    cs: Seq<char>,
    ds: Seq<char>,
    body: Syntax,
    then: Syntax,
)
    requires
        is_word(text),
        forall|i: int| 0 <= i < params.len() ==> is_word(#[trigger] params[i]),
        is_read_as(cs, body),
        is_expression(body),
        is_read_as(ds, then),
    ensures
        is_read_as(
            seq!['f', 'n', ' '] + text + seq![' '] + spelled(
                params,
                0,
                seq!['='] + cs + seq![';'] + ds,
            ),
            Tree::Fn { name: text, args: params, body: Box::new(body), then: Box::new(then) },
        ),
{
    let word = seq!['f', 'n'];
    let x = lemma_phrase(cs, body);
    let y = lemma_source(ds, then);
    let source = Source::Fn { name: text, args: params, body: x, then: Box::new(y) };
    let tail = seq!['='] + (cs + seq![';'] + ds);
    let list = spelled(params, 0, tail);
    assert(is_word(word));
    lemma_alone(word);
    lemma_alone(text);
    lemma_side(cs, ds, x, y);
    lemma_spelled(params, 0, tail);
    assert(params.skip(0) =~= params);
    lemma_apart(text, ' ', list);
    lemma_apart(word, ' ', text + seq![' '] + list);
    let whole = word + seq![' '] + (text + seq![' '] + list);
    assert(ahead(whole, 0) =~= source_text(source));
    assert(seq!['='] + cs + seq![';'] + ds =~= tail);
    assert(seq!['f', 'n', ' '] + text + seq![' '] + list =~= whole);
    lemma_reads(whole, source);
}

} // verus!

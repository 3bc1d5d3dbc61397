//! Reads source texts.

use crate::ast::{
    is_apart, is_reading, lemma_planted, lemma_reaches, planted, reaches, size, texts, tree_of,
    Arena, Node, NodeId, Op, Tree, ARENA_CAPACITY,
};
use crate::error::{Expected, Keyword, ParseError};
use crate::extent::{
    law_a_node_for_a_character, law_no_node_is_left_over, law_refusals_have_a_reason, lemma_decl,
    lemma_expr, lemma_items, lemma_keyword, lemma_name, lemma_names, lemma_number, lemma_operand,
    lemma_token,
};
use crate::graft::{
    are_new, graft, grown, is_graft, is_new, kept, lemma_all_kept, lemma_all_new_kept, lemma_kept,
    lemma_new_kept, lemma_new_since, lemma_none_new, lemma_one_more_new, lemma_one_new,
    lemma_two_new,
};
use crate::grammar;
use crate::grammar::{
    furthest, going_on, is_digit, is_space, is_word_part, is_word_start, keyword_text, operators,
    sought_at, Miss, Outcome, Syntax, Tier,
};
use vstd::prelude::*;

verus! {

/// `String::push`: appends a character.
pub assume_specification[ String::push ](text: &mut String, c: char)
    ensures
        final(text)@ == old(text)@.push(c),
;

/// A source text that is being read.
struct Reader {
    chars: Vec<char>,
    /// The last place where something was looked for in vain.
    at: usize,
    /// What was looked for there.
    expected: Vec<Expected>,
    log: Ghost<Seq<Miss>>,
}

/// Nothing was looked for behind the last place where something was.
proof fn lemma_sought_beyond(misses: Seq<Miss>, at: int)
    requires
        at > furthest(misses),
    ensures
        sought_at(misses, at) == Seq::<Expected>::empty(),
    decreases misses.len(),
{
    if misses.len() > 0 {
        lemma_sought_beyond(misses.drop_last(), at);
    }
}

impl Reader {
    /// The reader knows the last place where something was looked for in vain, and what.
    spec fn well_formed(self) -> bool {
        &&& self.at <= self.chars@.len()
        &&& self.at == furthest(self.log@)
        &&& self.expected@ == sought_at(self.log@, self.at as int)
    }

    /// The reader has looked for something with this outcome.
    spec fn looked<T>(self, after: Reader, o: Outcome<T>) -> bool {
        &&& after.well_formed()
        &&& after.chars@ == self.chars@
        &&& after.log@ == self.log@ + o.misses
    }

    /// Notes that something was looked for in vain.
    fn miss(&mut self, at: usize, sought: Expected)
        requires
            old(self).well_formed(),
            at <= old(self).chars@.len(),
        ensures
            final(self).well_formed(),
            final(self).chars@ == old(self).chars@,
            final(self).log@ == old(self).log@ + seq![Miss { at: at as int, sought }],
    {
        let ghost log = self.log@;
        let ghost longer = log.push(Miss { at: at as int, sought });
        proof {
            assert(longer.drop_last() =~= log);
            assert(longer =~= log + seq![Miss { at: at as int, sought }]);
        }
        if at > self.at {
            proof {
                lemma_sought_beyond(log, at as int);
            }
            self.at = at;
            self.expected = Vec::new();
            self.expected.push(sought);
            assert(self.expected@ =~= sought_at(longer, at as int));
        } else if at == self.at {
            let mut known: bool = false;
            let mut i: usize = 0;
            while i < self.expected.len()
                invariant
                    i <= self.expected@.len(),
                    known == exists|j: int| 0 <= j < i && self.expected@[j] == sought,
                decreases self.expected@.len() - i,
            {
                if self.expected[i] == sought {
                    known = true;
                }
                i = i + 1;
            }
            if !known {
                self.expected.push(sought);
            }
        }
        self.log = Ghost(longer);
    }

    /// The place behind the spaces at `p`.
    fn skip(&self, p: usize) -> (s: usize)
        requires
            p <= self.chars@.len(),
        ensures
            s == grammar::skip(self.chars@, p as int),
            p <= s <= self.chars@.len(),
    {
        let mut s: usize = p;
        while s < self.chars.len() && is_space_char(self.chars[s])
            invariant
                p <= s <= self.chars@.len(),
                grammar::skip(self.chars@, p as int) == grammar::skip(self.chars@, s as int),
            decreases self.chars@.len() - s,
        {
            s = s + 1;
        }
        s
    }

    /// The place behind the characters of a word at `p`.
    fn word_end(&self, p: usize) -> (e: usize)
        requires
            p <= self.chars@.len(),
        ensures
            e == grammar::word_end(self.chars@, p as int),
            p <= e <= self.chars@.len(),
    {
        let mut e: usize = p;
        while e < self.chars.len() && is_word_part_char(self.chars[e])
            invariant
                p <= e <= self.chars@.len(),
                grammar::word_end(self.chars@, p as int) == grammar::word_end(
                    self.chars@,
                    e as int,
                ),
            decreases self.chars@.len() - e,
        {
            e = e + 1;
        }
        e
    }

    /// The place behind the digits at `p`.
    fn digits_end(&self, p: usize) -> (e: usize)
        requires
            p <= self.chars@.len(),
        ensures
            e == grammar::digits_end(self.chars@, p as int),
            p <= e <= self.chars@.len(),
            forall|i: int| p <= i < e ==> is_digit(#[trigger] self.chars@[i]),
    {
        let mut e: usize = p;
        while e < self.chars.len() && is_digit_char(self.chars[e])
            invariant
                p <= e <= self.chars@.len(),
                forall|i: int| p <= i < e ==> is_digit(#[trigger] self.chars@[i]),
                grammar::digits_end(self.chars@, p as int) == grammar::digits_end(
                    self.chars@,
                    e as int,
                ),
            decreases self.chars@.len() - e,
        {
            e = e + 1;
        }
        e
    }

    /// The text between two places.
    fn text(&self, s: usize, e: usize) -> (text: String)
        requires
            s <= e <= self.chars@.len(),
        ensures
            text@ == self.chars@.subrange(s as int, e as int),
    {
        let mut text = String::new();
        let mut i: usize = s;
        while i < e
            invariant
                s <= i <= e <= self.chars@.len(),
                text@ == self.chars@.subrange(s as int, i as int),
            decreases e - i,
        {
            text.push(self.chars[i]);
            assert(self.chars@.subrange(s as int, i + 1) =~= self.chars@.subrange(
                s as int,
                i as int,
            ).push(self.chars@[i as int]));
            i = i + 1;
        }
        text
    }

    /// Notes that a word or a number could have gone on, and gives the place behind the spaces
    /// after it.
    fn end(&mut self, e: usize) -> (q: usize)
        requires
            old(self).well_formed(),
            e <= old(self).chars@.len(),
        ensures
            final(self).well_formed(),
            final(self).chars@ == old(self).chars@,
            final(self).log@ == old(self).log@ + seq![
                Miss { at: e as int, sought: going_on(old(self).chars@, e as int) },
            ],
            q == grammar::skip(old(self).chars@, e as int),
    {
        if e < self.chars.len() {
            self.miss(e, Expected::SomethingElse);
        } else {
            self.miss(e, Expected::Any);
        }
        self.skip(e)
    }

    /// Looks for a character.
    fn token(&mut self, p: usize, c: char) -> (found: Option<usize>)
        requires
            old(self).well_formed(),
            p <= old(self).chars@.len(),
        ensures
            old(self).looked(*final(self), grammar::token(old(self).chars@, p as int, c)),
            match (grammar::token(old(self).chars@, p as int, c).value, found) {
                (Some((_, q)), Some(e)) => q == e && p < e <= old(self).chars@.len()
                    && grammar::skip(old(self).chars@, q) == q,
                (None, None) => true,
                _ => false,
            },
    {
        proof {
            lemma_token(self.chars@, p as int, c);
        }
        let s = self.skip(p);
        if s < self.chars.len() && self.chars[s] == c {
            assert(self.log@ =~= old(self).log@ + Seq::empty());
            Some(self.skip(s + 1))
        } else {
            self.miss(s, Expected::Token(c));
            None
        }
    }

    /// Looks for a word.
    fn name(&mut self, p: usize) -> (found: Option<(String, usize)>)
        requires
            old(self).well_formed(),
            p <= old(self).chars@.len(),
        ensures
            old(self).looked(*final(self), grammar::name(old(self).chars@, p as int)),
            match (grammar::name(old(self).chars@, p as int).value, found) {
                (Some((word, q)), Some((text, e))) => word == text@ && q == e && p < e
                    <= old(self).chars@.len() && grammar::skip(old(self).chars@, q) == q,
                (None, None) => true,
                _ => false,
            },
    {
        proof {
            lemma_name(self.chars@, p as int);
        }
        let s = self.skip(p);
        if s < self.chars.len() && is_word_start_char(self.chars[s]) {
            let e = self.word_end(s + 1);
            let text = self.text(s, e);
            let q = self.end(e);
            Some((text, q))
        } else {
            self.miss(s, Expected::Identifier);
            None
        }
    }

    /// Looks for a certain word.
    fn keyword(&mut self, p: usize, word: Keyword) -> (found: Option<usize>)
        requires
            old(self).well_formed(),
            p <= old(self).chars@.len(),
        ensures
            old(self).looked(*final(self), grammar::keyword(old(self).chars@, p as int, word)),
            match (grammar::keyword(old(self).chars@, p as int, word).value, found) {
                (Some((_, q)), Some(e)) => q == e && p < e <= old(self).chars@.len()
                    && grammar::skip(old(self).chars@, q) == q,
                (None, None) => true,
                _ => false,
            },
    {
        proof {
            lemma_keyword(self.chars@, p as int, word);
        }
        let s = self.skip(p);
        if s < self.chars.len() && is_word_start_char(self.chars[s]) {
            let e = self.word_end(s + 1);
            let same = match word {
                Keyword::Let => {
                    e - s == 3 && self.chars[s] == 'l' && self.chars[s + 1] == 'e' && self.chars[s
                        + 2] == 't'
                },
                Keyword::Fn => e - s == 2 && self.chars[s] == 'f' && self.chars[s + 1] == 'n',
            };
            proof {
                let text = self.chars@.subrange(s as int, e as int);
                let kw = keyword_text(word);
                if same {
                    assert(text =~= kw);
                } else if text == kw {
                    assert(text.len() == kw.len());
                    assert(text[0] == kw[0] && text[1] == kw[1]);
                    if word == Keyword::Let {
                        assert(text[2] == kw[2]);
                    }
                }
            }
            if same {
                return Some(self.end(e));
            }
        }
        self.miss(s, Expected::Keyword(word));
        None
    }

    /// Looks for a number.
    fn number(&mut self, p: usize) -> (found: Option<(String, usize)>)
        requires
            old(self).well_formed(),
            p <= old(self).chars@.len(),
        ensures
            old(self).looked(*final(self), grammar::number(old(self).chars@, p as int)),
            match (grammar::number(old(self).chars@, p as int).value, found) {
                (Some((digits, q)), Some((text, e))) => digits == text@ && is_number(digits) && q
                    == e && p < e <= old(self).chars@.len() && grammar::skip(old(self).chars@, q)
                    == q,
                (None, None) => true,
                _ => false,
            },
    {
        proof {
            lemma_number(self.chars@, p as int);
        }
        let s = self.skip(p);
        if s < self.chars.len() && self.chars[s] == '0' {
            self.miss(s, Expected::Int);
            Some((self.text(s, s + 1), self.skip(s + 1)))
        } else if s < self.chars.len() && is_digit_char(self.chars[s]) {
            let e = self.digits_end(s + 1);
            let text = self.text(s, e);
            let q = self.end(e);
            Some((text, q))
        } else {
            self.miss(s, Expected::Int);
            None
        }
    }
}

/// The bits that a reading of numbers can give for the text of one.
pub open spec fn reads<F: Fn(&str) -> u64>(number: F) -> spec_fn(Seq<char>, u64) -> bool {
    |text: Seq<char>, bits: u64|
        exists|s: &str| s@ == text && #[trigger] call_ensures(number, (s,), bits)
}

/// A reading of numbers can be given the text of any.
pub open spec fn takes_numbers<F: Fn(&str) -> u64>(number: F) -> bool {
    forall|s: &str| is_number(s@) ==> #[trigger] call_requires(number, (s,))
}

/// The node and the place that were found are the tree and the place of an outcome, and the tree
/// is a new one.
pub open spec fn is_found(
    o: Outcome<Syntax>,
    found: Option<(NodeId, usize)>,
    before: Map<NodeId, Node>,
    nodes: Map<NodeId, Node>,
    num: spec_fn(Seq<char>, u64) -> bool,
) -> bool {
    match (o.value, found) {
        (Some((tree, q)), Some((id, e))) => q == e && is_new(before, nodes, id, tree, num),
        (None, None) => true,
        _ => false,
    }
}

/// There is room for the nodes of an outcome.
spec fn has_room<T>(arena: Map<NodeId, Node>, o: Outcome<T>) -> bool {
    arena.dom().finite() && arena.len() + o.nodes <= ARENA_CAPACITY
}

/// So many signs before a tree.
spec fn negated(tree: Syntax, signs: nat) -> Syntax
    decreases signs,
{
    if signs == 0 {
        tree
    } else {
        Tree::Neg(Box::new(negated(tree, (signs - 1) as nat)))
    }
}

/// Signs can be put before a tree from the inside or from the outside.
proof fn lemma_negated(tree: Syntax, signs: nat)
    ensures
        negated(Tree::Neg(Box::new(tree)), signs) == negated(tree, signs + 1),
    decreases signs,
{
    reveal_with_fuel(negated, 2);
    if signs > 0 {
        lemma_negated(tree, (signs - 1) as nat);
    }
}

/// The outcome `whole` is the outcome `inner` with so many signs before it.
spec fn is_negated(whole: Outcome<Syntax>, inner: Outcome<Syntax>, signs: nat) -> bool {
    &&& whole.misses == inner.misses
    &&& match inner.value {
        None => whole.value is None && whole.nodes == inner.nodes,
        Some((tree, q)) => whole.value == Some((negated(tree, signs), q)) && whole.nodes
            == inner.nodes + signs,
    }
}

impl Reader {
    /// Looks for a number, an expression in brackets, a call or a variable.
    #[verifier::rlimit(50)]
    fn atom<F: Fn(&str) -> u64>(&mut self, p: usize, arena: &mut Arena, number: &F) -> (found:
        Option<(NodeId, usize)>)
        requires
            old(self).well_formed(),
            p <= old(self).chars@.len(),
            has_room(old(arena)@, grammar::atom(old(self).chars@, p as int)),
            takes_numbers(*number),
        ensures
            old(self).looked(*final(self), grammar::atom(old(self).chars@, p as int)),
            grown(old(arena)@, final(arena)@, grammar::atom(old(self).chars@, p as int).nodes),
            is_found(
                grammar::atom(old(self).chars@, p as int),
                found,
                old(arena)@,
                final(arena)@,
                reads(*number),
            ),
        decreases old(self).chars@.len() - p, 2int,
    {
        let ghost o = grammar::atom(self.chars@, p as int);
        let ghost log = self.log@;
        match self.number(p) {
            Some((text, q)) => {
                let bits = number(text.as_str());
                assert(reads(*number)(text@, bits));
                proof {
                    lemma_all_kept(arena@);
                    lemma_none_new(arena@, arena@, reads(*number));
                }
                let id = graft(
                    arena,
                    Node::Num(bits),
                    Ghost(arena@),
                    Ghost(Tree::Num(text@)),
                    Ghost(Seq::empty()),
                    Ghost(Seq::empty()),
                    Ghost(reads(*number)),
                );
                assert(self.log@ =~= log + o.misses);
                return Some((id, q));
            },
            None => {},
        }
        match self.group(p, arena, number) {
            Some(found) => {
                assert(self.log@ =~= log + o.misses);
                return Some(found);
            },
            None => {},
        }
        let ghost grouped = arena@;
        let called = self.call(p, arena, number);
        proof {
            lemma_kept(old(arena)@, grouped, arena@);
        }
        match called {
            Some(found) => {
                assert(self.log@ =~= log + o.misses);
                proof {
                    let tree = grammar::call(self.chars@, p as int).value->Some_0.0;
                    lemma_new_since(
                        old(arena)@,
                        grouped,
                        arena@,
                        found.0,
                        tree,
                        reads(*number),
                    );
                }
                return Some(found);
            },
            None => {},
        }
        let ghost before = arena@;
        match self.name(p) {
            Some((word, q)) => {
                let ghost tree: Syntax = Tree::Var(word@);
                proof {
                    lemma_none_new(old(arena)@, before, reads(*number));
                }
                let id = graft(
                    arena,
                    Node::Var(word),
                    Ghost(old(arena)@),
                    Ghost(tree),
                    Ghost(Seq::empty()),
                    Ghost(Seq::empty()),
                    Ghost(reads(*number)),
                );
                assert(self.log@ =~= log + o.misses);
                Some((id, q))
            },
            None => {
                assert(self.log@ =~= log + o.misses);
                None
            },
        }
    }

    /// Looks for an expression in brackets.
    #[verifier::rlimit(40)]
    fn group<F: Fn(&str) -> u64>(&mut self, p: usize, arena: &mut Arena, number: &F) -> (found:
        Option<(NodeId, usize)>)
        requires
            old(self).well_formed(),
            p <= old(self).chars@.len(),
            has_room(old(arena)@, grammar::group(old(self).chars@, p as int)),
            takes_numbers(*number),
        ensures
            old(self).looked(*final(self), grammar::group(old(self).chars@, p as int)),
            grown(old(arena)@, final(arena)@, grammar::group(old(self).chars@, p as int).nodes),
            is_found(
                grammar::group(old(self).chars@, p as int),
                found,
                old(arena)@,
                final(arena)@,
                reads(*number),
            ),
        decreases old(self).chars@.len() - p, 1int,
    {
        let ghost o = grammar::group(self.chars@, p as int);
        let ghost log = self.log@;
        proof {
            lemma_all_kept(arena@);
        }
        let q = match self.token(p, '(') {
            Some(q) => q,
            None => {
                return None;
            },
        };
        proof {
            lemma_expr(self.chars@, q as int);
        }
        let (id, r) = match self.expr(q, arena, number) {
            Some(found) => found,
            None => {
                assert(self.log@ =~= log + o.misses);
                return None;
            },
        };
        let closed = self.token(r, ')');
        assert(self.log@ =~= log + o.misses);
        match closed {
            Some(e) => Some((id, e)),
            None => None,
        }
    }

    /// Looks for a call.
    #[verifier::rlimit(50)]
    fn call<F: Fn(&str) -> u64>(&mut self, p: usize, arena: &mut Arena, number: &F) -> (found:
        Option<(NodeId, usize)>)
        requires
            old(self).well_formed(),
            p <= old(self).chars@.len(),
            has_room(old(arena)@, grammar::call(old(self).chars@, p as int)),
            takes_numbers(*number),
        ensures
            old(self).looked(*final(self), grammar::call(old(self).chars@, p as int)),
            grown(old(arena)@, final(arena)@, grammar::call(old(self).chars@, p as int).nodes),
            is_found(
                grammar::call(old(self).chars@, p as int),
                found,
                old(arena)@,
                final(arena)@,
                reads(*number),
            ),
        decreases old(self).chars@.len() - p, 1int,
    {
        let ghost o = grammar::call(self.chars@, p as int);
        let ghost log = self.log@;
        proof {
            lemma_all_kept(arena@);
        }
        let (word, q) = match self.name(p) {
            Some(found) => found,
            None => {
                return None;
            },
        };
        let r = match self.token(q, '(') {
            Some(r) => r,
            None => {
                assert(self.log@ =~= log + o.misses);
                return None;
            },
        };
        proof {
            lemma_items(self.chars@, r as int);
        }
        let (args, t) = self.items(r, arena, number);
        let closed = self.token(t, ')');
        assert(self.log@ =~= log + o.misses);
        match closed {
            Some(e) => {
                let ghost ids = args@;
                let ghost trees = grammar::items(self.chars@, r as int).value->Some_0.0;
                let ghost tree: Syntax = Tree::Call(word@, trees);
                let id = graft(
                    arena,
                    Node::Call(word, args),
                    Ghost(old(arena)@),
                    Ghost(tree),
                    Ghost(ids),
                    Ghost(trees),
                    Ghost(reads(*number)),
                );
                Some((id, e))
            },
            None => None,
        }
    }

    /// Looks for expressions with commas between them.
    #[verifier::rlimit(50)]
    fn items<F: Fn(&str) -> u64>(&mut self, p: usize, arena: &mut Arena, number: &F) -> (found: (
        Vec<NodeId>,
        usize,
    ))
        requires
            old(self).well_formed(),
            p <= old(self).chars@.len(),
            grammar::skip(old(self).chars@, p as int) == p,
            has_room(old(arena)@, grammar::items(old(self).chars@, p as int)),
            takes_numbers(*number),
        ensures
            old(self).looked(*final(self), grammar::items(old(self).chars@, p as int)),
            grown(old(arena)@, final(arena)@, grammar::items(old(self).chars@, p as int).nodes),
            grammar::items(old(self).chars@, p as int).value matches Some((trees, q)) && q
                == found.1 && are_new(
                old(arena)@,
                final(arena)@,
                found.0@,
                trees,
                reads(*number),
            ),
        decreases old(self).chars@.len() - p, 9int,
    {
        let ghost o = grammar::items(self.chars@, p as int);
        let ghost log = self.log@;
        let ghost cs = self.chars@;
        let mut ids: Vec<NodeId> = Vec::new();
        proof {
            lemma_expr(cs, p as int);
            lemma_all_kept(arena@);
            lemma_none_new(arena@, arena@, reads(*number));
        }
        let ghost none: Seq<Syntax> = Seq::empty();
        assert(ids@ =~= Seq::empty());
        let mut q: usize = match self.expr(p, arena, number) {
            Some((id, q)) => {
                ids.push(id);
                q
            },
            None => {
                assert(self.log@ =~= log + o.misses);
                proof {
                    lemma_none_new(old(arena)@, arena@, reads(*number));
                }
                return (ids, p);
            },
        };
        let ghost mut trees: Seq<Syntax> = seq![grammar::expr(cs, p as int).value->Some_0.0];
        proof {
            lemma_one_more_new(
                old(arena)@,
                old(arena)@,
                arena@,
                Seq::empty(),
                none,
                ids@[0],
                trees[0],
                reads(*number),
            );
            assert(Seq::empty().push(ids@[0]) =~= ids@);
            assert(none.push(trees[0]) =~= trees);
        }
        assert(self.log@ + grammar::more_items(cs, q as int, trees).misses =~= log + o.misses);
        loop
            invariant
                self.well_formed(),
                self.chars@ == cs,
                p < q <= cs.len(),
                grammar::skip(cs, q as int) == q,
                takes_numbers(*number),
                kept(old(arena)@, arena@),
                has_room(arena@, grammar::more_items(cs, q as int, trees)),
                arena@.len() + grammar::more_items(cs, q as int, trees).nodes == old(arena)@.len()
                    + o.nodes,
                self.log@ + grammar::more_items(cs, q as int, trees).misses == log + o.misses,
                grammar::more_items(cs, q as int, trees).value == o.value,
                are_new(old(arena)@, arena@, ids@, trees, reads(*number)),
                cs == old(self).chars@,
                log == old(self).log@,
                o == grammar::items(cs, p as int),
            decreases cs.len() - q,
        {
            let ghost here = grammar::more_items(cs, q as int, trees);
            let ghost before = arena@;
            let comma = match self.token(q, ',') {
                Some(comma) => comma,
                None => {
                    assert(self.log@ =~= log + o.misses);
                    return (ids, q);
                },
            };
            proof {
                lemma_expr(cs, comma as int);
            }
            match self.expr(comma, arena, number) {
                Some((id, r)) => {
                    proof {
                        let tree = grammar::expr(cs, comma as int).value->Some_0.0;
                        let more = grammar::more_items(cs, r as int, trees.push(tree));
                        assert(self.log@ + more.misses =~= log + o.misses);
                        lemma_one_more_new(
                            old(arena)@,
                            before,
                            arena@,
                            ids@,
                            trees,
                            id,
                            tree,
                            reads(*number),
                        );
                        lemma_kept(old(arena)@, before, arena@);
                        trees = trees.push(tree);
                    }
                    ids.push(id);
                    q = r;
                },
                None => {
                    proof {
                        lemma_all_new_kept(
                            old(arena)@,
                            before,
                            arena@,
                            ids@,
                            trees,
                            reads(*number),
                        );
                        lemma_kept(old(arena)@, before, arena@);
                    }
                    assert(self.log@ =~= log + o.misses);
                    return (ids, comma);
                },
            }
        }
    }

    /// Looks for an atom with signs before it.
    #[verifier::rlimit(40)]
    fn unary<F: Fn(&str) -> u64>(&mut self, p: usize, arena: &mut Arena, number: &F) -> (found:
        Option<(NodeId, usize)>)
        requires
            old(self).well_formed(),
            p <= old(self).chars@.len(),
            has_room(old(arena)@, grammar::unary(old(self).chars@, p as int)),
            takes_numbers(*number),
        ensures
            old(self).looked(*final(self), grammar::unary(old(self).chars@, p as int)),
            grown(old(arena)@, final(arena)@, grammar::unary(old(self).chars@, p as int).nodes),
            is_found(
                grammar::unary(old(self).chars@, p as int),
                found,
                old(arena)@,
                final(arena)@,
                reads(*number),
            ),
        decreases old(self).chars@.len() - p, 3int,
    {
        let ghost o = grammar::unary(self.chars@, p as int);
        let ghost log = self.log@;
        let ghost cs = self.chars@;
        let mut q: usize = p;
        let mut signs: usize = 0;
        loop
            invariant_except_break
                self.log@ == log,
            invariant
                self.well_formed(),
                self.chars@ == cs,
                p <= q <= cs.len(),
                signs <= q,
                *arena == *old(arena),
                is_negated(o, grammar::unary(cs, q as int), signs as nat),
            ensures
                grammar::token(cs, q as int, '-').value is None,
                self.log@ == log + grammar::token(cs, q as int, '-').misses,
            decreases cs.len() - q,
        {
            match self.token(q, '-') {
                Some(r) => {
                    proof {
                        let inner = grammar::unary(cs, r as int);
                        assert(grammar::unary(cs, q as int).misses =~= inner.misses);
                        match inner.value {
                            Some((tree, _)) => {
                                lemma_negated(tree, signs as nat);
                            },
                            None => {},
                        }
                        assert(self.log@ =~= log);
                    }
                    signs = signs + 1;
                    q = r;
                },
                None => {
                    break;
                },
            }
        }
        let ghost a = grammar::atom(cs, q as int);
        let (id, e) = match self.atom(q, arena, number) {
            Some(found) => found,
            None => {
                assert(self.log@ =~= log + o.misses);
                return None;
            },
        };
        assert(self.log@ =~= log + o.misses);
        let ghost tree = a.value->Some_0.0;
        let mut id: NodeId = id;
        let mut i: usize = 0;
        while i < signs
            invariant
                i <= signs,
                grown(old(arena)@, arena@, a.nodes + i as nat),
                old(arena)@.len() + a.nodes + signs <= ARENA_CAPACITY,
                is_new(old(arena)@, arena@, id, negated(tree, i as nat), reads(*number)),
            decreases signs - i,
        {
            let inner = id;
            let ghost so_far = negated(tree, i as nat);
            let ghost below = seq![inner];
            let ghost trees = seq![so_far];
            proof {
                lemma_one_new(old(arena)@, arena@, inner, so_far, reads(*number));
            }
            id = graft(
                arena,
                Node::Neg(inner),
                Ghost(old(arena)@),
                Ghost(negated(tree, (i + 1) as nat)),
                Ghost(below),
                Ghost(trees),
                Ghost(reads(*number)),
            );
            i = i + 1;
        }
        Some((id, e))
    }

    /// Looks for what the operators of a tier stand between.
    #[verifier::rlimit(40)]
    fn operand<F: Fn(&str) -> u64>(
        &mut self,
        p: usize,
        tier: Tier,
        arena: &mut Arena,
        number: &F,
    ) -> (found: Option<(NodeId, usize)>)
        requires
            old(self).well_formed(),
            p <= old(self).chars@.len(),
            has_room(old(arena)@, grammar::operand(old(self).chars@, p as int, tier)),
            takes_numbers(*number),
        ensures
            old(self).looked(
                *final(self),
                grammar::operand(old(self).chars@, p as int, tier),
            ),
            grown(
                old(arena)@,
                final(arena)@,
                grammar::operand(old(self).chars@, p as int, tier).nodes,
            ),
            is_found(
                grammar::operand(old(self).chars@, p as int, tier),
                found,
                old(arena)@,
                final(arena)@,
                reads(*number),
            ),
        decreases
                old(self).chars@.len() - p,
                (match tier {
                    Tier::Sum => 6int,
                    Tier::Product => 4int,
                }),
    {
        match tier {
            Tier::Sum => self.infix(p, Tier::Product, arena, number),
            Tier::Product => self.unary(p, arena, number),
        }
    }

    /// Looks for operands with operators of a tier between them.
    #[verifier::rlimit(50)]
    fn infix<F: Fn(&str) -> u64>(
        &mut self,
        p: usize,
        tier: Tier,
        arena: &mut Arena,
        number: &F,
    ) -> (found: Option<(NodeId, usize)>)
        requires
            old(self).well_formed(),
            p <= old(self).chars@.len(),
            has_room(old(arena)@, grammar::infix(old(self).chars@, p as int, tier)),
            takes_numbers(*number),
        ensures
            old(self).looked(*final(self), grammar::infix(old(self).chars@, p as int, tier)),
            grown(
                old(arena)@,
                final(arena)@,
                grammar::infix(old(self).chars@, p as int, tier).nodes,
            ),
            is_found(
                grammar::infix(old(self).chars@, p as int, tier),
                found,
                old(arena)@,
                final(arena)@,
                reads(*number),
            ),
        decreases
                old(self).chars@.len() - p,
                (match tier {
                    Tier::Sum => 7int,
                    Tier::Product => 5int,
                }),
    {
        let ghost o = grammar::infix(self.chars@, p as int, tier);
        let ghost log = self.log@;
        let ghost cs = self.chars@;
        proof {
            lemma_operand(cs, p as int, tier);
        }
        let (id, q) = match self.operand(p, tier, arena, number) {
            Some(found) => found,
            None => {
                return None;
            },
        };
        let mut id: NodeId = id;
        let mut q: usize = q;
        let ghost mut lhs: Syntax = grammar::operand(cs, p as int, tier).value->Some_0.0;
        assert(self.log@ + grammar::chain(cs, q as int, tier, lhs).misses =~= log + o.misses);
        loop
            invariant
                self.well_formed(),
                self.chars@ == cs,
                p < q <= cs.len(),
                grammar::skip(cs, q as int) == q,
                takes_numbers(*number),
                kept(old(arena)@, arena@),
                has_room(arena@, grammar::chain(cs, q as int, tier, lhs)),
                arena@.len() + grammar::chain(cs, q as int, tier, lhs).nodes == old(arena)@.len()
                    + o.nodes,
                self.log@ + grammar::chain(cs, q as int, tier, lhs).misses == log + o.misses,
                grammar::chain(cs, q as int, tier, lhs).value == o.value,
                is_new(old(arena)@, arena@, id, lhs, reads(*number)),
                cs == old(self).chars@,
                log == old(self).log@,
                o == grammar::infix(cs, p as int, tier),
            decreases cs.len() - q,
        {
            let ghost before = arena@;
            let ghost seen = self.log@;
            let ghost rest = grammar::chain(cs, q as int, tier, lhs);
            let (op, r) = match self.operator(q, tier) {
                Some(found) => found,
                None => {
                    assert(self.log@ =~= log + o.misses);
                    return Some((id, q));
                },
            };
            let ghost linked = grammar::link(cs, q as int, r as int, tier, op, lhs);
            proof {
                lemma_operand(cs, r as int, tier);
                assert(self.log@ + linked.misses =~= log + o.misses);
            }
            match self.operand(r, tier, arena, number) {
                Some((rhs_id, e)) => {
                    let ghost rhs = grammar::operand(cs, r as int, tier).value->Some_0.0;
                    let ghost both: Syntax = Tree::Bin(op, Box::new(lhs), Box::new(rhs));
                    let ghost middle = arena@;
                    assert(self.log@ + grammar::chain(cs, e as int, tier, both).misses =~= log
                        + o.misses);
                    let lhs_id = id;
                    let node = match op {
                        Op::Add => Node::Add(lhs_id, rhs_id),
                        Op::Sub => Node::Sub(lhs_id, rhs_id),
                        Op::Mul => Node::Mul(lhs_id, rhs_id),
                        Op::Div => Node::Div(lhs_id, rhs_id),
                    };
                    proof {
                        lemma_kept(old(arena)@, before, middle);
                        lemma_two_new(
                            old(arena)@,
                            before,
                            middle,
                            lhs_id,
                            lhs,
                            rhs_id,
                            rhs,
                            reads(*number),
                        );
                    }
                    let ghost ids = seq![lhs_id, rhs_id];
                    let ghost trees = seq![lhs, rhs];
                    id = graft(
                        arena,
                        node,
                        Ghost(old(arena)@),
                        Ghost(both),
                        Ghost(ids),
                        Ghost(trees),
                        Ghost(reads(*number)),
                    );
                    proof {
                        lhs = both;
                    }
                    q = e;
                },
                None => {
                    proof {
                        lemma_new_kept(old(arena)@, before, arena@, id, lhs, reads(*number));
                        lemma_kept(old(arena)@, before, arena@);
                    }
                    assert(self.log@ =~= log + o.misses);
                    return Some((id, q));
                },
            }
        }
    }

    /// Looks for an operator of a tier.
    #[verifier::rlimit(40)]
    fn operator(&mut self, p: usize, tier: Tier) -> (found: Option<(Op, usize)>)
        requires
            old(self).well_formed(),
            p <= old(self).chars@.len(),
        ensures
            final(self).well_formed(),
            final(self).chars@ == old(self).chars@,
            forall|lhs: Syntax|
                #![trigger grammar::chain(old(self).chars@, p as int, tier, lhs)]
                ({
                    let cs = old(self).chars@;
                    let rest = grammar::chain(cs, p as int, tier, lhs);
                    match found {
                        Some((op, q)) => {
                            let linked = grammar::link(cs, p as int, q as int, tier, op, lhs);
                            &&& p < q <= cs.len()
                            &&& rest.value == linked.value
                            &&& rest.nodes == linked.nodes
                            &&& old(self).log@ + rest.misses == final(self).log@ + linked.misses
                        },
                        None => {
                            &&& rest.value == Some((lhs, p as int))
                            &&& rest.nodes == 0
                            &&& final(self).log@ == old(self).log@ + rest.misses
                        },
                    }
                }),
    {
        let (first, op, second, other) = match tier {
            Tier::Sum => ('+', Op::Add, '-', Op::Sub),
            Tier::Product => ('*', Op::Mul, '/', Op::Div),
        };
        let ghost cs = self.chars@;
        let ghost log = self.log@;
        match self.token(p, first) {
            Some(q) => {
                assert forall|lhs: Syntax| log + (#[trigger] grammar::chain(
                    cs,
                    p as int,
                    tier,
                    lhs,
                )).misses == self.log@ + grammar::link(
                    cs,
                    p as int,
                    q as int,
                    tier,
                    op,
                    lhs,
                ).misses by {
                    assert(log + grammar::chain(cs, p as int, tier, lhs).misses =~= self.log@
                        + grammar::link(cs, p as int, q as int, tier, op, lhs).misses);
                }
                return Some((op, q));
            },
            None => {},
        }
        match self.token(p, second) {
            Some(q) => {
                assert forall|lhs: Syntax| log + (#[trigger] grammar::chain(
                    cs,
                    p as int,
                    tier,
                    lhs,
                )).misses == self.log@ + grammar::link(
                    cs,
                    p as int,
                    q as int,
                    tier,
                    other,
                    lhs,
                ).misses by {
                    assert(log + grammar::chain(cs, p as int, tier, lhs).misses =~= self.log@
                        + grammar::link(cs, p as int, q as int, tier, other, lhs).misses);
                }
                Some((other, q))
            },
            None => {
                assert forall|lhs: Syntax| self.log@ == log + (#[trigger] grammar::chain(
                    cs,
                    p as int,
                    tier,
                    lhs,
                )).misses by {
                    assert(self.log@ =~= log + grammar::chain(cs, p as int, tier, lhs).misses);
                }
                None
            },
        }
    }

    /// Looks for an expression.
    #[verifier::rlimit(40)]
    fn expr<F: Fn(&str) -> u64>(&mut self, p: usize, arena: &mut Arena, number: &F) -> (found:
        Option<(NodeId, usize)>)
        requires
            old(self).well_formed(),
            p <= old(self).chars@.len(),
            has_room(old(arena)@, grammar::expr(old(self).chars@, p as int)),
            takes_numbers(*number),
        ensures
            old(self).looked(*final(self), grammar::expr(old(self).chars@, p as int)),
            grown(old(arena)@, final(arena)@, grammar::expr(old(self).chars@, p as int).nodes),
            is_found(
                grammar::expr(old(self).chars@, p as int),
                found,
                old(arena)@,
                final(arena)@,
                reads(*number),
            ),
        decreases old(self).chars@.len() - p, 8int,
    {
        self.infix(p, Tier::Sum, arena, number)
    }
}

impl Reader {
    /// Looks for words.
    #[verifier::rlimit(40)]
    fn names(&mut self, p: usize) -> (found: (Vec<String>, usize))
        requires
            old(self).well_formed(),
            p <= old(self).chars@.len(),
            grammar::skip(old(self).chars@, p as int) == p,
        ensures
            old(self).looked(
                *final(self),
                grammar::names(old(self).chars@, p as int, Seq::empty()),
            ),
            grammar::names(old(self).chars@, p as int, Seq::empty()).value matches Some((words, q))
                && words == texts(found.0@) && q == found.1 && p <= q <= old(self).chars@.len(),
    {
        let ghost o = grammar::names(self.chars@, p as int, Seq::empty());
        let ghost log = self.log@;
        let ghost cs = self.chars@;
        let mut words: Vec<String> = Vec::new();
        let mut q: usize = p;
        assert(texts(words@) =~= Seq::empty());
        loop
            invariant
                self.well_formed(),
                self.chars@ == cs,
                cs == old(self).chars@,
                log == old(self).log@,
                o == grammar::names(cs, p as int, Seq::empty()),
                p <= q <= cs.len(),
                self.log@ + grammar::names(cs, q as int, texts(words@)).misses == log + o.misses,
                grammar::names(cs, q as int, texts(words@)).value == o.value,
            decreases cs.len() - q,
        {
            let ghost before = texts(words@);
            match self.name(q) {
                Some((word, r)) => {
                    proof {
                        let more = grammar::names(cs, r as int, before.push(word@));
                        assert(self.log@ + more.misses =~= log + o.misses);
                    }
                    let ghost text = word@;
                    words.push(word);
                    assert(texts(words@) =~= before.push(text));
                    q = r;
                },
                None => {
                    assert(self.log@ =~= log + o.misses);
                    return (words, q);
                },
            }
        }
    }

    /// Looks for the right side of a definition and what comes behind it.
    #[verifier::rlimit(50)]
    fn rest<F: Fn(&str) -> u64>(&mut self, p: usize, arena: &mut Arena, number: &F) -> (found:
        Option<(NodeId, NodeId, usize)>)
        requires
            old(self).well_formed(),
            p <= old(self).chars@.len(),
            has_room(old(arena)@, grammar::rest(old(self).chars@, p as int)),
            takes_numbers(*number),
        ensures
            old(self).looked(*final(self), grammar::rest(old(self).chars@, p as int)),
            grown(old(arena)@, final(arena)@, grammar::rest(old(self).chars@, p as int).nodes),
            match (grammar::rest(old(self).chars@, p as int).value, found) {
                (Some(((rhs, then), q)), Some((rhs_id, then_id, e))) => {
                    &&& q == e
                    &&& are_new(
                        old(arena)@,
                        final(arena)@,
                        seq![rhs_id, then_id],
                        seq![rhs, then],
                        reads(*number),
                    )
                },
                (None, None) => true,
                _ => false,
            },
        decreases old(self).chars@.len() - p, 8int,
    {
        let ghost o = grammar::rest(self.chars@, p as int);
        let ghost log = self.log@;
        proof {
            lemma_all_kept(arena@);
        }
        let q = match self.token(p, '=') {
            Some(q) => q,
            None => {
                return None;
            },
        };
        proof {
            lemma_expr(self.chars@, q as int);
        }
        let (rhs, r) = match self.expr(q, arena, number) {
            Some(found) => found,
            None => {
                assert(self.log@ =~= log + o.misses);
                return None;
            },
        };
        let ghost before = arena@;
        let t = match self.token(r, ';') {
            Some(t) => t,
            None => {
                assert(self.log@ =~= log + o.misses);
                return None;
            },
        };
        let behind = self.decl(t, arena, number);
        proof {
            assert(self.log@ =~= log + o.misses);
            lemma_kept(old(arena)@, before, arena@);
        }
        match behind {
            Some((then, e)) => {
                proof {
                    let tree = grammar::expr(self.chars@, q as int).value->Some_0.0;
                    let last = grammar::decl(self.chars@, t as int).value->Some_0.0;
                    lemma_two_new(
                        old(arena)@,
                        before,
                        arena@,
                        rhs,
                        tree,
                        then,
                        last,
                        reads(*number),
                    );
                }
                Some((rhs, then, e))
            },
            None => None,
        }
    }

    /// Looks for the definition of a variable and what comes behind it.
    #[verifier::rlimit(50)]
    fn let_decl<F: Fn(&str) -> u64>(&mut self, p: usize, arena: &mut Arena, number: &F) -> (found:
        Option<(NodeId, usize)>)
        requires
            old(self).well_formed(),
            p <= old(self).chars@.len(),
            has_room(old(arena)@, grammar::let_decl(old(self).chars@, p as int)),
            takes_numbers(*number),
        ensures
            old(self).looked(*final(self), grammar::let_decl(old(self).chars@, p as int)),
            grown(old(arena)@, final(arena)@, grammar::let_decl(old(self).chars@, p as int).nodes),
            is_found(
                grammar::let_decl(old(self).chars@, p as int),
                found,
                old(arena)@,
                final(arena)@,
                reads(*number),
            ),
        decreases old(self).chars@.len() - p, 8int,
    {
        let ghost o = grammar::let_decl(self.chars@, p as int);
        let ghost log = self.log@;
        proof {
            lemma_all_kept(arena@);
        }
        let q = match self.keyword(p, Keyword::Let) {
            Some(q) => q,
            None => {
                return None;
            },
        };
        let (word, r) = match self.name(q) {
            Some(found) => found,
            None => {
                assert(self.log@ =~= log + o.misses);
                return None;
            },
        };
        let definition = self.rest(r, arena, number);
        assert(self.log@ =~= log + o.misses);
        match definition {
            Some((rhs, then, e)) => {
                let ghost trees = grammar::rest(self.chars@, r as int).value->Some_0.0;
                let ghost tree: Syntax = Tree::Let { name: word@, rhs: Box::new(trees.0), then: Box::new(trees.1) };
                let ghost ids = seq![rhs, then];
                let ghost both = seq![trees.0, trees.1];
                let id = graft(
                    arena,
                    Node::Let { name: word, rhs, then },
                    Ghost(old(arena)@),
                    Ghost(tree),
                    Ghost(ids),
                    Ghost(both),
                    Ghost(reads(*number)),
                );
                Some((id, e))
            },
            None => None,
        }
    }

    /// Looks for the definition of a function and what comes behind it.
    #[verifier::rlimit(50)]
    fn fn_decl<F: Fn(&str) -> u64>(&mut self, p: usize, arena: &mut Arena, number: &F) -> (found:
        Option<(NodeId, usize)>)
        requires
            old(self).well_formed(),
            p <= old(self).chars@.len(),
            has_room(old(arena)@, grammar::fn_decl(old(self).chars@, p as int)),
            takes_numbers(*number),
        ensures
            old(self).looked(*final(self), grammar::fn_decl(old(self).chars@, p as int)),
            grown(old(arena)@, final(arena)@, grammar::fn_decl(old(self).chars@, p as int).nodes),
            is_found(
                grammar::fn_decl(old(self).chars@, p as int),
                found,
                old(arena)@,
                final(arena)@,
                reads(*number),
            ),
        decreases old(self).chars@.len() - p, 8int,
    {
        let ghost o = grammar::fn_decl(self.chars@, p as int);
        let ghost log = self.log@;
        proof {
            lemma_all_kept(arena@);
        }
        let q = match self.keyword(p, Keyword::Fn) {
            Some(q) => q,
            None => {
                return None;
            },
        };
        let (word, r) = match self.name(q) {
            Some(found) => found,
            None => {
                assert(self.log@ =~= log + o.misses);
                return None;
            },
        };
        proof {
            lemma_names(self.chars@, r as int, Seq::empty());
        }
        let (args, t) = self.names(r);
        let definition = self.rest(t, arena, number);
        assert(self.log@ =~= log + o.misses);
        match definition {
            Some((body, then, e)) => {
                let ghost trees = grammar::rest(self.chars@, t as int).value->Some_0.0;
                let ghost tree: Syntax = Tree::Fn {
                    name: word@,
                    args: texts(args@),
                    body: Box::new(trees.0),
                    then: Box::new(trees.1),
                };
                let ghost ids = seq![body, then];
                let ghost both = seq![trees.0, trees.1];
                let id = graft(
                    arena,
                    Node::Fn { name: word, args, body, then },
                    Ghost(old(arena)@),
                    Ghost(tree),
                    Ghost(ids),
                    Ghost(both),
                    Ghost(reads(*number)),
                );
                Some((id, e))
            },
            None => None,
        }
    }

    /// Looks for definitions and an expression behind them.
    #[verifier::rlimit(50)]
    fn decl<F: Fn(&str) -> u64>(&mut self, p: usize, arena: &mut Arena, number: &F) -> (found:
        Option<(NodeId, usize)>)
        requires
            old(self).well_formed(),
            p <= old(self).chars@.len(),
            has_room(old(arena)@, grammar::decl(old(self).chars@, p as int)),
            takes_numbers(*number),
        ensures
            old(self).looked(*final(self), grammar::decl(old(self).chars@, p as int)),
            grown(old(arena)@, final(arena)@, grammar::decl(old(self).chars@, p as int).nodes),
            is_found(
                grammar::decl(old(self).chars@, p as int),
                found,
                old(arena)@,
                final(arena)@,
                reads(*number),
            ),
        decreases old(self).chars@.len() - p, 9int,
    {
        let ghost o = grammar::decl(self.chars@, p as int);
        let ghost log = self.log@;
        match self.let_decl(p, arena, number) {
            Some(found) => {
                return Some(found);
            },
            None => {},
        }
        let ghost first = arena@;
        let defined = self.fn_decl(p, arena, number);
        proof {
            lemma_kept(old(arena)@, first, arena@);
        }
        match defined {
            Some(found) => {
                assert(self.log@ =~= log + o.misses);
                proof {
                    let tree = grammar::fn_decl(self.chars@, p as int).value->Some_0.0;
                    lemma_new_since(old(arena)@, first, arena@, found.0, tree, reads(*number));
                }
                return Some(found);
            },
            None => {},
        }
        let ghost second = arena@;
        let found = self.expr(p, arena, number);
        proof {
            assert(self.log@ =~= log + o.misses);
            if found is Some {
                let tree = grammar::expr(self.chars@, p as int).value->Some_0.0;
                lemma_new_since(
                    old(arena)@,
                    second,
                    arena@,
                    found->Some_0.0,
                    tree,
                    reads(*number),
                );
            }
            lemma_kept(old(arena)@, second, arena@);
        }
        found
    }
}

/// What is told of a text that is not a program: the last place where something was looked for
/// in vain, what stands there, and what was looked for.
pub open spec fn explains(error: ParseError, cs: Seq<char>) -> bool {
    let misses = grammar::program(cs).misses;
    &&& error.at == furthest(misses)
    &&& error.at <= cs.len()
    &&& error.found == if error.at < cs.len() {
        Some(cs[error.at as int])
    } else {
        None
    }
    &&& error.expected@ == sought_at(misses, error.at as int)
    &&& error.expected@.len() > 0
}

/// Reads a program and puts its nodes in an arena. The bits of numbers are those that `number`
/// gives for their texts.
pub fn parse<F: Fn(&str) -> u64>(source: &str, number: F, arena: &mut Arena) -> (result: Result<
    NodeId,
    ParseError,
>)
    requires
        takes_numbers(number),
        old(arena)@.dom().finite(),
        old(arena)@.len() + source@.len() <= ARENA_CAPACITY,
    ensures
        grown(old(arena)@, final(arena)@, grammar::program(source@).nodes),
        match grammar::program(source@).value {
            Some((tree, _)) => result matches Ok(root) && {
                &&& planted(final(arena)@, root)
                &&& is_reading(tree, tree_of(final(arena)@, root), reads(number))
                &&& grammar::program(source@).nodes == size(tree)
                &&& is_apart(final(arena)@, root, tree)
                &&& forall|x: NodeId| #[trigger]
                    reaches(final(arena)@, root, tree, x) ==> final(arena)@.contains_key(x)
                        && !old(arena)@.contains_key(x)
            },
            None => result matches Err(error) && explains(error, source@),
        },
{
    let mut chars: Vec<char> = Vec::new();
    for c in iter: source.chars()
        invariant
            chars@ == iter.seq().take(iter.index()),
    {
        chars.push(c);
    }
    assert(chars@ =~= source@);
    let ghost cs = source@;
    let ghost o = grammar::program(cs);
    let mut reader = Reader { chars, at: 0, expected: Vec::new(), log: Ghost(Seq::empty()) };
    proof {
        law_a_node_for_a_character(cs);
        law_refusals_have_a_reason(cs);
        lemma_decl(cs, 0);
    }
    let found = reader.decl(0, arena, &number);
    assert(reader.log@ =~= grammar::decl(cs, 0).misses);
    match found {
        Some((root, q)) => {
            if q == reader.chars.len() {
                proof {
                    let tree = o.value->Some_0.0;
                    law_no_node_is_left_over(cs);
                    reveal(is_new);
                    lemma_planted(arena@, root, tree, reads(number));
                    reveal(is_graft);
                    assert forall|x: NodeId| #[trigger]
                        reaches(arena@, root, tree, x) implies arena@.contains_key(x) by {
                        lemma_reaches(arena@, arena@, root, tree, reads(number), x);
                    }
                }
                return Ok(root);
            }
            reader.miss(q, Expected::EndOfInput);
        },
        None => {},
    }
    assert(reader.log@ =~= o.misses);
    let found = if reader.at < reader.chars.len() {
        Some(reader.chars[reader.at])
    } else {
        None
    };
    Err(ParseError { at: reader.at, found, expected: reader.expected })
}

/// The text is a number: one or more digits.
pub open spec fn is_number(text: Seq<char>) -> bool {
    &&& text.len() > 0
    &&& forall|i: int| 0 <= i < text.len() ==> is_digit(#[trigger] text[i])
}

fn is_space_char(c: char) -> (answer: bool)
    ensures
        answer == is_space(c),
{
    let n: u32 = c as u32;
    (0x9 <= n && n <= 0xd) || n == 0x20 || n == 0x85 || n == 0xa0 || n == 0x1680 || (0x2000 <= n
        && n <= 0x200a) || n == 0x2028 || n == 0x2029 || n == 0x202f || n == 0x205f || n == 0x3000
}

fn is_digit_char(c: char) -> (answer: bool)
    ensures
        answer == is_digit(c),
{
    '0' <= c && c <= '9'
}

fn is_word_start_char(c: char) -> (answer: bool)
    ensures
        answer == is_word_start(c),
{
    ('a' <= c && c <= 'z') || ('A' <= c && c <= 'Z') || c == '_'
}

fn is_word_part_char(c: char) -> (answer: bool)
    ensures
        answer == is_word_part(c),
{
    is_word_start_char(c) || is_digit_char(c)
}

} // verus!

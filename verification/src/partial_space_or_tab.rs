//! The line-ending-and-whitespace sub-automaton: consumes exactly one line
//! ending plus any immediately following horizontal whitespace, as one
//! atomic step from its caller's point of view, and fails — leaving the
//! log and cursor untouched — when that would put a blank line inside the
//! content.

use vstd::prelude::*;

use crate::subtokenize::{link, linked_event};
use crate::tokenizer::{
    code_is_line_ending, code_is_space_or_tab, enter_content_event, exit_event, is_line_ending,
    is_space_or_tab, Code, ContentType, Event, Token, Tokenizer,
};
use crate::partial_title::State;

verus! {

/// Configuration: whether a span of the same chain was already emitted,
/// so that the first span emitted here must be linked to it.
#[derive(Clone, Copy, Debug, PartialEq, Eq)]
pub struct EolOptions {
    pub connect: bool,
}

/// The first position at or after `i` that does not hold horizontal
/// whitespace (the length of the stream when only whitespace remains).
pub open spec fn skip_space_or_tab(s: Seq<Code>, i: int) -> int
    decreases s.len() - i,
{
    if i < s.len() && is_space_or_tab(s[i]) {
        skip_space_or_tab(s, i + 1)
    } else {
        i
    }
}

pub proof fn lemma_skip_space_or_tab_bounds(s: Seq<Code>, i: int)
    ensures
        i <= skip_space_or_tab(s, i),
        i <= s.len() ==> skip_space_or_tab(s, i) <= s.len(),
    decreases s.len() - i,
{
    if i < s.len() && is_space_or_tab(s[i]) {
        lemma_skip_space_or_tab_bounds(s, i + 1);
    }
}

/// The events the sub-automaton appends on success when it starts at `i`
/// with `b` events already in the log: a line-ending span, then a
/// whitespace span when whitespace follows, both string-typed and chained.
pub open spec fn eol_events(s: Seq<Code>, i: int, b: int, connect: bool) -> Seq<Event> {
    let j = skip_space_or_tab(s, i + 1);
    let le_enter = enter_content_event(Token::LineEnding, i, Some(ContentType::String));
    let le = seq![
        if connect {
            linked_event(le_enter, (b - 2) as usize)
        } else {
            le_enter
        },
        exit_event(Token::LineEnding, i + 1),
    ];
    if j > i + 1 {
        le + seq![
            linked_event(
                enter_content_event(Token::SpaceOrTab, i + 1, Some(ContentType::String)),
                b as usize,
            ),
            exit_event(Token::SpaceOrTab, j),
        ]
    } else {
        le
    }
}

/// The outcome of the sub-automaton at cursor `i` with `b` events already
/// in the log: the cursor after the line ending and trailing whitespace
/// together with the appended events, or `None` when a blank line follows
/// — a line ending or end of input with only whitespace in between.
pub open spec fn spec_eol(s: Seq<Code>, i: int, b: int, connect: bool) -> Option<(int, Seq<Event>)> {
    let j = skip_space_or_tab(s, i + 1);
    if j >= s.len() || is_line_ending(s[j]) {
        None
    } else {
        Some((j, eol_events(s, i, b, connect)))
    }
}

/// Whether the unit at the cursor is horizontal whitespace.
pub fn current_is_space_or_tab(tokenizer: &Tokenizer) -> (r: bool)
    requires
        tokenizer.inv(),
    ensures
        r == match tokenizer.spec_current() {
            Some(code) => is_space_or_tab(code),
            None => false,
        },
{
    match tokenizer.current() {
        Some(code) => code_is_space_or_tab(code),
        None => false,
    }
}

/// Consumes one line ending plus trailing horizontal whitespace, emitting
/// string-typed, chained spans for both; rejects a blank line with full
/// rollback, so that on `Nok` the log and cursor are untouched.
pub fn space_or_tab_eol_with_options(tokenizer: &mut Tokenizer, options: EolOptions) -> (r: State)
    requires
        old(tokenizer).inv(),
        match old(tokenizer).spec_current() {
            Some(code) => is_line_ending(code),
            None => false,
        },
        options.connect ==> old(tokenizer).events@.len() >= 2,
    ensures
        final(tokenizer).inv(),
        final(tokenizer).input@ == old(tokenizer).input@,
        old(tokenizer).index <= final(tokenizer).index,
        old(tokenizer).events@.len() <= final(tokenizer).events@.len(),
        final(tokenizer).events@.take(old(tokenizer).events@.len() as int) == old(tokenizer).events@,
        match r {
            State::Done => {
                &&& spec_eol(
                    old(tokenizer).input@,
                    old(tokenizer).index as int,
                    old(tokenizer).events@.len() as int,
                    options.connect,
                ) == Some((
                    final(tokenizer).index as int,
                    final(tokenizer).events@.skip(old(tokenizer).events@.len() as int),
                ))
                &&& old(tokenizer).index < final(tokenizer).index
            },
            State::Nok => {
                &&& spec_eol(
                    old(tokenizer).input@,
                    old(tokenizer).index as int,
                    old(tokenizer).events@.len() as int,
                    options.connect,
                ) is None
                &&& final(tokenizer).index == old(tokenizer).index
                &&& final(tokenizer).events@ == old(tokenizer).events@
            },
            State::Next(..) => false,
        },
{
    let ghost s = old(tokenizer).input@;
    let ghost i0 = old(tokenizer).index as int;
    let ghost b0 = old(tokenizer).events@.len() as int;
    let cp = tokenizer.checkpoint();

    tokenizer.enter_with_content(Token::LineEnding, Some(ContentType::String));
    if options.connect {
        let index = tokenizer.events.len() - 1;
        link(&mut tokenizer.events, index);
    }
    tokenizer.consume();
    tokenizer.exit(Token::LineEnding);
    proof {
        assert(tokenizer.events@.skip(b0) =~= eol_events(s, i0, b0, options.connect).take(2));
    }

    let ghost le_done = tokenizer.events@;
    if current_is_space_or_tab(tokenizer) {
        tokenizer.enter_with_content(Token::SpaceOrTab, Some(ContentType::String));
        let index = tokenizer.events.len() - 1;
        link(&mut tokenizer.events, index);
        while current_is_space_or_tab(tokenizer)
            invariant
                tokenizer.inv(),
                tokenizer.input@ == s,
                i0 + 1 <= tokenizer.index as int,
                skip_space_or_tab(s, tokenizer.index as int) == skip_space_or_tab(s, i0 + 1),
                tokenizer.events@ == le_done.push(
                    linked_event(
                        enter_content_event(Token::SpaceOrTab, i0 + 1, Some(ContentType::String)),
                        b0 as usize,
                    ),
                ),
            decreases s.len() - tokenizer.index as int,
        {
            tokenizer.consume();
        }
        proof {
            lemma_skip_space_or_tab_bounds(s, tokenizer.index as int);
            assert(skip_space_or_tab(s, i0 + 1) == tokenizer.index as int);
        }
        tokenizer.exit(Token::SpaceOrTab);
        proof {
            assert(skip_space_or_tab(s, i0 + 1) > i0 + 1);
            assert(tokenizer.events@.skip(b0) =~= eol_events(s, i0, b0, options.connect));
        }
    } else {
        proof {
            assert(skip_space_or_tab(s, i0 + 1) == i0 + 1);
            assert(tokenizer.events@.skip(b0) =~= eol_events(s, i0, b0, options.connect));
        }
    }

    // Blank line not allowed: a line ending or end of input, with only
    // whitespace between it and the line ending consumed above.
    let blank = match tokenizer.current() {
        Some(code) => code_is_line_ending(code),
        None => true,
    };
    if blank {
        tokenizer.restore(cp);
        State::Nok
    } else {
        State::Done
    }
}

} // verus!

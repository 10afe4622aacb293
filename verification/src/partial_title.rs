//! The title construct: recognizes quoted or parenthesized title text.
//!
//! Titles are formed with the following BNF:
//!
//! ```bnf
//! ; Restriction: no blank lines.
//! ; Restriction: markers must match (in case of `(` with `)`).
//! title ::= marker [  *( code - '\\' | '\\' [ marker ] ) ] marker
//! marker ::= '"' | '\'' | '('
//! ```
//!
//! Titles can be double quoted (`"a"`), single quoted (`'a'`), or
//! parenthesized (`(a)`).  They can contain line endings and whitespace,
//! but no blank lines, and they are allowed to be blank themselves.
//!
//! The text between the markers is string content: character escapes and
//! references in it take effect only in a later, separate reparse pass;
//! here a backslash only ever protects the closing marker itself.

use vstd::prelude::*;

use crate::partial_space_or_tab::{
    eol_events, lemma_skip_space_or_tab_bounds, skip_space_or_tab, space_or_tab_eol_with_options,
    EolOptions,
};
use crate::subtokenize::{link, linked_event};
use crate::tokenizer::{
    code_is_line_ending, enter_content_event, enter_event, exit_event, is_line_ending, Code,
    ContentType, Event, EventType, Token, Tokenizer,
};

verus! {

/// Configuration.
///
/// The token types to tag the emitted spans with: one construct serves
/// every grammar that needs a title, under its own names.
#[derive(Clone, Copy, Debug, PartialEq, Eq)]
pub struct Options {
    /// Token for the whole title.
    pub title: Token,
    /// Token for the marker.
    pub marker: Token,
    /// Token for the string inside the quotes.
    pub string: Token,
}

/// Type of title.
#[derive(Clone, Copy, Debug, PartialEq, Eq)]
pub enum Kind {
    /// In a parenthesized (`(` and `)`) title.
    ///
    /// ## Example
    ///
    /// ```markdown
    /// (a)
    /// ```
    Paren,
    /// In a double quoted (`"`) title.
    ///
    /// ## Example
    ///
    /// ```markdown
    /// "a"
    /// ```
    Double,
    /// In a single quoted (`'`) title.
    ///
    /// ## Example
    ///
    /// ```markdown
    /// 'a'
    /// ```
    Single,
}

/// The character that closes a title of this kind.
pub open spec fn closer_char(kind: Kind) -> char {
    match kind {
        Kind::Paren => ')',
        Kind::Double => '"',
        Kind::Single => '\'',
    }
}

/// The character that opens a title of this kind.
pub open spec fn opener_char(kind: Kind) -> char {
    match kind {
        Kind::Paren => '(',
        Kind::Double => '"',
        Kind::Single => '\'',
    }
}

/// Whether a character opens a title.
pub open spec fn is_opener_char(c: char) -> bool {
    c == '(' || c == '"' || c == '\''
}

/// The kind a valid opening character stands for.
pub open spec fn kind_of_char(c: char) -> Kind {
    if c == '(' {
        Kind::Paren
    } else if c == '"' {
        Kind::Double
    } else {
        Kind::Single
    }
}

/// Whether a unit opens a title.
pub open spec fn is_opener_code(code: Code) -> bool {
    match code {
        Code::Char(c) => is_opener_char(c),
        _ => false,
    }
}

/// The kind a valid opening unit stands for.
pub open spec fn kind_of_code(code: Code) -> Kind {
    match code {
        Code::Char(c) => kind_of_char(c),
        _ => Kind::Paren,
    }
}

impl Kind {
    /// Turn the kind into a [char].
    ///
    /// > 👉 **Note**: a closing paren is used for `Kind::Paren`.
    pub fn as_char(&self) -> (r: char)
        ensures
            r == closer_char(*self),
    {
        match self {
            Kind::Paren => ')',
            Kind::Double => '"',
            Kind::Single => '\'',
        }
    }

    /// Turn a [char] into a kind.
    ///
    /// > 👉 **Note**: an opening paren must be used for `Kind::Paren`.
    pub fn from_char(c: char) -> (r: Kind)
        requires
            is_opener_char(c),
        ensures
            r == kind_of_char(c),
    {
        if c == '(' {
            Kind::Paren
        } else if c == '"' {
            Kind::Double
        } else {
            Kind::Single
        }
    }

    /// Turn a [Code] into a kind.
    ///
    /// > 👉 **Note**: an opening paren must be used for `Kind::Paren`.
    pub fn from_code(code: Code) -> (r: Kind)
        requires
            is_opener_code(code),
        ensures
            r == kind_of_code(code),
    {
        match code {
            Code::Char(c) => Kind::from_char(c),
            _ => Kind::Paren,
        }
    }
}

/// State needed to parse titles.
#[derive(Clone, Copy, Debug, PartialEq, Eq)]
pub struct Info {
    /// Whether a string-typed span was already emitted, so the next one
    /// continues its chain.
    pub connect: bool,
    /// Kind of title.
    pub kind: Kind,
    /// Configuration.
    pub options: Options,
}

/// The pending continuations of the title construct.
#[derive(Clone, Copy, Debug, PartialEq, Eq)]
pub enum StateName {
    /// After the opening marker; also at the closing marker.
    Begin,
    /// At something, before something else.
    AtBreak,
    /// In title text.
    TitleText,
    /// After `\`, in title text.
    Escape,
}

/// What a continuation returns: the construct matched (`Done`), it did
/// not match (`Nok`, with no net effect once the attempt is unwound), or
/// it suspends and must be invoked again for the next unit.
#[derive(Clone, Copy, Debug, PartialEq, Eq)]
pub enum State {
    /// Terminal success: the construct matched and the log is
    /// authoritative.
    Done,
    /// Terminal failure: the construct did not match at this position.
    Nok,
    /// A pending continuation, carrying the construct-local state.
    Next(StateName, Info),
}

/// Whether the unit at `i` is the closing marker.
pub open spec fn at_closer(s: Seq<Code>, kind: Kind, i: int) -> bool {
    0 <= i < s.len() && s[i] == Code::Char(closer_char(kind))
}

/// Prefixes events onto the events of an outcome, leaving failure as it
/// is.
pub open spec fn opt_prepend(prefix: Seq<Event>, o: Option<(int, Seq<Event>)>) -> Option<
    (int, Seq<Event>),
> {
    match o {
        Some((end, evs)) => Some((end, prefix + evs)),
        None => None,
    }
}

/// Outcome of the construct from the `TitleText` continuation at `i` with
/// `b` events in the log: the position one past the closing marker and the
/// events appended from here on, or `None` when the title never closes.
///
/// Ordinary units are consumed one at a time; the closing marker, end of
/// input and line endings are handed back to `AtBreak` with the data span
/// closed; a backslash is consumed as literal data and handled by
/// `Escape`.
pub open spec fn sp_title(s: Seq<Code>, o: Options, k: Kind, i: int, b: int) -> Option<
    (int, Seq<Event>),
>
    decreases s.len() - i, 1int,
{
    if at_closer(s, k, i) || i >= s.len() || is_line_ending(s[i]) {
        opt_prepend(seq![exit_event(Token::Data, i)], sp_at_break(s, o, k, i, b + 1, true))
    } else if s[i] == Code::Char('\\') {
        sp_escape(s, o, k, i + 1, b)
    } else {
        sp_title(s, o, k, i + 1, b)
    }
}

/// Outcome of the construct from the `Escape` continuation at `i` (the
/// backslash itself is already consumed): an escaped closing marker stays
/// literal content; any other unit is handled by the ordinary title-text
/// rules.
pub open spec fn sp_escape(s: Seq<Code>, o: Options, k: Kind, i: int, b: int) -> Option<
    (int, Seq<Event>),
>
    decreases s.len() - i, 2int,
{
    if at_closer(s, k, i) {
        sp_title(s, o, k, i + 1, b)
    } else {
        sp_title(s, o, k, i, b)
    }
}

/// Outcome of the construct from the `AtBreak` continuation at `i`, with
/// `b` events in the log and `c` saying whether a string-typed span was
/// already emitted: at the closing marker the string span and the title
/// are closed; end of input is an unterminated title; a line ending is
/// handed to the whitespace sub-automaton, which rejects blank lines; any
/// other unit opens a chained data span.
pub open spec fn sp_at_break(s: Seq<Code>, o: Options, k: Kind, i: int, b: int, c: bool) -> Option<
    (int, Seq<Event>),
>
    decreases s.len() - i, 0int,
{
    if at_closer(s, k, i) {
        Some(
            (
                i + 1,
                seq![
                    exit_event(o.string, i),
                    enter_event(o.marker, i),
                    exit_event(o.marker, i + 1),
                    exit_event(o.title, i + 1),
                ],
            ),
        )
    } else if i >= s.len() {
        None
    } else if is_line_ending(s[i]) {
        let j = skip_space_or_tab(s, i + 1);
        if j >= s.len() || is_line_ending(s[j]) {
            None
        } else {
            proof {
                lemma_skip_space_or_tab_bounds(s, i + 1);
            }
            opt_prepend(
                eol_events(s, i, b, c),
                sp_at_break(s, o, k, j, b + eol_events(s, i, b, c).len(), true),
            )
        }
    } else {
        let data_enter = enter_content_event(Token::Data, i, Some(ContentType::String));
        let first = if c {
            linked_event(data_enter, (b - 2) as usize)
        } else {
            data_enter
        };
        if s[i] == Code::Char('\\') {
            opt_prepend(seq![first], sp_escape(s, o, k, i + 1, b + 1))
        } else {
            opt_prepend(seq![first], sp_title(s, o, k, i + 1, b + 1))
        }
    }
}

/// Outcome of the construct from the `Begin` continuation at `i`: the
/// closing marker right away makes an empty title; anything else opens
/// the string span.
pub open spec fn sp_begin(s: Seq<Code>, o: Options, k: Kind, i: int, b: int, c: bool) -> Option<
    (int, Seq<Event>),
>
    decreases s.len() - i, 3int,
{
    if at_closer(s, k, i) {
        Some(
            (
                i + 1,
                seq![
                    enter_event(o.marker, i),
                    exit_event(o.marker, i + 1),
                    exit_event(o.title, i + 1),
                ],
            ),
        )
    } else {
        opt_prepend(seq![enter_event(o.string, i)], sp_at_break(s, o, k, i, b + 1, c))
    }
}

/// Outcome of the whole construct at `i` with `b` events in the log: a
/// valid opening unit starts the title and marker spans, anything else is
/// `Nok` with zero effect.
pub open spec fn sp_start(s: Seq<Code>, o: Options, i: int, b: int) -> Option<(int, Seq<Event>)> {
    if 0 <= i < s.len() && is_opener_code(s[i]) {
        opt_prepend(
            seq![
                enter_event(o.title, i),
                enter_event(o.marker, i),
                exit_event(o.marker, i + 1),
            ],
            sp_begin(s, o, kind_of_code(s[i]), i + 1, b + 3, false),
        )
    } else {
        None
    }
}

/// Outcome of the construct from a named continuation.
pub open spec fn sp_state(
    name: StateName,
    s: Seq<Code>,
    o: Options,
    k: Kind,
    i: int,
    b: int,
    c: bool,
) -> Option<(int, Seq<Event>)> {
    match name {
        StateName::Begin => sp_begin(s, o, k, i, b, c),
        StateName::AtBreak => sp_at_break(s, o, k, i, b, c),
        StateName::TitleText => sp_title(s, o, k, i, b),
        StateName::Escape => sp_escape(s, o, k, i, b),
    }
}

/// Before a title.
///
/// ```markdown
/// > | "a"
///     ^
/// ```
pub fn start(tokenizer: &mut Tokenizer, options: Options) -> (r: State)
    requires
        old(tokenizer).inv(),
    ensures
        final(tokenizer).inv(),
        final(tokenizer).input@ == old(tokenizer).input@,
        old(tokenizer).index <= final(tokenizer).index,
        old(tokenizer).events@.len() <= final(tokenizer).events@.len(),
        final(tokenizer).events@.take(old(tokenizer).events@.len() as int) == old(tokenizer).events@,
        (r is Nok) <==> !(match old(tokenizer).spec_current() {
            Some(code) => is_opener_code(code),
            None => false,
        }),
        match r {
            State::Nok => {
                &&& final(tokenizer).index == old(tokenizer).index
                &&& final(tokenizer).events@ == old(tokenizer).events@
                &&& sp_start(
                    old(tokenizer).input@,
                    options,
                    old(tokenizer).index as int,
                    old(tokenizer).events@.len() as int,
                ) is None
            },
            State::Next(name, info) => {
                &&& name == StateName::Begin
                &&& info.options == options
                &&& !info.connect
                &&& final(tokenizer).index == old(tokenizer).index + 1
                &&& final(tokenizer).events@.len() == old(tokenizer).events@.len() + 3
                &&& sp_start(
                    old(tokenizer).input@,
                    options,
                    old(tokenizer).index as int,
                    old(tokenizer).events@.len() as int,
                ) == opt_prepend(
                    final(tokenizer).events@.skip(old(tokenizer).events@.len() as int),
                    sp_state(
                        StateName::Begin,
                        old(tokenizer).input@,
                        options,
                        info.kind,
                        final(tokenizer).index as int,
                        final(tokenizer).events@.len() as int,
                        false,
                    ),
                )
            },
            State::Done => false,
        },
{
    let ghost s = old(tokenizer).input@;
    let ghost i0 = old(tokenizer).index as int;
    let ghost b0 = old(tokenizer).events@.len() as int;
    let cur = tokenizer.current();
    match cur {
        Some(code) => {
            if code_is_opener(code) {
                let info = Info { connect: false, kind: Kind::from_code(code), options };
                tokenizer.enter(options.title);
                tokenizer.enter(options.marker);
                tokenizer.consume();
                tokenizer.exit(options.marker);
                proof {
                    assert(tokenizer.events@.skip(b0) =~= seq![
                        enter_event(options.title, i0),
                        enter_event(options.marker, i0),
                        exit_event(options.marker, i0 + 1),
                    ]);
                }
                State::Next(StateName::Begin, info)
            } else {
                State::Nok
            }
        },
        None => State::Nok,
    }
}

/// Runtime test for `is_opener_code`.
pub fn code_is_opener(code: Code) -> (r: bool)
    ensures
        r == is_opener_code(code),
{
    match code {
        Code::Char(c) => c == '"' || c == '\'' || c == '(',
        Code::CarriageReturnLineFeed => false,
    }
}

/// Whether a unit is the closing marker of this kind of title.
pub fn code_is_closer(code: Code, kind: Kind) -> (r: bool)
    ensures
        r == (code == Code::Char(closer_char(kind))),
{
    match code {
        Code::Char(ch) => ch == kind.as_char(),
        Code::CarriageReturnLineFeed => false,
    }
}

/// After the opening marker.
///
/// This is also used when at the closing marker.
///
/// ```markdown
/// > | "a"
///      ^
/// ```
pub fn begin(tokenizer: &mut Tokenizer, info: Info) -> (r: State)
    requires
        old(tokenizer).inv(),
        old(tokenizer).events@.len() >= 1,
        info.connect ==> old(tokenizer).events@.len() >= 2,
    ensures
        final(tokenizer).inv(),
        final(tokenizer).input@ == old(tokenizer).input@,
        old(tokenizer).index <= final(tokenizer).index,
        old(tokenizer).events@.len() <= final(tokenizer).events@.len(),
        final(tokenizer).events@.take(old(tokenizer).events@.len() as int) == old(tokenizer).events@,
        match r {
            State::Done => sp_begin(
                old(tokenizer).input@,
                info.options,
                info.kind,
                old(tokenizer).index as int,
                old(tokenizer).events@.len() as int,
                info.connect,
            ) == Some(
                (
                    final(tokenizer).index as int,
                    final(tokenizer).events@.skip(old(tokenizer).events@.len() as int),
                ),
            ),
            State::Nok => sp_begin(
                old(tokenizer).input@,
                info.options,
                info.kind,
                old(tokenizer).index as int,
                old(tokenizer).events@.len() as int,
                info.connect,
            ) is None,
            State::Next(name, info2) => {
                &&& info2.kind == info.kind
                &&& info2.options == info.options
                &&& ((name == StateName::TitleText || name == StateName::Escape) ==> info2.connect)
                &&& (info2.connect ==> final(tokenizer).events@.len() >= 2)
                &&& old(tokenizer).index < final(tokenizer).index
                &&& sp_begin(
                    old(tokenizer).input@,
                    info.options,
                    info.kind,
                    old(tokenizer).index as int,
                    old(tokenizer).events@.len() as int,
                    info.connect,
                ) == opt_prepend(
                    final(tokenizer).events@.skip(old(tokenizer).events@.len() as int),
                    sp_state(
                        name,
                        old(tokenizer).input@,
                        info.options,
                        info.kind,
                        final(tokenizer).index as int,
                        final(tokenizer).events@.len() as int,
                        info2.connect,
                    ),
                )
            },
        },
{
    let ghost s = old(tokenizer).input@;
    let ghost i0 = old(tokenizer).index as int;
    let ghost b0 = old(tokenizer).events@.len() as int;
    let cur = tokenizer.current();
    let is_closer = match cur {
        Some(code) => code_is_closer(code, info.kind),
        None => false,
    };
    if is_closer {
        tokenizer.enter(info.options.marker);
        tokenizer.consume();
        tokenizer.exit(info.options.marker);
        tokenizer.exit(info.options.title);
        proof {
            assert(at_closer(s, info.kind, i0));
            assert(tokenizer.events@.skip(b0) =~= seq![
                enter_event(info.options.marker, i0),
                exit_event(info.options.marker, i0 + 1),
                exit_event(info.options.title, i0 + 1),
            ]);
        }
        State::Done
    } else {
        tokenizer.enter(info.options.string);
        let ghost mid = tokenizer.events@;
        let r = at_break(tokenizer, info);
        proof {
            assert(!at_closer(s, info.kind, i0));
            let fev = tokenizer.events@;
            assert(fev.take(b0 + 1) == mid);
            assert(fev.take(b0 + 1)[b0] == fev[b0]);
            assert(fev[b0] == enter_event(info.options.string, i0));
            assert(fev.skip(b0) =~= seq![enter_event(info.options.string, i0)] + fev.skip(b0 + 1));
            if let State::Next(name2, info2) = r {
                let x = sp_state(
                    name2,
                    s,
                    info.options,
                    info.kind,
                    tokenizer.index as int,
                    fev.len() as int,
                    info2.connect,
                );
                if let Some((e2, evs2)) = x {
                    assert(seq![enter_event(info.options.string, i0)] + (fev.skip(b0 + 1) + evs2)
                        =~= fev.skip(b0) + evs2);
                }
            }
        }
        r
    }
}

/// At something, before something else.
///
/// ```markdown
/// > | "a"
///      ^
/// ```
pub fn at_break(tokenizer: &mut Tokenizer, info: Info) -> (r: State)
    requires
        old(tokenizer).inv(),
        old(tokenizer).events@.len() >= 1,
        info.connect ==> old(tokenizer).events@.len() >= 2,
    ensures
        final(tokenizer).inv(),
        final(tokenizer).input@ == old(tokenizer).input@,
        old(tokenizer).index <= final(tokenizer).index,
        old(tokenizer).events@.len() <= final(tokenizer).events@.len(),
        final(tokenizer).events@.take(old(tokenizer).events@.len() as int) == old(tokenizer).events@,
        match r {
            State::Done => sp_at_break(
                old(tokenizer).input@,
                info.options,
                info.kind,
                old(tokenizer).index as int,
                old(tokenizer).events@.len() as int,
                info.connect,
            ) == Some(
                (
                    final(tokenizer).index as int,
                    final(tokenizer).events@.skip(old(tokenizer).events@.len() as int),
                ),
            ),
            State::Nok => sp_at_break(
                old(tokenizer).input@,
                info.options,
                info.kind,
                old(tokenizer).index as int,
                old(tokenizer).events@.len() as int,
                info.connect,
            ) is None,
            State::Next(name, info2) => {
                &&& info2.kind == info.kind
                &&& info2.options == info.options
                &&& ((name == StateName::TitleText || name == StateName::Escape) ==> info2.connect)
                &&& (info2.connect ==> final(tokenizer).events@.len() >= 2)
                &&& old(tokenizer).index < final(tokenizer).index
                &&& sp_at_break(
                    old(tokenizer).input@,
                    info.options,
                    info.kind,
                    old(tokenizer).index as int,
                    old(tokenizer).events@.len() as int,
                    info.connect,
                ) == opt_prepend(
                    final(tokenizer).events@.skip(old(tokenizer).events@.len() as int),
                    sp_state(
                        name,
                        old(tokenizer).input@,
                        info.options,
                        info.kind,
                        final(tokenizer).index as int,
                        final(tokenizer).events@.len() as int,
                        info2.connect,
                    ),
                )
            },
        },
{
    let ghost s = old(tokenizer).input@;
    let ghost i0 = old(tokenizer).index as int;
    let ghost b0 = old(tokenizer).events@.len() as int;
    let cur = tokenizer.current();
    match cur {
        None => State::Nok,
        Some(code) => {
            if code_is_closer(code, info.kind) {
                // The closing marker: close the string span, then close the
                // title as `begin` does at the closing marker.
                tokenizer.exit(info.options.string);
                tokenizer.enter(info.options.marker);
                tokenizer.consume();
                tokenizer.exit(info.options.marker);
                tokenizer.exit(info.options.title);
                proof {
                    assert(at_closer(s, info.kind, i0));
                    assert(tokenizer.events@.skip(b0) =~= seq![
                        exit_event(info.options.string, i0),
                        enter_event(info.options.marker, i0),
                        exit_event(info.options.marker, i0 + 1),
                        exit_event(info.options.title, i0 + 1),
                    ]);
                }
                State::Done
            } else if code_is_line_ending(code) {
                let r = space_or_tab_eol_with_options(
                    tokenizer,
                    EolOptions { connect: info.connect },
                );
                match r {
                    State::Done => {
                        proof {
                            lemma_skip_space_or_tab_bounds(s, i0 + 1);
                            let fev = tokenizer.events@;
                            assert(fev.skip(b0) == eol_events(s, i0, b0, info.connect));
                            assert(fev.len() as int == b0 + eol_events(s, i0, b0, info.connect).len());
                        }
                        State::Next(
                            StateName::AtBreak,
                            Info { connect: true, kind: info.kind, options: info.options },
                        )
                    },
                    _ => State::Nok,
                }
            } else {
                tokenizer.enter_with_content(Token::Data, Some(ContentType::String));
                if info.connect {
                    let index = tokenizer.events.len() - 1;
                    link(&mut tokenizer.events, index);
                }
                proof {
                    let data_enter = enter_content_event(Token::Data, i0, Some(ContentType::String));
                    let first = if info.connect {
                        linked_event(data_enter, (b0 - 2) as usize)
                    } else {
                        data_enter
                    };
                    assert(tokenizer.events@.skip(b0) =~= seq![first]);
                }
                let is_backslash = match code {
                    Code::Char(ch) => ch == '\\',
                    Code::CarriageReturnLineFeed => false,
                };
                let info2 = Info { connect: true, kind: info.kind, options: info.options };
                if is_backslash {
                    tokenizer.consume();
                    State::Next(StateName::Escape, info2)
                } else {
                    tokenizer.consume();
                    State::Next(StateName::TitleText, info2)
                }
            }
        },
    }
}

/// In title text.
///
/// ```markdown
/// > | "a"
///      ^
/// ```
pub fn title(tokenizer: &mut Tokenizer, info: Info) -> (r: State)
    requires
        old(tokenizer).inv(),
        info.connect,
        old(tokenizer).events@.len() >= 2,
    ensures
        final(tokenizer).inv(),
        final(tokenizer).input@ == old(tokenizer).input@,
        old(tokenizer).index <= final(tokenizer).index,
        old(tokenizer).events@.len() <= final(tokenizer).events@.len(),
        final(tokenizer).events@.take(old(tokenizer).events@.len() as int) == old(tokenizer).events@,
        match r {
            State::Done => sp_title(
                old(tokenizer).input@,
                info.options,
                info.kind,
                old(tokenizer).index as int,
                old(tokenizer).events@.len() as int,
            ) == Some(
                (
                    final(tokenizer).index as int,
                    final(tokenizer).events@.skip(old(tokenizer).events@.len() as int),
                ),
            ),
            State::Nok => sp_title(
                old(tokenizer).input@,
                info.options,
                info.kind,
                old(tokenizer).index as int,
                old(tokenizer).events@.len() as int,
            ) is None,
            State::Next(name, info2) => {
                &&& info2.kind == info.kind
                &&& info2.options == info.options
                &&& ((name == StateName::TitleText || name == StateName::Escape) ==> info2.connect)
                &&& (info2.connect ==> final(tokenizer).events@.len() >= 2)
                &&& old(tokenizer).index < final(tokenizer).index
                &&& sp_title(
                    old(tokenizer).input@,
                    info.options,
                    info.kind,
                    old(tokenizer).index as int,
                    old(tokenizer).events@.len() as int,
                ) == opt_prepend(
                    final(tokenizer).events@.skip(old(tokenizer).events@.len() as int),
                    sp_state(
                        name,
                        old(tokenizer).input@,
                        info.options,
                        info.kind,
                        final(tokenizer).index as int,
                        final(tokenizer).events@.len() as int,
                        info2.connect,
                    ),
                )
            },
        },
{
    let ghost s = old(tokenizer).input@;
    let ghost i0 = old(tokenizer).index as int;
    let ghost b0 = old(tokenizer).events@.len() as int;
    let cur = tokenizer.current();
    let break_here = match cur {
        None => true,
        Some(code) => code_is_closer(code, info.kind) || code_is_line_ending(code),
    };
    if break_here {
        tokenizer.exit(Token::Data);
        let ghost mid = tokenizer.events@;
        let r = at_break(tokenizer, info);
        proof {
            let fev = tokenizer.events@;
            assert(fev.take(b0 + 1) == mid);
            assert(fev.take(b0 + 1)[b0] == fev[b0]);
            assert(fev[b0] == exit_event(Token::Data, i0));
            assert(fev.skip(b0) =~= seq![exit_event(Token::Data, i0)] + fev.skip(b0 + 1));
            if let State::Next(name2, info2) = r {
                let x = sp_state(
                    name2,
                    s,
                    info.options,
                    info.kind,
                    tokenizer.index as int,
                    fev.len() as int,
                    info2.connect,
                );
                if let Some((e2, evs2)) = x {
                    assert(seq![exit_event(Token::Data, i0)] + (fev.skip(b0 + 1) + evs2)
                        =~= fev.skip(b0) + evs2);
                }
            }
        }
        r
    } else {
        let is_backslash = match cur {
            Some(Code::Char(ch)) => ch == '\\',
            _ => false,
        };
        tokenizer.consume();
        proof {
            assert(tokenizer.events@.skip(b0) =~= Seq::<Event>::empty());
            let x = if is_backslash {
                sp_escape(s, info.options, info.kind, i0 + 1, b0)
            } else {
                sp_title(s, info.options, info.kind, i0 + 1, b0)
            };
            if let Some((e2, evs2)) = x {
                assert(Seq::<Event>::empty() + evs2 =~= evs2);
            }
        }
        if is_backslash {
            State::Next(StateName::Escape, info)
        } else {
            State::Next(StateName::TitleText, info)
        }
    }
}

/// After `\`, in title text.
///
/// ```markdown
/// > | "a\*b"
///      ^
/// ```
pub fn escape(tokenizer: &mut Tokenizer, info: Info) -> (r: State)
    requires
        old(tokenizer).inv(),
        info.connect,
        old(tokenizer).events@.len() >= 2,
    ensures
        final(tokenizer).inv(),
        final(tokenizer).input@ == old(tokenizer).input@,
        old(tokenizer).index <= final(tokenizer).index,
        old(tokenizer).events@.len() <= final(tokenizer).events@.len(),
        final(tokenizer).events@.take(old(tokenizer).events@.len() as int) == old(tokenizer).events@,
        match r {
            State::Done => sp_escape(
                old(tokenizer).input@,
                info.options,
                info.kind,
                old(tokenizer).index as int,
                old(tokenizer).events@.len() as int,
            ) == Some(
                (
                    final(tokenizer).index as int,
                    final(tokenizer).events@.skip(old(tokenizer).events@.len() as int),
                ),
            ),
            State::Nok => sp_escape(
                old(tokenizer).input@,
                info.options,
                info.kind,
                old(tokenizer).index as int,
                old(tokenizer).events@.len() as int,
            ) is None,
            State::Next(name, info2) => {
                &&& info2.kind == info.kind
                &&& info2.options == info.options
                &&& ((name == StateName::TitleText || name == StateName::Escape) ==> info2.connect)
                &&& (info2.connect ==> final(tokenizer).events@.len() >= 2)
                &&& old(tokenizer).index < final(tokenizer).index
                &&& sp_escape(
                    old(tokenizer).input@,
                    info.options,
                    info.kind,
                    old(tokenizer).index as int,
                    old(tokenizer).events@.len() as int,
                ) == opt_prepend(
                    final(tokenizer).events@.skip(old(tokenizer).events@.len() as int),
                    sp_state(
                        name,
                        old(tokenizer).input@,
                        info.options,
                        info.kind,
                        final(tokenizer).index as int,
                        final(tokenizer).events@.len() as int,
                        info2.connect,
                    ),
                )
            },
        },
{
    let ghost s = old(tokenizer).input@;
    let ghost i0 = old(tokenizer).index as int;
    let ghost b0 = old(tokenizer).events@.len() as int;
    let cur = tokenizer.current();
    let is_closer = match cur {
        Some(code) => code_is_closer(code, info.kind),
        None => false,
    };
    if is_closer {
        tokenizer.consume();
        proof {
            assert(at_closer(s, info.kind, i0));
            assert(tokenizer.events@.skip(b0) =~= Seq::<Event>::empty());
            if let Some((e2, evs2)) = sp_title(s, info.options, info.kind, i0 + 1, b0) {
                assert(Seq::<Event>::empty() + evs2 =~= evs2);
            }
        }
        State::Next(StateName::TitleText, info)
    } else {
        proof {
            assert(!at_closer(s, info.kind, i0));
        }
        let r = title(tokenizer, info);
        r
    }
}

/// Whether two consecutive log events may stand next to each other in a
/// position-accurate log: either they share a position (no input between
/// them), or they are the `Enter`/`Exit` pair of one span, so that the
/// units between them are exactly the extent of that span.
pub open spec fn adjacent_ok(a: Event, b: Event) -> bool {
    ||| b.index == a.index
    ||| (a.event_type == EventType::Enter && b.event_type == EventType::Exit && a.token == b.token
        && a.index <= b.index)
}

/// Every consecutive pair of events is adjacent: input is covered only
/// inside `Enter`/`Exit` pairs, with no gaps and no overlaps.
pub open spec fn chain_ok(evs: Seq<Event>) -> bool {
    forall|j: int| 0 <= j < evs.len() - 1 ==> #[trigger] adjacent_ok(evs[j], evs[j + 1])
}

/// The events tile exactly the units from `lo` to `hi`: they begin at
/// `lo`, end at `hi`, and every advance of position happens inside one
/// `Enter`/`Exit` pair.
pub open spec fn covers(evs: Seq<Event>, lo: int, hi: int) -> bool {
    &&& evs.len() >= 1
    &&& evs[0].index as int == lo
    &&& evs[evs.len() - 1].index as int == hi
    &&& chain_ok(evs)
}

/// The spans still open after processing the events with `stack` already
/// open, innermost last: each `Enter` opens a span, each `Exit` must close
/// the innermost open span; `None` when the events are not well nested.
pub open spec fn stack_after(evs: Seq<Event>, stack: Seq<Token>) -> Option<Seq<Token>>
    decreases evs.len(),
{
    if evs.len() == 0 {
        Some(stack)
    } else {
        match evs[0].event_type {
            EventType::Enter => stack_after(evs.skip(1), stack.push(evs[0].token)),
            EventType::Exit => {
                if stack.len() > 0 && stack[stack.len() - 1] == evs[0].token {
                    stack_after(evs.skip(1), stack.drop_last())
                } else {
                    None
                }
            },
        }
    }
}

/// Well nested: starting with nothing open, every span closes in the
/// reverse order of opening and nothing stays open.
pub open spec fn balanced(evs: Seq<Event>) -> bool {
    stack_after(evs, Seq::<Token>::empty()) == Some(Seq::<Token>::empty())
}

proof fn lemma_stack_after_concat(a: Seq<Event>, c: Seq<Event>, stack: Seq<Token>)
    ensures
        stack_after(a + c, stack) == (match stack_after(a, stack) {
            Some(m) => stack_after(c, m),
            None => None,
        }),
    decreases a.len(),
{
    if a.len() == 0 {
        assert(a + c =~= c);
    } else {
        assert((a + c)[0] == a[0]);
        assert((a + c).skip(1) =~= a.skip(1) + c);
        match a[0].event_type {
            EventType::Enter => {
                lemma_stack_after_concat(a.skip(1), c, stack.push(a[0].token));
            },
            EventType::Exit => {
                if stack.len() > 0 && stack[stack.len() - 1] == a[0].token {
                    lemma_stack_after_concat(a.skip(1), c, stack.drop_last());
                }
            },
        }
    }
}

proof fn lemma_stack_after_one(e: Event, stack: Seq<Token>)
    ensures
        stack_after(seq![e], stack) == (match e.event_type {
            EventType::Enter => Some(stack.push(e.token)),
            EventType::Exit => {
                if stack.len() > 0 && stack[stack.len() - 1] == e.token {
                    Some(stack.drop_last())
                } else {
                    None
                }
            },
        }),
{
    reveal_with_fuel(stack_after, 2);
    assert(seq![e].skip(1) =~= Seq::<Event>::empty());
}

proof fn lemma_chain_concat(a: Seq<Event>, c: Seq<Event>)
    requires
        chain_ok(a),
        chain_ok(c),
        a.len() >= 1,
        c.len() >= 1,
        adjacent_ok(a[a.len() - 1], c[0]),
    ensures
        chain_ok(a + c),
{
    assert forall|j: int| 0 <= j < (a + c).len() - 1 implies #[trigger] adjacent_ok(
        (a + c)[j],
        (a + c)[j + 1],
    ) by {
        if j < a.len() - 1 {
            assert((a + c)[j] == a[j]);
            assert((a + c)[j + 1] == a[j + 1]);
            assert(adjacent_ok(a[j], a[j + 1]));
        } else if j == a.len() - 1 {
            assert((a + c)[j] == a[j]);
            assert((a + c)[j + 1] == c[0]);
        } else {
            assert((a + c)[j] == c[j - a.len()]);
            assert((a + c)[j + 1] == c[j - a.len() + 1]);
            assert(adjacent_ok(c[j - a.len()], c[j - a.len() + 1]));
        }
    }
}

proof fn lemma_chain_title(s: Seq<Code>, o: Options, k: Kind, i: int, b: int)
    requires
        0 <= i,
        s.len() <= usize::MAX,
    ensures
        match sp_title(s, o, k, i, b) {
            Some((end, evs)) => {
                &&& evs.len() >= 1
                &&& chain_ok(evs)
                &&& evs[0].event_type == EventType::Exit
                &&& evs[0].token == Token::Data
                &&& i <= evs[0].index as int
                &&& evs[evs.len() - 1] == exit_event(o.title, end)
                &&& i < end <= s.len()
            },
            None => true,
        },
    decreases s.len() - i, 1int,
{
    if at_closer(s, k, i) || i >= s.len() || is_line_ending(s[i]) {
        lemma_chain_at_break(s, o, k, i, b + 1, true);
        match sp_at_break(s, o, k, i, b + 1, true) {
            Some((end, evs1)) => {
                let pre = seq![exit_event(Token::Data, i)];
                assert(adjacent_ok(pre[0], evs1[0]));
                lemma_chain_concat(pre, evs1);
                assert((pre + evs1)[0] == pre[0]);
                assert((pre + evs1)[(pre + evs1).len() - 1] == evs1[evs1.len() - 1]);
            },
            None => {},
        }
    } else if s[i] == Code::Char('\\') {
        lemma_chain_escape(s, o, k, i + 1, b);
    } else {
        lemma_chain_title(s, o, k, i + 1, b);
    }
}

proof fn lemma_chain_escape(s: Seq<Code>, o: Options, k: Kind, i: int, b: int)
    requires
        0 <= i,
        s.len() <= usize::MAX,
    ensures
        match sp_escape(s, o, k, i, b) {
            Some((end, evs)) => {
                &&& evs.len() >= 1
                &&& chain_ok(evs)
                &&& evs[0].event_type == EventType::Exit
                &&& evs[0].token == Token::Data
                &&& i <= evs[0].index as int
                &&& evs[evs.len() - 1] == exit_event(o.title, end)
                &&& i < end <= s.len()
            },
            None => true,
        },
    decreases s.len() - i, 2int,
{
    if at_closer(s, k, i) {
        lemma_chain_title(s, o, k, i + 1, b);
    } else {
        lemma_chain_title(s, o, k, i, b);
    }
}

proof fn lemma_chain_at_break(s: Seq<Code>, o: Options, k: Kind, i: int, b: int, c: bool)
    requires
        0 <= i,
        s.len() <= usize::MAX,
    ensures
        match sp_at_break(s, o, k, i, b, c) {
            Some((end, evs)) => {
                &&& evs.len() >= 1
                &&& chain_ok(evs)
                &&& evs[0].index as int == i
                &&& evs[evs.len() - 1] == exit_event(o.title, end)
                &&& i < end <= s.len()
            },
            None => true,
        },
    decreases s.len() - i, 0int,
{
    if at_closer(s, k, i) {
        let evs = seq![
            exit_event(o.string, i),
            enter_event(o.marker, i),
            exit_event(o.marker, i + 1),
            exit_event(o.title, i + 1),
        ];
        assert forall|j: int| 0 <= j < evs.len() - 1 implies #[trigger] adjacent_ok(
            evs[j],
            evs[j + 1],
        ) by {
            assert(adjacent_ok(evs[0], evs[1]));
            assert(adjacent_ok(evs[1], evs[2]));
            assert(adjacent_ok(evs[2], evs[3]));
        }
    } else if i >= s.len() {
    } else if is_line_ending(s[i]) {
        let j = skip_space_or_tab(s, i + 1);
        if j >= s.len() || is_line_ending(s[j]) {
        } else {
            lemma_skip_space_or_tab_bounds(s, i + 1);
            let evs1 = eol_events(s, i, b, c);
            lemma_chain_at_break(s, o, k, j, b + evs1.len(), true);
            assert forall|jj: int| 0 <= jj < evs1.len() - 1 implies #[trigger] adjacent_ok(
                evs1[jj],
                evs1[jj + 1],
            ) by {
                assert(adjacent_ok(evs1[0], evs1[1]));
                if evs1.len() == 4 {
                    assert(adjacent_ok(evs1[1], evs1[2]));
                    assert(adjacent_ok(evs1[2], evs1[3]));
                }
            }
            match sp_at_break(s, o, k, j, b + evs1.len(), true) {
                Some((end, evs2)) => {
                    assert(evs1[evs1.len() - 1].index as int == j);
                    assert(adjacent_ok(evs1[evs1.len() - 1], evs2[0]));
                    lemma_chain_concat(evs1, evs2);
                    assert((evs1 + evs2)[0] == evs1[0]);
                    assert((evs1 + evs2)[(evs1 + evs2).len() - 1] == evs2[evs2.len() - 1]);
                },
                None => {},
            }
        }
    } else {
        let data_enter = enter_content_event(Token::Data, i, Some(ContentType::String));
        let first = if c {
            linked_event(data_enter, (b - 2) as usize)
        } else {
            data_enter
        };
        assert(first.index as int == i);
        assert(first.event_type == EventType::Enter);
        assert(first.token == Token::Data);
        if s[i] == Code::Char('\\') {
            lemma_chain_escape(s, o, k, i + 1, b + 1);
            match sp_escape(s, o, k, i + 1, b + 1) {
                Some((end, evs2)) => {
                    assert(adjacent_ok(first, evs2[0]));
                    lemma_chain_concat(seq![first], evs2);
                    assert((seq![first] + evs2)[0] == first);
                    assert((seq![first] + evs2)[(seq![first] + evs2).len() - 1]
                        == evs2[evs2.len() - 1]);
                },
                None => {},
            }
        } else {
            lemma_chain_title(s, o, k, i + 1, b + 1);
            match sp_title(s, o, k, i + 1, b + 1) {
                Some((end, evs2)) => {
                    assert(adjacent_ok(first, evs2[0]));
                    lemma_chain_concat(seq![first], evs2);
                    assert((seq![first] + evs2)[0] == first);
                    assert((seq![first] + evs2)[(seq![first] + evs2).len() - 1]
                        == evs2[evs2.len() - 1]);
                },
                None => {},
            }
        }
    }
}

proof fn lemma_chain_begin(s: Seq<Code>, o: Options, k: Kind, i: int, b: int, c: bool)
    requires
        0 <= i,
        s.len() <= usize::MAX,
    ensures
        match sp_begin(s, o, k, i, b, c) {
            Some((end, evs)) => {
                &&& evs.len() >= 1
                &&& chain_ok(evs)
                &&& evs[0].index as int == i
                &&& evs[evs.len() - 1] == exit_event(o.title, end)
                &&& i < end <= s.len()
            },
            None => true,
        },
    decreases s.len() - i, 3int,
{
    if at_closer(s, k, i) {
        let evs = seq![
            enter_event(o.marker, i),
            exit_event(o.marker, i + 1),
            exit_event(o.title, i + 1),
        ];
        assert forall|j: int| 0 <= j < evs.len() - 1 implies #[trigger] adjacent_ok(
            evs[j],
            evs[j + 1],
        ) by {
            assert(adjacent_ok(evs[0], evs[1]));
            assert(adjacent_ok(evs[1], evs[2]));
        }
    } else {
        lemma_chain_at_break(s, o, k, i, b + 1, c);
        match sp_at_break(s, o, k, i, b + 1, c) {
            Some((end, evs1)) => {
                let pre = seq![enter_event(o.string, i)];
                assert(adjacent_ok(pre[0], evs1[0]));
                lemma_chain_concat(pre, evs1);
                assert((pre + evs1)[0] == pre[0]);
                assert((pre + evs1)[(pre + evs1).len() - 1] == evs1[evs1.len() - 1]);
            },
            None => {},
        }
    }
}

proof fn lemma_nest_title(s: Seq<Code>, o: Options, k: Kind, i: int, b: int)
    requires
        0 <= i,
    ensures
        match sp_title(s, o, k, i, b) {
            Some((end, evs)) => stack_after(evs, seq![o.title, o.string, Token::Data])
                == Some(Seq::<Token>::empty()),
            None => true,
        },
    decreases s.len() - i, 1int,
{
    let st: Seq<Token> = seq![o.title, o.string, Token::Data];
    if at_closer(s, k, i) || i >= s.len() || is_line_ending(s[i]) {
        lemma_nest_at_break(s, o, k, i, b + 1, true);
        match sp_at_break(s, o, k, i, b + 1, true) {
            Some((end, evs1)) => {
                let e = exit_event(Token::Data, i);
                lemma_stack_after_concat(seq![e], evs1, st);
                lemma_stack_after_one(e, st);
                assert(st[st.len() - 1] == Token::Data);
                assert(st.drop_last() =~= seq![o.title, o.string]);
            },
            None => {},
        }
    } else if s[i] == Code::Char('\\') {
        lemma_nest_escape(s, o, k, i + 1, b);
    } else {
        lemma_nest_title(s, o, k, i + 1, b);
    }
}

proof fn lemma_nest_escape(s: Seq<Code>, o: Options, k: Kind, i: int, b: int)
    requires
        0 <= i,
    ensures
        match sp_escape(s, o, k, i, b) {
            Some((end, evs)) => stack_after(evs, seq![o.title, o.string, Token::Data])
                == Some(Seq::<Token>::empty()),
            None => true,
        },
    decreases s.len() - i, 2int,
{
    if at_closer(s, k, i) {
        lemma_nest_title(s, o, k, i + 1, b);
    } else {
        lemma_nest_title(s, o, k, i, b);
    }
}

proof fn lemma_nest_at_break(s: Seq<Code>, o: Options, k: Kind, i: int, b: int, c: bool)
    requires
        0 <= i,
    ensures
        match sp_at_break(s, o, k, i, b, c) {
            Some((end, evs)) => stack_after(evs, seq![o.title, o.string])
                == Some(Seq::<Token>::empty()),
            None => true,
        },
    decreases s.len() - i, 0int,
{
    let st: Seq<Token> = seq![o.title, o.string];
    if at_closer(s, k, i) {
        let e0 = exit_event(o.string, i);
        let e1 = enter_event(o.marker, i);
        let e2 = exit_event(o.marker, i + 1);
        let e3 = exit_event(o.title, i + 1);
        assert(seq![e0] + seq![e1, e2, e3] =~= seq![e0, e1, e2, e3]);
        lemma_stack_after_concat(seq![e0], seq![e1, e2, e3], st);
        lemma_stack_after_one(e0, st);
        assert(st[st.len() - 1] == o.string);
        let st1: Seq<Token> = seq![o.title];
        assert(st.drop_last() =~= st1);
        assert(seq![e1] + seq![e2, e3] =~= seq![e1, e2, e3]);
        lemma_stack_after_concat(seq![e1], seq![e2, e3], st1);
        lemma_stack_after_one(e1, st1);
        let st2: Seq<Token> = seq![o.title, o.marker];
        assert(st1.push(o.marker) =~= st2);
        assert(seq![e2] + seq![e3] =~= seq![e2, e3]);
        lemma_stack_after_concat(seq![e2], seq![e3], st2);
        lemma_stack_after_one(e2, st2);
        assert(st2[st2.len() - 1] == o.marker);
        assert(st2.drop_last() =~= st1);
        lemma_stack_after_one(e3, st1);
        assert(st1[st1.len() - 1] == o.title);
        assert(st1.drop_last() =~= Seq::<Token>::empty());
    } else if i >= s.len() {
    } else if is_line_ending(s[i]) {
        let j = skip_space_or_tab(s, i + 1);
        if j >= s.len() || is_line_ending(s[j]) {
        } else {
            lemma_skip_space_or_tab_bounds(s, i + 1);
            let evs1 = eol_events(s, i, b, c);
            lemma_nest_at_break(s, o, k, j, b + evs1.len(), true);
            lemma_nest_eol_events(s, i, b, c, st);
            match sp_at_break(s, o, k, j, b + evs1.len(), true) {
                Some((end, evs2)) => {
                    lemma_stack_after_concat(evs1, evs2, st);
                },
                None => {},
            }
        }
    } else {
        let data_enter = enter_content_event(Token::Data, i, Some(ContentType::String));
        let first = if c {
            linked_event(data_enter, (b - 2) as usize)
        } else {
            data_enter
        };
        let st3: Seq<Token> = seq![o.title, o.string, Token::Data];
        assert(st.push(Token::Data) =~= st3);
        if s[i] == Code::Char('\\') {
            lemma_nest_escape(s, o, k, i + 1, b + 1);
            match sp_escape(s, o, k, i + 1, b + 1) {
                Some((end, evs2)) => {
                    lemma_stack_after_concat(seq![first], evs2, st);
                    lemma_stack_after_one(first, st);
                },
                None => {},
            }
        } else {
            lemma_nest_title(s, o, k, i + 1, b + 1);
            match sp_title(s, o, k, i + 1, b + 1) {
                Some((end, evs2)) => {
                    lemma_stack_after_concat(seq![first], evs2, st);
                    lemma_stack_after_one(first, st);
                },
                None => {},
            }
        }
    }
}

proof fn lemma_nest_eol_events(s: Seq<Code>, i: int, b: int, c: bool, st: Seq<Token>)
    ensures
        stack_after(eol_events(s, i, b, c), st) == Some(st),
{
    let j = skip_space_or_tab(s, i + 1);
    let le_enter = enter_content_event(Token::LineEnding, i, Some(ContentType::String));
    let le0 = if c {
        linked_event(le_enter, (b - 2) as usize)
    } else {
        le_enter
    };
    let le1 = exit_event(Token::LineEnding, i + 1);
    let stp = st.push(Token::LineEnding);
    assert(seq![le0] + seq![le1] =~= seq![le0, le1]);
    lemma_stack_after_concat(seq![le0], seq![le1], st);
    lemma_stack_after_one(le0, st);
    lemma_stack_after_one(le1, stp);
    assert(stp[stp.len() - 1] == Token::LineEnding);
    assert(stp.drop_last() =~= st);
    if j > i + 1 {
        let w0 = linked_event(
            enter_content_event(Token::SpaceOrTab, i + 1, Some(ContentType::String)),
            b as usize,
        );
        let w1 = exit_event(Token::SpaceOrTab, j);
        assert(eol_events(s, i, b, c) =~= seq![le0, le1] + seq![w0, w1]);
        lemma_stack_after_concat(seq![le0, le1], seq![w0, w1], st);
        let stw = st.push(Token::SpaceOrTab);
        assert(seq![w0] + seq![w1] =~= seq![w0, w1]);
        lemma_stack_after_concat(seq![w0], seq![w1], st);
        lemma_stack_after_one(w0, st);
        lemma_stack_after_one(w1, stw);
        assert(stw[stw.len() - 1] == Token::SpaceOrTab);
        assert(stw.drop_last() =~= st);
    } else {
        assert(eol_events(s, i, b, c) =~= seq![le0, le1]);
    }
}

proof fn lemma_nest_begin(s: Seq<Code>, o: Options, k: Kind, i: int, b: int, c: bool)
    requires
        0 <= i,
    ensures
        match sp_begin(s, o, k, i, b, c) {
            Some((end, evs)) => stack_after(evs, seq![o.title]) == Some(Seq::<Token>::empty()),
            None => true,
        },
    decreases s.len() - i, 3int,
{
    let st: Seq<Token> = seq![o.title];
    if at_closer(s, k, i) {
        let e0 = enter_event(o.marker, i);
        let e1 = exit_event(o.marker, i + 1);
        let e2 = exit_event(o.title, i + 1);
        assert(seq![e0] + seq![e1, e2] =~= seq![e0, e1, e2]);
        lemma_stack_after_concat(seq![e0], seq![e1, e2], st);
        lemma_stack_after_one(e0, st);
        let st1: Seq<Token> = seq![o.title, o.marker];
        assert(st.push(o.marker) =~= st1);
        assert(seq![e1] + seq![e2] =~= seq![e1, e2]);
        lemma_stack_after_concat(seq![e1], seq![e2], st1);
        lemma_stack_after_one(e1, st1);
        assert(st1[st1.len() - 1] == o.marker);
        assert(st1.drop_last() =~= st);
        lemma_stack_after_one(e2, st);
        assert(st[st.len() - 1] == o.title);
        assert(st.drop_last() =~= Seq::<Token>::empty());
    } else {
        lemma_nest_at_break(s, o, k, i, b + 1, c);
        match sp_at_break(s, o, k, i, b + 1, c) {
            Some((end, evs1)) => {
                let e = enter_event(o.string, i);
                lemma_stack_after_concat(seq![e], evs1, st);
                lemma_stack_after_one(e, st);
                assert(st.push(o.string) =~= seq![o.title, o.string]);
            },
            None => {},
        }
    }
}

/// Well-nestedness: on every successful run the event log is
/// stack-balanced — every span closes in the reverse order of opening,
/// and nothing stays open past the final title exit.
pub proof fn lemma_well_nested(s: Seq<Code>, o: Options, i: int, b: int)
    requires
        0 <= i,
    ensures
        match sp_start(s, o, i, b) {
            Some((end, evs)) => balanced(evs),
            None => true,
        },
{
    if 0 <= i < s.len() && is_opener_code(s[i]) {
        let k = kind_of_code(s[i]);
        lemma_nest_begin(s, o, k, i + 1, b + 3, false);
        match sp_begin(s, o, k, i + 1, b + 3, false) {
            Some((end, evs1)) => {
                let e0 = enter_event(o.title, i);
                let e1 = enter_event(o.marker, i);
                let e2 = exit_event(o.marker, i + 1);
                let st0 = Seq::<Token>::empty();
                assert(seq![e0, e1, e2] + evs1 =~= seq![e0] + (seq![e1] + (seq![e2] + evs1)));
                lemma_stack_after_concat(seq![e0], seq![e1] + (seq![e2] + evs1), st0);
                lemma_stack_after_one(e0, st0);
                let st1 = st0.push(o.title);
                lemma_stack_after_concat(seq![e1], seq![e2] + evs1, st1);
                lemma_stack_after_one(e1, st1);
                let st2 = st1.push(o.marker);
                lemma_stack_after_concat(seq![e2], evs1, st2);
                lemma_stack_after_one(e2, st2);
                assert(st2[st2.len() - 1] == o.marker);
                assert(st2.drop_last() =~= st1);
                assert(st1 =~= seq![o.title]);
            },
            None => {},
        }
    }
}

/// Round trip: on every successful run the event log spans the consumed
/// input exactly.  The log opens the title at the start position, closes
/// it at the end position, and every advance of position happens inside
/// one `Enter`/`Exit` pair, so the extents of the events, concatenated in
/// log order, reproduce the consumed input with no gaps and no overlaps.
pub proof fn lemma_round_trip(s: Seq<Code>, o: Options, i: int, b: int)
    requires
        0 <= i,
        s.len() <= usize::MAX,
    ensures
        match sp_start(s, o, i, b) {
            Some((end, evs)) => {
                &&& covers(evs, i, end)
                &&& evs[0] == enter_event(o.title, i)
                &&& evs[evs.len() - 1] == exit_event(o.title, end)
                &&& i < end <= s.len()
            },
            None => true,
        },
{
    if 0 <= i < s.len() && is_opener_code(s[i]) {
        let k = kind_of_code(s[i]);
        lemma_chain_begin(s, o, k, i + 1, b + 3, false);
        match sp_begin(s, o, k, i + 1, b + 3, false) {
            Some((end, evs1)) => {
                let pre = seq![
                    enter_event(o.title, i),
                    enter_event(o.marker, i),
                    exit_event(o.marker, i + 1),
                ];
                assert forall|j: int| 0 <= j < pre.len() - 1 implies #[trigger] adjacent_ok(
                    pre[j],
                    pre[j + 1],
                ) by {
                    assert(adjacent_ok(pre[0], pre[1]));
                    assert(adjacent_ok(pre[1], pre[2]));
                }
                assert(adjacent_ok(pre[2], evs1[0]));
                lemma_chain_concat(pre, evs1);
                assert((pre + evs1)[0] == pre[0]);
                assert((pre + evs1)[(pre + evs1).len() - 1] == evs1[evs1.len() - 1]);
            },
            None => {},
        }
    }
}

/// Symmetry of the markers: the kind of title — and with it the character
/// that closes it — is a pure function of the character that opened it,
/// and the character that closes one kind of title is never usable to
/// open a title of a different kind.
pub proof fn lemma_marker_symmetry()
    ensures
        forall|k: Kind| #[trigger] kind_of_char(opener_char(k)) == k,
        forall|k: Kind|
            is_opener_char(#[trigger] closer_char(k)) ==> kind_of_char(closer_char(k)) == k,
{
    assert forall|k: Kind| #[trigger] kind_of_char(opener_char(k)) == k by {
        match k {
            Kind::Paren => {},
            Kind::Double => {},
            Kind::Single => {},
        }
    }
    assert forall|k: Kind|
        is_opener_char(#[trigger] closer_char(k)) implies kind_of_char(closer_char(k)) == k by {
        match k {
            Kind::Paren => {},
            Kind::Double => {},
            Kind::Single => {},
        }
    }
}

/// Drives the whole construct from `start` to a terminal state, feeding
/// one unit to the pending continuation at a time, and unwinds everything
/// on failure: after `Nok` the log and the cursor are exactly as they
/// were, so a caller may attempt an alternative construct at the same
/// position.
#[verifier::rlimit(60)]
pub fn run(tokenizer: &mut Tokenizer, options: Options) -> (r: State)
    requires
        old(tokenizer).inv(),
    ensures
        final(tokenizer).inv(),
        final(tokenizer).input@ == old(tokenizer).input@,
        match r {
            State::Done => {
                &&& sp_start(
                    old(tokenizer).input@,
                    options,
                    old(tokenizer).index as int,
                    old(tokenizer).events@.len() as int,
                ) == Some(
                    (
                        final(tokenizer).index as int,
                        final(tokenizer).events@.skip(old(tokenizer).events@.len() as int),
                    ),
                )
                &&& final(tokenizer).events@.take(old(tokenizer).events@.len() as int)
                    == old(tokenizer).events@
                &&& old(tokenizer).index < final(tokenizer).index
                &&& covers(
                    final(tokenizer).events@.skip(old(tokenizer).events@.len() as int),
                    old(tokenizer).index as int,
                    final(tokenizer).index as int,
                )
                &&& balanced(final(tokenizer).events@.skip(old(tokenizer).events@.len() as int))
            },
            State::Nok => {
                &&& sp_start(
                    old(tokenizer).input@,
                    options,
                    old(tokenizer).index as int,
                    old(tokenizer).events@.len() as int,
                ) is None
                &&& final(tokenizer).index == old(tokenizer).index
                &&& final(tokenizer).events@ == old(tokenizer).events@
            },
            State::Next(..) => false,
        },
{
    let ghost s = old(tokenizer).input@;
    let ghost i0 = old(tokenizer).index as int;
    let ghost b0 = old(tokenizer).events@.len() as int;
    let ghost e0 = old(tokenizer).events@;
    let input_len = tokenizer.input.len();
    proof {
        assert(s.len() == input_len);
    }
    let cp = tokenizer.checkpoint();
    let mut st = start(tokenizer, options);
    loop
        invariant
            s == old(tokenizer).input@,
            i0 == old(tokenizer).index as int,
            b0 == old(tokenizer).events@.len() as int,
            e0 == old(tokenizer).events@,
            tokenizer.inv(),
            tokenizer.input@ == s,
            cp.index as int == i0,
            cp.events_len as int == b0,
            b0 == e0.len() as int,
            s.len() <= usize::MAX,
            i0 <= tokenizer.index as int,
            b0 <= tokenizer.events@.len() as int,
            tokenizer.events@.take(b0) == e0,
            match st {
                State::Done => {
                    &&& sp_start(s, options, i0, b0) == Some(
                        (tokenizer.index as int, tokenizer.events@.skip(b0)),
                    )
                    &&& i0 < tokenizer.index as int
                },
                State::Nok => sp_start(s, options, i0, b0) is None,
                State::Next(name, info) => {
                    &&& info.options == options
                    &&& tokenizer.events@.len() >= 1
                    &&& (info.connect ==> tokenizer.events@.len() >= 2)
                    &&& ((name == StateName::TitleText || name == StateName::Escape)
                        ==> info.connect)
                    &&& i0 < tokenizer.index as int
                    &&& sp_start(s, options, i0, b0) == opt_prepend(
                        tokenizer.events@.skip(b0),
                        sp_state(
                            name,
                            s,
                            options,
                            info.kind,
                            tokenizer.index as int,
                            tokenizer.events@.len() as int,
                            info.connect,
                        ),
                    )
                },
            },
        decreases s.len() - tokenizer.index as int
            + (match st {
                State::Next(..) => 1int,
                _ => 0int,
            }),
    {
        match st {
            State::Done => {
                proof {
                    lemma_round_trip(s, options, i0, b0);
                    lemma_well_nested(s, options, i0, b0);
                }
                return State::Done;
            },
            State::Nok => {
                tokenizer.restore(cp);
                return State::Nok;
            },
            State::Next(name, info) => {
                let ghost pre = tokenizer.events@;
                let ghost plen = tokenizer.events@.len() as int;
                let r2 = match name {
                    StateName::Begin => begin(tokenizer, info),
                    StateName::AtBreak => at_break(tokenizer, info),
                    StateName::TitleText => title(tokenizer, info),
                    StateName::Escape => escape(tokenizer, info),
                };
                proof {
                    let fev = tokenizer.events@;
                    assert(fev.take(b0) =~= pre.take(b0));
                    match r2 {
                        State::Done => {
                            assert(pre.skip(b0) + fev.skip(plen) =~= fev.skip(b0));
                        },
                        State::Nok => {},
                        State::Next(name2, info2) => {
                            let x = sp_state(
                                name2,
                                s,
                                options,
                                info2.kind,
                                tokenizer.index as int,
                                fev.len() as int,
                                info2.connect,
                            );
                            if let Some((e2, evs2)) = x {
                                assert(pre.skip(b0) + (fev.skip(plen) + evs2)
                                    =~= fev.skip(b0) + evs2);
                            }
                        },
                    }
                }
                st = r2;
            },
        }
    }
}

} // verus!

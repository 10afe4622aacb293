//! The tokenizing engine: an input stream of units, a cursor, and an
//! append-only event log, with the span primitives that constructs use.

use vstd::prelude::*;

verus! {

/// One atomic unit of input: a single character or an atomic carriage
/// return + line feed pair.  End of input is not a unit of its own: it is
/// reached when the cursor stands past the last unit, and continuations
/// observe it as the absence of a current unit.
#[derive(Clone, Copy, Debug, PartialEq, Eq)]
pub enum Code {
    Char(char),
    CarriageReturnLineFeed,
}

/// Semantic tag on a span.  Constructs are configured with the tags they
/// should use, so one construct can serve several grammatical contexts.
#[derive(Clone, Copy, Debug, PartialEq, Eq)]
pub enum Token {
    /// A run of ordinary content.
    Data,
    /// One line ending.
    LineEnding,
    /// A run of horizontal whitespace.
    SpaceOrTab,
    /// A whole title of a definition.
    DefinitionTitle,
    /// One of the two delimiters of a definition title.
    DefinitionTitleMarker,
    /// The text between the delimiters of a definition title.
    DefinitionTitleString,
    /// A whole title of a resource.
    ResourceTitle,
    /// One of the two delimiters of a resource title.
    ResourceTitleMarker,
    /// The text between the delimiters of a resource title.
    ResourceTitleString,
}

/// Whether an event opens a span or closes it.
#[derive(Clone, Copy, Debug, PartialEq, Eq)]
pub enum EventType {
    Enter,
    Exit,
}

/// Tag on a span whose content a later, separate pass must reparse (for
/// character escapes and references) before it is taken as final text.
#[derive(Clone, Copy, Debug, PartialEq, Eq)]
pub enum ContentType {
    String,
}

/// One marker in the event log: a span opening or closing at a position.
///
/// `index` counts input units: an `Enter`/`Exit` pair at indices `a` and
/// `b` covers the units `a..b`.  A span whose content belongs to a chain
/// that a later pass reparses as one logical string carries the content
/// type, and `previous` points at the `Enter` event of the span it
/// continues.
#[derive(Clone, Copy, Debug, PartialEq, Eq)]
pub struct Event {
    pub event_type: EventType,
    pub token: Token,
    pub index: usize,
    pub content_type: Option<ContentType>,
    pub previous: Option<usize>,
}

/// The event an `enter` call pushes.
pub open spec fn enter_event(token: Token, i: int) -> Event {
    Event {
        event_type: EventType::Enter,
        token,
        index: i as usize,
        content_type: None,
        previous: None,
    }
}

/// The event an `enter_with_content` call pushes.
pub open spec fn enter_content_event(token: Token, i: int, content_type: Option<ContentType>) -> Event {
    Event {
        event_type: EventType::Enter,
        token,
        index: i as usize,
        content_type,
        previous: None,
    }
}

/// The event an `exit` call pushes.
pub open spec fn exit_event(token: Token, i: int) -> Event {
    Event {
        event_type: EventType::Exit,
        token,
        index: i as usize,
        content_type: None,
        previous: None,
    }
}

/// Whether a unit is a line ending: the atomic pair, or a bare line feed
/// or carriage return.
pub open spec fn is_line_ending(code: Code) -> bool {
    ||| code == Code::CarriageReturnLineFeed
    ||| code == Code::Char('\n')
    ||| code == Code::Char('\r')
}

/// Whether a unit is horizontal whitespace.
pub open spec fn is_space_or_tab(code: Code) -> bool {
    code == Code::Char(' ') || code == Code::Char('\t')
}

/// Runtime test for `is_line_ending`.
pub fn code_is_line_ending(code: Code) -> (r: bool)
    ensures
        r == is_line_ending(code),
{
    match code {
        Code::CarriageReturnLineFeed => true,
        Code::Char(c) => c == '\n' || c == '\r',
    }
}

/// Runtime test for `is_space_or_tab`.
pub fn code_is_space_or_tab(code: Code) -> (r: bool)
    ensures
        r == is_space_or_tab(code),
{
    match code {
        Code::CarriageReturnLineFeed => false,
        Code::Char(c) => c == ' ' || c == '\t',
    }
}

/// A snapshot of the log length and cursor, taken before a nested
/// automaton runs, so that its effects can be discarded atomically.
#[derive(Clone, Copy, Debug, PartialEq, Eq)]
pub struct Checkpoint {
    pub index: usize,
    pub events_len: usize,
}

/// The engine: an already materialized stream of units, the cursor (how
/// many units have been consumed), and the event log.
pub struct Tokenizer {
    pub input: Vec<Code>,
    pub index: usize,
    pub events: Vec<Event>,
}

impl Tokenizer {
    /// The cursor never passes the end of the stream.
    pub open spec fn inv(self) -> bool {
        self.index <= self.input@.len()
    }

    /// The current unit: what a continuation may inspect without
    /// consuming, or `None` at end of input.
    pub open spec fn spec_current(self) -> Option<Code> {
        if self.index < self.input@.len() {
            Some(self.input@[self.index as int])
        } else {
            None
        }
    }

    pub fn new(input: Vec<Code>) -> (t: Tokenizer)
        ensures
            t.inv(),
            t.input@ == input@,
            t.index == 0,
            t.events@ == Seq::<Event>::empty(),
    {
        Tokenizer { input, index: 0, events: Vec::new() }
    }

    /// Zero-width lookahead at the cursor.
    pub fn current(&self) -> (r: Option<Code>)
        requires
            self.inv(),
        ensures
            r == self.spec_current(),
    {
        if self.index < self.input.len() {
            Some(self.input[self.index])
        } else {
            None
        }
    }

    /// Advances the cursor past exactly one unit.
    pub fn consume(&mut self)
        requires
            old(self).inv(),
            old(self).index < old(self).input@.len(),
        ensures
            final(self).inv(),
            final(self).input@ == old(self).input@,
            final(self).events@ == old(self).events@,
            final(self).index == old(self).index + 1,
    {
        let len = self.input.len();
        assert(self.index < len);
        self.index = self.index + 1;
    }

    /// Opens a span at the cursor.
    pub fn enter(&mut self, token: Token)
        requires
            old(self).inv(),
        ensures
            final(self).inv(),
            final(self).input@ == old(self).input@,
            final(self).index == old(self).index,
            final(self).events@ == old(self).events@.push(enter_event(token, old(self).index as int)),
    {
        let e = Event {
            event_type: EventType::Enter,
            token,
            index: self.index,
            content_type: None,
            previous: None,
        };
        self.events.push(e);
    }

    /// Opens a span at the cursor, tagged as content that a later pass
    /// must reparse.
    pub fn enter_with_content(&mut self, token: Token, content_type: Option<ContentType>)
        requires
            old(self).inv(),
        ensures
            final(self).inv(),
            final(self).input@ == old(self).input@,
            final(self).index == old(self).index,
            final(self).events@ == old(self).events@.push(
                enter_content_event(token, old(self).index as int, content_type),
            ),
    {
        let e = Event {
            event_type: EventType::Enter,
            token,
            index: self.index,
            content_type,
            previous: None,
        };
        self.events.push(e);
    }

    /// Closes a span at the cursor.
    pub fn exit(&mut self, token: Token)
        requires
            old(self).inv(),
        ensures
            final(self).inv(),
            final(self).input@ == old(self).input@,
            final(self).index == old(self).index,
            final(self).events@ == old(self).events@.push(exit_event(token, old(self).index as int)),
    {
        let e = Event {
            event_type: EventType::Exit,
            token,
            index: self.index,
            content_type: None,
            previous: None,
        };
        self.events.push(e);
    }

    /// Snapshots the log length and cursor before a nested automaton runs.
    pub fn checkpoint(&self) -> (c: Checkpoint)
        ensures
            c.index == self.index,
            c.events_len == self.events@.len(),
    {
        Checkpoint { index: self.index, events_len: self.events.len() }
    }

    /// Discards everything done since a snapshot: the log is truncated and
    /// the cursor moved back, so a failed nested automaton leaves no trace.
    pub fn restore(&mut self, c: Checkpoint)
        requires
            old(self).inv(),
            c.index <= old(self).index,
            c.events_len <= old(self).events@.len(),
        ensures
            final(self).inv(),
            final(self).input@ == old(self).input@,
            final(self).index == c.index,
            final(self).events@ == old(self).events@.take(c.events_len as int),
    {
        self.index = c.index;
        self.events.truncate(c.events_len);
    }
}

} // verus!

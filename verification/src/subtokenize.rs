//! The linker: chains content spans that belong to one logical string, so
//! that a later pass can reparse them together while every position still
//! maps back to the source.

use vstd::prelude::*;

use crate::tokenizer::Event;

verus! {

/// `e`, marked as continuing the span whose `Enter` event stands at `p`.
pub open spec fn linked_event(e: Event, p: usize) -> Event {
    Event { previous: Some(p), ..e }
}

/// Marks the most recently opened span, whose `Enter` event stands last in
/// the log at `index`, as continuing the chain of the span entered two
/// events earlier (its `Exit` event stands between the two).
pub fn link(events: &mut Vec<Event>, index: usize)
    requires
        index + 1 == old(events)@.len(),
        2 <= index,
    ensures
        final(events)@ == old(events)@.update(
            index as int,
            linked_event(old(events)@[index as int], (index - 2) as usize),
        ),
{
    let mut e = events[index];
    e.previous = Some(index - 2);
    events[index] = e;
}

} // verus!

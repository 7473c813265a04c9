//! The selection controller: the query being typed, the listed entries and
//! the highlighted row, driven one input event at a time.

use vstd::prelude::*;
use crate::document::Document;
use crate::matching::{items_view, results_view, search_spec, MatchResult};

verus! {

/// Relies on `String::push`: the character is added at the end.
#[verifier::external_body]
fn push_char(s: &mut String, c: char)
    ensures
        final(s)@ == old(s)@.push(c),
{
    s.push(c)
}

/// Relies on `String::pop`: the last character is taken off, if there is one.
#[verifier::external_body]
fn pop_char(s: &mut String) -> (r: Option<char>)
    ensures
        old(s)@.len() == 0 ==> r is None && final(s)@ == old(s)@,
        old(s)@.len() > 0 ==> r == Some(old(s)@.last()) && final(s)@ == old(s)@.drop_last(),
{
    s.pop()
}

/// One input event.
pub enum Event {
    CharTyped(char),
    Backspace,
    MoveUp,
    MoveDown,
    Confirm,
    Cancel,
}

/// What an event leaves the session in: still editing, or ended with a
/// chosen key, or ended with nothing chosen.
pub enum Outcome {
    Editing,
    Confirmed(String),
    Cancelled,
}

/// The highlighted row once the list holds `len` entries: kept where it
/// still fits, else the last row, and 0 for an empty list.
pub open spec fn clamp_index(index: int, len: int) -> int {
    if len <= 0 {
        0
    } else if index < len {
        index
    } else {
        len - 1
    }
}

pub struct App {
    pub should_run_script: bool,
    pub index: usize,
    pub input: String,
    pub messages: Vec<MatchResult>,
    pub doc: Document,
}

impl App {
    /// The listed entries are those that the current query selects, and the
    /// highlighted row is a row of a non-empty list, and 0 otherwise.
    pub open spec fn wf(&self) -> bool {
        &&& results_view(self.messages@) == search_spec(items_view(self.doc.scripts@), self.input@)
        &&& if self.messages@.len() > 0 {
            self.index < self.messages@.len()
        } else {
            self.index == 0
        }
    }

    /// The listed entries are those that the current query selects, the
    /// highlighted row is `old_index` clamped to them, and the rest is as in
    /// `prev`.
    pub open spec fn refreshed_from(&self, prev: App) -> bool {
        &&& results_view(self.messages@) == search_spec(items_view(self.doc.scripts@), self.input@)
        &&& self.index == clamp_index(prev.index as int, self.messages@.len() as int)
        &&& self.should_run_script == prev.should_run_script
        &&& self.doc == prev.doc
    }

    /// A session that lists `messages`, with an empty query and the first row
    /// highlighted.
    pub fn new(messages: Vec<MatchResult>, doc: Document) -> (r: Self)
        requires
            results_view(messages@) == search_spec(items_view(doc.scripts@), Seq::empty()),
        ensures
            r.wf(),
            r.index == 0,
            r.input@.len() == 0,
            r.messages == messages,
            r.doc == doc,
            !r.should_run_script,
    {
        App { should_run_script: false, index: 0, input: String::new(), messages, doc }
    }

    /// A session over `doc` that lists what the empty query selects.
    pub fn start(doc: Document) -> (r: Self)
        ensures
            r.wf(),
            r.index == 0,
            r.input@.len() == 0,
            results_view(r.messages@) == search_spec(items_view(doc.scripts@), Seq::empty()),
            r.doc == doc,
            !r.should_run_script,
    {
        let messages = doc.search("");
        proof {
            reveal_strlit("");
        }
        App::new(messages, doc)
    }

    /// Lists the entries that the current query selects and clamps the
    /// highlighted row to them.
    pub fn run_search(&mut self)
        ensures
            final(self).wf(),
            final(self).refreshed_from(*old(self)),
            final(self).input == old(self).input,
    {
        self.messages = self.doc.search(self.input.as_str());
        proof {
            assert(self.messages@.len() == results_view(self.messages@).len());
        }
        let len = self.messages.len();
        if len == 0 {
            self.index = 0;
        } else if self.index >= len {
            self.index = len - 1;
        }
    }

    /// The key to run: that of the highlighted entry, once the session has
    /// been confirmed on a non-empty list.
    pub fn run_script(&self) -> (r: Option<String>)
        ensures
            r is Some <==> self.should_run_script && self.index < self.messages@.len(),
            r is Some ==> r->0@ == self.messages@[self.index as int].key@,
    {
        if !self.should_run_script {
            return None;
        }
        if self.index < self.messages.len() {
            Some(self.messages[self.index].key.clone())
        } else {
            None
        }
    }

    /// Moves the highlighted row one up or down, within the list.
    fn update_index(&mut self, up: bool)
        requires
            old(self).wf(),
        ensures
            final(self).wf(),
            final(self).messages == old(self).messages,
            final(self).input == old(self).input,
            final(self).doc == old(self).doc,
            final(self).should_run_script == old(self).should_run_script,
            up ==> final(self).index == if old(self).index == 0 {
                0
            } else {
                old(self).index - 1
            },
            !up ==> final(self).index == if old(self).index + 1 < old(self).messages@.len() {
                old(self).index + 1
            } else {
                old(self).index as int
            },
    {
        if up {
            if self.index > 0 {
                self.index -= 1;
            }
        } else if self.messages.len() > 0 && self.index < self.messages.len() - 1 {
            self.index += 1;
        }
    }

    /// Applies one input event. Editing the query lists its entries anew and
    /// clamps the highlighted row; moving stays within the list; confirming
    /// ends the session with the highlighted key, and does nothing on an
    /// empty list; cancelling ends it with nothing chosen.
    pub fn handle_event(&mut self, ev: Event) -> (r: Outcome)
        requires
            old(self).wf(),
        ensures
            final(self).wf(),
            final(self).doc == old(self).doc,
            match ev {
                Event::CharTyped(c) => {
                    &&& final(self).input@ == old(self).input@.push(c)
                    &&& final(self).refreshed_from(*old(self))
                    &&& r is Editing
                },
                Event::Backspace => {
                    &&& final(self).input@ == if old(self).input@.len() == 0 {
                        old(self).input@
                    } else {
                        old(self).input@.drop_last()
                    }
                    &&& final(self).refreshed_from(*old(self))
                    &&& old(self).input@.len() == 0 ==> {
                        &&& final(self).index == old(self).index
                        &&& results_view(final(self).messages@) == results_view(old(self).messages@)
                    }
                    &&& r is Editing
                },
                Event::MoveUp => {
                    &&& final(self).index == if old(self).index == 0 {
                        0
                    } else {
                        old(self).index - 1
                    }
                    &&& final(self).messages == old(self).messages
                    &&& final(self).input == old(self).input
                    &&& final(self).should_run_script == old(self).should_run_script
                    &&& r is Editing
                },
                Event::MoveDown => {
                    &&& final(self).index == if old(self).index + 1 < old(self).messages@.len() {
                        old(self).index + 1
                    } else {
                        old(self).index as int
                    }
                    &&& final(self).messages == old(self).messages
                    &&& final(self).input == old(self).input
                    &&& final(self).should_run_script == old(self).should_run_script
                    &&& r is Editing
                },
                Event::Confirm => if old(self).messages@.len() > 0 {
                    &&& r is Confirmed
                    &&& r->Confirmed_0@ == old(self).messages@[old(self).index as int].key@
                    &&& final(self).should_run_script
                    &&& final(self).index == old(self).index
                    &&& final(self).messages == old(self).messages
                    &&& final(self).input == old(self).input
                } else {
                    &&& r is Editing
                    &&& *final(self) == *old(self)
                },
                Event::Cancel => {
                    &&& r is Cancelled
                    &&& *final(self) == *old(self)
                },
            },
    {
        match ev {
            Event::CharTyped(c) => {
                push_char(&mut self.input, c);
                self.run_search();
                Outcome::Editing
            },
            Event::Backspace => {
                let ghost before = *self;
                let _ = pop_char(&mut self.input);
                self.run_search();
                proof {
                    assert(results_view(self.messages@).len() == self.messages@.len());
                    assert(results_view(before.messages@).len() == before.messages@.len());
                }
                Outcome::Editing
            },
            Event::MoveUp => {
                self.update_index(true);
                Outcome::Editing
            },
            Event::MoveDown => {
                self.update_index(false);
                Outcome::Editing
            },
            Event::Confirm => {
                if self.messages.len() == 0 {
                    Outcome::Editing
                } else {
                    self.should_run_script = true;
                    Outcome::Confirmed(self.messages[self.index].key.clone())
                }
            },
            Event::Cancel => Outcome::Cancelled,
        }
    }
}

} // verus!

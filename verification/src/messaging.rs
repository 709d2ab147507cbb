//! The text messaging client: a publisher sends every line it reads as a group
//! of its own, and a subscriber prints each following frame of a group after
//! the group's first frame.

use vstd::prelude::*;
use vstd::string::StringExecFns;
use vstd::utf8::{decode_utf8, valid_utf8};

verus! {

/// What the publisher does after reading input.
pub enum PublishAction {
    /// Send `text` as the single frame of a new group numbered `group`.
    Send { group: u64, text: String },
    /// The input ended: stop publishing.
    Stop,
}

/// The numbering of the groups that the publisher creates: the first group
/// gets the number it was started with (the minute of the hour it started
/// at), and every later one the next number.
pub struct GroupSequence {
    sequence: u32,
}

impl GroupSequence {
    /// The number that the next group gets.
    pub closed spec fn next(&self) -> u32 {
        self.sequence
    }

    /// Numbering that starts at `start`.
    pub fn new(start: u32) -> (s: Self)
        ensures
            s.next() == start,
    {
        GroupSequence { sequence: start }
    }

    /// The number that the next group gets.
    pub fn peek(&self) -> (n: u32)
        ensures
            n == self.next(),
    {
        self.sequence
    }

    /// A line was read (`Some`) or the input ended (`None`). A line is sent as
    /// a new group with the next number, which then counts up by one; the end
    /// of input stops the publisher. The number cannot count past `u32::MAX`,
    /// which `requires` leaves out.
    pub fn on_line(&mut self, line: Option<String>) -> (action: PublishAction)
        requires
            line is Some ==> old(self).next() < u32::MAX,
        ensures
            match line {
                Some(l) => action matches PublishAction::Send { group, text } && group == old(
                    self,
                ).next() && text@ == l@ && final(self).next() == old(self).next() + 1,
                None => action is Stop && final(self).next() == old(self).next(),
            },
    {
        match line {
            Some(text) => {
                let group = self.sequence as u64;
                self.sequence = self.sequence + 1;
                PublishAction::Send { group, text }
            },
            None => PublishAction::Stop,
        }
    }
}

/// The text that `String::from_utf8_lossy` makes of `bytes`.
pub uninterp spec fn lossy_text(bytes: Seq<u8>) -> Seq<char>;

/// `String::from_utf8_lossy`, made an owned `String`: the text of `bytes`,
/// with each invalid sequence replaced. Valid UTF-8 comes through unchanged.
#[verifier::external_body]
fn utf8_lossy(bytes: &[u8]) -> (text: String)
    ensures
        text@ == lossy_text(bytes@),
        valid_utf8(bytes@) ==> text@ == decode_utf8(bytes@),
{
    String::from_utf8_lossy(bytes).into_owned()
}

/// Why printing a group failed.
#[derive(Clone, Copy, Debug, PartialEq, Eq)]
pub enum PrintError {
    /// A group ended before its first frame.
    EmptyGroup,
}

/// What the subscriber prints of the group it is reading: nothing for the
/// first frame, which it keeps as the group's base, and then, for each later
/// frame, the base followed by that frame.
pub struct GroupPrinter {
    base: Option<String>,
}

impl GroupPrinter {
    /// The text of the current group's first frame, once it arrived.
    pub closed spec fn base(&self) -> Option<Seq<char>> {
        match self.base {
            Some(b) => Some(b@),
            None => None,
        }
    }

    /// A printer before any group.
    pub fn new() -> (p: Self)
        ensures
            p.base() is None,
    {
        GroupPrinter { base: None }
    }

    /// A new group started: it has no base yet.
    pub fn start_group(&mut self)
        ensures
            final(self).base() is None,
    {
        self.base = None;
    }

    /// A frame of the current group arrived, as raw bytes: its text is what
    /// `String::from_utf8_lossy` makes of them (see [`Self::on_text`]).
    pub fn on_frame(&mut self, frame: &[u8]) -> (line: Option<String>)
        ensures
            match old(self).base() {
                None => line is None && final(self).base() == Some(lossy_text(frame@)),
                Some(b) => final(self).base() == old(self).base() && (line matches Some(l)
                    && l@ == b + lossy_text(frame@)),
            },
            valid_utf8(frame@) ==> match old(self).base() {
                None => final(self).base() == Some(decode_utf8(frame@)),
                Some(b) => line matches Some(l) && l@ == b + decode_utf8(frame@),
            },
    {
        let text = utf8_lossy(frame);
        self.on_text(text)
    }

    /// A frame of the current group arrived, as text. The first becomes the
    /// base and prints nothing; a later one prints the base followed by it.
    pub fn on_text(&mut self, text: String) -> (line: Option<String>)
        ensures
            match old(self).base() {
                None => line is None && final(self).base() == Some(text@),
                Some(b) => final(self).base() == old(self).base() && (line matches Some(l)
                    && l@ == b + text@),
            },
    {
        match &self.base {
            None => {
                self.base = Some(text);
                None
            },
            Some(base) => {
                let line = base.clone().concat(text.as_str());
                Some(line)
            },
        }
    }

    /// The current group ended: that is an error when it had no frame.
    pub fn end_group(&self) -> (res: Result<(), PrintError>)
        ensures
            self.base() is None ==> res == Err::<(), PrintError>(PrintError::EmptyGroup),
            self.base() is Some ==> res is Ok,
    {
        match &self.base {
            None => Err(PrintError::EmptyGroup),
            Some(_) => Ok(()),
        }
    }
}

} // verus!

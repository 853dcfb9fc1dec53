//! Which test's trace is shown while tests run.

use vstd::prelude::*;

use crate::text::{chars_of, extend_str, str_equal, string_of};

verus! {

/// Tracks live xtrace streaming state: which test holds the output lock and how
/// far its xtrace.log was shown.
#[derive(Debug)]
pub struct XtraceStreamer {
    /// Name of the test currently holding the xtrace output lock.
    pub holder: Option<String>,
    /// How many bytes have been printed so far.
    pub offset: u64,
}

/// The line above a test's trace.
pub open spec fn banner_text(name: Seq<char>) -> Seq<char> {
    "\x1b[2m--- xtrace: "@ + name + " ---\x1b[0m"@
}

/// The line above a test's trace.
pub fn banner(name: &str) -> (r: String)
    ensures
        r@ == banner_text(name@),
{
    let mut v = chars_of("\x1b[2m--- xtrace: ");
    extend_str(&mut v, name);
    extend_str(&mut v, " ---\x1b[0m");
    string_of(v.as_slice())
}

/// Which test holds the lock, and how far its log was shown.
pub struct StreamView {
    pub holder: Option<Seq<char>>,
    pub offset: int,
}

impl View for XtraceStreamer {
    type V = StreamView;

    open spec fn view(&self) -> StreamView {
        StreamView {
            holder: match self.holder {
                Some(h) => Some(h@),
                None => None,
            },
            offset: self.offset as int,
        }
    }
}

/// After a test has asked for the lock.
pub open spec fn acquired(s: StreamView, name: Seq<char>, opened: bool) -> StreamView {
    if s.holder is None && opened {
        StreamView { holder: Some(name), offset: 0 }
    } else {
        s
    }
}

/// After some bytes were read.
pub open spec fn flushed(s: StreamView, len: int) -> StreamView {
    if s.holder is Some && len > 0 {
        StreamView { holder: s.holder, offset: s.offset + len }
    } else {
        s
    }
}

/// After the lock was released.
pub open spec fn released(s: StreamView) -> StreamView {
    StreamView { holder: None, offset: 0 }
}

impl XtraceStreamer {
    /// The test of this name holds the lock.
    pub open spec fn held_by(self, name: Seq<char>) -> bool {
        self.holder matches Some(h) && h@ == name
    }

    pub fn new() -> (r: Self)
        ensures
            r.holder is None,
            r.offset == 0,
    {
        Self { holder: None, offset: 0 }
    }

    /// Acquire the lock for a test if no one currently holds it and the test's log
    /// could be opened. Gives the line to print.
    pub fn try_acquire(&mut self, name: &str, opened: bool) -> (r: Option<String>)
        ensures
            r is Some <==> old(self).holder is None && opened,
            r matches Some(line) ==> line@ == banner_text(name@) && final(self).held_by(name@)
                && final(self).offset == 0,
            r is None ==> *final(self) == *old(self),
            final(self)@ == acquired(old(self)@, name@, opened),
    {
        if self.holder.is_some() || !opened {
            return None;
        }
        self.holder = Some(name.to_owned());
        self.offset = 0;
        Some(banner(name))
    }

    /// Whether the holder's log has data that was not shown; `len` is the size of the
    /// log where it is known.
    pub fn has_new(&self, len: Option<u64>) -> (r: bool)
        ensures
            r == (self.holder is Some && (len matches Some(n) && n > self.offset)),
    {
        match len {
            Some(n) => self.holder.is_some() && n > self.offset,
            None => false,
        }
    }

    /// Takes note of `len` bytes that were read from the place up to which the log was
    /// shown. Says whether there is anything to print.
    pub fn flush_new(&mut self, len: u64) -> (r: bool)
        requires
            old(self).offset + len <= u64::MAX,
        ensures
            r == (old(self).holder is Some && len > 0),
            final(self).holder == old(self).holder,
            final(self).offset == (if r {
                (old(self).offset + len) as u64
            } else {
                old(self).offset
            }),
            final(self)@ == flushed(old(self)@, len as int),
    {
        if self.holder.is_some() && len > 0 {
            self.offset = self.offset + len;
            true
        } else {
            false
        }
    }

    /// Release the lock.
    pub fn release(&mut self)
        ensures
            final(self).holder is None,
            final(self).offset == 0,
            final(self)@ == released(old(self)@),
    {
        self.holder = None;
        self.offset = 0;
    }

    /// Check if the named test currently holds the lock.
    pub fn is_holder(&self, name: &str) -> (r: bool)
        ensures
            r == self.held_by(name@),
    {
        match &self.holder {
            Some(h) => str_equal(h.as_str(), name),
            None => false,
        }
    }

    /// The line above the log of a test that was never shown (e.g. it finished before
    /// its log could be opened); `len` is the size of the log where it could be read.
    pub fn dump_missed(&self, name: &str, len: Option<u64>) -> (r: Option<String>)
        ensures
            r is Some <==> !self.held_by(name@) && (len matches Some(n) && n > 0),
            r matches Some(line) ==> line@ == banner_text(name@),
    {
        if self.is_holder(name) {
            return None;
        }
        match len {
            Some(n) => if n > 0 {
                Some(banner(name))
            } else {
                None
            },
            None => None,
        }
    }
}

/// The lock is given to a test only while no other holds it, and only where the log of the test
/// could be opened.
pub proof fn lemma_lock_is_not_taken_away(s: StreamView, name: Seq<char>, opened: bool)
    ensures
        s.holder is Some ==> acquired(s, name, opened) == s,
        !opened ==> acquired(s, name, opened) == s,
        s.holder is None && opened ==> acquired(s, name, opened).holder == Some(name),
{
}

/// The bytes that were shown of a log add up from its beginning, and what follows a release
/// begins anew.
pub proof fn lemma_bytes_are_shown_once(s: StreamView, name: Seq<char>, a: int, b: int)
    requires
        s.holder is Some,
        a >= 0,
        b >= 0,
    ensures
        flushed(flushed(s, a), b) == flushed(s, a + b),
        flushed(s, a).offset == s.offset + a,
        flushed(s, a).holder == s.holder,
        acquired(released(s), name, true) == (StreamView { holder: Some(name), offset: 0 }),
{
}

/// The log of a test is shown while it runs or after it has ended, and not both: that of the test
/// that holds the lock is never shown again, that of another is where there is anything in it.
pub proof fn lemma_logs_are_shown_once(s: &XtraceStreamer, name: &str, len: Option<u64>, holds: bool, line: Option<String>)
    requires
        call_ensures(XtraceStreamer::is_holder, (s, name), holds),
        call_ensures(XtraceStreamer::dump_missed, (s, name, len), line),
    ensures
        holds <==> s@.holder == Some(name@),
        holds ==> line is None,
        !holds && len is Some && len->0 > 0 ==> line is Some,
{
}

} // verus!

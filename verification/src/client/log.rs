//! The log and the counters that an embedding application reads.

use std::collections::VecDeque;

use vstd::prelude::*;

use crate::json::{json_quoted, quoted};
use crate::text::{
    chars_of, decimal, join, join_strings, put_decimal, put_str, replace_all, replaced, string_of, string_views, trim, trimmed,
};

verus! {

/// The most lines that are kept.
pub const MAX_LOG_LINES: usize = 1000;

/// The lines of the log that were not read yet, oldest first.
pub struct LogBuffer {
    lines: VecDeque<String>,
}

impl View for LogBuffer {
    type V = Seq<String>;

    closed spec fn view(&self) -> Seq<String> {
        self.lines@
    }
}

/// The lines with one more; the oldest leaves where there are too many.
pub open spec fn with_line(lines: Seq<String>, line: String) -> Seq<String> {
    if lines.len() >= MAX_LOG_LINES {
        lines.drop_first().push(line)
    } else {
        lines.push(line)
    }
}

impl LogBuffer {
    pub fn new() -> (r: Self)
        ensures
            r@ == Seq::<String>::empty(),
    {
        LogBuffer { lines: VecDeque::new() }
    }

    /// Adds a line.
    pub fn add_log(&mut self, text: String)
        ensures
            final(self)@ == with_line(old(self)@, text),
    {
        if self.lines.len() >= MAX_LOG_LINES {
            let _ = self.lines.pop_front();
        }
        self.lines.push_back(text);
        assert(self@ =~= with_line(old(self)@, text));
    }

    /// Adds what a logger wrote, without white space around it; nothing where nothing is
    /// left.
    pub fn write(&mut self, text: &str)
        ensures
            if trim(text@).len() == 0 {
                final(self)@ == old(self)@
            } else {
                exists|s: String| s@ == trim(text@) && final(self)@ == #[trigger] with_line(old(self)@, s)
            },
    {
        let v = chars_of(text);
        let t = trimmed(&v);
        if t.len() > 0 {
            let s = string_of(t);
            self.add_log(s);
        }
    }

    /// Takes every line out.
    pub fn drain(&mut self) -> (r: Vec<String>)
        ensures
            r@ == old(self)@,
            final(self)@ == Seq::<String>::empty(),
    {
        let mut out: Vec<String> = Vec::new();
        let ghost all = self@;
        while self.lines.len() > 0
            invariant
                out@ + self.lines@ == all,
            decreases self.lines@.len(),
        {
            let ghost before = self.lines@;
            if let Some(s) = self.lines.pop_front() {
                let ghost had = out@;
                out.push(s);
                assert(out@ + self.lines@ =~= had + before);
            }
        }
        assert(out@ + self.lines@ =~= out@);
        assert(self@ =~= Seq::<String>::empty());
        out
    }
}

/// The log stays within its size, and the newest line is always there.
pub proof fn the_log_keeps_the_newest_lines(lines: Seq<String>, line: String)
    requires
        lines.len() <= MAX_LOG_LINES,
    ensures
        with_line(lines, line).len() <= MAX_LOG_LINES,
        with_line(lines, line).last() == line,
        forall|i: int|
            1 <= i < lines.len() ==> with_line(lines, line).contains(#[trigger] lines[i]),
{
    let w = with_line(lines, line);
    assert forall|i: int| 1 <= i < lines.len() implies w.contains(#[trigger] lines[i]) by {
        if lines.len() >= MAX_LOG_LINES {
            assert(w[i - 1] == lines[i]);
        } else {
            assert(w[i] == lines[i]);
        }
    }
}

/// The counters of a tunnel.
#[derive(Debug, Clone, Copy, PartialEq, Eq, Structural)]
pub struct Metrics {
    pub bytes_sent: u64,
    pub bytes_recv: u64,
    pub connection_state: u8,
    pub rtt_ms: u32,
}

pub open spec fn metrics_text(m: Metrics) -> Seq<char> {
    "{\"bytes_sent\": "@ + decimal(m.bytes_sent as nat) + ", \"bytes_recv\": "@ + decimal(m.bytes_recv as nat)
        + ", \"connection_state\": "@ + decimal(m.connection_state as nat) + ", \"rtt_ms\": "@ + decimal(m.rtt_ms as nat) + "}"@
}

/// The counters as JSON; all zero where there is no tunnel.
pub fn metrics_json(metrics: Option<Metrics>) -> (r: String)
    ensures
        r@ == metrics_text(
            match metrics {
                Some(m) => m,
                None => Metrics { bytes_sent: 0, bytes_recv: 0, connection_state: 0, rtt_ms: 0 },
            },
        ),
{
    let m = match metrics {
        Some(m) => m,
        None => Metrics { bytes_sent: 0, bytes_recv: 0, connection_state: 0, rtt_ms: 0 },
    };
    let mut v: Vec<char> = Vec::new();
    put_str(&mut v, "{\"bytes_sent\": ");
    put_decimal(&mut v, m.bytes_sent);
    put_str(&mut v, ", \"bytes_recv\": ");
    put_decimal(&mut v, m.bytes_recv);
    put_str(&mut v, ", \"connection_state\": ");
    put_decimal(&mut v, m.connection_state as u64);
    put_str(&mut v, ", \"rtt_ms\": ");
    put_decimal(&mut v, m.rtt_ms as u64);
    put_str(&mut v, "}");
    assert(v@ =~= metrics_text(m));
    string_of(&v)
}

pub open spec fn all_quoted(lines: Seq<Seq<char>>) -> Seq<Seq<char>> {
    Seq::new(lines.len(), |i: int| json_quoted(lines[i]))
}

/// A text without the characters that end one for the embedding application.
pub open spec fn without_nul(s: Seq<char>) -> Seq<char> {
    replace_all(s, "\0"@, Seq::empty())
}

fn nul_removed(s: &[char]) -> (r: String)
    ensures
        r@ == without_nul(s@),
{
    proof {
        reveal_strlit("\0");
    }
    let nul = chars_of("\0");
    let nothing: Vec<char> = Vec::new();
    assert(nothing@ =~= Seq::<char>::empty());
    string_of(&replaced(s, &nul, &nothing))
}

/// Lines of the log as JSON.
pub fn logs_json(lines: &Vec<String>) -> (r: String)
    ensures
        r@ == without_nul("["@ + join(all_quoted(string_views(lines@)), ","@) + "]"@),
{
    let mut all: Vec<String> = Vec::new();
    let mut i: usize = 0;
    while i < lines.len()
        invariant
            i <= lines@.len(),
            all@.len() == i,
            forall|k: int| 0 <= k < i ==> (#[trigger] all@[k])@ == json_quoted(lines@[k]@),
        decreases lines@.len() - i,
    {
        all.push(quoted(&lines[i]));
        i += 1;
    }
    assert(string_views(all@) =~= all_quoted(string_views(lines@)));
    let mut v: Vec<char> = Vec::new();
    put_str(&mut v, "[");
    put_str(&mut v, &join_strings(&all, ","));
    put_str(&mut v, "]");
    nul_removed(&v)
}

/// An error as JSON.
pub fn error_json(message: &str) -> (r: String)
    ensures
        r@ == without_nul("{\"error\":"@ + json_quoted(message@) + "}"@),
{
    let mut v: Vec<char> = Vec::new();
    put_str(&mut v, "{\"error\":");
    put_str(&mut v, &quoted(message));
    put_str(&mut v, "}");
    nul_removed(&v)
}

/// What a request to start the client finds.
#[derive(Debug, Clone, Copy, PartialEq, Eq, Structural)]
pub enum StartEvent {
    ConfigUnreadable,
    NoRuntime,
    NoBridge,
    Started,
}

/// Whether a client runs, and what is told when one is started or stopped.
pub struct SdkState {
    running: bool,
}

impl SdkState {
    pub closed spec fn runs(&self) -> bool {
        self.running
    }

    pub fn new() -> (r: Self)
        ensures
            !r.runs(),
    {
        SdkState { running: false }
    }

    /// Whether a client has to be started; one that runs is left alone.
    pub fn must_start(&self) -> (r: bool)
        ensures
            r == !self.runs(),
    {
        !self.running
    }

    /// Says whether the client runs after a start: it does unless something was missing.
    pub fn on_start(&mut self, event: StartEvent) -> (r: bool)
        ensures
            r == (event is Started),
            final(self).runs() == (old(self).runs() || event is Started),
    {
        match event {
            StartEvent::Started => {
                self.running = true;
                true
            },
            _ => false,
        }
    }

    /// Stops the client; says whether one ran.
    pub fn on_stop(&mut self) -> (r: bool)
        ensures
            r == old(self).runs(),
            !final(self).runs(),
    {
        let r = self.running;
        self.running = false;
        r
    }
}

/// A line goes to the end of the log; the oldest makes room for it where there are a thousand.
pub proof fn lines_go_to_the_end(lines: Seq<String>, line: String, i: int)
    ensures
        lines.len() < 1000 ==> with_line(lines, line) == lines.push(line),
        lines.len() >= 1000 ==> with_line(lines, line).len() == lines.len() && with_line(lines, line).last() == line,
        lines.len() >= 1000 && 0 <= i < lines.len() - 1 ==> with_line(lines, line)[i] == lines[i + 1],
{
}

/// No character of the value zero is left, and every other one is.
pub proof fn zeros_are_left_out(s: Seq<char>, c: char)
    ensures
        !crate::text::has_char(without_nul(s), '\0'),
        c != '\0' ==> crate::text::has_char(without_nul(s), c) == crate::text::has_char(s, c),
{
    reveal_strlit("\0");
    assert("\0"@ =~= seq!['\0']);
    crate::text::replaced_characters_are_gone(s, '\0', Seq::empty());
}

} // verus!

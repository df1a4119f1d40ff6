//! Counting newline-delimited lines in a byte stream.
//!
//! Every newline byte ends a line. A final run of bytes after the last
//! newline is a line as well, so `"a\nb"` and `"a\nb\n"` both hold two lines.
use vstd::prelude::*;

verus! {

/// The newline byte.
pub const NEWLINE: u8 = 10;

/// Number of newline bytes in `s`.
pub open spec fn newlines(s: Seq<u8>) -> nat
    decreases s.len(),
{
    if s.len() == 0 {
        0
    } else {
        newlines(s.drop_last()) + if s.last() == NEWLINE { 1nat } else { 0nat }
    }
}

/// Whether `s` ends in a line that no newline terminates.
pub open spec fn ends_open(s: Seq<u8>) -> bool {
    s.len() > 0 && s.last() != NEWLINE
}

/// Number of lines in `s`: one per newline, plus one for an unterminated last line.
pub open spec fn line_count(s: Seq<u8>) -> nat {
    newlines(s) + if ends_open(s) { 1nat } else { 0nat }
}

proof fn lemma_newlines_concat(a: Seq<u8>, b: Seq<u8>)
    ensures
        newlines(a + b) == newlines(a) + newlines(b),
    decreases b.len(),
{
    if b.len() > 0 {
        lemma_newlines_concat(a, b.drop_last());
        assert((a + b).drop_last() =~= a + b.drop_last());
    }
}

proof fn lemma_line_count_step(s: Seq<u8>, b: u8)
    ensures
        line_count(s.push(b)) <= line_count(s) + 1,
        newlines(s.push(b)) == newlines(s) + if b == NEWLINE { 1nat } else { 0nat },
{
    assert(s.push(b).drop_last() =~= s);
}

proof fn lemma_line_count_bound(s: Seq<u8>)
    ensures
        line_count(s) <= s.len(),
    decreases s.len(),
{
    if s.len() > 0 {
        lemma_line_count_bound(s.drop_last());
        lemma_line_count_step(s.drop_last(), s.last());
        assert(s.drop_last().push(s.last()) =~= s);
    }
}

/// A streaming line counter: bytes are fed to it in chunks of any size, and
/// the count is the same as for all of the bytes at once.
pub struct LineCounter {
    terminated: usize,
    open_line: bool,
    seen: Ghost<Seq<u8>>,
}

impl LineCounter {
    /// All bytes fed so far, in order.
    pub closed spec fn bytes(&self) -> Seq<u8> {
        self.seen@
    }

    pub closed spec fn wf(&self) -> bool {
        &&& self.terminated == newlines(self.seen@)
        &&& self.open_line == ends_open(self.seen@)
        &&& line_count(self.seen@) <= usize::MAX
    }

    /// A counter that has seen no bytes.
    pub fn new() -> (r: LineCounter)
        ensures
            r.wf(),
            r.bytes() == Seq::<u8>::empty(),
    {
        LineCounter { terminated: 0, open_line: false, seen: Ghost(Seq::empty()) }
    }

    /// The number of lines in the bytes fed so far.
    pub fn count(&self) -> (r: usize)
        requires
            self.wf(),
        ensures
            r == line_count(self.bytes()),
    {
        proof {
            lemma_line_count_bound(self.seen@);
        }
        if self.open_line {
            self.terminated + 1
        } else {
            self.terminated
        }
    }

    /// Feeds the next chunk of the stream. The bound keeps the count within `usize`.
    pub fn feed(&mut self, chunk: &[u8])
        requires
            old(self).wf(),
            line_count(old(self).bytes()) + chunk@.len() <= usize::MAX,
        ensures
            final(self).wf(),
            final(self).bytes() == old(self).bytes() + chunk@,
    {
        let ghost start = self.seen@;
        let mut i: usize = 0;
        while i < chunk.len()
            invariant
                i <= chunk@.len(),
                self.wf(),
                self.seen@ == start + chunk@.subrange(0, i as int),
                line_count(start) + chunk@.len() <= usize::MAX,
                line_count(self.seen@) <= line_count(start) + i,
            decreases chunk@.len() - i,
        {
            let b = chunk[i];
            proof {
                lemma_line_count_step(self.seen@, b);
                assert(start + chunk@.subrange(0, i + 1) =~= self.seen@.push(b));
            }
            if b == NEWLINE {
                self.terminated = self.terminated + 1;
                self.open_line = false;
            } else {
                self.open_line = true;
            }
            self.seen = Ghost(self.seen@.push(b));
            i = i + 1;
        }
        assert(chunk@.subrange(0, chunk@.len() as int) =~= chunk@);
    }
}

/// The number of lines in `bytes`.
pub fn count_lines(bytes: &[u8]) -> (r: usize)
    ensures
        r == line_count(bytes@),
{
    let mut counter = LineCounter::new();
    let n = bytes.len();
    proof {
        lemma_line_count_bound(Seq::<u8>::empty());
    }
    counter.feed(bytes);
    assert(Seq::<u8>::empty() + bytes@ =~= bytes@);
    counter.count()
}

/// Lines joined into one text, each followed by a newline.
pub open spec fn join_terminated(lines: Seq<Seq<u8>>) -> Seq<u8>
    decreases lines.len(),
{
    if lines.len() == 0 {
        Seq::empty()
    } else {
        join_terminated(lines.drop_last()) + lines.last().push(NEWLINE)
    }
}

/// Whether `line` holds no newline byte.
pub open spec fn is_single_line(line: Seq<u8>) -> bool {
    forall|i: int| 0 <= i < line.len() ==> line[i] != NEWLINE
}

proof fn lemma_single_line_newlines(line: Seq<u8>)
    requires
        is_single_line(line),
    ensures
        newlines(line) == 0,
    decreases line.len(),
{
    if line.len() > 0 {
        lemma_single_line_newlines(line.drop_last());
    }
}

/// A text of N lines, each ending in a newline, counts N lines.
pub proof fn lemma_terminated_lines_count(lines: Seq<Seq<u8>>)
    requires
        forall|k: int| 0 <= k < lines.len() ==> is_single_line(#[trigger] lines[k]),
    ensures
        line_count(join_terminated(lines)) == lines.len(),
        newlines(join_terminated(lines)) == lines.len(),
    decreases lines.len(),
{
    if lines.len() > 0 {
        let rest = lines.drop_last();
        let last = lines.last();
        assert(is_single_line(lines[lines.len() - 1]));
        assert forall|k: int| 0 <= k < rest.len() implies is_single_line(#[trigger] rest[k]) by {
            assert(rest[k] == lines[k]);
        }
        lemma_terminated_lines_count(rest);
        lemma_single_line_newlines(last);
        lemma_line_count_step(last, NEWLINE);
        lemma_newlines_concat(join_terminated(rest), last.push(NEWLINE));
    }
}

/// A text of N lines whose last line is not empty and lacks its final
/// newline still counts N lines: the unterminated line is counted.
pub proof fn lemma_unterminated_last_line_count(lines: Seq<Seq<u8>>)
    requires
        lines.len() > 0,
        lines.last().len() > 0,
        forall|k: int| 0 <= k < lines.len() ==> is_single_line(#[trigger] lines[k]),
    ensures
        line_count(join_terminated(lines).drop_last()) == lines.len(),
{
    let rest = lines.drop_last();
    let last = lines.last();
    assert(is_single_line(lines[lines.len() - 1]));
    assert forall|k: int| 0 <= k < rest.len() implies is_single_line(#[trigger] rest[k]) by {
        assert(rest[k] == lines[k]);
    }
    lemma_terminated_lines_count(rest);
    lemma_single_line_newlines(last);
    let text = join_terminated(lines).drop_last();
    assert(text =~= join_terminated(rest) + last);
    lemma_newlines_concat(join_terminated(rest), last);
    assert(text.last() == last.last());
}

} // verus!

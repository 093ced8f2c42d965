//! The message log: an ordered, append-only transcript with a cursor
//! marking how much of it has been durably flushed.  The in-memory
//! sequence is the source of truth; the backing file is a lagging mirror,
//! newline-delimited, one message per line.  A flush writes only what the
//! cursor has not covered, and the cursor advances only after the write
//! succeeded, so a failed write is retried whole on the next tick.

use vstd::prelude::*;
use crate::text::clone_chars;

verus! {

/// The transcript and its durability cursor.
pub struct MessageLog {
    entries: Vec<Vec<char>>,
    flushed: usize,
}

/// The backing-file text of a sequence of messages: each message followed
/// by one line break.
pub open spec fn spec_file_of(entries: Seq<Seq<char>>) -> Seq<char>
    decreases entries.len(),
{
    if entries.len() == 0 {
        Seq::empty()
    } else {
        entries[0] + seq!['\n'] + spec_file_of(entries.drop_first())
    }
}

/// Splitting a text into lines: `cur` is the line being read, `acc` the
/// lines before it.  A final line break closes the last line; trailing
/// characters after the last break form one more line.
pub open spec fn spec_split_rec(
    s: Seq<char>,
    i: int,
    cur: Seq<char>,
    acc: Seq<Seq<char>>,
) -> Seq<Seq<char>>
    decreases s.len() - i,
{
    if i < 0 || i >= s.len() {
        if cur.len() == 0 {
            acc
        } else {
            acc.push(cur)
        }
    } else if s[i] == '\n' {
        spec_split_rec(s, i + 1, Seq::empty(), acc.push(cur))
    } else {
        spec_split_rec(s, i + 1, cur.push(s[i]), acc)
    }
}

/// The lines of a backing-file text.
pub open spec fn spec_split_lines(s: Seq<char>) -> Seq<Seq<char>> {
    spec_split_rec(s, 0, Seq::empty(), Seq::empty())
}

impl View for MessageLog {
    type V = Seq<Seq<char>>;

    closed spec fn view(&self) -> Seq<Seq<char>> {
        self.entries@.map_values(|v: Vec<char>| v@)
    }
}

impl MessageLog {
    /// How many of the entries have been durably flushed.
    pub closed spec fn cursor(self) -> usize {
        self.flushed
    }

    /// The cursor never passes the end of the transcript.
    pub open spec fn wf(self) -> bool {
        self.cursor() <= self@.len()
    }

    /// The entries the backing file does not yet hold.
    pub open spec fn pending(self) -> Seq<Seq<char>> {
        self@.skip(self.cursor() as int)
    }

    /// An empty transcript with nothing flushed.
    pub fn new() -> (r: MessageLog)
        ensures
            r.wf(),
            r@ == Seq::<Seq<char>>::empty(),
            r.cursor() == 0,
    {
        let r = MessageLog { entries: Vec::new(), flushed: 0 };
        proof {
            assert(r@ =~= Seq::<Seq<char>>::empty());
        }
        r
    }

    /// Appends one message to the transcript; never blocks on the file.
    pub fn append(&mut self, msg: Vec<char>)
        requires
            old(self).wf(),
        ensures
            final(self).wf(),
            final(self)@ == old(self)@.push(msg@),
            final(self).cursor() == old(self).cursor(),
    {
        self.entries.push(msg);
        proof {
            assert(self@ =~= old(self)@.push(self.entries@.last()@));
        }
    }

    /// The number of messages in the transcript.
    pub fn len(&self) -> (r: usize)
        ensures
            r == self@.len(),
    {
        self.entries.len()
    }

    /// The whole transcript, as a copy.
    pub fn snapshot(&self) -> (r: Vec<Vec<char>>)
        ensures
            r@.map_values(|v: Vec<char>| v@) == self@,
    {
        let n = self.entries.len();
        let mut out: Vec<Vec<char>> = Vec::new();
        let mut i: usize = 0;
        while i < n
            invariant
                i <= n,
                n == self.entries@.len(),
                out@.len() == i,
                forall|j: int| 0 <= j < i ==> (#[trigger] out@[j])@ == self.entries@[j]@,
            decreases n - i,
        {
            out.push(clone_chars(&self.entries[i]));
            i = i + 1;
        }
        proof {
            assert(out@.map_values(|v: Vec<char>| v@) =~= self@);
        }
        out
    }

    /// What a flush tick would write: the text of the pending entries and
    /// the cursor position a successful write may advance to.  Nothing
    /// when the file is already current.
    pub fn flush_payload(&self) -> (r: Option<(usize, Vec<char>)>)
        requires
            self.wf(),
        ensures
            match r {
                Some(p) => {
                    &&& self.pending().len() > 0
                    &&& p.0 == self@.len()
                    &&& p.1@ == spec_file_of(self.pending())
                },
                None => self.pending().len() == 0,
            },
    {
        let n = self.entries.len();
        if self.flushed >= n {
            return None;
        }
        let mut text: Vec<char> = Vec::new();
        let mut i: usize = self.flushed;
        while i < n
            invariant
                self.flushed <= i <= n,
                n == self.entries@.len(),
                self.wf(),
                text@ + spec_file_of(self@.skip(i as int)) == spec_file_of(self.pending()),
            decreases n - i,
        {
            let ghost before = text@;
            let mut line = clone_chars(&self.entries[i]);
            text.append(&mut line);
            text.push('\n');
            proof {
                let rest = self@.skip(i as int);
                assert(rest[0] == self.entries@[i as int]@);
                assert(rest.drop_first() =~= self@.skip(i + 1));
                assert(text@ =~= before + (rest[0] + seq!['\n']));
                assert(text@ + spec_file_of(self@.skip(i + 1)) =~= before + spec_file_of(rest));
            }
            i = i + 1;
        }
        proof {
            assert(spec_file_of(self@.skip(n as int)) =~= Seq::<char>::empty());
            assert(self@.skip(n as int) =~= Seq::<Seq<char>>::empty());
            assert(text@ =~= text@ + spec_file_of(self@.skip(n as int)));
        }
        Some((n, text))
    }

    /// The number of entries already flushed to the backing file.
    pub fn durable_len(&self) -> (r: usize)
        ensures
            r == self.cursor(),
    {
        self.flushed
    }

    /// Moves the cursor forward to `upto`, after the matching write
    /// succeeded.  A failed write simply never calls this, so the same
    /// pending entries are offered again on the next tick.  A cursor that
    /// would move backwards or past the end is left where it is.
    pub fn advance_cursor(&mut self, upto: usize)
        requires
            old(self).wf(),
        ensures
            final(self).wf(),
            final(self)@ == old(self)@,
            final(self).cursor() == if old(self).cursor() <= upto <= old(self)@.len() {
                upto
            } else {
                old(self).cursor()
            },
    {
        if self.flushed <= upto && upto <= self.entries.len() {
            self.flushed = upto;
        }
    }

    /// The transcript recovered from the backing file's text at startup:
    /// its lines, all of them counted as already durable.
    pub fn recover(file: &Vec<char>) -> (r: MessageLog)
        ensures
            r.wf(),
            r@ == spec_split_lines(file@),
            r.cursor() == r@.len(),
    {
        let n = file.len();
        let mut entries: Vec<Vec<char>> = Vec::new();
        let mut cur: Vec<char> = Vec::new();
        let mut i: usize = 0;
        proof {
            assert(entries@.map_values(|v: Vec<char>| v@) =~= Seq::<Seq<char>>::empty());
        }
        while i < n
            invariant
                i <= n,
                n == file@.len(),
                spec_split_rec(file@, i as int, cur@, entries@.map_values(|v: Vec<char>| v@))
                    == spec_split_lines(file@),
            decreases n - i,
        {
            let c = file[i];
            if c == '\n' {
                proof {
                    assert(entries@.push(cur).map_values(|v: Vec<char>| v@) =~= entries@.map_values(
                        |v: Vec<char>| v@,
                    ).push(cur@));
                }
                entries.push(cur);
                cur = Vec::new();
            } else {
                cur.push(c);
            }
            i = i + 1;
        }
        if cur.len() > 0 {
            proof {
                assert(entries@.push(cur).map_values(|v: Vec<char>| v@) =~= entries@.map_values(
                    |v: Vec<char>| v@,
                ).push(cur@));
            }
            entries.push(cur);
        }
        let count = entries.len();
        let r = MessageLog { entries, flushed: count };
        proof {
            assert(r@ == spec_split_lines(file@));
        }
        r
    }
}

/// Appending to the transcript while the cursor stands still only extends
/// what the next flush will write: the pending entries after the appends
/// are the pending entries before them followed by the appended messages,
/// so a failed flush skips nothing.
pub proof fn lemma_pending_after_appends(
    entries: Seq<Seq<char>>,
    cursor: int,
    appended: Seq<Seq<char>>,
)
    requires
        0 <= cursor <= entries.len(),
    ensures
        (entries + appended).skip(cursor) == entries.skip(cursor) + appended,
{
    assert((entries + appended).skip(cursor) =~= entries.skip(cursor) + appended);
}

/// A transcript written as a backing file and read back line by line is
/// recovered exactly, as long as no message holds a line break of its own.
pub proof fn lemma_log_round_trip(entries: Seq<Seq<char>>)
    requires
        forall|j: int, k: int|
            0 <= j < entries.len() && 0 <= k < entries[j].len() ==> (#[trigger] entries[j][k])
                != '\n',
    ensures
        spec_split_lines(spec_file_of(entries)) == entries,
{
    assert(spec_file_of(entries).skip(0) =~= spec_file_of(entries));
    lemma_split_of_file(spec_file_of(entries), 0, Seq::empty(), entries);
    assert(Seq::<Seq<char>>::empty() + entries =~= entries);
}

proof fn lemma_split_of_file(s: Seq<char>, i: int, acc: Seq<Seq<char>>, entries: Seq<Seq<char>>)
    requires
        0 <= i <= s.len(),
        s.skip(i) == spec_file_of(entries),
        forall|j: int, k: int|
            0 <= j < entries.len() && 0 <= k < entries[j].len() ==> (#[trigger] entries[j][k])
                != '\n',
    ensures
        spec_split_rec(s, i, Seq::empty(), acc) == acc + entries,
    decreases entries.len(),
{
    if entries.len() == 0 {
        assert(s.skip(i).len() == 0);
        assert(i >= s.len());
        assert(acc + entries =~= acc);
    } else {
        let line = entries[0];
        let rest = entries.drop_first();
        assert(s.skip(i) == line + seq!['\n'] + spec_file_of(rest));
        assert(s.skip(i).len() == line.len() + 1 + spec_file_of(rest).len());
        assert forall|k: int| 0 <= k < line.len() implies s[i + k] == #[trigger] line[k] by {
            assert(s.skip(i)[k] == s[i + k]);
            assert((line + seq!['\n'] + spec_file_of(rest))[k] == line[k]);
        }
        assert(s[i + line.len()] == '\n') by {
            assert(s.skip(i)[line.len() as int] == s[i + line.len()]);
        }
        assert forall|k: int| 0 <= k < line.len() implies #[trigger] line[k] != '\n' by {
            assert(entries[0][k] != '\n');
        }
        lemma_split_line(s, i, Seq::empty(), line, acc);
        let i2 = i + line.len() + 1;
        assert(s.skip(i2) =~= spec_file_of(rest)) by {
            assert(s.skip(i2) =~= s.skip(i).skip(line.len() as int + 1));
        }
        assert(Seq::empty() + line =~= line);
        assert forall|j: int, k: int|
            0 <= j < rest.len() && 0 <= k < rest[j].len() implies (#[trigger] rest[j][k])
                != '\n' by {
            assert(rest[j] == entries[j + 1]);
            assert(entries[j + 1][k] != '\n');
        }
        lemma_split_of_file(s, i2, acc.push(line), rest);
        assert(acc.push(line) + rest =~= acc + entries);
    }
}

proof fn lemma_split_line(s: Seq<char>, i: int, cur: Seq<char>, line: Seq<char>, acc: Seq<Seq<char>>)
    requires
        0 <= i,
        i + line.len() + 1 <= s.len(),
        forall|k: int| 0 <= k < line.len() ==> s[i + k] == #[trigger] line[k],
        forall|k: int| 0 <= k < line.len() ==> #[trigger] line[k] != '\n',
        s[i + line.len()] == '\n',
    ensures
        spec_split_rec(s, i, cur, acc) == spec_split_rec(
            s,
            i + line.len() + 1,
            Seq::empty(),
            acc.push(cur + line),
        ),
    decreases line.len(),
{
    if line.len() == 0 {
        assert(s[i] == '\n');
        assert(cur + line =~= cur);
    } else {
        assert(s[i] == line[0]);
        assert forall|k: int| 0 <= k < line.drop_first().len() implies s[(i + 1) + k]
            == #[trigger] line.drop_first()[k] by {
            assert(line.drop_first()[k] == line[k + 1]);
            assert(s[i + (k + 1)] == line[k + 1]);
        }
        assert forall|k: int| 0 <= k < line.drop_first().len() implies #[trigger] line.drop_first()[k]
            != '\n' by {
            assert(line.drop_first()[k] == line[k + 1]);
        }
        assert(s[(i + 1) + line.drop_first().len()] == '\n');
        lemma_split_line(s, i + 1, cur.push(line[0]), line.drop_first(), acc);
        assert(cur.push(line[0]) + line.drop_first() =~= cur + line);
    }
}

} // verus!

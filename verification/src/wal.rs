//! Append-only, checkpointed write-ahead log.
//!
//! The log is a sequence of records, each followed by a single newline
//! delimiter. `Wal` models the log file's byte content together with the
//! checkpoint offset that separates consumed from unconsumed history; an
//! embedder mirrors `log` to stable storage and performs the actual file
//! I/O and the (de)serialization of record payloads.

use vstd::prelude::*;

verus! {

/// Delimiter written after every record; record encodings must never
/// contain it.
pub const NEWLINE: u8 = 10;

/// A record encoding that is free of the reserved delimiter.
pub open spec fn delimiter_free(row: Seq<u8>) -> bool {
    !row.contains(NEWLINE)
}

pub open spec fn all_delimiter_free(rows: Seq<Seq<u8>>) -> bool {
    forall|i: int| 0 <= i < rows.len() ==> delimiter_free(#[trigger] rows[i])
}

/// Split `s` at every occurrence of `sep`; always yields at least one
/// segment, and segments never contain `sep`.
pub open spec fn split_on(s: Seq<u8>, sep: u8) -> Seq<Seq<u8>>
    decreases s.len(),
{
    if s.len() == 0 {
        seq![Seq::<u8>::empty()]
    } else if s[0] == sep {
        seq![Seq::<u8>::empty()] + split_on(s.skip(1), sep)
    } else {
        let rest = split_on(s.skip(1), sep);
        seq![seq![s[0]] + rest[0]] + rest.skip(1)
    }
}

/// The byte stream that stores a sequence of records: each record's bytes
/// followed by the delimiter.
pub open spec fn frame(rows: Seq<Seq<u8>>) -> Seq<u8>
    decreases rows.len(),
{
    if rows.len() == 0 {
        Seq::<u8>::empty()
    } else {
        rows[0] + seq![NEWLINE] + frame(rows.skip(1))
    }
}

/// The records recovered from a byte stream: the trailing byte is treated
/// as the final record's terminator and dropped, and the rest is split at
/// the delimiter. An empty stream holds no records.
pub open spec fn unframe(bytes: Seq<u8>) -> Seq<Seq<u8>> {
    if bytes.len() == 0 {
        Seq::<Seq<u8>>::empty()
    } else {
        split_on(bytes.take(bytes.len() - 1), NEWLINE)
    }
}

proof fn lemma_split_on_len(s: Seq<u8>, sep: u8)
    ensures
        split_on(s, sep).len() >= 1,
    decreases s.len(),
{
    if s.len() > 0 {
        lemma_split_on_len(s.skip(1), sep);
    }
}

proof fn lemma_skip_keeps_free(s: Seq<u8>, sep: u8)
    requires
        !s.contains(sep),
        s.len() > 0,
    ensures
        !s.skip(1).contains(sep),
        s[0] != sep,
{
    if s.skip(1).contains(sep) {
        let i = choose|i: int| 0 <= i < s.skip(1).len() && s.skip(1)[i] == sep;
        assert(s[i + 1] == sep);
        assert(s.contains(sep));
    }
    if s[0] == sep {
        assert(s.contains(sep));
    }
}

proof fn lemma_split_on_no_sep(s: Seq<u8>, sep: u8)
    requires
        !s.contains(sep),
    ensures
        split_on(s, sep) == seq![s],
    decreases s.len(),
{
    if s.len() == 0 {
        assert(split_on(s, sep) =~~= seq![s]);
    } else {
        lemma_skip_keeps_free(s, sep);
        lemma_split_on_no_sep(s.skip(1), sep);
        assert(seq![s.skip(1)].skip(1) =~~= Seq::<Seq<u8>>::empty());
        assert(seq![s[0]] + s.skip(1) =~= s);
        assert(split_on(s, sep) =~~= seq![s]);
    }
}

proof fn lemma_split_on_prefix(a: Seq<u8>, b: Seq<u8>, sep: u8)
    requires
        !a.contains(sep),
    ensures
        split_on(a + seq![sep] + b, sep) == seq![a] + split_on(b, sep),
    decreases a.len(),
{
    let s = a + seq![sep] + b;
    if a.len() == 0 {
        assert(s[0] == sep);
        assert(s.skip(1) =~= b);
        assert(split_on(s, sep) =~~= seq![a] + split_on(b, sep));
    } else {
        lemma_skip_keeps_free(a, sep);
        assert(s[0] == a[0]);
        assert(s.skip(1) =~= a.skip(1) + seq![sep] + b);
        lemma_split_on_prefix(a.skip(1), b, sep);
        let rest = split_on(s.skip(1), sep);
        assert(rest == seq![a.skip(1)] + split_on(b, sep));
        assert(rest[0] == a.skip(1));
        assert(rest.skip(1) =~~= split_on(b, sep));
        assert(seq![a[0]] + a.skip(1) =~= a);
        assert(split_on(s, sep) =~~= seq![a] + split_on(b, sep));
    }
}

proof fn lemma_split_on_segments_free(s: Seq<u8>, sep: u8)
    ensures
        forall|i: int|
            0 <= i < split_on(s, sep).len() ==> !(#[trigger] split_on(s, sep)[i]).contains(sep),
    decreases s.len(),
{
    if s.len() == 0 {
        assert forall|i: int|
            0 <= i < split_on(s, sep).len() implies !(#[trigger] split_on(s, sep)[i]).contains(
            sep,
        ) by {
            if split_on(s, sep)[i].contains(sep) {
                let j = choose|j: int|
                    0 <= j < split_on(s, sep)[i].len() && split_on(s, sep)[i][j] == sep;
            }
        }
    } else if s[0] == sep {
        lemma_split_on_segments_free(s.skip(1), sep);
        lemma_split_on_len(s.skip(1), sep);
        assert forall|i: int|
            0 <= i < split_on(s, sep).len() implies !(#[trigger] split_on(s, sep)[i]).contains(
            sep,
        ) by {
            if i == 0 {
                if split_on(s, sep)[0].contains(sep) {
                    let j = choose|j: int|
                        0 <= j < split_on(s, sep)[0].len() && split_on(s, sep)[0][j] == sep;
                }
            } else {
                assert(split_on(s, sep)[i] == split_on(s.skip(1), sep)[i - 1]);
            }
        }
    } else {
        lemma_split_on_segments_free(s.skip(1), sep);
        lemma_split_on_len(s.skip(1), sep);
        let rest = split_on(s.skip(1), sep);
        assert forall|i: int|
            0 <= i < split_on(s, sep).len() implies !(#[trigger] split_on(s, sep)[i]).contains(
            sep,
        ) by {
            if i == 0 {
                assert(!rest[0].contains(sep));
                if (seq![s[0]] + rest[0]).contains(sep) {
                    let j = choose|j: int|
                        0 <= j < (seq![s[0]] + rest[0]).len() && (seq![s[0]] + rest[0])[j] == sep;
                    if j > 0 {
                        assert(rest[0][j - 1] == sep);
                        assert(rest[0].contains(sep));
                    }
                }
            } else {
                assert(split_on(s, sep)[i] == rest[i]);
            }
        }
    }
}

/// Round trip of the log's framing: the records written into a byte
/// stream, one delimiter after each, are exactly the records recovered
/// from that stream, provided no record contains the delimiter.
pub proof fn lemma_frame_round_trip(rows: Seq<Seq<u8>>)
    requires
        all_delimiter_free(rows),
    ensures
        unframe(frame(rows)) == rows,
    decreases rows.len(),
{
    if rows.len() == 0 {
        assert(unframe(frame(rows)) =~~= rows);
    } else {
        let rest = rows.skip(1);
        let f = frame(rows);
        assert(f == rows[0] + seq![NEWLINE] + frame(rest));
        assert(delimiter_free(rows[0]));
        if rest.len() == 0 {
            assert(frame(rest) =~= Seq::<u8>::empty());
            assert(f =~= rows[0] + seq![NEWLINE]);
            assert(f.take(f.len() - 1) =~= rows[0]);
            lemma_split_on_no_sep(rows[0], NEWLINE);
            assert(unframe(f) =~~= rows);
        } else {
            assert(all_delimiter_free(rest)) by {
                assert forall|i: int| 0 <= i < rest.len() implies delimiter_free(
                    #[trigger] rest[i],
                ) by {
                    assert(rest[i] == rows[i + 1]);
                }
            }
            lemma_frame_round_trip(rest);
            let fr = frame(rest);
            assert(fr == rest[0] + seq![NEWLINE] + frame(rest.skip(1)));
            assert(fr.len() >= 1);
            assert(f.take(f.len() - 1) =~= rows[0] + seq![NEWLINE] + fr.take(fr.len() - 1));
            lemma_split_on_prefix(rows[0], fr.take(fr.len() - 1), NEWLINE);
            assert(unframe(f) == seq![rows[0]] + unframe(fr));
            assert(seq![rows[0]] + rest =~~= rows);
        }
    }
}

/// Every record recovered from a byte stream is free of the delimiter.
pub proof fn lemma_unframe_delimiter_free(bytes: Seq<u8>)
    ensures
        all_delimiter_free(unframe(bytes)),
{
    if bytes.len() > 0 {
        lemma_split_on_segments_free(bytes.take(bytes.len() - 1), NEWLINE);
    }
}

/// Frame records for appending to the log: each record's bytes, then the
/// delimiter.
pub fn encode_records(rows: &Vec<Vec<u8>>) -> (out: Vec<u8>)
    requires
        all_delimiter_free(rows.deep_view()),
    ensures
        out@ == frame(rows.deep_view()),
{
    let ghost dv = rows.deep_view();
    let mut out: Vec<u8> = Vec::new();
    let mut i: usize = 0;
    proof {
        assert(dv.skip(0) =~~= dv);
        assert(out@ + frame(dv.skip(0)) =~= frame(dv));
    }
    while i < rows.len()
        invariant
            i <= rows.len(),
            dv == rows.deep_view(),
            dv.len() == rows@.len(),
            out@ + frame(dv.skip(i as int)) == frame(dv),
        decreases rows@.len() - i,
    {
        let ghost prefix = out@;
        let row = &rows[i];
        assert(dv[i as int] =~= row@);
        let mut j: usize = 0;
        while j < row.len()
            invariant
                j <= row.len(),
                out@ == prefix + row@.take(j as int),
            decreases row@.len() - j,
        {
            out.push(row[j]);
            assert(out@ =~= prefix + row@.take(j as int + 1));
            j += 1;
        }
        assert(row@.take(row@.len() as int) =~= row@);
        out.push(NEWLINE);
        proof {
            assert(dv.skip(i as int).len() > 0);
            assert(dv.skip(i as int)[0] == dv[i as int]);
            assert(dv.skip(i as int).skip(1) =~~= dv.skip(i as int + 1));
            assert(frame(dv.skip(i as int)) == dv[i as int] + seq![NEWLINE] + frame(
                dv.skip(i as int + 1),
            ));
            assert(out@ =~= prefix + row@ + seq![NEWLINE]);
            assert(out@ + frame(dv.skip(i as int + 1)) =~= frame(dv));
        }
        i += 1;
    }
    proof {
        assert(dv.skip(dv.len() as int) =~~= Seq::<Seq<u8>>::empty());
        assert(out@ + frame(dv.skip(dv.len() as int)) =~= out@);
    }
    out
}

/// Recover the records held in a byte stream read from the log: drop the
/// trailing terminator, split the rest at the delimiter.
pub fn decode_records(buffer: &[u8]) -> (rows: Vec<Vec<u8>>)
    ensures
        rows.deep_view() == unframe(buffer@),
{
    let len = buffer.len();
    if len == 0 {
        let rows: Vec<Vec<u8>> = Vec::new();
        assert(rows.deep_view() =~~= unframe(buffer@));
        return rows;
    }
    let n = len - 1;
    let ghost t = buffer@.take(n as int);
    let mut rows: Vec<Vec<u8>> = Vec::new();
    let mut cur: Vec<u8> = Vec::new();
    let mut i: usize = 0;
    proof {
        assert(cur@ + t.skip(0) =~= t);
        assert(rows.deep_view() + split_on(cur@ + t.skip(0), NEWLINE) =~~= split_on(t, NEWLINE));
    }
    while i < n
        invariant
            i <= n,
            n == buffer@.len() - 1,
            t == buffer@.take(n as int),
            !cur@.contains(NEWLINE),
            split_on(t, NEWLINE) == rows.deep_view() + split_on(cur@ + t.skip(i as int), NEWLINE),
        decreases n - i,
    {
        let b = buffer[i];
        assert(t[i as int] == b);
        if b == NEWLINE {
            proof {
                assert(cur@ + t.skip(i as int) =~= cur@ + seq![NEWLINE] + t.skip(i as int + 1));
                lemma_split_on_prefix(cur@, t.skip(i as int + 1), NEWLINE);
            }
            let ghost old_rows = rows.deep_view();
            let ghost cur_snap = cur@;
            rows.push(cur);
            proof {
                assert(rows.deep_view() =~~= old_rows.push(cur_snap));
                assert(old_rows + (seq![cur_snap] + split_on(t.skip(i as int + 1), NEWLINE))
                    =~~= old_rows.push(cur_snap) + split_on(t.skip(i as int + 1), NEWLINE));
            }
            cur = Vec::new();
            proof {
                assert(cur@ + t.skip(i as int + 1) =~= t.skip(i as int + 1));
            }
        } else {
            let ghost cur_snap = cur@;
            cur.push(b);
            proof {
                assert(cur@ =~= cur_snap.push(b));
                assert(cur_snap + t.skip(i as int) =~= cur@ + t.skip(i as int + 1));
                if cur@.contains(NEWLINE) {
                    let j = choose|j: int| 0 <= j < cur@.len() && cur@[j] == NEWLINE;
                    if j < cur_snap.len() {
                        assert(cur_snap.contains(NEWLINE));
                    }
                }
            }
        }
        i += 1;
    }
    proof {
        assert(t.skip(n as int) =~= Seq::<u8>::empty());
        assert(cur@ + t.skip(n as int) =~= cur@);
        lemma_split_on_no_sep(cur@, NEWLINE);
    }
    let ghost old_rows = rows.deep_view();
    let ghost cur_snap = cur@;
    rows.push(cur);
    proof {
        assert(rows.deep_view() =~~= old_rows.push(cur_snap));
        assert(old_rows + seq![cur_snap] =~~= old_rows.push(cur_snap));
        assert(rows.deep_view() =~~= unframe(buffer@));
    }
    rows
}

/// The write-ahead log: the log file's byte content and the checkpoint
/// offset marking the start of not-yet-read bytes.
pub struct Wal {
    pub log: Vec<u8>,
    pub checkpoint: usize,
}

impl Wal {
    /// The unconsumed tail of the log: everything at or after the
    /// checkpoint.
    pub open spec fn tail(self) -> Seq<u8> {
        if self.checkpoint < self.log@.len() {
            self.log@.skip(self.checkpoint as int)
        } else {
            Seq::<u8>::empty()
        }
    }

    /// A fresh, empty log whose checkpoint is at the start.
    pub fn build() -> (w: Wal)
        ensures
            w.log@ == Seq::<u8>::empty(),
            w.checkpoint == 0,
    {
        Wal { log: Vec::new(), checkpoint: 0 }
    }

    /// Append one transaction's records, each followed by the delimiter,
    /// in order. The checkpoint does not move: the new records are
    /// unconsumed history.
    pub fn write_transaction(&mut self, rows: &Vec<Vec<u8>>)
        requires
            all_delimiter_free(rows.deep_view()),
        ensures
            final(self).log@ == old(self).log@ + frame(rows.deep_view()),
            final(self).checkpoint == old(self).checkpoint,
    {
        let mut framed = encode_records(rows);
        self.log.append(&mut framed);
    }

    /// Consume the unconsumed tail: return its records, oldest first, and
    /// advance the checkpoint to the end of the log. An empty tail yields
    /// no records and leaves the checkpoint where it was.
    pub fn read(&mut self) -> (rows: Vec<Vec<u8>>)
        ensures
            final(self).log@ == old(self).log@,
            rows.deep_view() == unframe(old(self).tail()),
            all_delimiter_free(rows.deep_view()),
            old(self).checkpoint < old(self).log@.len() ==> final(self).checkpoint == old(
                self,
            ).log@.len(),
            old(self).checkpoint >= old(self).log@.len() ==> final(self).checkpoint == old(
                self,
            ).checkpoint,
    {
        proof {
            lemma_unframe_delimiter_free(self.tail());
        }
        if self.checkpoint >= self.log.len() {
            let rows: Vec<Vec<u8>> = Vec::new();
            assert(rows.deep_view() =~~= unframe(old(self).tail()));
            return rows;
        }
        let buffer = vstd::slice::slice_subrange(self.log.as_slice(), self.checkpoint, self.log.len());
        assert(buffer@ == old(self).tail());
        let rows = decode_records(buffer);
        self.checkpoint = self.log.len();
        rows
    }

    /// Compact the log: everything before the checkpoint is discarded,
    /// and exactly the unconsumed tail's records are rewritten at the
    /// front of a fresh log whose checkpoint is back at the start.
    pub fn vacuum(&mut self)
        ensures
            final(self).log@ == frame(unframe(old(self).tail())),
            final(self).checkpoint == 0,
    {
        let rows = self.read();
        self.log = Vec::new();
        self.checkpoint = 0;
        self.write_transaction(&rows);
    }
}

} // verus!

//! The chunk reader: raw input arrives in byte windows of arbitrary size,
//! and record boundaries must survive the windowing. A window is split after
//! its last newline; the tail is carried into the next window. The lemmas
//! here prove that no chunking ever loses, duplicates or tears a record.
use vstd::prelude::*;

use crate::bytes::{contains_byte, is_last_at, last_ix, rfind_byte, to_vec};
use crate::classify::classify_line;
use crate::model::{
    apply_line, apply_lines, lemma_apply_lines_concat, lemma_apply_lines_one,
    lemma_apply_lines_total,
};
use crate::store::Stats;

verus! {

/// The record delimiter.
pub open spec fn nl() -> u8 {
    '\n' as u8
}

/// The records written in `s`: every newline ends one record, and a nonempty
/// unterminated tail is a final record of its own.
pub open spec fn records_of(s: Seq<u8>) -> Seq<Seq<u8>>
    decreases s.len(),
{
    if s.len() == 0 {
        Seq::<Seq<u8>>::empty()
    } else if s[0] == nl() {
        seq![Seq::<u8>::empty()] + records_of(s.skip(1))
    } else if s.len() == 1 {
        seq![s]
    } else {
        let r = records_of(s.skip(1));
        seq![seq![s[0]] + r[0]] + r.skip(1)
    }
}

/// Nonempty input holds at least one record.
pub proof fn lemma_records_lb(s: Seq<u8>)
    requires
        s.len() > 0,
    ensures
        records_of(s).len() >= 1,
    decreases s.len(),
{
    if s[0] == nl() {
    } else if s.len() > 1 {
        lemma_records_lb(s.skip(1));
    }
}

/// There are never more records than bytes.
pub proof fn lemma_records_count(s: Seq<u8>)
    ensures
        records_of(s).len() <= s.len(),
    decreases s.len(),
{
    if s.len() > 0 {
        lemma_records_count(s.skip(1));
    }
}

/// A nonempty string without a newline is one record.
pub proof fn lemma_records_whole(s: Seq<u8>)
    requires
        s.len() > 0,
        forall|i: int| 0 <= i < s.len() ==> s[i] != nl(),
    ensures
        records_of(s) == seq![s],
    decreases s.len(),
{
    if s[0] != nl() && s.len() > 1 {
        lemma_records_whole(s.skip(1));
        assert(seq![s[0]] + s.skip(1) =~= s);
        assert(records_of(s) =~~= seq![s]);
    }
}

/// A newline-terminated line is one record: its content.
pub proof fn lemma_records_line(line: Seq<u8>)
    requires
        forall|i: int| 0 <= i < line.len() ==> line[i] != nl(),
    ensures
        records_of(line + seq![nl()]) == seq![line],
    decreases line.len(),
{
    let s = line + seq![nl()];
    if line.len() == 0 {
        assert(s[0] == nl());
        assert(s.skip(1) =~= Seq::<u8>::empty());
        assert(records_of(Seq::<u8>::empty()) =~~= Seq::<Seq<u8>>::empty());
        assert(records_of(s) =~~= seq![line]);
    } else {
        assert(s[0] == line[0]);
        assert(s[0] != nl());
        assert(s.len() > 1);
        assert(s.skip(1) =~= line.skip(1) + seq![nl()]);
        lemma_records_line(line.skip(1));
        let r = records_of(s.skip(1));
        assert(r == seq![line.skip(1)]);
        assert(seq![s[0]] + r[0] =~= line);
        assert(records_of(s) =~~= seq![line]);
    }
}

/// A window that ends at a record boundary can be cut off: the records of
/// the whole are the records of the window and then those of the rest.
pub proof fn lemma_records_concat(w: Seq<u8>, r: Seq<u8>)
    requires
        w.len() == 0 || w.last() == nl(),
    ensures
        records_of(w + r) == records_of(w) + records_of(r),
    decreases w.len(),
{
    if w.len() == 0 {
        assert(w + r =~= r);
        assert(records_of(w) + records_of(r) =~~= records_of(r));
    } else if w[0] == nl() {
        let s = w + r;
        assert(s[0] == nl());
        if w.len() == 1 {
            assert(s.skip(1) =~= r);
            assert(records_of(w) =~~= seq![Seq::<u8>::empty()]);
            assert(records_of(s) =~~= records_of(w) + records_of(r));
        } else {
            assert(s.skip(1) =~= w.skip(1) + r);
            assert(w.skip(1).last() == nl());
            lemma_records_concat(w.skip(1), r);
            assert(records_of(s) =~~= records_of(w) + records_of(r));
        }
    } else {
        let s = w + r;
        assert(w.len() >= 2);
        assert(s[0] == w[0]);
        assert(s.len() > 1);
        assert(s.skip(1) =~= w.skip(1) + r);
        assert(w.skip(1).last() == nl());
        lemma_records_concat(w.skip(1), r);
        let rw = records_of(w.skip(1));
        lemma_records_lb(w.skip(1));
        let rs = records_of(s.skip(1));
        assert(rs == rw + records_of(r));
        assert(rs[0] == rw[0]);
        assert(rs.skip(1) =~~= rw.skip(1) + records_of(r));
        assert(records_of(s) =~~= records_of(w) + records_of(r));
    }
}

/// Where a window is split: one past its last newline, or at its start when
/// it holds none.
pub open spec fn split_point(s: Seq<u8>) -> int {
    if contains_byte(s, nl()) {
        last_ix(s, nl()) + 1
    } else {
        0
    }
}

/// What one fill of the reader does: the complete-record window up to the
/// split point is handed on, the tail is retained.
pub open spec fn feed_records(carry: Seq<u8>, chunk: Seq<u8>) -> Seq<Seq<u8>> {
    records_of((carry + chunk).take(split_point(carry + chunk)))
}

pub open spec fn feed_carry(carry: Seq<u8>, chunk: Seq<u8>) -> Seq<u8> {
    (carry + chunk).skip(split_point(carry + chunk))
}

/// The records a whole run of the reader emits over a sequence of chunks,
/// starting from a retained tail, with the final tail processed at the end.
pub open spec fn fed_records(carry: Seq<u8>, chunks: Seq<Seq<u8>>) -> Seq<Seq<u8>>
    decreases chunks.len(),
{
    if chunks.len() == 0 {
        records_of(carry)
    } else {
        feed_records(carry, chunks[0]) + fed_records(feed_carry(carry, chunks[0]), chunks.skip(1))
    }
}

/// The records the reader emits for an input handed over in chunks.
pub open spec fn chunked_records(chunks: Seq<Seq<u8>>) -> Seq<Seq<u8>> {
    fed_records(Seq::<u8>::empty(), chunks)
}

pub open spec fn concat_bytes(chunks: Seq<Seq<u8>>) -> Seq<u8>
    decreases chunks.len(),
{
    if chunks.len() == 0 {
        Seq::<u8>::empty()
    } else {
        chunks[0] + concat_bytes(chunks.skip(1))
    }
}

proof fn lemma_fed_records(carry: Seq<u8>, chunks: Seq<Seq<u8>>)
    ensures
        fed_records(carry, chunks) == records_of(carry + concat_bytes(chunks)),
    decreases chunks.len(),
{
    if chunks.len() == 0 {
        assert(carry + concat_bytes(chunks) =~= carry);
    } else {
        let all = carry + chunks[0];
        let p = split_point(all);
        let w = all.take(p);
        let c2 = all.skip(p);
        if contains_byte(all, nl()) {
            let witness = choose|i: int| 0 <= i < all.len() && all[i] == nl();
            let lw = last_witness(all, witness);
            crate::bytes::lemma_last_ix(all, nl(), lw);
            assert(is_last_at(all, nl(), last_ix(all, nl())));
        }
        assert(0 <= p <= all.len());
        assert(w.len() == 0 || w.last() == nl());
        lemma_fed_records(c2, chunks.skip(1));
        lemma_records_concat(w, c2 + concat_bytes(chunks.skip(1)));
        assert(w + (c2 + concat_bytes(chunks.skip(1))) =~= carry + concat_bytes(chunks));
    }
}

/// The greatest newline position at or after a known one; establishes that
/// `last_ix` is meaningful whenever some newline exists.
proof fn last_witness(s: Seq<u8>, from: int) -> (r: int)
    requires
        0 <= from < s.len(),
        s[from] == nl(),
    ensures
        is_last_at(s, nl(), r),
    decreases s.len() - from,
{
    if forall|j: int| from < j < s.len() ==> s[j] != nl() {
        from
    } else {
        let j = choose|j: int| from < j < s.len() && s[j] == nl();
        last_witness(s, j)
    }
}

/// Chunk boundaries never lose, duplicate or tear a record: reading an input
/// through the window splitter in any chunking yields exactly the records of
/// the whole input, so the final aggregates are identical.
pub proof fn lemma_chunking_preserves_records(chunks: Seq<Seq<u8>>)
    ensures
        chunked_records(chunks) == records_of(concat_bytes(chunks)),
{
    lemma_fed_records(Seq::<u8>::empty(), chunks);
    assert(Seq::<u8>::empty() + concat_bytes(chunks) =~= concat_bytes(chunks));
}

/// A corollary for the aggregates themselves: an input read in chunks folds
/// to exactly the store a single pass folds to.
pub proof fn lemma_chunked_aggregates_equal(
    s: crate::model::StatsView,
    chunks: Seq<Seq<u8>>,
)
    ensures
        apply_lines(s, chunked_records(chunks)) == apply_lines(
            s,
            records_of(concat_bytes(chunks)),
        ),
{
    lemma_chunking_preserves_records(chunks);
}

/// Splitting one input into two reader passes at any byte offset yields the
/// same records, and hence the same aggregates, as a single pass.
pub proof fn lemma_split_pass_equal(b: Seq<u8>, i: int)
    requires
        0 <= i <= b.len(),
    ensures
        chunked_records(seq![b.take(i), b.skip(i)]) == records_of(b),
{
    lemma_chunking_preserves_records(seq![b.take(i), b.skip(i)]);
    let chunks = seq![b.take(i), b.skip(i)];
    let single = seq![b.skip(i)];
    assert(chunks.skip(1) =~~= single);
    assert(single.skip(1) =~~= Seq::<Seq<u8>>::empty());
    assert(concat_bytes(Seq::<Seq<u8>>::empty()) == Seq::<u8>::empty());
    assert(concat_bytes(single) =~= b.skip(i));
    assert(concat_bytes(chunks) =~= b);
}

impl Stats {
    /// Classifies one record and folds its facts into the store; a record
    /// that classifies to nothing leaves the store unchanged.
    pub fn ingest_line(&mut self, line: &[u8])
        requires
            old(self).wf(),
            old(self).total < u64::MAX,
        ensures
            final(self).wf(),
            final(self)@ == apply_line(old(self)@, line@),
            final(self)@.total <= old(self)@.total + 1,
    {
        match classify_line(line) {
            Some(f) => {
                self.apply(&f);
            },
            None => {},
        }
    }
}

/// Folds every record of a byte window into the store, the unterminated
/// tail included.
pub fn apply_window(stats: &mut Stats, w: &[u8])
    requires
        old(stats).wf(),
        old(stats)@.total + w@.len() <= u64::MAX as int,
    ensures
        final(stats).wf(),
        final(stats)@ == apply_lines(old(stats)@, records_of(w@)),
        final(stats)@.total <= old(stats)@.total + w@.len(),
{
    let n = w.len();
    let mut start: usize = 0;
    let mut i: usize = 0;
    proof {
        assert(w@.take(0) =~= Seq::<u8>::empty());
        assert(apply_lines(stats@, records_of(w@.take(0))) == stats@);
    }
    while i < n
        invariant
            n == w@.len(),
            0 <= start <= i <= n,
            forall|t: int| start <= t < i ==> w@[t] != nl(),
            start == 0 || w@[start - 1] == nl(),
            stats@ == apply_lines(old(stats)@, records_of(w@.take(start as int))),
            stats@.total <= old(stats)@.total + start,
            old(stats)@.total + w@.len() <= u64::MAX as int,
            stats.wf(),
        decreases n - i,
    {
        if w[i] == '\n' as u8 {
            let line = vstd::slice::slice_subrange(w, start, i);
            proof {
                assert(stats@.total < u64::MAX as int);
            }
            stats.ingest_line(line);
            proof {
                let pre = w@.take(start as int);
                let full = w@.take(i + 1);
                assert(full =~= pre + (line@ + seq![nl()]));
                assert(pre.len() == 0 || pre.last() == nl());
                lemma_records_concat(pre, line@ + seq![nl()]);
                lemma_records_line(line@);
                lemma_apply_lines_concat(old(stats)@, records_of(pre), seq![line@]);
                lemma_apply_lines_one(apply_lines(old(stats)@, records_of(pre)), line@);
                assert(records_of(full) == records_of(pre) + seq![line@]);
                assert(stats@ == apply_lines(old(stats)@, records_of(full)));
                lemma_records_count(full);
                lemma_apply_lines_total(old(stats)@, records_of(full));
            }
            start = i + 1;
        }
        i = i + 1;
    }
    if start < n {
        let rest = vstd::slice::slice_subrange(w, start, n);
        proof {
            assert(stats@.total < u64::MAX as int);
        }
        stats.ingest_line(rest);
        proof {
            let pre = w@.take(start as int);
            assert(w@ =~= pre + rest@);
            assert(pre.len() == 0 || pre.last() == nl());
            lemma_records_concat(pre, rest@);
            lemma_records_whole(rest@);
            lemma_apply_lines_concat(old(stats)@, records_of(pre), seq![rest@]);
            lemma_apply_lines_one(apply_lines(old(stats)@, records_of(pre)), rest@);
            assert(records_of(w@) == records_of(pre) + seq![rest@]);
            lemma_records_count(w@);
            lemma_apply_lines_total(old(stats)@, records_of(w@));
        }
    } else {
        proof {
            assert(w@.take(start as int) =~= w@);
        }
    }
}

impl Stats {
    /// Ingests a whole input in one pass: every record of `data`.
    pub fn ingest(&mut self, data: &[u8])
        requires
            old(self).wf(),
            old(self)@.total + data@.len() <= u64::MAX as int,
        ensures
            final(self).wf(),
            final(self)@ == apply_lines(old(self)@, records_of(data@)),
            final(self)@.total <= old(self)@.total + data@.len(),
    {
        apply_window(self, data);
    }
}

/// The failure of a run: a record longer than the whole window ceiling.
#[derive(Clone, Copy, PartialEq, Eq, Structural, Debug)]
pub enum IngestError {
    OversizedRecord,
}

/// Carries the unterminated tail of each window into the next one.
pub struct WindowSplitter {
    pub carry: Vec<u8>,
    pub limit: usize,
}

impl WindowSplitter {
    /// A splitter that treats a buffered record longer than `limit` bytes,
    /// with no newline in sight, as fatal.
    pub fn new(limit: usize) -> (r: WindowSplitter)
        ensures
            r.carry@ == Seq::<u8>::empty(),
            r.limit == limit,
    {
        WindowSplitter { carry: Vec::new(), limit }
    }

    /// Feeds one chunk: all complete records of the carried tail plus the
    /// chunk are folded into the store, and the new tail is retained. Fails,
    /// changing no counter, when the buffer exceeds the ceiling without a
    /// newline.
    pub fn feed(&mut self, chunk: &[u8], stats: &mut Stats) -> (r: Result<(), IngestError>)
        requires
            old(stats).wf(),
            old(stats)@.total + old(self).carry@.len() + chunk@.len() <= u64::MAX as int,
            old(self).carry@.len() + chunk@.len() <= usize::MAX as int,
        ensures
            final(stats).wf(),
            final(self).limit == old(self).limit,
            match r {
                Ok(()) => final(stats)@ == apply_lines(
                    old(stats)@,
                    feed_records(old(self).carry@, chunk@),
                ) && final(self).carry@ == feed_carry(old(self).carry@, chunk@)
                    && final(stats)@.total <= old(stats)@.total + old(self).carry@.len()
                    + chunk@.len(),
                Err(e) => final(stats)@ == old(stats)@ && final(self).carry@ == old(self).carry@
                    + chunk@ && !contains_byte(old(self).carry@ + chunk@, nl()) && (old(
                    self,
                ).carry@ + chunk@).len() > old(self).limit as int,
            },
    {
        let ghost oldcarry = self.carry@;
        let mut k: usize = 0;
        while k < chunk.len()
            invariant
                0 <= k <= chunk@.len(),
                self.carry@ == oldcarry + chunk@.take(k as int),
                oldcarry.len() + chunk@.len() <= usize::MAX as int,
                self.limit == old(self).limit,
            decreases chunk@.len() - k,
        {
            self.carry.push(chunk[k]);
            k = k + 1;
            proof {
                assert(self.carry@ =~= oldcarry + chunk@.take(k as int));
            }
        }
        proof {
            assert(self.carry@ =~= oldcarry + chunk@);
        }
        let ghost all = oldcarry + chunk@;
        match rfind_byte(self.carry.as_slice(), '\n' as u8) {
            Some(p) => {
                proof {
                    assert(contains_byte(all, nl()));
                    assert(split_point(all) == p + 1);
                }
                let window = vstd::slice::slice_subrange(self.carry.as_slice(), 0, p + 1);
                apply_window(stats, window);
                let tail = vstd::slice::slice_subrange(self.carry.as_slice(), p + 1, self.carry.len());
                let newcarry = to_vec(tail);
                proof {
                    assert(window@ =~= all.take(split_point(all)));
                    assert(newcarry@ =~= feed_carry(oldcarry, chunk@));
                    lemma_records_count(window@);
                    lemma_apply_lines_total(old(stats)@, records_of(window@));
                }
                self.carry = newcarry;
                Ok(())
            },
            None => {
                proof {
                    assert(!contains_byte(all, nl()));
                    assert(split_point(all) == 0);
                    assert(all.take(0) =~= Seq::<u8>::empty());
                    assert(records_of(Seq::<u8>::empty()) =~~= Seq::<Seq<u8>>::empty());
                    assert(apply_lines(stats@, Seq::<Seq<u8>>::empty()) == stats@);
                    assert(all.skip(0) =~= all);
                }
                if self.carry.len() > self.limit {
                    Err(IngestError::OversizedRecord)
                } else {
                    Ok(())
                }
            },
        }
    }

    /// Ends one input: the retained tail, if any, is a final unterminated
    /// record and is folded in; the splitter is left empty for the next
    /// input.
    pub fn finish(&mut self, stats: &mut Stats)
        requires
            old(stats).wf(),
            old(stats)@.total + old(self).carry@.len() <= u64::MAX as int,
        ensures
            final(stats).wf(),
            final(stats)@ == apply_lines(old(stats)@, records_of(old(self).carry@)),
            final(self).carry@ == Seq::<u8>::empty(),
            final(self).limit == old(self).limit,
    {
        apply_window(stats, self.carry.as_slice());
        self.carry = Vec::new();
    }
}

} // verus!

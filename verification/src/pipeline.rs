//! The stages of the log-processing pipeline, one entry at a time:
//! producing entries, filtering out the low levels, transforming the
//! message, and gathering entries into batches for the aggregator.

use vstd::prelude::*;
use crate::logs::{LogEntry, LogEntryView, LogLevel};
use crate::text::{decimal, push_char, push_decimal};

verus! {

/// How many entries each producer makes.
pub const ENTRIES_PER_PRODUCER: usize = 20;

/// How many entries a full batch holds.
pub const BATCH_SIZE: usize = 5;

/// The levels a producer cycles through, in order.
pub open spec fn level_at(k: int) -> LogLevel {
    if k == 0 {
        LogLevel::Trace
    } else if k == 1 {
        LogLevel::Debug
    } else if k == 2 {
        LogLevel::Info
    } else if k == 3 {
        LogLevel::Warn
    } else {
        LogLevel::Error
    }
}

/// The decimal representation of a signed number.
pub open spec fn signed_decimal(x: int) -> Seq<char> {
    if x < 0 {
        seq!['-'] + decimal((-x) as nat)
    } else {
        decimal(x as nat)
    }
}

/// The message of entry `id` of producer `thread_id`:
/// `producer <thread_id> entry <id>`.
pub open spec fn producer_message_text(thread_id: i32, id: u64) -> Seq<char> {
    seq!['p', 'r', 'o', 'd', 'u', 'c', 'e', 'r', ' '] + signed_decimal(thread_id as int) + seq![
        ' ',
        'e',
        'n',
        't',
        'r',
        'y',
        ' ',
    ] + decimal(id as nat)
}

/// The level of a producer's entry number `log` (counting from zero): the
/// levels from Trace to Error in turn.
pub fn producer_level(log: usize) -> (l: LogLevel)
    ensures
        l == level_at(log as int % 5),
{
    let k = log % 5;
    if k == 0 {
        LogLevel::Trace
    } else if k == 1 {
        LogLevel::Debug
    } else if k == 2 {
        LogLevel::Info
    } else if k == 3 {
        LogLevel::Warn
    } else {
        LogLevel::Error
    }
}

fn push_literal(out: &mut String, s: &str)
    ensures
        final(out)@ == old(out)@ + s@,
{
    out.append(s);
}

/// The message of entry `id` of producer `thread_id`.
pub fn producer_message(thread_id: i32, id: u64) -> (r: String)
    ensures
        r@ == producer_message_text(thread_id, id),
{
    let mut out = String::new();
    let head = "producer ";
    proof {
        reveal_strlit("producer ");
    }
    push_literal(&mut out, head);
    if thread_id < 0 {
        push_char(&mut out, '-');
        let magnitude = (0 - (thread_id as i64)) as u64;
        push_decimal(&mut out, magnitude);
    } else {
        push_decimal(&mut out, thread_id as u64);
    }
    let middle = " entry ";
    proof {
        reveal_strlit(" entry ");
    }
    push_literal(&mut out, middle);
    push_decimal(&mut out, id);
    proof {
        assert(out@ =~= producer_message_text(thread_id, id));
    }
    out
}

/// Entry number `log` of producer `thread_id`, with the id it was given and
/// the time it was made.
pub fn produce_entry(thread_id: i32, log: usize, id: u64, timestamp_ms: u64) -> (e: LogEntry)
    ensures
        e@ == (LogEntryView {
            id,
            level: level_at(log as int % 5),
            message: producer_message_text(thread_id, id),
            timestamp_ms,
        }),
{
    LogEntry::new(id, producer_level(log), producer_message(thread_id, id), timestamp_ms)
}

/// The filter forwards Info, Warn and Error entries and drops Trace and
/// Debug entries.
pub open spec fn is_forwarded(l: LogLevel) -> bool {
    l == LogLevel::Info || l == LogLevel::Warn || l == LogLevel::Error
}

/// Whether the filter stage forwards the entry.
pub fn passes_filter(entry: &LogEntry) -> (r: bool)
    ensures
        r == is_forwarded(entry@.level),
{
    match entry.level() {
        LogLevel::Info | LogLevel::Warn | LogLevel::Error => true,
        LogLevel::Trace | LogLevel::Debug => false,
    }
}

/// The Unicode upper case of a text, as std computes it.
pub uninterp spec fn uppercase(s: Seq<char>) -> Seq<char>;

/// std's `str::to_uppercase`.  Trusted: the result is std's upper case of
/// the text; the Unicode case mapping itself is left unstated.
#[verifier::external_body]
fn to_uppercase(s: &str) -> (r: String)
    ensures
        r@ == uppercase(s@),
{
    s.to_uppercase()
}

/// The suffix that the transform stage appends: ` [processed]`.
pub open spec fn processed_suffix() -> Seq<char> {
    seq![' ', '[', 'p', 'r', 'o', 'c', 'e', 's', 's', 'e', 'd', ']']
}

/// The message after the transform stage: upper-cased, then the suffix.
pub open spec fn processed_message(m: Seq<char>) -> Seq<char> {
    uppercase(m) + processed_suffix()
}

/// The transform stage: upper-cases the message and appends ` [processed]`.
pub fn transform_entry(entry: &mut LogEntry)
    ensures
        final(entry)@ == (LogEntryView { message: processed_message(old(entry)@.message), ..old(entry)@ }),
{
    let upper = to_uppercase(entry.message());
    mark_processed(entry, upper);
}

/// The rest of the transform stage, given the upper-cased message: the
/// message becomes `upper` followed by ` [processed]`.
pub fn mark_processed(entry: &mut LogEntry, upper: String)
    ensures
        final(entry)@ == (LogEntryView { message: upper@ + processed_suffix(), ..old(entry)@ }),
{
    let ghost upper_view = upper@;
    let mut message = upper;
    let suffix = " [processed]";
    proof {
        reveal_strlit(" [processed]");
    }
    push_literal(&mut message, suffix);
    proof {
        assert(message@ =~= upper_view + processed_suffix());
    }
    entry.set_message(message);
}

/// One step of batching: the entry joins the pending batch, which leaves as
/// a full batch once it holds `BATCH_SIZE` entries.  Gives the new pending
/// batch and the batch sent, if any.
pub open spec fn batch_step<A>(pending: Seq<A>, e: A) -> (Seq<A>, Option<Seq<A>>) {
    let p = pending.push(e);
    if p.len() >= BATCH_SIZE {
        (Seq::empty(), Some(p))
    } else {
        (p, None)
    }
}

/// Batching a whole stream from an empty pending batch: the pending batch
/// at the end and the batches sent on the way.
pub open spec fn batch_run<A>(s: Seq<A>) -> (Seq<A>, Seq<Seq<A>>)
    decreases s.len(),
{
    if s.len() == 0 {
        (Seq::empty(), Seq::empty())
    } else {
        let (p, sent) = batch_run(s.drop_last());
        let (p2, out) = batch_step(p, s.last());
        (
            p2,
            match out {
                Some(b) => sent.push(b),
                None => sent,
            },
        )
    }
}

/// Every batch the batcher sends for a stream, the last, partial batch
/// included when the stream ends with entries pending.
pub open spec fn batches_of<A>(s: Seq<A>) -> Seq<Seq<A>> {
    let (p, sent) = batch_run(s);
    if p.len() > 0 {
        sent.push(p)
    } else {
        sent
    }
}

/// Gathers entries into batches of `BATCH_SIZE`.
pub struct Batcher {
    pending: Vec<LogEntry>,
}

impl View for Batcher {
    type V = Seq<LogEntryView>;

    closed spec fn view(&self) -> Seq<LogEntryView> {
        self.pending@.map_values(|e: LogEntry| e@)
    }
}

pub open spec fn entries_view(v: Seq<LogEntry>) -> Seq<LogEntryView> {
    v.map_values(|e: LogEntry| e@)
}

impl Batcher {
    /// A batcher with nothing pending.
    pub fn new() -> (b: Batcher)
        ensures
            b@ == Seq::<LogEntryView>::empty(),
    {
        let b = Batcher { pending: Vec::new() };
        proof {
            assert(b@ =~= Seq::<LogEntryView>::empty());
        }
        b
    }

    /// The number of entries pending.
    pub fn pending_len(&self) -> (r: usize)
        ensures
            r == self@.len(),
    {
        self.pending.len()
    }

    /// Adds an entry; returns the batch to send when it is full.
    pub fn push(&mut self, entry: LogEntry) -> (r: Option<Vec<LogEntry>>)
        ensures
            (final(self)@, match r {
                Some(b) => Some(entries_view(b@)),
                None => None,
            }) == batch_step(old(self)@, entry@),
    {
        let ghost e = entry@;
        self.pending.push(entry);
        proof {
            assert(self@ =~= old(self)@.push(e));
        }
        if self.pending.len() >= BATCH_SIZE {
            let mut full: Vec<LogEntry> = Vec::new();
            core::mem::swap(&mut full, &mut self.pending);
            proof {
                assert(self@ =~= Seq::<LogEntryView>::empty());
                assert(entries_view(full@) =~= old(self)@.push(e));
            }
            Some(full)
        } else {
            None
        }
    }

    /// Ends the stream: returns the pending entries as a last batch, if any.
    pub fn finish(self) -> (r: Option<Vec<LogEntry>>)
        ensures
            match r {
                Some(b) => self@.len() > 0 && entries_view(b@) == self@,
                None => self@.len() == 0,
            },
    {
        if self.pending.len() > 0 {
            Some(self.pending)
        } else {
            None
        }
    }
}

/// The batches one after the other.
pub open spec fn concat_all<A>(bs: Seq<Seq<A>>) -> Seq<A>
    decreases bs.len(),
{
    if bs.len() == 0 {
        Seq::empty()
    } else {
        concat_all(bs.drop_last()) + bs.last()
    }
}

proof fn lemma_batch_run<A>(s: Seq<A>)
    ensures
        concat_all(batch_run(s).1) + batch_run(s).0 == s,
        batch_run(s).0.len() < BATCH_SIZE,
        forall|i: int| 0 <= i < batch_run(s).1.len() ==> (#[trigger] batch_run(s).1[i]).len() == BATCH_SIZE,
    decreases s.len(),
{
    if s.len() == 0 {
        assert(concat_all(batch_run(s).1) + batch_run(s).0 =~= s);
    } else {
        lemma_batch_run(s.drop_last());
        let (p, sent) = batch_run(s.drop_last());
        let p1 = p.push(s.last());
        if p1.len() >= BATCH_SIZE {
            let sent2 = sent.push(p1);
            assert(sent2.drop_last() =~= sent);
            assert(concat_all(sent2) =~= concat_all(sent) + p1);
            assert(s =~= s.drop_last().push(s.last()));
            assert(concat_all(sent2) + Seq::<A>::empty() =~= s);
            assert forall|i: int| 0 <= i < sent2.len() implies (#[trigger] sent2[i]).len() == BATCH_SIZE by {
                if i < sent.len() {
                    assert(sent2[i] == sent[i]);
                }
            }
        } else {
            assert(s =~= s.drop_last().push(s.last()));
            assert(concat_all(sent) + p1 =~= s);
        }
    }
}

/// Batching loses no entry and keeps their order: the batches, one after
/// the other, are the stream.
pub proof fn lemma_batches_keep_stream<A>(s: Seq<A>)
    ensures
        concat_all(batches_of(s)) == s,
{
    lemma_batch_run(s);
    let (p, sent) = batch_run(s);
    if p.len() > 0 {
        assert(sent.push(p).drop_last() =~= sent);
    } else {
        assert(concat_all(sent) + p =~= concat_all(sent));
    }
}

/// Every batch holds between one and `BATCH_SIZE` entries, and every batch
/// but the last is full.
pub proof fn lemma_batch_sizes<A>(s: Seq<A>)
    ensures
        forall|i: int| 0 <= i < batches_of(s).len() ==> 1 <= (#[trigger] batches_of(s)[i]).len() <= BATCH_SIZE,
        forall|i: int| 0 <= i < batches_of(s).len() - 1 ==> (#[trigger] batches_of(s)[i]).len() == BATCH_SIZE,
{
    lemma_batch_run(s);
    let (p, sent) = batch_run(s);
    if p.len() > 0 {
        assert forall|i: int| 0 <= i < sent.push(p).len() implies 1 <= (#[trigger] sent.push(p)[i]).len() <= BATCH_SIZE by {
            if i < sent.len() {
                assert(sent.push(p)[i] == sent[i]);
            }
        }
        assert forall|i: int| 0 <= i < sent.push(p).len() - 1 implies (#[trigger] sent.push(p)[i]).len() == BATCH_SIZE by {
            assert(sent.push(p)[i] == sent[i]);
        }
    }
}

/// The entries the filter forwards, in order.
pub open spec fn forwarded(s: Seq<LogEntryView>) -> Seq<LogEntryView>
    decreases s.len(),
{
    if s.len() == 0 {
        Seq::empty()
    } else {
        forwarded(s.drop_last()) + if is_forwarded(s.last().level) {
            seq![s.last()]
        } else {
            Seq::empty()
        }
    }
}

/// How many entries the filter drops.
pub open spec fn dropped_count(s: Seq<LogEntryView>) -> nat
    decreases s.len(),
{
    if s.len() == 0 {
        0
    } else {
        dropped_count(s.drop_last()) + if is_forwarded(s.last().level) {
            0nat
        } else {
            1nat
        }
    }
}

/// An entry after the transform stage.
pub open spec fn transformed(e: LogEntryView) -> LogEntryView {
    LogEntryView { message: processed_message(e.message), ..e }
}

/// How many entries the aggregator writes when the entries produced are `s`:
/// the forwarded entries, transformed and batched.
pub open spec fn written_count(s: Seq<LogEntryView>) -> nat {
    concat_all(batches_of(forwarded(s).map_values(|e: LogEntryView| transformed(e)))).len()
}

proof fn lemma_filter_splits(s: Seq<LogEntryView>)
    ensures
        forwarded(s).len() + dropped_count(s) == s.len(),
    decreases s.len(),
{
    if s.len() > 0 {
        lemma_filter_splits(s.drop_last());
    }
}

/// Every entry produced is either dropped by the filter or written by the
/// aggregator: produced == dropped + written.
pub proof fn lemma_pipeline_conserves_entries(s: Seq<LogEntryView>)
    ensures
        dropped_count(s) + written_count(s) == s.len(),
{
    let t = forwarded(s).map_values(|e: LogEntryView| transformed(e));
    lemma_batches_keep_stream(t);
    lemma_filter_splits(s);
}

} // verus!

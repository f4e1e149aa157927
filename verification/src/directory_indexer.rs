//! The indexing pipeline: filtering walked entries, accumulating eligible
//! files into fixed-size batches, and pairing flushed batches with the
//! embeddings the provider returned for them.

use vstd::prelude::*;

verus! {

use crate::embedder::EmbeddingBatch;
use crate::vector_store::EmbeddingFile;
use vstd::arithmetic::div_mod::{
    lemma_basic_div,
    lemma_div_non_zero,
    lemma_div_plus_one,
    lemma_mod_add_multiples_vanish,
    lemma_mod_self_0,
    lemma_small_mod,
};

// ---------------------------------------------------------------------------
// File filter
// ---------------------------------------------------------------------------

/// Whether `s` ends in `suffix`.
pub open spec fn seq_ends_with(s: Seq<char>, suffix: Seq<char>) -> bool {
    suffix.len() <= s.len() && s.subrange(s.len() - suffix.len(), s.len() as int) == suffix
}

/// Relies on `str::ends_with` with a `&str` pattern: it returns true exactly
/// when the characters of `suffix` are the final characters of `s`.
#[verifier::external_body]
fn str_ends_with(s: &str, suffix: &str) -> (r: bool)
    ensures
        r == seq_ends_with(s@, suffix@),
{
    s.ends_with(suffix)
}

/// The filter: only a regular file whose name ends in the source suffix but
/// not in the generated-code suffix is indexed.
pub open spec fn spec_should_index(is_file: bool, file_name: Seq<char>) -> bool {
    &&& is_file
    &&& seq_ends_with(file_name, ".go"@)
    &&& !seq_ends_with(file_name, ".pb.go"@)
}

// ---------------------------------------------------------------------------
// Data carried through the pipeline
// ---------------------------------------------------------------------------

/// One eligible file while its batch is being built.
pub struct BatchEntry {
    pub file_content: String,
    pub file_path: String,
}

/// Mathematical model of a [`BatchEntry`].
pub ghost struct EntryModel {
    pub file_content: Seq<char>,
    pub file_path: Seq<char>,
}

impl View for BatchEntry {
    type V = EntryModel;

    open spec fn view(&self) -> EntryModel {
        EntryModel { file_content: self.file_content@, file_path: self.file_path@ }
    }
}

/// One filesystem entry as the directory walk reports it. `content` holds
/// the file's text where it could be read, and `None` where reading failed.
pub struct FoundEntry {
    pub is_file: bool,
    pub file_name: String,
    pub file_path: String,
    pub content: Option<String>,
}

/// One step of a directory walk: an entry, or a traversal failure.
pub enum WalkEvent {
    Found(FoundEntry),
    WalkFailed,
}

/// Mathematical model of a [`WalkEvent`].
pub ghost enum EventModel {
    Found { is_file: bool, file_name: Seq<char>, file_path: Seq<char>, content: Option<Seq<char>> },
    WalkFailed,
}

impl View for WalkEvent {
    type V = EventModel;

    open spec fn view(&self) -> EventModel {
        match self {
            WalkEvent::Found(e) => EventModel::Found {
                is_file: e.is_file,
                file_name: e.file_name@,
                file_path: e.file_path@,
                content: match e.content {
                    Some(c) => Some(c@),
                    None => None,
                },
            },
            WalkEvent::WalkFailed => EventModel::WalkFailed,
        }
    }
}

/// Why an indexing run stopped before the walk was done. Either failure is
/// fatal to the run: nothing after the failing entry is processed.
#[derive(Clone, Copy, PartialEq, Eq, Structural, Debug)]
pub enum IndexError {
    /// A directory entry could not be walked.
    Traversal,
    /// An eligible file's content could not be read as text.
    ContentRead,
}

/// Why a provider reply could not be zipped with its batch: the provider
/// must return exactly one embedding per submitted text.
#[derive(Clone, Copy, PartialEq, Eq, Structural, Debug)]
pub struct ShapeMismatchError {
    /// How many texts the batch submitted.
    pub inputs: usize,
    /// How many embeddings the provider returned.
    pub outputs: usize,
}

/// What one indexing run produced: the batches handed over for flushing, in
/// order, and the error that stopped the walk, if any.
pub struct IndexOutcome {
    pub flushes: Vec<Vec<BatchEntry>>,
    pub error: Option<IndexError>,
}

// ---------------------------------------------------------------------------
// Models of a whole run
// ---------------------------------------------------------------------------

/// Model of a sequence of walk events.
pub open spec fn event_models(evs: Seq<WalkEvent>) -> Seq<EventModel> {
    evs.map_values(|e: WalkEvent| e@)
}

/// Model of a sequence of batch entries.
pub open spec fn entry_models(es: Seq<BatchEntry>) -> Seq<EntryModel> {
    es.map_values(|e: BatchEntry| e@)
}

/// Model of a sequence of flushed batches.
pub open spec fn flush_models(fs: Seq<Vec<BatchEntry>>) -> Seq<Seq<EntryModel>> {
    fs.map_values(|v: Vec<BatchEntry>| entry_models(v@))
}

/// Whether this event stops the run: a traversal failure, or an eligible
/// file whose content could not be read.
pub open spec fn event_bad(e: EventModel) -> bool {
    match e {
        EventModel::WalkFailed => true,
        EventModel::Found { is_file, file_name, file_path, content } => {
            spec_should_index(is_file, file_name) && content is None
        },
    }
}

/// The error a stopping event is reported as.
pub open spec fn bad_kind(e: EventModel) -> IndexError {
    if e is WalkFailed {
        IndexError::Traversal
    } else {
        IndexError::ContentRead
    }
}

/// How many events are processed before the first stopping one; the whole
/// length when none stops the run.
pub open spec fn clean_len(evs: Seq<EventModel>) -> int
    decreases evs.len(),
{
    if evs.len() == 0 {
        0
    } else if event_bad(evs.first()) {
        0
    } else {
        1 + clean_len(evs.drop_first())
    }
}

/// The batch entry one walked event contributes: one for an eligible,
/// readable file, none otherwise.
pub open spec fn elig_of_event(e: EventModel) -> Seq<EntryModel> {
    match e {
        EventModel::Found { is_file, file_name, file_path, content } => {
            if spec_should_index(is_file, file_name) && content is Some {
                seq![EntryModel { file_content: content.unwrap(), file_path: file_path }]
            } else {
                Seq::empty()
            }
        },
        EventModel::WalkFailed => Seq::empty(),
    }
}

/// The entries the filter admits, in walk order.
pub open spec fn elig_model(evs: Seq<EventModel>) -> Seq<EntryModel>
    decreases evs.len(),
{
    if evs.len() == 0 {
        Seq::empty()
    } else {
        elig_model(evs.drop_last()) + elig_of_event(evs.last())
    }
}

/// The full batches cut from `s` in order, each exactly `b` entries long.
pub open spec fn flushed_model(s: Seq<EntryModel>, b: nat) -> Seq<Seq<EntryModel>>
    decreases s.len(),
{
    if b == 0 || s.len() < b {
        Seq::empty()
    } else {
        seq![s.take(b as int)] + flushed_model(s.skip(b as int), b)
    }
}

/// What remains once the full batches are cut from `s`: fewer than `b`
/// entries, flushed only when the walk ends.
pub open spec fn pending_model(s: Seq<EntryModel>, b: nat) -> Seq<EntryModel>
    decreases s.len(),
{
    if b == 0 || s.len() < b {
        s
    } else {
        pending_model(s.skip(b as int), b)
    }
}

/// Every batch a completed run flushes: the full ones, then the final
/// partial one where the entries do not divide evenly.
pub open spec fn batches_model(s: Seq<EntryModel>, b: nat) -> Seq<Seq<EntryModel>> {
    if pending_model(s, b).len() == 0 {
        flushed_model(s, b)
    } else {
        flushed_model(s, b).push(pending_model(s, b))
    }
}

// ---------------------------------------------------------------------------
// Facts about the run models
// ---------------------------------------------------------------------------

/// The batch in progress never reaches the capacity.
proof fn lemma_pending_small(s: Seq<EntryModel>, b: nat)
    requires
        b >= 1,
    ensures
        pending_model(s, b).len() < b,
    decreases s.len(),
{
    if s.len() >= b {
        lemma_pending_small(s.skip(b as int), b);
    }
}

/// How one appended entry moves the cut between full batches and the batch
/// in progress: it completes a batch exactly when it is the `b`-th entry.
proof fn lemma_model_push(s: Seq<EntryModel>, e: EntryModel, b: nat)
    requires
        b >= 1,
    ensures
        pending_model(s, b).len() + 1 == b ==> flushed_model(s.push(e), b) == flushed_model(
            s,
            b,
        ).push(pending_model(s, b).push(e)) && pending_model(s.push(e), b) == Seq::<
            EntryModel,
        >::empty(),
        pending_model(s, b).len() + 1 != b ==> flushed_model(s.push(e), b) == flushed_model(s, b)
            && pending_model(s.push(e), b) == pending_model(s, b).push(e),
    decreases s.len(),
{
    lemma_pending_small(s, b);
    let t = s.push(e);
    let bi = b as int;
    if s.len() + 1 < b {
        assert(flushed_model(t, b) == flushed_model(s, b));
        assert(pending_model(t, b) == pending_model(s, b).push(e));
    } else if s.len() + 1 == b {
        assert(t.take(bi) =~= t);
        assert(t.skip(bi) =~= Seq::<EntryModel>::empty());
        assert(flushed_model(Seq::<EntryModel>::empty(), b) == Seq::<Seq<EntryModel>>::empty());
        assert(pending_model(Seq::<EntryModel>::empty(), b) == Seq::<EntryModel>::empty());
        assert(flushed_model(t, b) == seq![t.take(bi)] + flushed_model(t.skip(bi), b));
        assert(seq![t] + Seq::<Seq<EntryModel>>::empty() =~= seq![t]);
        assert(flushed_model(t, b) =~= seq![t]);
        assert(flushed_model(s, b) == Seq::<Seq<EntryModel>>::empty());
        assert(pending_model(s, b) == s);
        assert(flushed_model(s, b).push(pending_model(s, b).push(e)) =~= seq![t]);
        assert(pending_model(t, b) == pending_model(t.skip(bi), b));
    } else {
        let take_s = s.take(bi);
        let fs = flushed_model(s.skip(bi), b);
        assert(t.take(bi) =~= take_s);
        assert(t.skip(bi) =~= s.skip(bi).push(e));
        assert(flushed_model(s, b) == seq![take_s] + fs);
        assert(flushed_model(t, b) == seq![t.take(bi)] + flushed_model(t.skip(bi), b));
        assert(pending_model(s, b) == pending_model(s.skip(bi), b));
        assert(pending_model(t, b) == pending_model(t.skip(bi), b));
        lemma_model_push(s.skip(bi), e, b);
        if pending_model(s, b).len() + 1 == b {
            let p = pending_model(s, b);
            assert(flushed_model(t.skip(bi), b) == fs.push(p.push(e)));
            assert(seq![take_s] + fs.push(p.push(e)) =~= (seq![take_s] + fs).push(p.push(e)));
        } else {
            assert(flushed_model(t.skip(bi), b) == fs);
            assert(pending_model(t.skip(bi), b) == pending_model(s.skip(bi), b).push(e));
        }
    }
}

/// The full batches and the batch in progress together are exactly the
/// entries, in order.
proof fn lemma_flushed_cover(s: Seq<EntryModel>, b: nat)
    requires
        b >= 1,
    ensures
        flushed_model(s, b).flatten() + pending_model(s, b) == s,
    decreases s.len(),
{
    if s.len() < b {
        assert(flushed_model(s, b).flatten() + pending_model(s, b) =~= s);
    } else {
        let bi = b as int;
        lemma_flushed_cover(s.skip(bi), b);
        let fl = flushed_model(s.skip(bi), b);
        let whole = seq![s.take(bi)] + fl;
        assert(whole.first() == s.take(bi));
        assert(whole.drop_first() =~= fl);
        assert(flushed_model(s, b).flatten() == s.take(bi) + fl.flatten());
        let tail = fl.flatten() + pending_model(s.skip(bi), b);
        assert(s.take(bi) + fl.flatten() + pending_model(s.skip(bi), b) =~= s.take(bi) + tail);
        assert(tail == s.skip(bi));
        assert(s.take(bi) + s.skip(bi) =~= s);
        assert(pending_model(s, b) == pending_model(s.skip(bi), b));
    }
}

/// Every full batch holds exactly `b` entries.
proof fn lemma_flushed_sizes(s: Seq<EntryModel>, b: nat)
    requires
        b >= 1,
    ensures
        forall|i: int|
            0 <= i < flushed_model(s, b).len() ==> (#[trigger] flushed_model(s, b)[i]).len() == b,
    decreases s.len(),
{
    if s.len() >= b {
        lemma_flushed_sizes(s.skip(b as int), b);
        assert forall|i: int| 0 <= i < flushed_model(s, b).len() implies (#[trigger] flushed_model(
            s,
            b,
        )[i]).len() == b by {
            if i > 0 {
                assert(flushed_model(s, b)[i] == flushed_model(s.skip(b as int), b)[i - 1]);
            }
        }
    }
}

/// Law: every eligible entry lands in exactly one batch of a completed run,
/// in walk order and unchanged — the flushed batches concatenate back to
/// the eligible entries themselves.
pub proof fn lemma_batches_cover(s: Seq<EntryModel>, b: nat)
    requires
        b >= 1,
    ensures
        batches_model(s, b).flatten() == s,
{
    lemma_flushed_cover(s, b);
    if pending_model(s, b).len() == 0 {
        assert(flushed_model(s, b).flatten() + pending_model(s, b) =~= flushed_model(
            s,
            b,
        ).flatten());
    } else {
        broadcast use Seq::lemma_flatten_push;

        assert(batches_model(s, b).flatten() =~= s);
    }
}

/// Law: when no walked entry passes the filter, a run flushes nothing.
pub proof fn lemma_no_eligible_no_batches(evs: Seq<EventModel>, b: nat)
    requires
        b >= 1,
        elig_model(evs).len() == 0,
    ensures
        batches_model(elig_model(evs), b) == Seq::<Seq<EntryModel>>::empty(),
{
}

/// Law: with batch size `b`, `n > 0` eligible entries are flushed in
/// exactly ceil(`n` / `b`) batches; every batch but the last holds exactly
/// `b` entries, and the last holds `n % b` of them (`b` when `b` divides
/// `n`). No entries mean no flushes.
pub proof fn lemma_flush_count(s: Seq<EntryModel>, b: nat)
    requires
        b >= 1,
    ensures
        batches_model(s, b).len() == (s.len() + b - 1) as int / (b as int),
        s.len() == 0 ==> batches_model(s, b).len() == 0,
        s.len() > 0 && s.len() % b == 0 ==> batches_model(s, b).last().len() == b,
        s.len() % b != 0 ==> batches_model(s, b).last().len() == s.len() % b,
        forall|i: int|
            0 <= i < batches_model(s, b).len() - 1 ==> (#[trigger] batches_model(s, b)[i]).len()
                == b,
    decreases s.len(),
{
    lemma_flushed_sizes(s, b);
    let n = s.len() as int;
    let bi = b as int;
    if s.len() == 0 {
        lemma_basic_div(bi - 1, bi);
    } else if s.len() < b {
        assert(batches_model(s, b) =~= seq![s]);
        lemma_basic_div(n - 1, bi);
        lemma_div_plus_one(n - 1, bi);
        lemma_small_mod(s.len(), b);
    } else {
        let sk = s.skip(bi);
        lemma_flush_count(sk, b);
        lemma_pending_small(s, b);
        assert(batches_model(s, b) =~= seq![s.take(bi)] + batches_model(sk, b));
        assert(batches_model(s, b).len() == 1 + (n - 1) / bi);
        lemma_div_plus_one(n - 1, bi);
        if sk.len() == 0 {
            lemma_mod_self_0(bi);
            assert(batches_model(s, b).last() == s.take(bi));
        } else {
            lemma_div_non_zero(sk.len() as int + bi - 1, bi);
            assert(batches_model(s, b).last() == batches_model(sk, b).last());
            lemma_mod_add_multiples_vanish(sk.len() as int, bi);
            assert(s.len() % b == sk.len() % b);
        }
        assert forall|i: int| 0 <= i < batches_model(s, b).len() - 1 implies (
        #[trigger] batches_model(s, b)[i]).len() == b by {
            if i > 0 {
                assert(batches_model(s, b)[i] == batches_model(sk, b)[i - 1]);
            } else {
                assert(batches_model(s, b)[0] == s.take(bi));
            }
        }
    }
}

/// `clean_len` names the first stopping event: a prefix of good events
/// followed by a stopping one (or the end) pins it down.
proof fn lemma_clean_len_is(evs: Seq<EventModel>, n: int)
    requires
        0 <= n <= evs.len(),
        forall|j: int| 0 <= j < n ==> !event_bad(#[trigger] evs[j]),
        n < evs.len() ==> event_bad(evs[n]),
    ensures
        clean_len(evs) == n,
    decreases evs.len(),
{
    if evs.len() == 0 {
    } else if n == 0 {
        assert(event_bad(evs.first()));
    } else {
        assert(!event_bad(evs[0]));
        let tail = evs.drop_first();
        assert forall|j: int| 0 <= j < n - 1 implies !event_bad(#[trigger] tail[j]) by {
            assert(tail[j] == evs[j + 1]);
        }
        if n - 1 < tail.len() {
            assert(tail[n - 1] == evs[n]);
        }
        lemma_clean_len_is(tail, n - 1);
    }
}

/// Processing one more event extends the eligible entries by what that
/// event contributes.
proof fn lemma_elig_step(evs: Seq<EventModel>, i: int)
    requires
        0 <= i < evs.len(),
    ensures
        elig_model(evs.take(i + 1)) == elig_model(evs.take(i)) + elig_of_event(evs[i]),
{
    assert(evs.take(i + 1).drop_last() =~= evs.take(i));
    assert(evs.take(i + 1).last() == evs[i]);
}

// ---------------------------------------------------------------------------
// The indexer
// ---------------------------------------------------------------------------

/// Accumulates eligible files into batches of a fixed capacity and decides
/// when a batch is flushed. The walk, the embedding call and the storage
/// write happen outside; this type owns every decision between them.
pub struct Indexer {
    batch_size: usize,
    batch: Vec<BatchEntry>,
}

impl Indexer {
    /// The configured batch capacity.
    pub closed spec fn spec_batch_size(&self) -> nat {
        self.batch_size as nat
    }

    /// The entries accumulated and not yet flushed, in arrival order.
    pub closed spec fn pending(&self) -> Seq<EntryModel> {
        entry_models(self.batch@)
    }

    /// The accumulator is well formed: a positive capacity that the batch
    /// in progress has not yet reached.
    pub open spec fn wf(&self) -> bool {
        &&& self.spec_batch_size() >= 1
        &&& self.pending().len() < self.spec_batch_size()
    }

    /// Builds an indexer that flushes every `batch_size` eligible files.
    pub fn new(batch_size: usize) -> (r: Indexer)
        requires
            batch_size >= 1,
        ensures
            r.wf(),
            r.spec_batch_size() == batch_size,
            r.pending() == Seq::<EntryModel>::empty(),
    {
        let r = Indexer { batch_size, batch: Vec::new() };
        proof {
            assert(r.pending() =~= Seq::<EntryModel>::empty());
        }
        r
    }

    /// The configured batch capacity.
    pub fn batch_size(&self) -> (n: usize)
        ensures
            n == self.spec_batch_size(),
    {
        self.batch_size
    }

    /// Whether a walked entry is indexed: a regular file whose name carries
    /// the source suffix but not the generated-code suffix.
    pub fn should_index(&self, is_file: bool, file_name: &str) -> (r: bool)
        ensures
            r == spec_should_index(is_file, file_name@),
    {
        if !is_file {
            return false;
        }
        if !str_ends_with(file_name, ".go") {
            return false;
        }
        if str_ends_with(file_name, ".pb.go") {
            return false;
        }
        true
    }

    /// Appends one eligible file to the batch in progress. Exactly when the
    /// batch reaches capacity it is handed back for flushing and a fresh one
    /// is started.
    pub fn push_entry(&mut self, file_content: String, file_path: String) -> (r: Option<
        Vec<BatchEntry>,
    >)
        requires
            old(self).wf(),
        ensures
            final(self).wf(),
            final(self).spec_batch_size() == old(self).spec_batch_size(),
            ({
                let entry = EntryModel { file_content: file_content@, file_path: file_path@ };
                if old(self).pending().len() + 1 == old(self).spec_batch_size() {
                    &&& r is Some
                    &&& entry_models(r.unwrap()@) == old(self).pending().push(entry)
                    &&& final(self).pending() == Seq::<EntryModel>::empty()
                } else {
                    &&& r is None
                    &&& final(self).pending() == old(self).pending().push(entry)
                }
            }),
    {
        let ghost entry = EntryModel { file_content: file_content@, file_path: file_path@ };
        let ghost before = self.batch@;
        self.batch.push(BatchEntry { file_content, file_path });
        proof {
            assert(entry_models(self.batch@) =~= entry_models(before).push(entry));
        }
        if self.batch.len() == self.batch_size {
            let mut full: Vec<BatchEntry> = Vec::new();
            core::mem::swap(&mut full, &mut self.batch);
            proof {
                assert(self.pending() =~= Seq::<EntryModel>::empty());
            }
            Some(full)
        } else {
            None
        }
    }

    /// Hands back the final partial batch once the walk has ended, leaving
    /// the accumulator empty; `None` when nothing is left over.
    pub fn take_remainder(&mut self) -> (r: Option<Vec<BatchEntry>>)
        requires
            old(self).wf(),
        ensures
            final(self).wf(),
            final(self).spec_batch_size() == old(self).spec_batch_size(),
            final(self).pending() == Seq::<EntryModel>::empty(),
            old(self).pending().len() == 0 ==> r is None,
            old(self).pending().len() > 0 ==> r is Some && entry_models(r.unwrap()@) == old(
                self,
            ).pending(),
    {
        proof {
            assert(entry_models(Seq::<BatchEntry>::empty()) =~= Seq::<EntryModel>::empty());
        }
        if self.batch.len() == 0 {
            proof {
                assert(self.pending() =~= Seq::<EntryModel>::empty());
            }
            None
        } else {
            let mut rest: Vec<BatchEntry> = Vec::new();
            core::mem::swap(&mut rest, &mut self.batch);
            Some(rest)
        }
    }

    /// Runs one indexing pass over the events of a directory walk, in walk
    /// order: entries the filter admits are appended to the batch in
    /// progress, every batch that reaches capacity is flushed, and the
    /// final partial batch is flushed when the walk completes. The first
    /// traversal failure, or the first eligible file whose content could
    /// not be read, stops the run at once: the batches already flushed
    /// stand, nothing after the failing event is processed, and the
    /// unfinished batch is discarded.
    pub fn index_directory(&mut self, events: &Vec<WalkEvent>) -> (r: IndexOutcome)
        requires
            old(self).wf(),
            old(self).pending().len() == 0,
        ensures
            final(self).wf(),
            final(self).spec_batch_size() == old(self).spec_batch_size(),
            final(self).pending().len() == 0,
            ({
                let evs = event_models(events@);
                let k = clean_len(evs);
                let b = old(self).spec_batch_size();
                &&& k == evs.len() ==> r.error is None && flush_models(r.flushes@)
                    == batches_model(elig_model(evs), b)
                &&& k < evs.len() ==> r.error == Some(bad_kind(evs[k])) && flush_models(r.flushes@)
                    == flushed_model(elig_model(evs.take(k)), b)
            }),
    {
        let ghost b = old(self).spec_batch_size();
        let ghost evs = event_models(events@);
        let mut flushes: Vec<Vec<BatchEntry>> = Vec::new();
        let mut i: usize = 0;
        proof {
            assert(evs.take(0) =~= Seq::<EventModel>::empty());
            assert(flush_models(flushes@) =~= Seq::<Seq<EntryModel>>::empty());
            assert(self.pending() =~= Seq::<EntryModel>::empty());
        }
        while i < events.len()
            invariant
                self.wf(),
                self.spec_batch_size() == b,
                b == old(self).spec_batch_size(),
                b >= 1,
                i <= events@.len(),
                evs == event_models(events@),
                evs.len() == events@.len(),
                forall|j: int| 0 <= j < i ==> !event_bad(#[trigger] evs[j]),
                flush_models(flushes@) == flushed_model(elig_model(evs.take(i as int)), b),
                self.pending() == pending_model(elig_model(evs.take(i as int)), b),
            decreases events@.len() - i,
        {
            let ghost gi = i as int;
            let ev = &events[i];
            proof {
                assert(ev@ == evs[gi]);
                lemma_elig_step(evs, gi);
            }
            match ev {
                WalkEvent::WalkFailed => {
                    self.batch = Vec::new();
                    proof {
                        assert(event_bad(evs[gi]));
                        lemma_clean_len_is(evs, gi);
                        assert(self.pending() =~= Seq::<EntryModel>::empty());
                    }
                    return IndexOutcome { flushes, error: Some(IndexError::Traversal) };
                },
                WalkEvent::Found(entry) => {
                    let eligible = self.should_index(entry.is_file, entry.file_name.as_str());
                    if eligible {
                        match &entry.content {
                            None => {
                                self.batch = Vec::new();
                                proof {
                                    assert(event_bad(evs[gi]));
                                    assert(bad_kind(evs[gi]) == IndexError::ContentRead);
                                    lemma_clean_len_is(evs, gi);
                                    assert(self.pending() =~= Seq::<EntryModel>::empty());
                                }
                                return IndexOutcome {
                                    flushes,
                                    error: Some(IndexError::ContentRead),
                                };
                            },
                            Some(text) => {
                                let file_content = text.clone();
                                let file_path = entry.file_path.clone();
                                let ghost em = EntryModel {
                                    file_content: file_content@,
                                    file_path: file_path@,
                                };
                                let ghost elig_before = elig_model(evs.take(gi));
                                proof {
                                    assert(!event_bad(evs[gi]));
                                    assert(elig_of_event(evs[gi]) =~= seq![em]);
                                    assert(elig_model(evs.take(gi + 1)) =~= elig_before.push(em));
                                    lemma_model_push(elig_before, em, b);
                                }
                                let ghost fprev = flushes@;
                                let flushed = self.push_entry(file_content, file_path);
                                match flushed {
                                    Some(full) => {
                                        flushes.push(full);
                                        proof {
                                            assert(flush_models(flushes@) =~= flush_models(
                                                fprev,
                                            ).push(entry_models(full@)));
                                        }
                                    },
                                    None => {},
                                }
                            },
                        }
                    } else {
                        proof {
                            assert(!event_bad(evs[gi]));
                            assert(elig_of_event(evs[gi]) =~= Seq::<EntryModel>::empty());
                            assert(elig_model(evs.take(gi + 1)) =~= elig_model(evs.take(gi)));
                        }
                    }
                },
            }
            i = i + 1;
        }
        proof {
            assert(evs.take(i as int) =~= evs);
            lemma_clean_len_is(evs, evs.len() as int);
        }
        let ghost elig = elig_model(evs);
        let rem = self.take_remainder();
        match rem {
            Some(last) => {
                let ghost fprev = flushes@;
                flushes.push(last);
                proof {
                    assert(flush_models(flushes@) =~= flush_models(fprev).push(
                        entry_models(last@),
                    ));
                    assert(batches_model(elig, b) == flushed_model(elig, b).push(
                        pending_model(elig, b),
                    ));
                }
            },
            None => {
                proof {
                    assert(pending_model(elig, b).len() == 0);
                    assert(batches_model(elig, b) == flushed_model(elig, b));
                }
            },
        }
        IndexOutcome { flushes, error: None }
    }
}

// ---------------------------------------------------------------------------
// Pairing a flushed batch with the provider's reply
// ---------------------------------------------------------------------------

/// The content of every batch entry, in batch order: the texts one
/// embedding call submits for a flushed batch.
pub fn batch_contents(batch: &Vec<BatchEntry>) -> (r: Vec<String>)
    ensures
        r@.len() == batch@.len(),
        forall|i: int| 0 <= i < batch@.len() ==> r@[i]@ == batch@[i].file_content@,
{
    let mut r: Vec<String> = Vec::new();
    let mut i: usize = 0;
    while i < batch.len()
        invariant
            i <= batch@.len(),
            r@.len() == i,
            forall|j: int| 0 <= j < i ==> r@[j]@ == batch@[j].file_content@,
        decreases batch@.len() - i,
    {
        r.push(batch[i].file_content.clone());
        i = i + 1;
    }
    r
}

/// Zips a provider reply with the contents it was computed from, by
/// position: record `i` pairs embedding `i` with content `i`. A reply whose
/// length does not match the submitted batch is rejected whole.
pub fn zip_embeddings(embeddings: EmbeddingBatch, contents: Vec<String>) -> (r: Result<
    Vec<EmbeddingFile>,
    ShapeMismatchError,
>)
    ensures
        match r {
            Ok(files) => {
                &&& embeddings@.len() == contents@.len()
                &&& files@.len() == contents@.len()
                &&& forall|i: int|
                    0 <= i < files@.len() ==> (#[trigger] files@[i])@.embedding == embeddings@[i]@
                        && files@[i]@.content == contents@[i]@
            },
            Err(e) => {
                &&& embeddings@.len() != contents@.len()
                &&& e.inputs == contents@.len()
                &&& e.outputs == embeddings@.len()
            },
        },
{
    if embeddings.len() != contents.len() {
        return Err(ShapeMismatchError { inputs: contents.len(), outputs: embeddings.len() });
    }
    let ghost orig_e = embeddings@;
    let ghost orig_c = contents@;
    let mut embeddings = embeddings;
    let mut contents = contents;
    let mut files: Vec<EmbeddingFile> = Vec::new();
    while embeddings.len() > 0
        invariant
            embeddings@.len() == contents@.len(),
            files@.len() + embeddings@.len() == orig_e.len(),
            orig_e.len() == orig_c.len(),
            embeddings@ == orig_e.skip(files@.len() as int),
            contents@ == orig_c.skip(files@.len() as int),
            forall|i: int|
                0 <= i < files@.len() ==> (#[trigger] files@[i])@.embedding == orig_e[i]@
                    && files@[i]@.content == orig_c[i]@,
        decreases embeddings@.len(),
    {
        let ghost n = files@.len() as int;
        let e = embeddings.remove(0);
        let c = contents.remove(0);
        proof {
            assert(e == orig_e[n]);
            assert(c == orig_c[n]);
        }
        files.push(EmbeddingFile { embedding: e, content: c });
        proof {
            assert(embeddings@ =~= orig_e.skip(files@.len() as int));
            assert(contents@ =~= orig_c.skip(files@.len() as int));
        }
    }
    Ok(files)
}

} // verus!


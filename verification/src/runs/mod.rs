//! Experiment tracking. Every training and eval run is recorded in a directory of its
//! own, under the run's id:
//!
//! - `run.json`: the [`Run`] record (config snapshot, dataset provenance, status)
//! - `metrics.jsonl`: an append-only time-series of [`Metric`]s (loss curves, …)
//! - `run.log`: the raw subprocess log
//!
//! A [`RunStore`] is just a root directory; listing scans it, so there is no index to
//! keep in sync.

use crate::clock;
use crate::clock::Timestamp;
use crate::dataset;
use crate::dataset::records;
use crate::eval::{EvalReport, Ratio};
use crate::hash;
use crate::ids;
use crate::ids::Uuid;
use crate::llm::types::Float64;
use crate::model::TrainingExample;
use crate::name_map::NameMap;
use crate::numerals;
use crate::order;
use crate::sorting;
use crate::sorting::Ranked;
use crate::text;
use vstd::prelude::*;

verus! {

/// A sortable run identifier: `20260618T142233-a1b2c3`.
pub type RunId = String;

/// The record of a run, in its directory.
pub const RUN_FILE: &'static str = "run.json";

/// What the record is written to before it is put in place.
pub const RUN_TMP_FILE: &'static str = ".run.json.tmp";

pub const METRICS_FILE: &'static str = "metrics.jsonl";

pub const LOG_FILE: &'static str = "run.log";

/// The outputs of an eval run.
pub const RESULTS_FILE: &'static str = "results.jsonl";

#[derive(Debug, Clone, Copy, PartialEq, Eq, Structural)]
pub enum RunKind {
    Train,
    Eval,
    Sweep,
}

#[derive(Debug, Clone, Copy, PartialEq, Eq, Structural)]
pub enum RunStatus {
    Running,
    Succeeded,
    Failed,
    Aborted,
}

/// What a run trained or evaluated on: pins the exact dataset bytes (so a model
/// is traceable to its data) and the conversations that produced them.
#[derive(Debug)]
pub struct DatasetRef {
    pub path: String,
    /// Content hash of the dataset file: its "version" without a VCS.
    pub content_hash: String,
    pub n_examples: usize,
    pub n_edited: usize,
    pub source_conversations: Vec<String>,
}

/// The content hash of a text: sixteen hexadecimal digits.
pub open spec fn content_hash(s: Seq<char>) -> Seq<char> {
    numerals::hex(hash::fnv(vstd::utf8::encode_utf8(s)) as nat, 16)
}

/// The content hash of a text.
pub fn content_hash_text(s: &str) -> (r: String)
    ensures
        r@ == content_hash(s@),
{
    numerals::hex16_text(hash::fnv1a(s.as_bytes()))
}

/// `d` summarizes the dataset that `s` holds, at `path`, and whose examples are `examples`.
pub open spec fn is_summary(
    d: DatasetRef,
    path: Seq<char>,
    s: Seq<char>,
    examples: Seq<TrainingExample>,
) -> bool {
    let ids = dataset::split::conversation_ids(examples);
    let listed = text::views(d.source_conversations@);
    &&& d.path@ == path
    &&& d.content_hash@ == content_hash(s)
    &&& d.n_examples == examples.len()
    &&& d.n_edited == dataset::edited_count(examples)
    &&& order::increasing(listed)
    &&& forall|id: Seq<char>| #[trigger] listed.contains(id) <==> ids.contains(id)
}

impl DatasetRef {
    /// Summarize a dataset: the text that stands at `path`, and the examples in it.
    pub fn of(path: &str, s: &str, examples: &[TrainingExample]) -> (r: DatasetRef)
        ensures
            is_summary(r, path@, s@, examples@),
    {
        let ghost ids = dataset::split::conversation_ids(examples@);
        let mut n_edited: usize = 0;
        let mut conversations: NameMap<()> = NameMap::new();
        let mut i: usize = 0;
        while i < examples.len()
            invariant
                i <= examples@.len(),
                ids == dataset::split::conversation_ids(examples@),
                n_edited <= i,
                n_edited == dataset::edited_count(examples@.take(i as int)),
                forall|id: Seq<char>| #[trigger]
                    conversations.has(id) <==> exists|j: int| 0 <= j < i && #[trigger] ids[j] == id,
            decreases examples@.len() - i,
        {
            let ex = &examples[i];
            let ghost was = conversations;
            assert(examples@.take(i + 1).drop_last() =~= examples@.take(i as int));
            if ex.meta.edited {
                n_edited += 1;
            }
            conversations.insert(ex.meta.conversation_id.clone(), ());
            proof {
                assert(ids[i as int] == ex.meta.conversation_id@);
                assert forall|id: Seq<char>| #[trigger] conversations.has(id) <==> exists|j: int|
                    0 <= j < i + 1 && #[trigger] ids[j] == id by {
                    if conversations.has(id) {
                        if was.has(id) {
                            let j = choose|j: int| 0 <= j < i && #[trigger] ids[j] == id;
                            assert(ids[j] == id);
                        } else {
                            assert(ids[i as int] == id);
                        }
                    }
                    if exists|j: int| 0 <= j < i + 1 && #[trigger] ids[j] == id {
                        let j = choose|j: int| 0 <= j < i + 1 && #[trigger] ids[j] == id;
                        if j < i {
                            assert(was.has(id));
                        }
                    }
                }
            }
            i += 1;
        }
        assert(examples@.take(i as int) =~= examples@);
        let source_conversations = conversations.name_list();
        assert forall|id: Seq<char>| #[trigger] conversations.names().contains(id)
            <==> ids.contains(id) by {
            assert(conversations.has(id) <==> conversations.names().contains(id));
            if ids.contains(id) {
                let j = ids.index_of(id);
                assert(ids[j] == id);
            }
        }
        DatasetRef {
            path: path.to_owned(),
            content_hash: content_hash_text(s),
            n_examples: examples.len(),
            n_edited,
            source_conversations,
        }
    }

    /// Summarize a dataset JSONL text: hash its bytes and read provenance from
    /// each example's `meta`. What a line holds is for `decode` to say.
    pub fn from_dataset<F: Fn(&String) -> Option<TrainingExample>>(
        path: &str,
        s: &str,
        decode: F,
    ) -> (r: DatasetRef)
        requires
            forall|line: &String| call_requires(decode, (line,)),
        ensures
            exists|examples: Seq<TrainingExample>|
                #![trigger is_summary(r, path@, s@, examples)]
                records::decoded(s@, decode, examples) && is_summary(r, path@, s@, examples),
    {
        let examples = records::parse(s, decode);
        DatasetRef::of(path, s, examples.as_slice())
    }
}

/// A snapshot is named by what it holds.
pub open spec fn snapshot_name(s: Seq<char>) -> Seq<char> {
    content_hash(s) + ".jsonl"@
}

/// The name of the immutable copy of a dataset.
pub fn snapshot_file(s: &str) -> (r: String)
    ensures
        r@ == snapshot_name(s@),
{
    let mut name = content_hash_text(s);
    name.append(".jsonl");
    name
}

/// A number that a run ends with.
#[derive(Debug, Clone, Copy, PartialEq, Eq, Structural)]
pub enum Number {
    Count(usize),
    Ratio(Ratio),
    Float(Float64),
}

/// One point in a run's metric time-series, e.g. `{train_loss, val_loss}` at an iteration.
#[derive(Debug)]
pub struct Metric {
    pub step: u64,
    pub at: Timestamp,
    pub fields: NameMap<Float64>,
}

/// The points at which `field` was measured, in order: the step and the value.
pub open spec fn series_of(metrics: Seq<Metric>, field: Seq<char>) -> Seq<(u64, Float64)>
    decreases metrics.len(),
{
    if metrics.len() == 0 {
        seq![]
    } else {
        let before = series_of(metrics.drop_last(), field);
        let m = metrics.last();
        if m.fields.has(field) {
            before.push((m.step, m.fields.at(field)))
        } else {
            before
        }
    }
}

/// The points at which `field` was measured, in order.
pub fn series(metrics: &Vec<Metric>, field: &str) -> (r: Vec<(u64, Float64)>)
    ensures
        r@ == series_of(metrics@, field@),
{
    let mut out: Vec<(u64, Float64)> = Vec::new();
    let mut i: usize = 0;
    assert(metrics@.take(0) =~= seq![]);
    while i < metrics.len()
        invariant
            i <= metrics@.len(),
            out@ == series_of(metrics@.take(i as int), field@),
        decreases metrics@.len() - i,
    {
        assert(metrics@.take(i + 1).drop_last() =~= metrics@.take(i as int));
        if let Some(value) = metrics[i].fields.get(field) {
            out.push((metrics[i].step, *value));
        }
        i += 1;
    }
    assert(metrics@.take(i as int) =~= metrics@);
    out
}

/// A tracked run: its configuration snapshot, dataset provenance, and outcome.
#[derive(Debug)]
pub struct Run {
    pub id: RunId,
    pub kind: RunKind,
    pub status: RunStatus,
    pub created_at: Timestamp,
    pub finished_at: Option<Timestamp>,
    pub base_model: String,
    /// Hyperparameters as the text of a flat JSON object, for cheap listing/diffing.
    pub hyperparams: String,
    pub dataset: Option<DatasetRef>,
    /// Final/summary metrics (e.g. final train loss, min val loss).
    pub summary: NameMap<Number>,
    pub error: Option<String>,
    pub gene_version: String,
}

/// The id of a run made at a time written as `stamp`, of random digits `digits`.
pub open spec fn run_id_of(stamp: Seq<char>, digits: Seq<char>) -> Seq<char> {
    stamp + "-"@ + digits.take(6)
}

/// The id of a run made at the time `stamp`, of the random digits `digits`.
pub fn run_id(stamp: &str, digits: &str) -> (r: RunId)
    requires
        digits@.len() >= 6,
    ensures
        r@ == run_id_of(stamp@, digits@),
{
    let mut id = String::new();
    id.append(stamp);
    id.append("-");
    let all = text::chars_of(digits);
    let six = text::slice_text(&all, 0, 6);
    assert(digits@.subrange(0, 6) =~= digits@.take(6));
    id.append(six.as_str());
    assert(id@ =~= run_id_of(stamp@, digits@));
    id
}

/// `a` with anything behind it comes before `b` with anything behind it, where `a` is
/// as long as `b` and comes before it.
proof fn lemma_prefix_decides(a: Seq<char>, b: Seq<char>, x: Seq<char>, y: Seq<char>)
    requires
        a.len() == b.len(),
        order::before(a, b),
    ensures
        order::before(a + x, b + y),
    decreases a.len(),
{
    if a.len() > 0 {
        assert((a + x)[0] == a[0] && (b + y)[0] == b[0]);
        if a[0] == b[0] {
            lemma_prefix_decides(a.drop_first(), b.drop_first(), x, y);
            assert((a + x).drop_first() =~= a.drop_first() + x);
            assert((b + y).drop_first() =~= b.drop_first() + y);
        }
    }
}

/// Run ids sort by time: of two stamps that are equally long, the smaller one gives the
/// smaller id, whatever digits follow.
pub proof fn law_run_ids_sort(a: Seq<char>, b: Seq<char>, x: Seq<char>, y: Seq<char>)
    requires
        a.len() == b.len(),
        order::before(a, b),
    ensures
        order::before(run_id_of(a, x), run_id_of(b, y)),
{
    lemma_prefix_decides(a, b, "-"@ + x.take(6), "-"@ + y.take(6));
    assert(run_id_of(a, x) =~= a + ("-"@ + x.take(6)));
    assert(run_id_of(b, y) =~= b + ("-"@ + y.take(6)));
}

impl Run {
    /// A run that starts at `now`, under an id that ends with digits of `random`.
    pub fn at(
        now: Timestamp,
        random: Uuid,
        kind: RunKind,
        base_model: String,
        hyperparams: String,
        dataset: Option<DatasetRef>,
        gene_version: String,
    ) -> (r: Run)
        ensures
            r.id@ == run_id_of(clock::compact(now@.0, now@.1), ids::simple(random.bits as nat)),
            r.kind == kind,
            r.status == RunStatus::Running,
            r.created_at@ == now@,
            r.finished_at is None,
            r.base_model == base_model,
            r.hyperparams == hyperparams,
            r.dataset == dataset,
            r.summary.names().len() == 0,
            r.error is None,
            r.gene_version == gene_version,
            // The id of a run made at an earlier time, one that is written differently,
            // comes before this one.
            forall|s: int, n: int, digits: Seq<char>|
                clock::valid_time(s, n) && clock::four_digit_year(s) && clock::four_digit_year(
                    now@.0,
                ) && clock::earlier((s, n), now@) && clock::compact(s, n) != clock::compact(
                    now@.0,
                    now@.1,
                ) ==> order::before(#[trigger] run_id_of(clock::compact(s, n), digits), r.id@),
    {
        let stamp = now.compact_text();
        let digits = random.simple_text();
        let id = run_id(stamp.as_str(), digits.as_str());
        proof {
            assert forall|s: int, n: int, d: Seq<char>|
                clock::valid_time(s, n) && clock::four_digit_year(s) && clock::four_digit_year(
                    now@.0,
                ) && clock::earlier((s, n), now@) && clock::compact(s, n) != clock::compact(
                    now@.0,
                    now@.1,
                ) implies order::before(#[trigger] run_id_of(clock::compact(s, n), d), id@) by {
                order::lemma_before_total(clock::compact(s, n), stamp@);
                law_run_ids_sort(clock::compact(s, n), stamp@, d, digits@);
            }
        }
        Run {
            id,
            kind,
            status: RunStatus::Running,
            created_at: now,
            finished_at: None,
            base_model,
            hyperparams,
            dataset,
            summary: NameMap::new(),
            error: None,
            gene_version,
        }
    }

    /// Take note, at `now`, that the process of this run is gone: a run still `Running`
    /// becomes `Aborted`. Returns whether it was running.
    pub fn abort_stale(&mut self, now: Timestamp) -> (r: bool)
        ensures
            r == (old(self).status == RunStatus::Running),
            !r ==> *final(self) == *old(self),
            r ==> {
                &&& final(self).status == RunStatus::Aborted
                &&& final(self).finished_at == Some(now)
                &&& final(self).error is Some
                &&& final(self).error->0@ == match old(self).error {
                    Some(e) => e@,
                    None => "process exited before the run finished"@,
                }
                &&& *final(self) == (Run {
                    status: final(self).status,
                    finished_at: final(self).finished_at,
                    error: final(self).error,
                    ..*old(self)
                })
            },
    {
        if self.status != RunStatus::Running {
            return false;
        }
        self.status = RunStatus::Aborted;
        self.finished_at = Some(now);
        if self.error.is_none() {
            self.error = Some("process exited before the run finished".to_owned());
        }
        true
    }

    /// Take note, at `now`, of how an eval run went.
    pub fn finish_eval(&mut self, report: &EvalReport, now: Timestamp)
        ensures
            final(self).status == RunStatus::Succeeded,
            final(self).finished_at == Some(now),
            final(self).summary.has("n"@) && final(self).summary.at("n"@) == Number::Count(
                report.n,
            ),
            final(self).summary.has("passed"@) && final(self).summary.at("passed"@)
                == Number::Count(report.passed),
            match report.mean_score {
                Some(mean) => final(self).summary.has("mean_score"@) && final(self).summary.at(
                    "mean_score"@,
                ) == Number::Ratio(mean) && final(self).summary.names().len() == 3,
                None => final(self).summary.names().len() == 2,
            },
            *final(self) == (Run {
                status: final(self).status,
                finished_at: final(self).finished_at,
                summary: final(self).summary,
                ..*old(self)
            }),
    {
        proof {
            reveal_strlit("n");
            reveal_strlit("passed");
            reveal_strlit("mean_score");
            assert("n"@.len() == 1 && "passed"@.len() == 6 && "mean_score"@.len() == 10);
        }
        let mut summary: NameMap<Number> = NameMap::new();
        if let Some(mean) = report.mean_score {
            summary.insert("mean_score".to_owned(), Number::Ratio(mean));
        }
        summary.insert("n".to_owned(), Number::Count(report.n));
        summary.insert("passed".to_owned(), Number::Count(report.passed));
        self.summary = summary;
        self.status = RunStatus::Succeeded;
        self.finished_at = Some(now);
    }

    /// Take note, at `now`, of how a training run went: well, or not for the reason `error`.
    pub fn finish_train(&mut self, error: Option<String>, now: Timestamp)
        ensures
            final(self).status == if error is Some {
                RunStatus::Failed
            } else {
                RunStatus::Succeeded
            },
            final(self).finished_at == Some(now),
            final(self).error == error,
            *final(self) == (Run {
                status: final(self).status,
                finished_at: final(self).finished_at,
                error: final(self).error,
                ..*old(self)
            }),
    {
        self.status = if error.is_some() {
            RunStatus::Failed
        } else {
            RunStatus::Succeeded
        };
        self.finished_at = Some(now);
        self.error = error;
    }
}

/// When each run was made.
pub open spec fn creation_times(runs: Seq<Run>) -> Seq<Timestamp> {
    runs.map_values(|r: Run| r.created_at)
}

/// An on-disk store of runs, rooted at a directory.
#[derive(Debug)]
pub struct RunStore {
    root: String,
}

impl RunStore {
    pub closed spec fn root_dir(&self) -> Seq<char> {
        self.root@
    }

    pub fn new(root: String) -> (r: RunStore)
        ensures
            r.root_dir() == root@,
    {
        RunStore { root }
    }

    /// The directory that holds the runs.
    pub fn root(&self) -> (r: &str)
        ensures
            r@ == self.root_dir(),
    {
        self.root.as_str()
    }

    /// Mint a new run.
    pub fn create(
        &self,
        kind: RunKind,
        base_model: String,
        hyperparams: String,
        dataset: Option<DatasetRef>,
        gene_version: String,
    ) -> (r: Run)
        ensures
            exists|random: nat|
                ids::is_random(random as int) && r.id@ == run_id_of(
                    clock::compact(r.created_at@.0, r.created_at@.1),
                    #[trigger] ids::simple(random),
                ),
            r.kind == kind,
            r.status == RunStatus::Running,
            r.finished_at is None,
            r.base_model == base_model,
            r.hyperparams == hyperparams,
            r.dataset == dataset,
            r.summary.names().len() == 0,
            r.error is None,
            r.gene_version == gene_version,
    {
        let random = Uuid::new_v4();
        let r = Run::at(
            Timestamp::now(),
            random,
            kind,
            base_model,
            hyperparams,
            dataset,
            gene_version,
        );
        assert(ids::is_random(random.bits as nat as int));
        r
    }

    /// The runs found in the store, newest first.
    pub fn list(&self, found: Vec<Run>) -> (r: Vec<Run>)
        ensures
            sorting::is_sorted_copy(r@, found@, creation_times(found@)),
            r@.len() == found@.len(),
            forall|run: Run| #[trigger] r@.contains(run) <==> found@.contains(run),
            forall|p: int, q: int|
                0 <= p < q < r@.len() ==> !clock::earlier(
                    (#[trigger] r@[p]).created_at@,
                    (#[trigger] r@[q]).created_at@,
                ),
    {
        let mut times: Vec<Timestamp> = Vec::new();
        let mut i: usize = 0;
        while i < found.len()
            invariant
                i <= found@.len(),
                times@ == creation_times(found@).take(i as int),
            decreases found@.len() - i,
        {
            times.push(found[i].created_at);
            i += 1;
            assert(times@ =~= creation_times(found@).take(i as int));
        }
        assert(times@ =~= creation_times(found@));
        let order = sorting::descending(&times);
        let r = sorting::arrange(found, &order);
        assert(sorting::is_arrangement(order@, found@.len()));
        proof {
            sorting::lemma_arranged_holds(found@, order@);
            assert forall|p: int, q: int| 0 <= p < q < r@.len() implies !clock::earlier(
                (#[trigger] r@[p]).created_at@,
                (#[trigger] r@[q]).created_at@,
            ) by {
                let (a, b) = (order@[p] as int, order@[q] as int);
                assert(!times@[a].below(times@[b]));
            }
        }
        r
    }

    /// Mark any run still `Running` as `Aborted`: where this is called, a `Running` run
    /// means a previous process died mid-run. Returns the indices of those that were.
    pub fn reconcile(&self, runs: &mut Vec<Run>, now: Timestamp) -> (r: Vec<usize>)
        ensures
            final(runs)@.len() == old(runs)@.len(),
            forall|i: int| #![trigger final(runs)@[i]]
                0 <= i < final(runs)@.len() ==> reconciled(old(runs)@[i], final(runs)@[i], now),
            r@ == stale(old(runs)@, old(runs)@.len()),
    {
        let ghost before = runs@;
        let mut aborted: Vec<usize> = Vec::new();
        let mut i: usize = 0;
        while i < runs.len()
            invariant
                i <= runs@.len(),
                runs@.len() == before.len(),
                before == old(runs)@,
                forall|k: int| #![trigger runs@[k]]
                    0 <= k < i ==> reconciled(before[k], runs@[k], now),
                forall|k: int| i <= k < runs@.len() ==> #[trigger] runs@[k] == before[k],
                aborted@ == stale(before, i as nat),
            decreases runs@.len() - i,
        {
            let was_stale = runs[i].abort_stale(now);
            if was_stale {
                aborted.push(i);
            }
            i += 1;
        }
        aborted
    }
}

/// `after` is what becomes of `before` when its process is known to be gone.
pub open spec fn reconciled(before: Run, after: Run, now: Timestamp) -> bool {
    if before.status == RunStatus::Running {
        &&& after.status == RunStatus::Aborted
        &&& after.finished_at == Some(now)
        &&& after.error is Some
        &&& after.error->0@ == match before.error {
            Some(e) => e@,
            None => "process exited before the run finished"@,
        }
        &&& after == (Run {
            status: after.status,
            finished_at: after.finished_at,
            error: after.error,
            ..before
        })
    } else {
        after == before
    }
}

/// The first `n` positions at which a run is still running.
pub open spec fn stale(runs: Seq<Run>, n: nat) -> Seq<usize>
    decreases n,
{
    if n == 0 {
        seq![]
    } else {
        let before = stale(runs, (n - 1) as nat);
        if runs[n - 1].status == RunStatus::Running {
            before.push((n - 1) as usize)
        } else {
            before
        }
    }
}

/// Reconciling leaves nothing running, and a second time finds nothing to do.
pub proof fn law_reconcile_settles(
    before: Seq<Run>,
    after: Seq<Run>,
    again: Seq<Run>,
    t0: Timestamp,
    t1: Timestamp,
)
    requires
        before.len() == after.len(),
        after.len() == again.len(),
        forall|i: int|
            #![trigger after[i]]
            0 <= i < after.len() ==> reconciled(before[i], after[i], t0),
        forall|i: int|
            #![trigger again[i]]
            0 <= i < again.len() ==> reconciled(after[i], again[i], t1),
    ensures
        forall|i: int| 0 <= i < after.len() ==> (#[trigger] after[i]).status != RunStatus::Running,
        again == after,
        stale(after, after.len()).len() == 0,
{
    assert forall|i: int| 0 <= i < after.len() implies (#[trigger] after[i]).status
        != RunStatus::Running by {
        assert(reconciled(before[i], after[i], t0));
    }
    assert forall|i: int| 0 <= i < after.len() implies again[i] == after[i] by {
        assert(reconciled(after[i], again[i], t1));
    }
    assert(again =~= after);
    lemma_none_stale(after, after.len());
}

proof fn lemma_none_stale(runs: Seq<Run>, n: nat)
    requires
        n <= runs.len(),
        forall|i: int| 0 <= i < runs.len() ==> (#[trigger] runs[i]).status != RunStatus::Running,
    ensures
        stale(runs, n).len() == 0,
    decreases n,
{
    if n > 0 {
        lemma_none_stale(runs, (n - 1) as nat);
    }
}

/// The runs that are taken for stale are those still running, each once and in order.
pub proof fn law_stale_are_the_running(runs: Seq<Run>, n: nat)
    requires
        n <= runs.len(),
        runs.len() <= usize::MAX,
    ensures
        forall|i: usize| #[trigger]
            stale(runs, n).contains(i) <==> i < n && runs[i as int].status == RunStatus::Running,
        forall|p: int, q: int|
            0 <= p < q < stale(runs, n).len() ==> #[trigger] stale(runs, n)[p]
                < #[trigger] stale(runs, n)[q],
    decreases n,
{
    if n > 0 {
        law_stale_are_the_running(runs, (n - 1) as nat);
        let before = stale(runs, (n - 1) as nat);
        let now = stale(runs, n);
        let last = (n - 1) as usize;
        assert forall|i: usize| #[trigger] now.contains(i) <==> i < n && runs[i as int].status
            == RunStatus::Running by {
            if now.contains(i) {
                let p = now.index_of(i);
                if p < before.len() {
                    assert(before.contains(before[p]));
                }
            }
            if before.contains(i) {
                let p = before.index_of(i);
                assert(now[p] == i);
            }
            if i == last && runs[i as int].status == RunStatus::Running {
                assert(now[before.len() as int] == i);
            }
        }
        assert forall|p: int, q: int| 0 <= p < q < now.len() implies #[trigger] now[p]
            < #[trigger] now[q] by {
            assert(p < before.len());
            assert(before.contains(before[p]));
        }
    }
}

/// A curve shows every point at which its field was measured, in order: the curve of two
/// stretches is the one and then the other, and a point is its step and its value, or
/// nothing where the field was not measured.
pub proof fn law_series_is_complete(
    a: Seq<Metric>,
    b: Seq<Metric>,
    point: Metric,
    field: Seq<char>,
)
    ensures
        series_of(a + b, field) == series_of(a, field) + series_of(b, field),
        point.fields.has(field) ==> series_of(seq![point], field) == seq![
            (point.step, point.fields.at(field)),
        ],
        !point.fields.has(field) ==> series_of(seq![point], field).len() == 0,
    decreases b.len(),
{
    reveal_with_fuel(series_of, 2);
    assert(seq![point].drop_last() =~= seq![]);
    if point.fields.has(field) {
        assert(series_of(seq![point], field) =~= seq![(point.step, point.fields.at(field))]);
    }
    if b.len() == 0 {
        assert(a + b =~= a);
    } else {
        law_series_is_complete(a, b.drop_last(), point, field);
        assert((a + b).drop_last() =~= a + b.drop_last());
    }
    assert(series_of(a + b, field) =~= series_of(a, field) + series_of(b, field));
}

/// A run id is its stamp, a hyphen and six digits: two runs of one stamp have one id if and
/// only if their digits start alike.
pub proof fn law_run_ids_differ(stamp: Seq<char>, x: Seq<char>, y: Seq<char>)
    requires
        x.len() >= 6,
        y.len() >= 6,
    ensures
        run_id_of(stamp, x).len() == stamp.len() + 7,
        run_id_of(stamp, x).take(stamp.len() as int) == stamp,
        run_id_of(stamp, x).skip(stamp.len() as int + 1) == x.take(6),
        run_id_of(stamp, x) == run_id_of(stamp, y) <==> x.take(6) == y.take(6),
{
    reveal_strlit("-");
    let n = stamp.len() as int;
    assert(run_id_of(stamp, x).take(n) =~= stamp);
    assert(run_id_of(stamp, x).skip(n + 1) =~= x.take(6));
    assert(run_id_of(stamp, y).skip(n + 1) =~= y.take(6));
}

/// Only a run that was still running is touched: it is aborted, at the time given, with a
/// word on why unless there was one; its id, its configuration and its data stay.
pub proof fn law_only_running_runs_are_touched(before: Run, after: Run, now: Timestamp)
    requires
        reconciled(before, after, now),
    ensures
        before.status != RunStatus::Running ==> after == before,
        before.status == RunStatus::Running ==> after.status == RunStatus::Aborted
            && after.finished_at == Some(now) && after.error is Some,
        before.status == RunStatus::Running && before.error is Some ==> after.error->0@
            == before.error->0@,
        after.id == before.id,
        after.kind == before.kind,
        after.created_at == before.created_at,
        after.base_model == before.base_model,
        after.hyperparams == before.hyperparams,
        after.dataset == before.dataset,
        after.summary == before.summary,
        after.gene_version == before.gene_version,
{
}

} // verus!

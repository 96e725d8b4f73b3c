//! Running tasks wave by wave: a wave starts when the one before has ended, and not at all once
//! something has failed.
use vstd::prelude::*;
use vstd::string::*;

use crate::config::{in_wave, one_wave_each, task_views, waves_of, TaskDef, TaskView};
use crate::coordinator::task_names;
use crate::meta::{fresh_meta, MetaView, TaskMeta, TaskStatus};
use crate::names::NameSet;
use crate::plan::{wave_number, wave_number_of};
use crate::runner::{ReportView, TaskRunReport};
use crate::text::{opt_text, texts};
use crate::time::Timestamp;

verus! {

/// Why a wave is not started, if it is not.
pub open spec fn skip_reason(wave_failed: bool, cancelled: bool) -> Option<Seq<char>> {
    if cancelled {
        Some("cancelled by user"@)
    } else if wave_failed {
        Some("skipped: previous wave had failures"@)
    } else {
        None
    }
}

/// Why a wave is not started, if it is not.
pub fn why_skipped(wave_failed: bool, cancelled: bool) -> (r: Option<&'static str>)
    ensures
        match r {
            Some(reason) => skip_reason(wave_failed, cancelled) == Some(reason@),
            None => skip_reason(wave_failed, cancelled) is None,
        },
{
    if cancelled {
        Some("cancelled by user")
    } else if wave_failed {
        Some("skipped: previous wave had failures")
    } else {
        None
    }
}

/// The status of a task whose wave is not started.
pub open spec fn skipped_meta(
    task: TaskView,
    wave: int,
    reason: Seq<char>,
    created: Timestamp,
    at: Timestamp,
) -> MetaView {
    MetaView {
        wave: Some(wave_number(wave)),
        status: TaskStatus::Cancelled,
        error: Some(reason),
        end_time: Some(at),
        ..fresh_meta(task.name, task.cwd, task.prompt, created)
    }
}

/// The status of a task whose wave is not started.
pub fn skip_task(
    task: &TaskDef,
    wave: usize,
    reason: &str,
    created: Timestamp,
    at: Timestamp,
) -> (r: TaskMeta)
    ensures
        r@ == skipped_meta(task@, wave as int, reason@, created, at),
{
    let mut meta = TaskMeta::new_at(
        task.name.as_str(),
        task.cwd.as_str(),
        task.prompt.as_str(),
        created,
    );
    meta.wave = Some(wave_number_of(wave));
    meta.finish(TaskStatus::Cancelled, Some(reason.to_owned()), at);
    meta
}

/// Whether the statuses are those of tasks whose wave is not started, one for each.
pub open spec fn skipped_metas(
    tasks: Seq<TaskView>,
    wave: int,
    reason: Seq<char>,
    metas: Seq<TaskMeta>,
) -> bool {
    &&& metas.len() == tasks.len()
    &&& forall|i: int|
        0 <= i < tasks.len() ==> (#[trigger] metas[i]).end_time is Some && metas[i]@
            == skipped_meta(
            tasks[i],
            wave,
            reason,
            metas[i].start_time,
            metas[i].end_time->0,
        )
}

/// The statuses of the tasks of a wave that is not started.
pub fn skip_tasks(tasks: &Vec<TaskDef>, wave: usize, reason: &str) -> (r: Vec<TaskMeta>)
    ensures
        skipped_metas(task_views(tasks@), wave as int, reason@, r@),
{
    let mut metas: Vec<TaskMeta> = Vec::new();
    let mut i: usize = 0;
    let ghost all = task_views(tasks@);
    while i < tasks.len()
        invariant
            i <= tasks@.len(),
            all == task_views(tasks@),
            skipped_metas(all.take(i as int), wave as int, reason@, metas@),
        decreases tasks@.len() - i,
    {
        metas.push(skip_task(&tasks[i], wave, reason, Timestamp::now(), Timestamp::now()));
        i = i + 1;
    }
    assert(all.take(i as int) =~= all);
    metas
}

/// Ends a task that broke down without a report.
pub fn note_panic(meta: &mut TaskMeta, at: Timestamp)
    ensures
        final(meta)@ == (MetaView {
            status: TaskStatus::Failed,
            error: Some("task panicked"@),
            end_time: Some(at),
            ..old(meta)@
        }),
{
    meta.finish(TaskStatus::Failed, Some("task panicked".to_owned()), at);
}

/// A wave under way: the names of its tasks, and of those that have reported.
#[derive(Debug)]
pub struct OpenWave {
    pub names: Vec<String>,
    pub reported: NameSet,
}

/// The contents of a wave under way.
#[verifier::ext_equal]
pub struct OpenWaveView {
    pub names: Seq<Seq<char>>,
    pub reported: Set<Seq<char>>,
}

impl View for OpenWave {
    type V = OpenWaveView;

    open spec fn view(&self) -> OpenWaveView {
        OpenWaveView { names: texts(self.names@), reported: self.reported@ }
    }
}

/// Those of the names that are not in the set, in their order.
pub open spec fn missing(names: Seq<Seq<char>>, reported: Set<Seq<char>>) -> Seq<Seq<char>>
    decreases names.len(),
{
    if names.len() == 0 {
        seq![]
    } else if reported.contains(names.last()) {
        missing(names.drop_last(), reported)
    } else {
        missing(names.drop_last(), reported).push(names.last())
    }
}

impl OpenWave {
    /// A wave whose tasks start now.
    pub fn start(tasks: &Vec<TaskDef>) -> (r: OpenWave)
        ensures
            r@ == (OpenWaveView {
                names: task_names(task_views(tasks@)),
                reported: Set::empty(),
            }),
    {
        let mut names: Vec<String> = Vec::new();
        let mut i: usize = 0;
        while i < tasks.len()
            invariant
                i <= tasks@.len(),
                names@.len() == i,
                forall|j: int| 0 <= j < i ==> (#[trigger] names@[j])@ == tasks@[j].name@,
            decreases tasks@.len() - i,
        {
            names.push(tasks[i].name.clone());
            i = i + 1;
        }
        assert(texts(names@) =~= task_names(task_views(tasks@)));
        OpenWave { names, reported: NameSet::new() }
    }

    /// The tasks that have not reported, in their order.
    pub fn missing_names(&self) -> (r: Vec<String>)
        ensures
            texts(r@) == missing(self@.names, self@.reported),
    {
        let ghost all = texts(self.names@);
        let mut left: Vec<String> = Vec::new();
        let mut i: usize = 0;
        assert(texts(left@) =~= missing(all.take(0), self.reported@));
        while i < self.names.len()
            invariant
                i <= self.names@.len(),
                all == texts(self.names@),
                texts(left@) == missing(all.take(i as int), self.reported@),
            decreases self.names@.len() - i,
        {
            let ghost before = texts(left@);
            proof {
                assert(all.take(i + 1).drop_last() =~= all.take(i as int));
                assert(all.take(i + 1).last() == self.names@[i as int]@);
            }
            if !self.reported.contains(self.names[i].as_str()) {
                left.push(self.names[i].clone());
                assert(texts(left@) =~= before.push(self.names@[i as int]@));
            }
            i = i + 1;
        }
        assert(all.take(i as int) =~= all);
        left
    }
}

/// How a run wave by wave has gone so far.
#[derive(Clone, Copy, Debug, PartialEq, Eq, Structural)]
pub struct WaveRun {
    /// Whether everything went well.
    pub all_ok: bool,
    /// Whether a task failed, so that no further wave starts.
    pub wave_failed: bool,
}

/// How a run has gone after a task of the wave under way has ended; one that broke down gives no
/// report.
pub open spec fn after_result(s: WaveRun, result: Option<ReportView>) -> WaveRun {
    match result {
        Some(report) => WaveRun {
            all_ok: s.all_ok && report.status != TaskStatus::Failed && report.status
                != TaskStatus::Cancelled,
            wave_failed: s.wave_failed || report.status == TaskStatus::Failed,
        },
        None => WaveRun { all_ok: false, wave_failed: true },
    }
}

/// A wave under way after one of its tasks has ended.
pub open spec fn with_result(w: OpenWaveView, result: Option<ReportView>) -> OpenWaveView {
    match result {
        Some(report) => OpenWaveView { reported: w.reported.insert(report.name), ..w },
        None => w,
    }
}

/// How a run has gone after a wave of which some tasks never reported.
pub open spec fn after_wave(s: WaveRun, w: OpenWaveView) -> WaveRun {
    if missing(w.names, w.reported).len() > 0 {
        WaveRun { all_ok: false, wave_failed: true }
    } else {
        s
    }
}

/// The contents of a report, if there is one.
pub open spec fn opt_report(r: Option<TaskRunReport>) -> Option<ReportView> {
    match r {
        Some(report) => Some(report@),
        None => None,
    }
}

impl WaveRun {
    /// A run that starts.
    pub fn new() -> (r: WaveRun)
        ensures
            r == (WaveRun { all_ok: true, wave_failed: false }),
    {
        WaveRun { all_ok: true, wave_failed: false }
    }

    /// Skips a wave for a reason; gives the statuses to write for its tasks.
    pub fn skip_wave(&mut self, tasks: &Vec<TaskDef>, wave: usize, reason: &str) -> (r: Vec<
        TaskMeta,
    >)
        ensures
            *final(self) == (WaveRun { all_ok: false, ..*old(self) }),
            skipped_metas(task_views(tasks@), wave as int, reason@, r@),
    {
        self.all_ok = false;
        skip_tasks(tasks, wave, reason)
    }

    /// Takes in that a task of the wave under way has ended, with a report or without.
    pub fn record(&mut self, open: &mut OpenWave, result: Option<TaskRunReport>)
        ensures
            *final(self) == after_result(*old(self), opt_report(result)),
            final(open)@ == with_result(old(open)@, opt_report(result)),
    {
        match result {
            Some(report) => {
                match report.status {
                    TaskStatus::Failed => {
                        self.wave_failed = true;
                        self.all_ok = false;
                    },
                    TaskStatus::Cancelled => {
                        self.all_ok = false;
                    },
                    _ => {},
                }
                let _ = open.reported.insert(report.name.as_str());
            },
            None => {
                self.wave_failed = true;
                self.all_ok = false;
            },
        }
    }

    /// Ends the wave under way; gives the names of the tasks that broke down without a report.
    pub fn close_wave(&mut self, open: &OpenWave) -> (r: Vec<String>)
        ensures
            *final(self) == after_wave(*old(self), open@),
            texts(r@) == missing(open@.names, open@.reported),
    {
        let left = open.missing_names();
        assert(texts(left@).len() == left@.len());
        if left.len() > 0 {
            self.wave_failed = true;
            self.all_ok = false;
        }
        left
    }
}

/// How a run, and a wave under way, stand after some of its tasks have ended.
pub open spec fn after_results(s: WaveRun, w: OpenWaveView, results: Seq<Option<ReportView>>) -> (
    WaveRun,
    OpenWaveView,
)
    decreases results.len(),
{
    if results.len() == 0 {
        (s, w)
    } else {
        let (t, v) = after_results(s, w, results.drop_last());
        (after_result(t, results.last()), with_result(v, results.last()))
    }
}

/// How a run has gone after a whole wave.
pub open spec fn wave_outcome(
    s: WaveRun,
    names: Seq<Seq<char>>,
    results: Seq<Option<ReportView>>,
) -> WaveRun {
    let (t, v) = after_results(s, OpenWaveView { names, reported: Set::empty() }, results);
    after_wave(t, v)
}

/// Whether a task ended well.
pub open spec fn went_well(result: Option<ReportView>) -> bool {
    match result {
        Some(report) => report.status != TaskStatus::Failed && report.status
            != TaskStatus::Cancelled,
        None => false,
    }
}

/// Whether a task reported under this name.
pub open spec fn reports_name(result: Option<ReportView>, name: Seq<char>) -> bool {
    match result {
        Some(report) => report.name == name,
        None => false,
    }
}

/// The tasks that are left over are those that have not reported.
pub proof fn missing_are_the_unreported(
    names: Seq<Seq<char>>,
    reported: Set<Seq<char>>,
    name: Seq<char>,
)
    ensures
        missing(names, reported).contains(name) <==> names.contains(name) && !reported.contains(
            name,
        ),
{
    lemma_missing(names, reported);
    assert(names.contains(name) == names.contains(name));
}

proof fn lemma_missing(names: Seq<Seq<char>>, reported: Set<Seq<char>>)
    ensures
        missing(names, reported).len() == 0 <==> forall|i: int|
            0 <= i < names.len() ==> reported.contains(#[trigger] names[i]),
        forall|x: Seq<char>|
            missing(names, reported).contains(x) <==> #[trigger] names.contains(x)
                && !reported.contains(x),
    decreases names.len(),
{
    let all = missing(names, reported);
    if names.len() > 0 {
        let before = names.drop_last();
        let last = names.last();
        lemma_missing(before, reported);
        let some = missing(before, reported);
        assert(names =~= before.push(last));
        assert forall|x: Seq<char>| all.contains(x) <==> #[trigger] names.contains(x)
            && !reported.contains(x) by {
            if names.contains(x) && x != last {
                let i = choose|i: int| 0 <= i < names.len() && names[i] == x;
                assert(before[i] == x);
                assert(before.contains(x));
            }
            if before.contains(x) {
                let i = choose|i: int| 0 <= i < before.len() && before[i] == x;
                assert(names[i] == x);
            }
            if all.contains(x) && x != last {
                let i = choose|i: int| 0 <= i < all.len() && all[i] == x;
                assert(some[i] == x);
                assert(some.contains(x));
                assert(before.contains(x));
            }
            if some.contains(x) {
                let i = choose|i: int| 0 <= i < some.len() && some[i] == x;
                assert(all[i] == x);
                assert(before.contains(x));
            }
            assert(names[names.len() - 1] == last);
            if !reported.contains(last) {
                assert(all[all.len() - 1] == last);
            }
        }
        if all.len() == 0 {
            assert forall|i: int| 0 <= i < names.len() implies reported.contains(
                #[trigger] names[i],
            ) by {
                if i < before.len() {
                    assert(names[i] == before[i]);
                }
            }
        }
        if forall|i: int| 0 <= i < names.len() ==> reported.contains(#[trigger] names[i]) {
            assert forall|i: int| 0 <= i < before.len() implies reported.contains(
                #[trigger] before[i],
            ) by {
                assert(names[i] == before[i]);
            }
            assert(reported.contains(names[names.len() - 1]));
        }
    } else {
        assert forall|x: Seq<char>| all.contains(x) <==> #[trigger] names.contains(x)
            && !reported.contains(x) by {
            assert(!names.contains(x));
        }
    }
}

proof fn lemma_results(s: WaveRun, w: OpenWaveView, results: Seq<Option<ReportView>>)
    ensures
        after_results(s, w, results).1.names == w.names,
        forall|name: Seq<char>| #[trigger]
            after_results(s, w, results).1.reported.contains(name) <==> w.reported.contains(name)
                || exists|i: int|
                0 <= i < results.len() && reports_name(#[trigger] results[i], name),
        after_results(s, w, results).0.all_ok <==> s.all_ok && forall|i: int|
            0 <= i < results.len() ==> went_well(#[trigger] results[i]),
        s.wave_failed ==> after_results(s, w, results).0.wave_failed,
    decreases results.len(),
{
    if results.len() > 0 {
        let before = results.drop_last();
        let last = results.last();
        lemma_results(s, w, before);
        let (t, v) = after_results(s, w, before);
        let (t2, v2) = after_results(s, w, results);
        assert(results[results.len() - 1] == last);
        assert forall|name: Seq<char>| #[trigger] v2.reported.contains(name) <==> w.reported.contains(
            name,
        ) || exists|i: int| 0 <= i < results.len() && reports_name(#[trigger] results[i], name) by {
            if v.reported.contains(name) && !w.reported.contains(name) {
                let i = choose|i: int|
                    0 <= i < before.len() && reports_name(#[trigger] before[i], name);
                assert(reports_name(results[i], name));
            }
            if reports_name(last, name) {
                assert(reports_name(results[results.len() - 1], name));
            }
            if exists|i: int| 0 <= i < results.len() && reports_name(#[trigger] results[i], name) {
                let i = choose|i: int|
                    0 <= i < results.len() && reports_name(#[trigger] results[i], name);
                if i < before.len() {
                    assert(reports_name(before[i], name));
                    assert(v.reported.contains(name));
                }
            }
        }
        if t2.all_ok {
            assert forall|i: int| 0 <= i < results.len() implies went_well(#[trigger] results[i]) by {
                if i < before.len() {
                    assert(went_well(before[i]));
                }
            }
        }
        if s.all_ok && forall|i: int| 0 <= i < results.len() ==> went_well(#[trigger] results[i]) {
            assert forall|i: int| 0 <= i < before.len() implies went_well(#[trigger] before[i]) by {
                assert(results[i] == before[i]);
            }
        }
    }
}

/// A wave leaves a run in good order just where it was before, every result of the wave is good,
/// and every task of the wave has reported.
pub proof fn good_waves_have_only_good_results(
    s: WaveRun,
    names: Seq<Seq<char>>,
    results: Seq<Option<ReportView>>,
)
    ensures
        wave_outcome(s, names, results).all_ok <==> {
            &&& s.all_ok
            &&& forall|i: int| 0 <= i < results.len() ==> went_well(#[trigger] results[i])
            &&& forall|n: int|
                0 <= n < names.len() ==> exists|i: int|
                    0 <= i < results.len() && reports_name(
                        #[trigger] results[i],
                        #[trigger] names[n],
                    )
        },
{
    let w = OpenWaveView { names, reported: Set::<Seq<char>>::empty() };
    lemma_results(s, w, results);
    let (t, v) = after_results(s, w, results);
    lemma_missing(v.names, v.reported);
    if wave_outcome(s, names, results).all_ok {
        assert forall|n: int| 0 <= n < names.len() implies exists|i: int|
            0 <= i < results.len() && reports_name(#[trigger] results[i], #[trigger] names[n]) by {
            assert(v.reported.contains(names[n]));
        }
    }
    if s.all_ok && (forall|i: int| 0 <= i < results.len() ==> went_well(#[trigger] results[i]))
        && (forall|n: int|
        0 <= n < names.len() ==> exists|i: int|
            0 <= i < results.len() && reports_name(#[trigger] results[i], #[trigger] names[n])) {
        assert forall|n: int| 0 <= n < names.len() implies v.reported.contains(
            #[trigger] names[n],
        ) by {
            let i = choose|i: int|
                0 <= i < results.len() && reports_name(#[trigger] results[i], names[n]);
            assert(reports_name(results[i], names[n]));
        }
    }
}

/// Once a task has failed or broken down, no further wave starts, whatever comes.
pub proof fn failures_stop_the_run(
    s: WaveRun,
    names: Seq<Seq<char>>,
    results: Seq<Option<ReportView>>,
    i: int,
    cancelled: bool,
)
    requires
        s.wave_failed || (0 <= i < results.len() && match results[i] {
            Some(report) => report.status == TaskStatus::Failed,
            None => true,
        }),
    ensures
        wave_outcome(s, names, results).wave_failed,
        skip_reason(wave_outcome(s, names, results).wave_failed, cancelled) is Some,
{
    let w = OpenWaveView { names, reported: Set::<Seq<char>>::empty() };
    lemma_results(s, w, results);
    if !s.wave_failed {
        let upto = results.take(i + 1);
        assert(upto.drop_last() =~= results.take(i));
        assert(upto.last() == results[i]);
        assert(after_results(s, w, upto).0.wave_failed);
        lemma_failed_stays(s, w, results, i + 1);
    }
}

proof fn lemma_failed_stays(s: WaveRun, w: OpenWaveView, results: Seq<Option<ReportView>>, n: int)
    requires
        0 <= n <= results.len(),
        after_results(s, w, results.take(n)).0.wave_failed,
    ensures
        after_results(s, w, results).0.wave_failed,
    decreases results.len(),
{
    if n < results.len() {
        let before = results.drop_last();
        assert(before.take(n) =~= results.take(n));
        lemma_failed_stays(s, w, before, n);
    } else {
        assert(results.take(n) =~= results);
    }
}

/// What becomes of one wave of a run: its tasks, how they end if it is started, and whether the run
/// is cancelled when its turn comes.
pub struct WaveTrace {
    pub tasks: Seq<TaskView>,
    pub results: Seq<Option<ReportView>>,
    pub cancelled: bool,
}

/// The tasks of waves, wave by wave.
pub open spec fn traced_tasks(waves: Seq<WaveTrace>) -> Seq<Seq<TaskView>> {
    waves.map_values(|w: WaveTrace| w.tasks)
}

/// How a run has gone after the turn of one more wave, which is skipped or runs to its end.
pub open spec fn after_turn(s: WaveRun, w: WaveTrace) -> WaveRun {
    if skip_reason(s.wave_failed, w.cancelled) is Some {
        WaveRun { all_ok: false, ..s }
    } else {
        wave_outcome(s, task_names(w.tasks), w.results)
    }
}

/// How a run has gone after all these waves had their turn.
pub open spec fn run_outcome(waves: Seq<WaveTrace>) -> WaveRun
    decreases waves.len(),
{
    if waves.len() == 0 {
        WaveRun { all_ok: true, wave_failed: false }
    } else {
        after_turn(run_outcome(waves.drop_last()), waves.last())
    }
}

/// Whether wave `j` is started when its turn comes.
pub open spec fn wave_started(waves: Seq<WaveTrace>, j: int) -> bool {
    skip_reason(run_outcome(waves.take(j)).wave_failed, waves[j].cancelled) is None
}

/// Whether one of the results is a report under this name.
pub open spec fn reported_in(results: Seq<Option<ReportView>>, name: Seq<char>) -> bool {
    exists|i: int| 0 <= i < results.len() && reports_name(#[trigger] results[i], name)
}

/// Whether every task of a wave has reported, and every result of the wave is good.
pub open spec fn wave_went_well(w: WaveTrace) -> bool {
    &&& forall|i: int| 0 <= i < w.results.len() ==> went_well(#[trigger] w.results[i])
    &&& forall|n: int|
        0 <= n < w.tasks.len() ==> reported_in(w.results, (#[trigger] w.tasks[n]).name)
}

/// Whether a task failed or broke down.
pub open spec fn result_failed(result: Option<ReportView>) -> bool {
    match result {
        Some(report) => report.status == TaskStatus::Failed,
        None => true,
    }
}

/// Whether a task of a wave failed or broke down, or never reported.
pub open spec fn wave_fails(w: WaveTrace) -> bool {
    ||| exists|i: int| 0 <= i < w.results.len() && result_failed(#[trigger] w.results[i])
    ||| exists|n: int|
        0 <= n < w.tasks.len() && !reported_in(w.results, (#[trigger] w.tasks[n]).name)
}

proof fn lemma_failed_after_results(s: WaveRun, w: OpenWaveView, results: Seq<Option<ReportView>>)
    ensures
        after_results(s, w, results).0.wave_failed <==> s.wave_failed || exists|i: int|
            0 <= i < results.len() && result_failed(#[trigger] results[i]),
    decreases results.len(),
{
    if results.len() > 0 {
        let before = results.drop_last();
        lemma_failed_after_results(s, w, before);
        if exists|i: int| 0 <= i < before.len() && result_failed(#[trigger] before[i]) {
            let i = choose|i: int| 0 <= i < before.len() && result_failed(#[trigger] before[i]);
            assert(result_failed(results[i]));
        }
        if result_failed(results.last()) {
            assert(result_failed(results[results.len() - 1]));
        }
        if exists|i: int| 0 <= i < results.len() && result_failed(#[trigger] results[i]) {
            let i = choose|i: int| 0 <= i < results.len() && result_failed(#[trigger] results[i]);
            if i < before.len() {
                assert(result_failed(before[i]));
            }
        }
    }
}

/// A wave that runs spoils a run just where it did not go well, and stops it just where it fails.
proof fn lemma_wave_outcome(s: WaveRun, w: WaveTrace)
    ensures
        wave_outcome(s, task_names(w.tasks), w.results).all_ok == (s.all_ok && wave_went_well(w)),
        wave_outcome(s, task_names(w.tasks), w.results).wave_failed == (s.wave_failed || wave_fails(
            w,
        )),
{
    let names = task_names(w.tasks);
    let open = OpenWaveView { names, reported: Set::<Seq<char>>::empty() };
    let (t, v) = after_results(s, open, w.results);
    lemma_results(s, open, w.results);
    lemma_failed_after_results(s, open, w.results);
    lemma_missing(names, v.reported);
    assert forall|n: int| 0 <= n < names.len() implies v.reported.contains(#[trigger] names[n])
        == reported_in(w.results, w.tasks[n].name) by {
        assert(names[n] == w.tasks[n].name);
    }
    let all_in = forall|n: int| 0 <= n < names.len() ==> v.reported.contains(#[trigger] names[n]);
    if all_in {
        assert forall|n: int| 0 <= n < w.tasks.len() implies reported_in(
            w.results,
            (#[trigger] w.tasks[n]).name,
        ) by {
            assert(v.reported.contains(names[n]));
        }
    } else {
        let n = choose|n: int| 0 <= n < names.len() && !v.reported.contains(#[trigger] names[n]);
        assert(!reported_in(w.results, w.tasks[n].name));
    }
}

proof fn lemma_run_failed(waves: Seq<WaveTrace>)
    ensures
        run_outcome(waves).wave_failed <==> exists|i: int|
            0 <= i < waves.len() && #[trigger] wave_started(waves, i) && wave_fails(waves[i]),
    decreases waves.len(),
{
    if waves.len() > 0 {
        let before = waves.drop_last();
        let last = waves.len() - 1;
        lemma_run_failed(before);
        lemma_wave_outcome(run_outcome(before), waves.last());
        assert(waves.take(last) =~= before);
        assert forall|i: int| 0 <= i < before.len() implies #[trigger] wave_started(before, i)
            == wave_started(waves, i) by {
            assert(before.take(i) =~= waves.take(i));
        }
        if run_outcome(before).wave_failed {
            let i = choose|i: int|
                0 <= i < before.len() && #[trigger] wave_started(before, i) && wave_fails(before[i]);
            assert(wave_started(waves, i) && wave_fails(waves[i]));
        }
        if exists|i: int|
            0 <= i < waves.len() && #[trigger] wave_started(waves, i) && wave_fails(waves[i]) {
            let i = choose|i: int|
                0 <= i < waves.len() && #[trigger] wave_started(waves, i) && wave_fails(waves[i]);
            if i < before.len() {
                assert(wave_started(before, i) && wave_fails(before[i]));
            }
        }
        if wave_started(waves, last) && wave_fails(waves.last()) {
            assert(wave_fails(waves[last]));
        }
    }
}

/// A wave is started just where the run is not cancelled when its turn comes and no wave that was
/// started before it has failed.
pub proof fn waves_start_until_one_fails(waves: Seq<WaveTrace>, j: int)
    requires
        0 <= j < waves.len(),
    ensures
        wave_started(waves, j) <==> !waves[j].cancelled && forall|i: int|
            0 <= i < j && #[trigger] wave_started(waves, i) ==> !wave_fails(waves[i]),
{
    let before = waves.take(j);
    lemma_run_failed(before);
    assert forall|i: int| 0 <= i < j implies #[trigger] wave_started(waves, i) == wave_started(
        before,
        i,
    ) by {
        assert(before.take(i) =~= waves.take(i));
    }
    if run_outcome(before).wave_failed {
        let i = choose|i: int|
            0 <= i < before.len() && #[trigger] wave_started(before, i) && wave_fails(before[i]);
        assert(wave_started(waves, i) && wave_fails(waves[i]));
    }
    if exists|i: int| 0 <= i < j && #[trigger] wave_started(waves, i) && wave_fails(waves[i]) {
        let i = choose|i: int|
            0 <= i < j && #[trigger] wave_started(waves, i) && wave_fails(waves[i]);
        assert(wave_started(before, i) && wave_fails(before[i]));
    }
}

/// A run goes well just where it is never cancelled before a wave, every result of every wave is
/// good, and every task of every wave has reported. Then every wave was started.
pub proof fn good_runs_have_only_good_waves(waves: Seq<WaveTrace>)
    ensures
        run_outcome(waves).all_ok <==> forall|j: int|
            0 <= j < waves.len() ==> !(#[trigger] waves[j]).cancelled && wave_went_well(waves[j]),
        run_outcome(waves).all_ok ==> !run_outcome(waves).wave_failed,
        run_outcome(waves).all_ok ==> forall|j: int|
            0 <= j < waves.len() ==> #[trigger] wave_started(waves, j),
    decreases waves.len(),
{
    if waves.len() > 0 {
        let before = waves.drop_last();
        let last = waves.last();
        let n = waves.len() - 1;
        let s = run_outcome(before);
        good_runs_have_only_good_waves(before);
        lemma_wave_outcome(s, last);
        assert(waves.take(n) =~= before);
        assert(waves[n] == last);
        if wave_went_well(last) {
            assert forall|i: int| 0 <= i < last.results.len() implies !result_failed(
                #[trigger] last.results[i],
            ) by {
                assert(went_well(last.results[i]));
            }
            assert(!wave_fails(last));
        }
        if run_outcome(waves).all_ok {
            assert(s.all_ok);
            assert forall|j: int| 0 <= j < waves.len() implies !(#[trigger] waves[j]).cancelled
                && wave_went_well(waves[j]) by {
                if j < n {
                    assert(waves[j] == before[j]);
                }
            }
            assert forall|j: int| 0 <= j < waves.len() implies #[trigger] wave_started(
                waves,
                j,
            ) by {
                if j < n {
                    assert(before.take(j) =~= waves.take(j));
                    assert(wave_started(before, j));
                }
            }
        }
        if forall|j: int|
            0 <= j < waves.len() ==> !(#[trigger] waves[j]).cancelled && wave_went_well(
                waves[j],
            ) {
            assert forall|j: int| 0 <= j < before.len() implies !(#[trigger] before[j]).cancelled
                && wave_went_well(before[j]) by {
                assert(waves[j] == before[j]);
            }
        }
    }
}

/// Where a run of the waves of a configuration goes well, each of its tasks has ended with a good
/// result.
pub proof fn good_runs_end_every_task_well(tasks: Seq<TaskView>, waves: Seq<WaveTrace>, i: int)
    requires
        waves_of(tasks, traced_tasks(waves)),
        run_outcome(waves).all_ok,
        0 <= i < tasks.len(),
    ensures
        exists|j: int, r: int|
            0 <= j < waves.len() && 0 <= r < waves[j].results.len() && reports_name(
                #[trigger] waves[j].results[r],
                tasks[i].name,
            ) && went_well(waves[j].results[r]),
{
    let lists = traced_tasks(waves);
    good_runs_have_only_good_waves(waves);
    one_wave_each(tasks, lists, i);
    let k = choose|k: nat|
        k < lists.len() && #[trigger] in_wave(tasks, k, i) && lists[k as int].contains(tasks[i]);
    let w = waves[k as int];
    assert(lists[k as int] == w.tasks);
    let n = choose|n: int| 0 <= n < w.tasks.len() && w.tasks[n] == tasks[i];
    assert(reported_in(w.results, w.tasks[n].name));
    let r = choose|r: int|
        0 <= r < w.results.len() && reports_name(#[trigger] w.results[r], tasks[i].name);
    assert(went_well(waves[k as int].results[r]));
}

/// A wave is skipped where the run is cancelled or an earlier wave failed, for a reason that says
/// which; a cancelled run says so whatever failed.
pub proof fn skipped_waves_say_why(wave_failed: bool, cancelled: bool)
    ensures
        skip_reason(wave_failed, cancelled) is None <==> !wave_failed && !cancelled,
        skip_reason(wave_failed, true) == Some("cancelled by user"@),
        skip_reason(true, false) == Some("skipped: previous wave had failures"@),
{
}

/// The status of a task whose wave is skipped is cancelled and ended, holds its wave and the
/// reason, and shows that it never ran.
pub proof fn skipped_tasks_never_ran(
    task: TaskView,
    wave: int,
    reason: Seq<char>,
    created: Timestamp,
    at: Timestamp,
)
    requires
        0 <= wave <= 0xffff_ffff,
    ensures
        skipped_meta(task, wave, reason, created, at).name == task.name,
        skipped_meta(task, wave, reason, created, at).cwd == task.cwd,
        skipped_meta(task, wave, reason, created, at).wave == Some(wave as u32),
        skipped_meta(task, wave, reason, created, at).status == TaskStatus::Cancelled,
        skipped_meta(task, wave, reason, created, at).error == Some(reason),
        skipped_meta(task, wave, reason, created, at).end_time == Some(at),
        skipped_meta(task, wave, reason, created, at).exit_code is None,
        skipped_meta(task, wave, reason, created, at).events_count == 0,
        skipped_meta(task, wave, reason, created, at) == (MetaView {
            wave: Some(wave as u32),
            status: TaskStatus::Cancelled,
            error: Some(reason),
            end_time: Some(at),
            ..fresh_meta(task.name, task.cwd, task.prompt, created)
        }),
{
}

/// A result is good unless the task failed, was cancelled or broke down; it fails its wave unless
/// the task ended in another way than failing or breaking down.
pub proof fn results_are_judged_by_status(report: ReportView)
    ensures
        went_well(Some(report)) <==> !(report.status is Failed) && !(report.status is Cancelled),
        !went_well(None),
        result_failed(Some(report)) <==> report.status is Failed,
        result_failed(None),
        reports_name(Some(report), report.name),
        !reports_name(None, report.name),
{
}

/// A wave under way takes down the name of each task that reports, and no other.
pub proof fn reports_are_taken_down(w: OpenWaveView, report: ReportView, name: Seq<char>)
    ensures
        with_result(w, Some(report)).reported.contains(name) == (w.reported.contains(name) || name
            == report.name),
        with_result(w, Some(report)).names == w.names,
        with_result(w, None) == w,
{
}

/// Every task of a skipped wave has its status: cancelled and ended, for the reason, in its wave.
pub proof fn every_skipped_task_has_a_status(
    tasks: Seq<TaskView>,
    wave: int,
    reason: Seq<char>,
    metas: Seq<TaskMeta>,
    i: int,
)
    requires
        skipped_metas(tasks, wave, reason, metas),
        0 <= wave <= 0xffff_ffff,
        0 <= i < tasks.len(),
    ensures
        metas.len() == tasks.len(),
        metas[i].name@ == tasks[i].name,
        metas[i].status == TaskStatus::Cancelled,
        metas[i].error is Some && metas[i].error->0@ == reason,
        metas[i].wave == Some(wave as u32),
        metas[i].end_time is Some,
        metas[i].exit_code is None,
{
    let meta = metas[i]@;
    assert(meta == skipped_meta(
        tasks[i],
        wave,
        reason,
        metas[i].start_time,
        metas[i].end_time->0,
    ));
    assert(meta.name == metas[i].name@ && meta.error == opt_text(metas[i].error));
}

/// The tasks that never reported are told in their order, each as often as it is in the wave.
pub proof fn lost_tasks_are_told_in_order(
    a: Seq<Seq<char>>,
    b: Seq<Seq<char>>,
    reported: Set<Seq<char>>,
)
    ensures
        missing(a + b, reported) == missing(a, reported) + missing(b, reported),
        a.len() == 1 && reported.contains(a[0]) ==> missing(a, reported).len() == 0,
        a.len() == 1 && !reported.contains(a[0]) ==> missing(a, reported) == a,
    decreases b.len(),
{
    if b.len() > 0 {
        lost_tasks_are_told_in_order(a, b.drop_last(), reported);
        assert((a + b).drop_last() =~= a + b.drop_last());
        assert(missing(a + b, reported) =~= missing(a, reported) + missing(b, reported));
    } else {
        assert(a + b =~= a);
        assert(missing(a + b, reported) =~= missing(a, reported) + missing(b, reported));
    }
    if a.len() == 1 {
        assert(a.drop_last() =~= seq![]);
        assert(missing(a.drop_last(), reported) =~= seq![]);
        if !reported.contains(a[0]) {
            assert(missing(a, reported) =~= a);
        }
    }
}

} // verus!

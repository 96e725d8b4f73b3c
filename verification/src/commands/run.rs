//! A run from the command line: what becomes of its waves, and the summary that it ends with.
use vstd::prelude::*;
use vstd::string::*;

use crate::config::{in_wave, one_wave_each, task_views, waves_of, TaskDef, TaskView};
use crate::coordinator::task_names;
use crate::execution::{
    missing, missing_are_the_unreported, opt_report, result_failed, skip_reason, skip_tasks,
    skipped_metas, why_skipped, with_result, OpenWave, OpenWaveView,
};
use crate::meta::{TaskMeta, TaskStatus};
use crate::runner::{ReportView, TaskRunReport};
use crate::text::{
    decimal, decimal_text, has_part, has_suffix, joined, joined_texts_hold_each, lemma_part_at,
    parts_of_parts_are_parts, repeat_char, repeated, texts,
};

verus! {

/// How a run from the command line has gone so far.
#[derive(Debug)]
pub struct CommandRun {
    pub reports: Vec<TaskRunReport>,
    pub wave_failed: bool,
    pub interrupted: bool,
}

/// The contents of a run from the command line.
#[verifier::ext_equal]
pub struct CommandView {
    pub reports: Seq<ReportView>,
    pub wave_failed: bool,
    pub interrupted: bool,
}

/// The contents of a list of reports.
pub open spec fn report_views(reports: Seq<TaskRunReport>) -> Seq<ReportView> {
    reports.map_values(|r: TaskRunReport| r@)
}

impl View for CommandRun {
    type V = CommandView;

    open spec fn view(&self) -> CommandView {
        CommandView {
            reports: report_views(self.reports@),
            wave_failed: self.wave_failed,
            interrupted: self.interrupted,
        }
    }
}

/// The report on a task whose wave is not started.
pub open spec fn skipped_report(task: TaskView, reason: Seq<char>) -> ReportView {
    ReportView { name: task.name, status: TaskStatus::Cancelled, error: Some(reason) }
}

/// The report on a task that broke down.
pub open spec fn panic_report(name: Seq<char>) -> ReportView {
    ReportView { name, status: TaskStatus::Failed, error: Some("task panicked"@) }
}

/// A run after a wave that is not started.
pub open spec fn after_skip(s: CommandView, tasks: Seq<TaskView>, reason: Seq<char>) -> CommandView {
    CommandView {
        reports: s.reports + tasks.map_values(|t: TaskView| skipped_report(t, reason)),
        ..s
    }
}

/// A run after a task of the wave under way has ended; one that broke down gives no report.
pub open spec fn after_task(s: CommandView, result: Option<ReportView>) -> CommandView {
    match result {
        Some(report) => CommandView {
            reports: s.reports.push(report),
            wave_failed: s.wave_failed || report.status == TaskStatus::Failed,
            ..s
        },
        None => CommandView { wave_failed: true, ..s },
    }
}

/// A run after a wave of which some tasks never reported.
pub open spec fn after_close(s: CommandView, left: Seq<Seq<char>>) -> CommandView {
    CommandView {
        reports: s.reports + left.map_values(|name: Seq<char>| panic_report(name)),
        ..s
    }
}

/// Whether every task is reported as done.
pub open spec fn all_reported_done(reports: Seq<ReportView>) -> bool {
    forall|i: int| 0 <= i < reports.len() ==> (#[trigger] reports[i]).status == TaskStatus::Done
}

impl CommandRun {
    /// A run that starts.
    pub fn new() -> (r: CommandRun)
        ensures
            r@ == (CommandView { reports: seq![], wave_failed: false, interrupted: false }),
    {
        let r = CommandRun { reports: Vec::new(), wave_failed: false, interrupted: false };
        assert(r@.reports =~= seq![]);
        r
    }

    /// Why the next wave is not started, if it is not.
    pub fn skip_reason(&self) -> (r: Option<&'static str>)
        ensures
            match r {
                Some(reason) => skip_reason(self@.wave_failed, self@.interrupted) == Some(reason@),
                None => skip_reason(self@.wave_failed, self@.interrupted) is None,
            },
    {
        why_skipped(self.wave_failed, self.interrupted)
    }

    /// Skips a wave for a reason; gives the statuses to write for its tasks.
    pub fn skip_wave(&mut self, tasks: &Vec<TaskDef>, wave: usize, reason: &str) -> (r: Vec<
        TaskMeta,
    >)
        ensures
            final(self)@ == after_skip(old(self)@, task_views(tasks@), reason@),
            skipped_metas(task_views(tasks@), wave as int, reason@, r@),
    {
        let ghost start = self@;
        let ghost all = task_views(tasks@).map_values(
            |t: TaskView| skipped_report(t, reason@),
        );
        let mut i: usize = 0;
        assert(start.reports + all.take(0) =~= start.reports);
        while i < tasks.len()
            invariant
                i <= tasks@.len(),
                all == task_views(tasks@).map_values(|t: TaskView| skipped_report(t, reason@)),
                self@ == (CommandView { reports: start.reports + all.take(i as int), ..start }),
            decreases tasks@.len() - i,
        {
            let ghost before = self@.reports;
            self.reports.push(
                TaskRunReport {
                    name: tasks[i].name.clone(),
                    status: TaskStatus::Cancelled,
                    error: Some(reason.to_owned()),
                },
            );
            assert(self@.reports =~= before.push(all[i as int]));
            assert(all.take(i + 1) =~= all.take(i as int).push(all[i as int]));
            assert(self@.reports =~= start.reports + all.take(i + 1));
            i = i + 1;
        }
        assert(all.take(i as int) =~= all);
        skip_tasks(tasks, wave, reason)
    }

    /// Takes in that the user wants the run to stop.
    pub fn interrupt(&mut self)
        ensures
            final(self)@ == (CommandView { interrupted: true, ..old(self)@ }),
    {
        self.interrupted = true;
    }

    /// Takes in that a task of the wave under way has ended, with a report or without.
    pub fn record(&mut self, open: &mut OpenWave, result: Option<TaskRunReport>)
        ensures
            final(self)@ == after_task(old(self)@, opt_report(result)),
            final(open)@ == with_result(old(open)@, opt_report(result)),
    {
        match result {
            Some(report) => {
                match report.status {
                    TaskStatus::Failed => {
                        self.wave_failed = true;
                    },
                    _ => {},
                }
                let _ = open.reported.insert(report.name.as_str());
                let ghost before = self@.reports;
                let ghost shown = report@;
                self.reports.push(report);
                assert(self@.reports =~= before.push(shown));
            },
            None => {
                self.wave_failed = true;
            },
        }
    }

    /// Ends the wave under way; gives the names of the tasks that broke down without a report.
    pub fn close_wave(&mut self, open: &OpenWave) -> (r: Vec<String>)
        ensures
            final(self)@ == after_close(old(self)@, missing(open@.names, open@.reported)),
            texts(r@) == missing(open@.names, open@.reported),
    {
        let left = open.missing_names();
        let ghost start = self@;
        let ghost all = texts(left@).map_values(|name: Seq<char>| panic_report(name));
        let mut i: usize = 0;
        assert(start.reports + all.take(0) =~= start.reports);
        while i < left.len()
            invariant
                i <= left@.len(),
                all == texts(left@).map_values(|name: Seq<char>| panic_report(name)),
                self@ == (CommandView { reports: start.reports + all.take(i as int), ..start }),
            decreases left@.len() - i,
        {
            let ghost before = self@.reports;
            self.reports.push(
                TaskRunReport {
                    name: left[i].clone(),
                    status: TaskStatus::Failed,
                    error: Some("task panicked".to_owned()),
                },
            );
            assert(self@.reports =~= before.push(all[i as int]));
            assert(all.take(i + 1) =~= all.take(i as int).push(all[i as int]));
            assert(self@.reports =~= start.reports + all.take(i + 1));
            i = i + 1;
        }
        assert(all.take(i as int) =~= all);
        left
    }

    /// Whether every task is reported as done.
    pub fn all_done(&self) -> (r: bool)
        ensures
            r == all_reported_done(self@.reports),
    {
        let mut i: usize = 0;
        while i < self.reports.len()
            invariant
                i <= self.reports@.len(),
                forall|j: int| 0 <= j < i ==> (#[trigger] self@.reports[j]).status
                    == TaskStatus::Done,
            decreases self.reports@.len() - i,
        {
            match self.reports[i].status {
                TaskStatus::Done => {},
                _ => {
                    assert(self@.reports[i as int].status != TaskStatus::Done);
                    return false;
                },
            }
            i = i + 1;
        }
        true
    }

    /// The summary that the run ends with; `base` is the directory of the run.
    pub fn summary(&self, total_tasks: usize, base: &str) -> (r: String)
        ensures
            r@ == summary_text(self@.reports, total_tasks as nat, base@),
    {
        let rule = repeat_char('=', RULE_WIDTH);
        let mut out = "\n".to_owned();
        out.append(rule.as_str());
        out.append("\n  SUMMARY (");
        out.append(decimal_text(total_tasks as u64).as_str());
        out.append(" tasks)\n");
        out.append(rule.as_str());
        out.append("\n");
        let ghost head = out@;
        let ghost lines = self@.reports.map_values(|r: ReportView| summary_line(r));
        let mut i: usize = 0;
        assert(head + joined(lines.take(0)) =~= head);
        while i < self.reports.len()
            invariant
                i <= self.reports@.len(),
                lines == self@.reports.map_values(|r: ReportView| summary_line(r)),
                out@ == head + joined(lines.take(i as int)),
            decreases self.reports@.len() - i,
        {
            let ghost before = out@;
            let line = line_for(&self.reports[i]);
            out.append(line.as_str());
            proof {
                assert(lines.take(i + 1).drop_last() =~= lines.take(i as int));
                assert(lines.take(i + 1).last() == lines[i as int]);
                assert(self@.reports[i as int] == self.reports@[i as int]@);
                assert(out@ =~= head + joined(lines.take(i + 1)));
            }
            i = i + 1;
        }
        assert(lines.take(i as int) =~= lines);
        out.append("\n  Results: ");
        out.append(base);
        out.append("/outputs/*.md\n");
        out
    }
}

/// How wide the rules of the summary are.
pub const RULE_WIDTH: usize = 50;

/// The mark of a task in the summary.
pub open spec fn summary_icon(status: TaskStatus) -> Seq<char> {
    match status {
        TaskStatus::Done => "\x1b[32m✓\x1b[0m"@,
        TaskStatus::Failed => "\x1b[31m✗\x1b[0m"@,
        TaskStatus::Cancelled => "\x1b[35m⊘\x1b[0m"@,
        _ => "?"@,
    }
}

/// The line of a task in the summary.
pub open spec fn summary_line(report: ReportView) -> Seq<char> {
    "  "@ + summary_icon(report.status) + " "@ + report.name + match report.error {
        Some(e) => "  -- "@ + e,
        None => seq![],
    } + "\n"@
}

/// The summary that a run ends with.
pub open spec fn summary_text(reports: Seq<ReportView>, total: nat, base: Seq<char>) -> Seq<char> {
    let rule = repeated('=', RULE_WIDTH as nat);
    "\n"@ + rule + "\n  SUMMARY ("@ + decimal(total) + " tasks)\n"@ + rule + "\n"@ + joined(
        reports.map_values(|r: ReportView| summary_line(r)),
    ) + "\n  Results: "@ + base + "/outputs/*.md\n"@
}

fn line_for(report: &TaskRunReport) -> (r: String)
    ensures
        r@ == summary_line(report@),
{
    let mut line = "  ".to_owned();
    match report.status {
        TaskStatus::Done => {
            line.append("\x1b[32m✓\x1b[0m");
        },
        TaskStatus::Failed => {
            line.append("\x1b[31m✗\x1b[0m");
        },
        TaskStatus::Cancelled => {
            line.append("\x1b[35m⊘\x1b[0m");
        },
        _ => {
            line.append("?");
        },
    }
    line.append(" ");
    line.append(report.name.as_str());
    let ghost head = line@;
    match &report.error {
        Some(e) => {
            line.append("  -- ");
            line.append(e.as_str());
            assert(line@ =~= head + ("  -- "@ + e@));
        },
        None => {
            assert(line@ =~= head + Seq::<char>::empty());
        },
    }
    line.append("\n");
    line
}

/// The line that a run starts with.
pub open spec fn launch_text(tasks: nat, waves: nat) -> Seq<char> {
    "Launching "@ + decimal(tasks) + " tasks in "@ + decimal(waves) + " wave(s)...\n"@
}

/// The line that a run starts with.
pub fn launch_line(tasks: usize, waves: usize) -> (r: String)
    ensures
        r@ == launch_text(tasks as nat, waves as nat),
{
    let mut out = "Launching ".to_owned();
    out.append(decimal_text(tasks as u64).as_str());
    out.append(" tasks in ");
    out.append(decimal_text(waves as u64).as_str());
    out.append(" wave(s)...\n");
    out
}

/// The line that a wave starts with.
pub open spec fn wave_text(wave: nat, tasks: nat) -> Seq<char> {
    "-- Wave "@ + decimal(wave) + " ("@ + decimal(tasks) + if tasks == 1 {
        " task, parallel) --"@
    } else {
        " tasks, parallel) --"@
    }
}

/// The line that a wave starts with.
pub fn wave_line(wave: usize, tasks: usize) -> (r: String)
    ensures
        r@ == wave_text(wave as nat, tasks as nat),
{
    let mut out = "-- Wave ".to_owned();
    out.append(decimal_text(wave as u64).as_str());
    out.append(" (");
    out.append(decimal_text(tasks as u64).as_str());
    if tasks == 1 {
        out.append(" task, parallel) --");
    } else {
        out.append(" tasks, parallel) --");
    }
    out
}

/// Whether some report is on a task of this name.
pub open spec fn has_report(reports: Seq<ReportView>, name: Seq<char>) -> bool {
    exists|i: int| 0 <= i < reports.len() && (#[trigger] reports[i]).name == name
}

/// Every task has its line in the summary: those of a wave that is skipped, and those of a wave
/// that has ended, whether they reported or broke down.
pub proof fn every_task_is_reported(
    s: CommandView,
    w: OpenWaveView,
    tasks: Seq<TaskView>,
    reason: Seq<char>,
    i: int,
)
    requires
        forall|name: Seq<char>| #[trigger] w.reported.contains(name) ==> has_report(s.reports, name),
    ensures
        0 <= i < tasks.len() ==> has_report(after_skip(s, tasks, reason).reports, tasks[i].name),
        0 <= i < w.names.len() ==> has_report(
            after_close(s, missing(w.names, w.reported)).reports,
            w.names[i],
        ),
{
    if 0 <= i < tasks.len() {
        let all = after_skip(s, tasks, reason).reports;
        assert(all[s.reports.len() + i].name == tasks[i].name);
    }
    if 0 <= i < w.names.len() {
        let left = missing(w.names, w.reported);
        let all = after_close(s, left).reports;
        let name = w.names[i];
        if w.reported.contains(name) {
            let j = choose|j: int| 0 <= j < s.reports.len() && (#[trigger] s.reports[j]).name == name;
            assert(all[j].name == name);
        } else {
            missing_are_the_unreported(w.names, w.reported, name);
            assert(w.names.contains(name));
            let j = choose|j: int| 0 <= j < left.len() && left[j] == name;
            assert(all[s.reports.len() + j].name == name);
        }
    }
}

/// What is known of the reports of a wave under way is kept as its tasks report: each that has
/// reported has its line.
pub proof fn reports_are_kept(s: CommandView, w: OpenWaveView, result: Option<ReportView>)
    requires
        forall|name: Seq<char>| #[trigger] w.reported.contains(name) ==> has_report(s.reports, name),
    ensures
        forall|name: Seq<char>| #[trigger]
            with_result(w, result).reported.contains(name) ==> has_report(
                after_task(s, result).reports,
                name,
            ),
{
    let t = after_task(s, result);
    assert forall|name: Seq<char>| #[trigger]
        with_result(w, result).reported.contains(name) implies has_report(t.reports, name) by {
        if w.reported.contains(name) {
            let j = choose|j: int| 0 <= j < s.reports.len() && (#[trigger] s.reports[j]).name == name;
            assert(t.reports[j].name == name);
        } else {
            assert(t.reports[s.reports.len() as int].name == name);
        }
    }
}

/// A run with a failed, cancelled or broken-down task does not count as gone well.
pub proof fn bad_reports_spoil_the_run(reports: Seq<ReportView>, i: int)
    requires
        0 <= i < reports.len(),
        reports[i].status != TaskStatus::Done,
    ensures
        !all_reported_done(reports),
{
}

/// Once a task has failed or the user has interrupted the run, no further wave starts, whatever
/// comes, and a run that leaves tasks out does not count as gone well.
pub proof fn stopped_runs_skip_the_rest(
    s: CommandView,
    result: Option<ReportView>,
    left: Seq<Seq<char>>,
    tasks: Seq<TaskView>,
    reason: Seq<char>,
)
    requires
        s.wave_failed || s.interrupted,
    ensures
        skip_reason(s.wave_failed, s.interrupted) is Some,
        after_task(s, result).wave_failed || after_task(s, result).interrupted,
        after_close(s, left).wave_failed || after_close(s, left).interrupted,
        after_skip(s, tasks, reason).wave_failed || after_skip(s, tasks, reason).interrupted,
        tasks.len() > 0 ==> !all_reported_done(after_skip(s, tasks, reason).reports),
{
    if tasks.len() > 0 {
        let all = after_skip(s, tasks, reason).reports;
        assert(all[s.reports.len() as int].status == TaskStatus::Cancelled);
    }
}

/// What can happen while a wave is under way.
pub enum WaveEvent {
    /// A task has ended, with a report or without.
    Ended(Option<ReportView>),
    /// The user interrupts the run.
    Interrupt,
}

/// What becomes of one wave of a run: its tasks, and what happens while it is under way if it is
/// started.
pub struct CommandTrace {
    pub tasks: Seq<TaskView>,
    pub events: Seq<WaveEvent>,
}

/// The tasks of waves, wave by wave.
pub open spec fn command_tasks(waves: Seq<CommandTrace>) -> Seq<Seq<TaskView>> {
    waves.map_values(|w: CommandTrace| w.tasks)
}

/// How a run, and a wave under way, stand after some things have happened.
pub open spec fn after_events(s: CommandView, w: OpenWaveView, events: Seq<WaveEvent>) -> (
    CommandView,
    OpenWaveView,
)
    decreases events.len(),
{
    if events.len() == 0 {
        (s, w)
    } else {
        let (t, v) = after_events(s, w, events.drop_last());
        match events.last() {
            WaveEvent::Ended(result) => (after_task(t, result), with_result(v, result)),
            WaveEvent::Interrupt => (CommandView { interrupted: true, ..t }, v),
        }
    }
}

/// A wave whose tasks start.
pub open spec fn fresh_wave(tasks: Seq<TaskView>) -> OpenWaveView {
    OpenWaveView { names: task_names(tasks), reported: Set::empty() }
}

/// A run after the turn of one more wave, which is skipped or runs to its end.
pub open spec fn after_command_turn(s: CommandView, w: CommandTrace) -> CommandView {
    match skip_reason(s.wave_failed, s.interrupted) {
        Some(reason) => after_skip(s, w.tasks, reason),
        None => {
            let (t, v) = after_events(s, fresh_wave(w.tasks), w.events);
            after_close(t, missing(v.names, v.reported))
        },
    }
}

/// A run after all these waves had their turn.
pub open spec fn command_outcome(waves: Seq<CommandTrace>) -> CommandView
    decreases waves.len(),
{
    if waves.len() == 0 {
        CommandView { reports: seq![], wave_failed: false, interrupted: false }
    } else {
        after_command_turn(command_outcome(waves.drop_last()), waves.last())
    }
}

/// Whether wave `j` is started when its turn comes.
pub open spec fn command_started(waves: Seq<CommandTrace>, j: int) -> bool {
    let s = command_outcome(waves.take(j));
    skip_reason(s.wave_failed, s.interrupted) is None
}

/// Whether something that happens in a wave keeps further waves from starting.
pub open spec fn event_stops(event: WaveEvent) -> bool {
    match event {
        WaveEvent::Ended(result) => result_failed(result),
        WaveEvent::Interrupt => true,
    }
}

/// Whether anything that happens in a wave keeps further waves from starting.
pub open spec fn wave_stops(w: CommandTrace) -> bool {
    exists|i: int| 0 <= i < w.events.len() && event_stops(#[trigger] w.events[i])
}

/// Whether some report says that the task of this name is done.
pub open spec fn reported_done(reports: Seq<ReportView>, name: Seq<char>) -> bool {
    exists|i: int|
        0 <= i < reports.len() && (#[trigger] reports[i]).name == name && reports[i].status
            == TaskStatus::Done
}

/// Whether a list starts with another.
spec fn starts_with(all: Seq<ReportView>, start: Seq<ReportView>) -> bool {
    start.len() <= all.len() && all.take(start.len() as int) == start
}

proof fn lemma_starts_with(a: Seq<ReportView>, b: Seq<ReportView>, c: Seq<ReportView>)
    requires
        starts_with(b, a),
        starts_with(c, b),
    ensures
        starts_with(c, a),
{
    assert(c.take(a.len() as int) =~= b.take(a.len() as int));
}

proof fn lemma_kept_report(all: Seq<ReportView>, start: Seq<ReportView>, name: Seq<char>)
    requires
        starts_with(all, start),
        has_report(start, name),
    ensures
        has_report(all, name),
{
    let i = choose|i: int| 0 <= i < start.len() && (#[trigger] start[i]).name == name;
    assert(all.take(start.len() as int)[i] == all[i]);
    assert(all[i].name == name);
}

proof fn lemma_events(s: CommandView, w: OpenWaveView, events: Seq<WaveEvent>)
    requires
        forall|name: Seq<char>| #[trigger]
            w.reported.contains(name) ==> has_report(s.reports, name),
    ensures
        after_events(s, w, events).1.names == w.names,
        forall|name: Seq<char>| #[trigger]
            after_events(s, w, events).1.reported.contains(name) ==> has_report(
                after_events(s, w, events).0.reports,
                name,
            ),
        starts_with(after_events(s, w, events).0.reports, s.reports),
        (after_events(s, w, events).0.wave_failed || after_events(s, w, events).0.interrupted) <==> (
        s.wave_failed || s.interrupted || exists|i: int|
            0 <= i < events.len() && event_stops(#[trigger] events[i])),
        forall|i: int|
            0 <= i < events.len() ==> (#[trigger] events[i] matches WaveEvent::Ended(Some(report))
                ==> after_events(s, w, events).0.reports.contains(report)),
    decreases events.len(),
{
    if events.len() == 0 {
        assert(s.reports.take(s.reports.len() as int) =~= s.reports);
    } else {
        let before = events.drop_last();
        let last = events.last();
        let n = events.len() - 1;
        lemma_events(s, w, before);
        let (t, v) = after_events(s, w, before);
        let (t2, v2) = after_events(s, w, events);
        assert(events[n] == last);
        if let WaveEvent::Ended(result) = last {
            reports_are_kept(t, v, result);
        }
        assert(t2.reports.take(t.reports.len() as int) =~= t.reports);
        lemma_starts_with(s.reports, t.reports, t2.reports);
        if exists|i: int| 0 <= i < before.len() && event_stops(#[trigger] before[i]) {
            let i = choose|i: int| 0 <= i < before.len() && event_stops(#[trigger] before[i]);
            assert(event_stops(events[i]));
        }
        if event_stops(last) {
            assert(event_stops(events[n]));
        }
        if exists|i: int| 0 <= i < events.len() && event_stops(#[trigger] events[i]) {
            let i = choose|i: int| 0 <= i < events.len() && event_stops(#[trigger] events[i]);
            if i < n {
                assert(event_stops(before[i]));
            }
        }
        assert forall|i: int| 0 <= i < events.len() implies (
        #[trigger] events[i] matches WaveEvent::Ended(Some(report)) ==> t2.reports.contains(
            report,
        )) by {
            if let WaveEvent::Ended(Some(report)) = events[i] {
                if i < n {
                    assert(before[i] == events[i]);
                    assert(t.reports.contains(report));
                    let j = choose|j: int| 0 <= j < t.reports.len() && t.reports[j] == report;
                    assert(t2.reports.take(t.reports.len() as int)[j] == t2.reports[j]);
                    assert(t2.reports[j] == report);
                } else {
                    assert(t2.reports[t.reports.len() as int] == report);
                }
            }
        }
    }
}

/// The turn of a wave adds reports behind those that were there, among them one on each of its
/// tasks; every report of a task that ended is among them.
proof fn lemma_turn(s: CommandView, w: CommandTrace)
    ensures
        starts_with(after_command_turn(s, w).reports, s.reports),
        forall|n: int|
            0 <= n < w.tasks.len() ==> has_report(
                after_command_turn(s, w).reports,
                (#[trigger] w.tasks[n]).name,
            ),
        skip_reason(s.wave_failed, s.interrupted) is Some && w.tasks.len() > 0
            ==> !all_reported_done(after_command_turn(s, w).reports),
        skip_reason(s.wave_failed, s.interrupted) is None ==> forall|i: int|
            0 <= i < w.events.len() ==> (#[trigger] w.events[i] matches WaveEvent::Ended(
                Some(report),
            ) ==> after_command_turn(s, w).reports.contains(report)),
        (after_command_turn(s, w).wave_failed || after_command_turn(s, w).interrupted) <==> (
        s.wave_failed || s.interrupted || wave_stops(w)),
{
    let end = after_command_turn(s, w);
    let open = fresh_wave(w.tasks);
    match skip_reason(s.wave_failed, s.interrupted) {
        Some(reason) => {
            assert(end.reports.take(s.reports.len() as int) =~= s.reports);
            assert forall|n: int| 0 <= n < w.tasks.len() implies has_report(
                end.reports,
                (#[trigger] w.tasks[n]).name,
            ) by {
                every_task_is_reported(s, open, w.tasks, reason, n);
            }
            stopped_runs_skip_the_rest(s, None, seq![], w.tasks, reason);
        },
        None => {
            lemma_events(s, open, w.events);
            let (t, v) = after_events(s, open, w.events);
            assert(end.reports.take(t.reports.len() as int) =~= t.reports);
            lemma_starts_with(s.reports, t.reports, end.reports);
            assert forall|n: int| 0 <= n < w.tasks.len() implies has_report(
                end.reports,
                (#[trigger] w.tasks[n]).name,
            ) by {
                every_task_is_reported(t, v, seq![], seq![], n);
                assert(v.names[n] == w.tasks[n].name);
            }
            assert forall|i: int| 0 <= i < w.events.len() implies (
            #[trigger] w.events[i] matches WaveEvent::Ended(Some(report))
                ==> end.reports.contains(report)) by {
                if let WaveEvent::Ended(Some(report)) = w.events[i] {
                    assert(t.reports.contains(report));
                    let j = choose|j: int| 0 <= j < t.reports.len() && t.reports[j] == report;
                    assert(end.reports[j] == report);
                }
            }
        },
    }
}

proof fn lemma_outcome_grows(waves: Seq<CommandTrace>, n: int)
    requires
        0 <= n <= waves.len(),
    ensures
        starts_with(command_outcome(waves).reports, command_outcome(waves.take(n)).reports),
    decreases waves.len(),
{
    let end = command_outcome(waves).reports;
    if n == waves.len() {
        assert(waves.take(n) =~= waves);
        assert(end.take(end.len() as int) =~= end);
    } else {
        let before = waves.drop_last();
        lemma_outcome_grows(before, n);
        assert(before.take(n) =~= waves.take(n));
        lemma_turn(command_outcome(before), waves.last());
        lemma_starts_with(
            command_outcome(waves.take(n)).reports,
            command_outcome(before).reports,
            end,
        );
    }
}

proof fn lemma_wave_turn(waves: Seq<CommandTrace>, j: int)
    requires
        0 <= j < waves.len(),
    ensures
        command_outcome(waves.take(j + 1)) == after_command_turn(
            command_outcome(waves.take(j)),
            waves[j],
        ),
{
    assert(waves.take(j + 1).drop_last() =~= waves.take(j));
    assert(waves.take(j + 1).last() == waves[j]);
}

/// At the end of a run of the waves of a configuration, every task of the configuration has its
/// report.
pub proof fn every_task_of_a_run_is_reported(
    tasks: Seq<TaskView>,
    waves: Seq<CommandTrace>,
    i: int,
)
    requires
        waves_of(tasks, command_tasks(waves)),
        0 <= i < tasks.len(),
    ensures
        has_report(command_outcome(waves).reports, tasks[i].name),
{
    let lists = command_tasks(waves);
    one_wave_each(tasks, lists, i);
    let k = choose|k: nat|
        k < lists.len() && #[trigger] in_wave(tasks, k, i) && lists[k as int].contains(tasks[i]);
    let j = k as int;
    assert(lists[j] == waves[j].tasks);
    let n = choose|n: int| 0 <= n < waves[j].tasks.len() && waves[j].tasks[n] == tasks[i];
    lemma_turn(command_outcome(waves.take(j)), waves[j]);
    lemma_wave_turn(waves, j);
    assert(has_report(command_outcome(waves.take(j + 1)).reports, waves[j].tasks[n].name));
    lemma_outcome_grows(waves, j + 1);
    lemma_kept_report(
        command_outcome(waves).reports,
        command_outcome(waves.take(j + 1)).reports,
        tasks[i].name,
    );
}

/// A run of the waves of a configuration counts as gone well only where each task of the
/// configuration is reported as done, every wave was started, and every task that reported did so
/// as done.
pub proof fn good_runs_have_done_every_task(tasks: Seq<TaskView>, waves: Seq<CommandTrace>)
    requires
        waves_of(tasks, command_tasks(waves)),
        all_reported_done(command_outcome(waves).reports),
    ensures
        forall|i: int|
            0 <= i < tasks.len() ==> reported_done(
                command_outcome(waves).reports,
                (#[trigger] tasks[i]).name,
            ),
        forall|j: int| 0 <= j < waves.len() ==> #[trigger] command_started(waves, j),
        forall|j: int, e: int|
            0 <= j < waves.len() && 0 <= e < waves[j].events.len() ==> (
            #[trigger] waves[j].events[e] matches WaveEvent::Ended(Some(report)) ==> report.status
                == TaskStatus::Done),
{
    let end = command_outcome(waves).reports;
    let lists = command_tasks(waves);
    assert forall|i: int| 0 <= i < tasks.len() implies reported_done(
        end,
        (#[trigger] tasks[i]).name,
    ) by {
        every_task_of_a_run_is_reported(tasks, waves, i);
        let r = choose|r: int| 0 <= r < end.len() && (#[trigger] end[r]).name == tasks[i].name;
        assert(end[r].status == TaskStatus::Done);
    }
    assert forall|j: int| 0 <= j < waves.len() implies #[trigger] command_started(waves, j) by {
        lemma_done_so_far(waves, j + 1);
        lemma_wave_turn(waves, j);
        lemma_turn(command_outcome(waves.take(j)), waves[j]);
        assert(lists[j].len() > 0);
        assert(lists[j] == waves[j].tasks);
    }
    assert forall|j: int, e: int|
        0 <= j < waves.len() && 0 <= e < waves[j].events.len() implies (
    #[trigger] waves[j].events[e] matches WaveEvent::Ended(Some(report)) ==> report.status
        == TaskStatus::Done) by {
        lemma_done_so_far(waves, j + 1);
        lemma_wave_turn(waves, j);
        lemma_turn(command_outcome(waves.take(j)), waves[j]);
        assert(command_started(waves, j));
        if let WaveEvent::Ended(Some(report)) = waves[j].events[e] {
            let some = command_outcome(waves.take(j + 1)).reports;
            assert(some.contains(report));
            let r = choose|r: int| 0 <= r < some.len() && some[r] == report;
            assert(some[r].status == TaskStatus::Done);
        }
    }
}

proof fn lemma_done_so_far(waves: Seq<CommandTrace>, n: int)
    requires
        all_reported_done(command_outcome(waves).reports),
        0 <= n <= waves.len(),
    ensures
        all_reported_done(command_outcome(waves.take(n)).reports),
{
    lemma_outcome_grows(waves, n);
    let end = command_outcome(waves).reports;
    let some = command_outcome(waves.take(n)).reports;
    assert forall|r: int| 0 <= r < some.len() implies (#[trigger] some[r]).status
        == TaskStatus::Done by {
        assert(end.take(some.len() as int)[r] == end[r]);
        assert(end[r].status == TaskStatus::Done);
    }
}

/// A wave is started just where nothing that happened in an earlier one stops the run: no task of
/// a wave that was started failed or broke down, and the user did not interrupt it.
pub proof fn waves_start_until_something_stops_the_run(waves: Seq<CommandTrace>, j: int)
    requires
        0 <= j < waves.len(),
    ensures
        command_started(waves, j) <==> forall|i: int|
            0 <= i < j && #[trigger] command_started(waves, i) ==> !wave_stops(waves[i]),
    decreases j,
{
    if j > 0 {
        let s = command_outcome(waves.take(j - 1));
        waves_start_until_something_stops_the_run(waves, j - 1);
        lemma_wave_turn(waves, j - 1);
        lemma_turn(s, waves[j - 1]);
        if command_started(waves, j) {
            assert(command_started(waves, j - 1));
        }
    }
}

/// Whether a task of this name reports in one of the events.
pub open spec fn reports_among(events: Seq<WaveEvent>, name: Seq<char>) -> bool {
    exists|e: int| 0 <= e < events.len() && event_names(#[trigger] events[e], name)
}

/// Whether an event is the report of a task of this name.
pub open spec fn event_names(event: WaveEvent, name: Seq<char>) -> bool {
    event matches WaveEvent::Ended(Some(report)) && report.name == name
}

/// Whether an event is no report, or the report of a task that is done.
pub open spec fn event_done(event: WaveEvent) -> bool {
    event matches WaveEvent::Ended(Some(report)) ==> report.status == TaskStatus::Done
}

/// Whether every task of a wave reports, and every report of the wave is on a task that is done.
pub open spec fn wave_done(w: CommandTrace) -> bool {
    &&& forall|e: int| 0 <= e < w.events.len() ==> event_done(#[trigger] w.events[e])
    &&& forall|n: int|
        0 <= n < w.tasks.len() ==> reports_among(w.events, (#[trigger] w.tasks[n]).name)
}

proof fn lemma_done_events(s: CommandView, w: OpenWaveView, events: Seq<WaveEvent>)
    ensures
        after_events(s, w, events).1.names == w.names,
        forall|name: Seq<char>| #[trigger]
            after_events(s, w, events).1.reported.contains(name) == (w.reported.contains(name)
                || reports_among(events, name)),
        all_reported_done(after_events(s, w, events).0.reports) <==> all_reported_done(s.reports)
            && forall|e: int| 0 <= e < events.len() ==> event_done(#[trigger] events[e]),
    decreases events.len(),
{
    if events.len() > 0 {
        let before = events.drop_last();
        let last = events.last();
        let n = events.len() - 1;
        lemma_done_events(s, w, before);
        let (t, v) = after_events(s, w, before);
        let (t2, v2) = after_events(s, w, events);
        assert(events[n] == last);
        assert forall|name: Seq<char>| #[trigger] v2.reported.contains(name) == (
        w.reported.contains(name) || reports_among(events, name)) by {
            assert(v.reported.contains(name) == (w.reported.contains(name) || reports_among(
                before,
                name,
            )));
            if reports_among(before, name) {
                let e = choose|e: int| 0 <= e < before.len() && event_names(#[trigger] before[e], name);
                assert(event_names(events[e], name));
            }
            if event_names(last, name) {
                assert(event_names(events[n], name));
            }
            if reports_among(events, name) {
                let e = choose|e: int| 0 <= e < events.len() && event_names(#[trigger] events[e], name);
                if e < n {
                    assert(event_names(before[e], name));
                }
            }
        }
        if all_reported_done(t2.reports) {
            assert forall|r: int| 0 <= r < t.reports.len() implies (#[trigger] t.reports[r]).status
                == TaskStatus::Done by {
                assert(t2.reports[r] == t.reports[r]);
            }
            if let WaveEvent::Ended(Some(report)) = last {
                assert(t2.reports[t.reports.len() as int] == report);
            }
            assert forall|e: int| 0 <= e < events.len() implies event_done(#[trigger] events[e]) by {
                if e < n {
                    assert(event_done(before[e]));
                }
            }
        }
        if all_reported_done(s.reports) && forall|e: int|
            0 <= e < events.len() ==> event_done(#[trigger] events[e]) {
            assert forall|e: int| 0 <= e < before.len() implies event_done(#[trigger] before[e]) by {
                assert(events[e] == before[e]);
            }
            assert(event_done(events[n]));
            assert forall|r: int| 0 <= r < t2.reports.len() implies (
            #[trigger] t2.reports[r]).status == TaskStatus::Done by {
                if r < t.reports.len() {
                    assert(t2.reports[r] == t.reports[r]);
                }
            }
        }
    }
}

proof fn lemma_done_turn(s: CommandView, w: CommandTrace)
    requires
        skip_reason(s.wave_failed, s.interrupted) is None,
    ensures
        all_reported_done(after_command_turn(s, w).reports) <==> all_reported_done(s.reports)
            && wave_done(w),
{
    let open = fresh_wave(w.tasks);
    let (t, v) = after_events(s, open, w.events);
    let left = missing(v.names, v.reported);
    let end = after_close(t, left).reports;
    lemma_done_events(s, open, w.events);
    if all_reported_done(end) {
        assert forall|r: int| 0 <= r < t.reports.len() implies (#[trigger] t.reports[r]).status
            == TaskStatus::Done by {
            assert(end[r] == t.reports[r]);
        }
        assert forall|n: int| 0 <= n < w.tasks.len() implies reports_among(
            w.events,
            (#[trigger] w.tasks[n]).name,
        ) by {
            let name = w.tasks[n].name;
            assert(v.names[n] == name);
            if !v.reported.contains(name) {
                missing_are_the_unreported(v.names, v.reported, name);
                let j = choose|j: int| 0 <= j < left.len() && left[j] == name;
                assert(end[t.reports.len() + j].status == TaskStatus::Failed);
            }
        }
    }
    if all_reported_done(s.reports) && wave_done(w) {
        assert(left.len() == 0) by {
            if left.len() > 0 {
                let name = left[0];
                missing_are_the_unreported(v.names, v.reported, name);
                assert(left.contains(name));
                let n = choose|n: int| 0 <= n < v.names.len() && v.names[n] == name;
                assert(reports_among(w.events, w.tasks[n].name));
                assert(v.reported.contains(name));
            }
        }
        assert(end =~= t.reports);
    }
}

/// Whether wave `j` was started, every task of it reported, and every report says that the task is
/// done.
pub open spec fn wave_fulfilled(waves: Seq<CommandTrace>, j: int) -> bool {
    command_started(waves, j) && wave_done(waves[j])
}

/// A run of waves that hold tasks counts as gone well just where every wave was started, every
/// task of every wave reported, and every report says that the task is done.
pub proof fn runs_go_well_just_where_every_task_is_done(waves: Seq<CommandTrace>)
    requires
        forall|j: int| 0 <= j < waves.len() ==> (#[trigger] waves[j]).tasks.len() > 0,
    ensures
        all_reported_done(command_outcome(waves).reports) <==> forall|j: int|
            0 <= j < waves.len() ==> #[trigger] wave_fulfilled(waves, j),
    decreases waves.len(),
{
    if waves.len() > 0 {
        let before = waves.drop_last();
        let n = waves.len() - 1;
        let s = command_outcome(before);
        let last = waves.last();
        assert forall|j: int| 0 <= j < before.len() implies (#[trigger] before[j]).tasks.len()
            > 0 by {
            assert(before[j] == waves[j]);
        }
        runs_go_well_just_where_every_task_is_done(before);
        assert(waves.take(n) =~= before);
        assert(waves[n] == last);
        assert forall|j: int| 0 <= j < n implies #[trigger] wave_fulfilled(before, j)
            == wave_fulfilled(waves, j) by {
            assert(before.take(j) =~= waves.take(j));
        }
        lemma_turn(s, last);
        if command_started(waves, n) {
            lemma_done_turn(s, last);
        }
        assert(command_outcome(waves) == after_command_turn(s, last));
        if all_reported_done(command_outcome(waves).reports) {
            assert(command_started(waves, n));
            assert(all_reported_done(s.reports) && wave_done(last));
            assert forall|j: int| 0 <= j < waves.len() implies #[trigger] wave_fulfilled(
                waves,
                j,
            ) by {
                if j < n {
                    assert(wave_fulfilled(before, j));
                }
            }
        }
        if forall|j: int|
            0 <= j < waves.len() ==> #[trigger] wave_fulfilled(waves, j) {
            assert(wave_fulfilled(waves, n));
            assert forall|j: int| 0 <= j < before.len() implies #[trigger] wave_fulfilled(
                before,
                j,
            ) by {
                assert(wave_fulfilled(waves, j));
            }
            assert(all_reported_done(s.reports) && wave_done(last));
        }
    }
}

/// A wave that is skipped adds a report on each of its tasks, in their order: cancelled, for the
/// reason. What was reported before stays.
pub proof fn skipped_waves_are_reported_as_cancelled(
    s: CommandView,
    tasks: Seq<TaskView>,
    reason: Seq<char>,
    i: int,
)
    ensures
        after_skip(s, tasks, reason).reports.len() == s.reports.len() + tasks.len(),
        after_skip(s, tasks, reason).reports.take(s.reports.len() as int) == s.reports,
        0 <= i < tasks.len() ==> {
            let report = after_skip(s, tasks, reason).reports[s.reports.len() + i];
            &&& report.name == tasks[i].name
            &&& report.status == TaskStatus::Cancelled
            &&& report.error == Some(reason)
        },
        after_skip(s, tasks, reason).wave_failed == s.wave_failed,
        after_skip(s, tasks, reason).interrupted == s.interrupted,
{
    assert(after_skip(s, tasks, reason).reports.take(s.reports.len() as int) =~= s.reports);
}

/// A wave that ends adds a report on each task that never reported, in their order: failed, for it
/// panicked. What was reported before stays.
pub proof fn lost_tasks_are_reported_as_failed(s: CommandView, left: Seq<Seq<char>>, i: int)
    ensures
        after_close(s, left).reports.len() == s.reports.len() + left.len(),
        after_close(s, left).reports.take(s.reports.len() as int) == s.reports,
        0 <= i < left.len() ==> {
            let report = after_close(s, left).reports[s.reports.len() + i];
            &&& report.name == left[i]
            &&& report.status == TaskStatus::Failed
            &&& report.error == Some("task panicked"@)
        },
        after_close(s, left).wave_failed == s.wave_failed,
        after_close(s, left).interrupted == s.interrupted,
{
    assert(after_close(s, left).reports.take(s.reports.len() as int) =~= s.reports);
}

/// A task that reports has its report put behind the others, as it is; the run stops after a
/// failed one and after one that broke down, and after no other.
pub proof fn reports_are_put_down_as_they_come(s: CommandView, report: ReportView)
    ensures
        after_task(s, Some(report)).reports == s.reports.push(report),
        after_task(s, None).reports == s.reports,
        after_task(s, Some(report)).wave_failed <==> s.wave_failed || report.status is Failed,
        after_task(s, None).wave_failed,
        after_task(s, Some(report)).interrupted == s.interrupted,
        after_task(s, None).interrupted == s.interrupted,
{
}

/// A run counts as gone well just where there is no report on a task that is not done.
pub proof fn runs_are_judged_by_their_reports(reports: Seq<ReportView>)
    ensures
        all_reported_done(reports) <==> !exists|i: int|
            0 <= i < reports.len() && !((#[trigger] reports[i]).status is Done),
{
    if !exists|i: int| 0 <= i < reports.len() && !((#[trigger] reports[i]).status is Done) {
        assert forall|i: int| 0 <= i < reports.len() implies (#[trigger] reports[i]).status
            == TaskStatus::Done by {}
    }
}

/// The summary has a line for every report: the mark of its status, the task's name, and its error
/// where it has one.
pub proof fn summaries_show_every_report(
    reports: Seq<ReportView>,
    total: nat,
    base: Seq<char>,
    i: int,
)
    requires
        0 <= i < reports.len(),
    ensures
        reports[i].error is None ==> has_part(
            summary_text(reports, total, base),
            "  "@ + summary_icon(reports[i].status) + " "@ + reports[i].name + "\n"@,
        ),
        reports[i].error matches Some(e) ==> has_part(
            summary_text(reports, total, base),
            "  "@ + summary_icon(reports[i].status) + " "@ + reports[i].name + "  -- "@ + e + "\n"@,
        ),
        summary_icon(TaskStatus::Done) == "\x1b[32m✓\x1b[0m"@,
        summary_icon(TaskStatus::Failed) == "\x1b[31m✗\x1b[0m"@,
        summary_icon(TaskStatus::Cancelled) == "\x1b[35m⊘\x1b[0m"@,
{
    let lines = reports.map_values(|r: ReportView| summary_line(r));
    let line = summary_line(reports[i]);
    assert(lines[i] == line);
    joined_texts_hold_each(lines, i);
    lemma_lines_stand(reports, total, base);
    parts_of_parts_are_parts(summary_text(reports, total, base), joined(lines), line);
    let head = "  "@ + summary_icon(reports[i].status) + " "@ + reports[i].name;
    if let Some(e) = reports[i].error {
        assert(line =~= head + "  -- "@ + e + "\n"@);
    } else {
        assert(line =~= head + "\n"@);
    }
}

proof fn lemma_lines_stand(reports: Seq<ReportView>, total: nat, base: Seq<char>)
    ensures
        has_part(
            summary_text(reports, total, base),
            joined(reports.map_values(|r: ReportView| summary_line(r))),
        ),
        has_part(summary_text(reports, total, base), "SUMMARY ("@ + decimal(total) + " tasks)"@),
        has_suffix(summary_text(reports, total, base), "Results: "@ + base + "/outputs/*.md\n"@),
{
    let rule = repeated('=', RULE_WIDTH as nat);
    let lines = joined(reports.map_values(|r: ReportView| summary_line(r)));
    let text = summary_text(reports, total, base);
    let first = "\n"@ + rule;
    let counted = "\n  SUMMARY ("@ + decimal(total) + " tasks)\n"@;
    let before = first + counted + rule + "\n"@;
    let behind = "\n  Results: "@ + base + "/outputs/*.md\n"@;
    assert(text =~= (before + lines) + behind);
    lemma_part_at(text, before, lines, behind);
    let shown = "SUMMARY ("@ + decimal(total) + " tasks)"@;
    reveal_strlit("\n  SUMMARY (");
    reveal_strlit("SUMMARY (");
    reveal_strlit(" tasks)\n");
    reveal_strlit(" tasks)");
    reveal_strlit("\n  ");
    reveal_strlit("\n");
    assert(counted =~= ("\n  "@ + shown) + "\n"@);
    lemma_part_at(counted, "\n  "@, shown, "\n"@);
    let rest = rule + "\n"@ + lines + behind;
    assert(text =~= (first + counted) + rest);
    lemma_part_at(text, first, counted, rest);
    parts_of_parts_are_parts(text, counted, shown);
    let tail = "Results: "@ + base + "/outputs/*.md\n"@;
    reveal_strlit("\n  Results: ");
    reveal_strlit("Results: ");
    assert(behind =~= "\n  "@ + tail);
    assert(text =~= (before + lines + "\n  "@) + tail);
    assert(text.skip(text.len() - tail.len()) =~= tail);
}

/// The summary says how many tasks there were, and ends with where their results are.
pub proof fn summaries_say_how_many_and_where(reports: Seq<ReportView>, total: nat, base: Seq<char>)
    ensures
        has_part(summary_text(reports, total, base), "SUMMARY ("@ + decimal(total) + " tasks)"@),
        has_suffix(summary_text(reports, total, base), "Results: "@ + base + "/outputs/*.md\n"@),
{
    lemma_lines_stand(reports, total, base);
}

/// A run starts by saying how many tasks it has in how many waves, and a wave by saying which it is
/// and how many tasks it has; of one task it speaks in the singular.
pub proof fn runs_say_what_they_start(tasks: nat, waves: nat)
    ensures
        launch_text(tasks, waves) == "Launching "@ + decimal(tasks) + " tasks in "@ + decimal(waves)
            + " wave(s)...\n"@,
        wave_text(waves, 1) == "-- Wave "@ + decimal(waves) + " ("@ + decimal(1)
            + " task, parallel) --"@,
        tasks != 1 ==> wave_text(waves, tasks) == "-- Wave "@ + decimal(waves) + " ("@ + decimal(
            tasks,
        ) + " tasks, parallel) --"@,
{
}

} // verus!

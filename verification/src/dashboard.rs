//! The dashboard: all tasks of a run at a glance.
use vstd::prelude::*;
use vstd::string::*;

use crate::commands::status::{shown_before, showing_key_order, ShownKey};
use crate::meta::{meta_views, MetaView, TaskMeta, TaskStatus};
use crate::order::{
    picked, placed_before, sort_by_keys, stable_order_of, stable_sorts_agree, stably_sorted, views,
    weak_order,
};
use crate::text::{
    decimal, decimal_int, decimal_int_text, decimal_text, first_chars, has_part, has_suffix,
    lemma_part_at, lemma_still_holds, pad_right, padded, parts_of_parts_are_parts, repeat_char,
    repeated, text_before, text_before_total, truncate_utf8,
};
use crate::time::{time_of_day, toward_zero, whole_seconds, Timestamp};

verus! {

/// How wide the rules of the dashboard are.
pub const DASHBOARD_WIDTH: usize = 72;

/// How much of a task's last action or error is shown.
pub const SHOWN_CHARS: usize = 60;

/// A task to be shown, with its token counts in thousands, written out.
#[derive(Debug)]
pub struct ShownTask {
    pub meta: TaskMeta,
    pub tokens_in: String,
    pub tokens_out: String,
}

/// The contents of a task to be shown.
#[verifier::ext_equal]
pub struct ShownView {
    pub meta: MetaView,
    pub tokens_in: Seq<char>,
    pub tokens_out: Seq<char>,
}

impl View for ShownTask {
    type V = ShownView;

    open spec fn view(&self) -> ShownView {
        ShownView { meta: self.meta@, tokens_in: self.tokens_in@, tokens_out: self.tokens_out@ }
    }
}

/// The contents of a list of tasks to be shown.
pub open spec fn shown_views(tasks: Seq<ShownTask>) -> Seq<ShownView> {
    tasks.map_values(|t: ShownTask| t@)
}

/// The order in which tasks are shown: by wave, then by name.
pub open spec fn display_order() -> spec_fn(ShownView, ShownView) -> bool {
    |a: ShownView, b: ShownView| shown_before(a.meta.wave, a.meta.name, b.meta.wave, b.meta.name)
}

/// The mark of a task.
pub open spec fn task_icon(status: TaskStatus) -> Seq<char> {
    match status {
        TaskStatus::Running => "\x1b[33m⟳\x1b[0m"@,
        TaskStatus::Done => "\x1b[32m✓\x1b[0m"@,
        TaskStatus::Failed => "\x1b[31m✗\x1b[0m"@,
        TaskStatus::Pending => "\x1b[90m◯\x1b[0m"@,
        TaskStatus::Cancelled => "\x1b[35m⊘\x1b[0m"@,
    }
}

fn icon_for(status: TaskStatus) -> (r: &'static str)
    ensures
        r@ == task_icon(status),
{
    match status {
        TaskStatus::Running => "\x1b[33m⟳\x1b[0m",
        TaskStatus::Done => "\x1b[32m✓\x1b[0m",
        TaskStatus::Failed => "\x1b[31m✗\x1b[0m",
        TaskStatus::Pending => "\x1b[90m◯\x1b[0m",
        TaskStatus::Cancelled => "\x1b[35m⊘\x1b[0m",
    }
}

/// Seconds of a minute, two digits where they are not negative.
pub open spec fn seconds_text(n: int) -> Seq<char> {
    if 0 <= n < 10 {
        seq!['0'] + decimal(n as nat)
    } else {
        decimal_int(n)
    }
}

/// A count of seconds as minutes and seconds.
pub open spec fn minutes_text(seconds: int) -> Seq<char> {
    let minutes = toward_zero(seconds, 60);
    decimal_int(minutes) + "m"@ + seconds_text(seconds - 60 * minutes) + "s"@
}

/// A count of seconds as minutes and seconds.
pub fn minutes_label(seconds: i64) -> (r: String)
    ensures
        r@ == minutes_text(seconds as int),
{
    let (minutes, rest): (i64, i64) = if seconds >= 0 {
        (seconds / 60, seconds % 60)
    } else if seconds == i64::MIN {
        (-153_722_867_280_912_930, -8)
    } else {
        let positive: i64 = -seconds;
        (-(positive / 60), -(positive % 60))
    };
    let mut out = decimal_int_text(minutes);
    out.append("m");
    let ghost head = out@;
    if 0 <= rest && rest < 10 {
        out.append("0");
        out.append(decimal_text(rest as u64).as_str());
        proof {
            reveal_strlit("0");
            assert("0"@ =~= seq!['0']);
            assert(out@ =~= head + seconds_text(rest as int));
        }
    } else {
        out.append(decimal_int_text(rest).as_str());
    }
    out.append("s");
    out
}

/// How long a task has run: to its end, or until now where it still runs, else a dash.
pub open spec fn duration_text(meta: MetaView, now: Timestamp) -> Seq<char> {
    match meta.end_time {
        Some(end) => minutes_text(whole_seconds(meta.start_time, end)),
        None => if meta.status == TaskStatus::Running {
            minutes_text(whole_seconds(meta.start_time, now))
        } else {
            "-"@
        },
    }
}

/// How long a task has run.
pub fn duration_label(meta: &TaskMeta, now: &Timestamp) -> (r: String)
    ensures
        r@ == duration_text(meta@, *now),
{
    match &meta.end_time {
        Some(end) => minutes_label(meta.start_time.seconds_until(end)),
        None => match meta.status {
            TaskStatus::Running => minutes_label(meta.start_time.seconds_until(now)),
            _ => "-".to_owned(),
        },
    }
}

/// The lines that show a task.
pub open spec fn task_text(task: ShownView, now: Timestamp) -> Seq<char> {
    let meta = task.meta;
    "    "@ + task_icon(meta.status) + " "@ + meta.name + "\n      Status: "@ + padded(
        meta.status.label(),
        10,
    ) + " Duration: "@ + padded(duration_text(meta, now), 8) + " Events: "@ + decimal(
        meta.events_count,
    ) + "\n      Tokens: "@ + task.tokens_in + "K in / "@ + task.tokens_out + "K out    Files: "@
        + decimal(meta.files_read) + "  Cmds: "@ + decimal(meta.commands_run) + "\n      Last: "@
        + first_chars(meta.last_action, SHOWN_CHARS as nat) + "\n"@ + error_line(meta.error)
        + "\n"@
}

/// The line that shows a task's error, where it has one.
pub open spec fn error_line(error: Option<Seq<char>>) -> Seq<char> {
    match error {
        Some(e) => "      \x1b[31mError: "@ + first_chars(e, SHOWN_CHARS as nat) + "\x1b[0m\n"@,
        None => seq![],
    }
}

/// The lines that show a task.
pub fn render_task_line(task: &ShownTask, now: &Timestamp) -> (r: String)
    ensures
        r@ == task_text(task@, *now),
{
    let meta = &task.meta;
    let mut out = "    ".to_owned();
    out.append(icon_for(meta.status));
    out.append(" ");
    out.append(meta.name.as_str());
    out.append("\n      Status: ");
    out.append(pad_right(meta.status.as_text(), 10).as_str());
    out.append(" Duration: ");
    out.append(pad_right(duration_label(meta, now).as_str(), 8).as_str());
    out.append(" Events: ");
    out.append(decimal_text(meta.events_count).as_str());
    out.append("\n      Tokens: ");
    out.append(task.tokens_in.as_str());
    out.append("K in / ");
    out.append(task.tokens_out.as_str());
    out.append("K out    Files: ");
    out.append(decimal_text(meta.files_read as u64).as_str());
    out.append("  Cmds: ");
    out.append(decimal_text(meta.commands_run as u64).as_str());
    out.append("\n      Last: ");
    out.append(truncate_utf8(meta.last_action.as_str(), SHOWN_CHARS).as_str());
    out.append("\n");
    let ghost head = out@;
    match &meta.error {
        Some(e) => {
            out.append("      \x1b[31mError: ");
            out.append(truncate_utf8(e.as_str(), SHOWN_CHARS).as_str());
            out.append("\x1b[0m\n");
            assert(out@ =~= head + error_line(meta@.error));
        },
        None => {
            assert(out@ =~= head + error_line(meta@.error));
        },
    }
    out.append("\n");
    out
}

/// How many tasks have a status.
pub open spec fn with_status(tasks: Seq<ShownView>, status: TaskStatus) -> nat
    decreases tasks.len(),
{
    if tasks.len() == 0 {
        0
    } else {
        with_status(tasks.drop_last(), status) + if tasks.last().meta.status == status {
            1nat
        } else {
            0nat
        }
    }
}

/// The tasks of a wave, in their order.
pub open spec fn in_group(tasks: Seq<ShownView>, wave: u32) -> Seq<ShownView>
    decreases tasks.len(),
{
    if tasks.len() == 0 {
        seq![]
    } else if tasks.last().meta.wave == Some(wave) {
        in_group(tasks.drop_last(), wave).push(tasks.last())
    } else {
        in_group(tasks.drop_last(), wave)
    }
}

/// The line above the tasks of a wave.
pub open spec fn group_text(wave: u32, done: nat, total: nat) -> Seq<char> {
    "  -- Wave "@ + decimal(wave as nat) + " ("@ + decimal(done) + "/"@ + decimal(total)
        + " done) --\n"@
}

/// What stands above task `i` of the sorted tasks: the line of its wave, where it is the first of
/// it.
pub open spec fn group_line(tasks: Seq<ShownView>, i: int) -> Seq<char> {
    match tasks[i].meta.wave {
        Some(wave) => if i == 0 || tasks[i - 1].meta.wave != Some(wave) {
            let group = in_group(tasks, wave);
            group_text(wave, with_status(group, TaskStatus::Done), group.len())
        } else {
            seq![]
        },
        None => seq![],
    }
}

/// The lines of the first `n` of the sorted tasks.
pub open spec fn body_text(tasks: Seq<ShownView>, now: Timestamp, n: nat) -> Seq<char>
    decreases n,
{
    if n == 0 {
        seq![]
    } else {
        body_text(tasks, now, (n - 1) as nat) + group_line(tasks, n - 1) + task_text(
            tasks[n - 1],
            now,
        )
    }
}

/// The whole dashboard, for sorted tasks.
pub open spec fn dashboard_text(tasks: Seq<ShownView>, now: Timestamp) -> Seq<char> {
    let rule = repeated('=', DASHBOARD_WIDTH as nat);
    rule + "\n  CODEX PARALLEL DASHBOARD  |  "@ + time_of_day(
        now.unix_seconds() + now.utc_offset(),
        now.in_leap_second(),
    ) + "  |  "@ + decimal(with_status(tasks, TaskStatus::Done)) + "/"@ + decimal(tasks.len())
        + " done, "@ + decimal(with_status(tasks, TaskStatus::Running)) + " running, "@ + decimal(
        with_status(tasks, TaskStatus::Failed),
    ) + " failed\n"@ + rule + "\n\n"@ + body_text(tasks, now, tasks.len()) + repeated(
        '-',
        DASHBOARD_WIDTH as nat,
    ) + "\n  Results: outputs/*.md  |  Logs: logs/*.jsonl  |  Ctrl+C to cancel\n"@
}

fn count_status(tasks: &Vec<ShownTask>, status: TaskStatus) -> (r: usize)
    ensures
        r == with_status(shown_views(tasks@), status),
{
    let ghost all = shown_views(tasks@);
    let mut n: usize = 0;
    let mut i: usize = 0;
    while i < tasks.len()
        invariant
            i <= tasks@.len(),
            n <= i,
            all == shown_views(tasks@),
            n == with_status(all.take(i as int), status),
        decreases tasks@.len() - i,
    {
        proof {
            assert(all.take(i + 1).drop_last() =~= all.take(i as int));
            assert(all.take(i + 1).last() == tasks@[i as int]@);
        }
        if tasks[i].meta.status == status {
            n = n + 1;
        }
        i = i + 1;
    }
    assert(all.take(i as int) =~= all);
    n
}

fn count_group(tasks: &Vec<ShownTask>, wave: u32) -> (r: (usize, usize))
    ensures
        r.0 == with_status(in_group(shown_views(tasks@), wave), TaskStatus::Done),
        r.1 == in_group(shown_views(tasks@), wave).len(),
{
    let ghost all = shown_views(tasks@);
    let mut done: usize = 0;
    let mut total: usize = 0;
    let mut i: usize = 0;
    while i < tasks.len()
        invariant
            i <= tasks@.len(),
            done <= total <= i,
            all == shown_views(tasks@),
            done == with_status(in_group(all.take(i as int), wave), TaskStatus::Done),
            total == in_group(all.take(i as int), wave).len(),
        decreases tasks@.len() - i,
    {
        let ghost before = in_group(all.take(i as int), wave);
        let ghost here = in_group(all.take(i + 1), wave);
        proof {
            assert(all.take(i + 1).drop_last() =~= all.take(i as int));
            assert(all.take(i + 1).last() == tasks@[i as int]@);
        }
        let inside = match tasks[i].meta.wave {
            Some(w) => w == wave,
            None => false,
        };
        if inside {
            proof {
                assert(here == before.push(tasks@[i as int]@));
                assert(here.drop_last() =~= before);
            }
            if tasks[i].meta.status == TaskStatus::Done {
                done = done + 1;
            }
            total = total + 1;
        }
        i = i + 1;
    }
    assert(all.take(i as int) =~= all);
    (done, total)
}

fn line_above(tasks: &Vec<ShownTask>, i: usize) -> (r: String)
    requires
        i < tasks@.len(),
    ensures
        r@ == group_line(shown_views(tasks@), i as int),
{
    let ghost all = shown_views(tasks@);
    assert(all[i as int] == tasks@[i as int]@);
    match tasks[i].meta.wave {
        Some(wave) => {
            let first = if i == 0 {
                true
            } else {
                assert(all[i - 1] == tasks@[i - 1]@);
                match tasks[i - 1].meta.wave {
                    Some(w) => w != wave,
                    None => true,
                }
            };
            if first {
                let (done, total) = count_group(tasks, wave);
                let mut out = "  -- Wave ".to_owned();
                out.append(decimal_text(wave as u64).as_str());
                out.append(" (");
                out.append(decimal_text(done as u64).as_str());
                out.append("/");
                out.append(decimal_text(total as u64).as_str());
                out.append(" done) --\n");
                out
            } else {
                String::new()
            }
        },
        None => String::new(),
    }
}

fn sort_shown(tasks: Vec<ShownTask>) -> (r: Vec<ShownTask>)
    ensures
        stably_sorted(shown_views(tasks@), display_order(), shown_views(r@)),
{
    let ghost all = shown_views(tasks@);
    let mut keys: Vec<ShownKey> = Vec::new();
    let mut i: usize = 0;
    while i < tasks.len()
        invariant
            i <= tasks@.len(),
            keys@.len() == i,
            all == shown_views(tasks@),
            forall|j: int|
                0 <= j < i ==> (#[trigger] keys@[j]).wave == all[j].meta.wave && keys@[j].name@
                    == all[j].meta.name,
        decreases tasks@.len() - i,
    {
        keys.push(ShownKey { wave: tasks[i].meta.wave, name: tasks[i].meta.name.clone() });
        i = i + 1;
    }
    assert(views(tasks@) =~= all);
    let sorted = sort_by_keys(tasks, &keys, Ghost(display_order()));
    assert(views(sorted@) =~= shown_views(sorted@));
    sorted
}

/// Whether this is the dashboard of the tasks: what it says of them by wave and name.
pub open spec fn dashboard_of(tasks: Seq<ShownView>, now: Timestamp, text: Seq<char>) -> bool {
    exists|sorted: Seq<ShownView>| #[trigger]
        stably_sorted(tasks, display_order(), sorted) && text == dashboard_text(sorted, now)
}

/// The whole dashboard at the given time.
pub fn render(tasks: Vec<ShownTask>, now: &Timestamp) -> (r: String)
    ensures
        dashboard_of(shown_views(tasks@), *now, r@),
{
    let sorted = sort_shown(tasks);
    let ghost all = shown_views(sorted@);
    let rule = repeat_char('=', DASHBOARD_WIDTH);
    let mut out = rule.clone();
    out.append("\n  CODEX PARALLEL DASHBOARD  |  ");
    out.append(now.clock_text().as_str());
    out.append("  |  ");
    out.append(decimal_text(count_status(&sorted, TaskStatus::Done) as u64).as_str());
    out.append("/");
    out.append(decimal_text(sorted.len() as u64).as_str());
    out.append(" done, ");
    out.append(decimal_text(count_status(&sorted, TaskStatus::Running) as u64).as_str());
    out.append(" running, ");
    out.append(decimal_text(count_status(&sorted, TaskStatus::Failed) as u64).as_str());
    out.append(" failed\n");
    out.append(rule.as_str());
    out.append("\n\n");
    let ghost head = out@;
    let mut i: usize = 0;
    assert(head + body_text(all, *now, 0) =~= head);
    while i < sorted.len()
        invariant
            i <= sorted@.len(),
            all == shown_views(sorted@),
            out@ == head + body_text(all, *now, i as nat),
        decreases sorted@.len() - i,
    {
        let ghost before = out@;
        out.append(line_above(&sorted, i).as_str());
        out.append(render_task_line(&sorted[i], now).as_str());
        proof {
            assert(all[i as int] == sorted@[i as int]@);
            assert(out@ =~= head + body_text(all, *now, (i + 1) as nat));
        }
        i = i + 1;
    }
    out.append(repeat_char('-', DASHBOARD_WIDTH).as_str());
    out.append("\n  Results: outputs/*.md  |  Logs: logs/*.jsonl  |  Ctrl+C to cancel\n");
    assert(out@ == dashboard_text(all, *now));
    out
}

/// Whether there are tasks and all of them have ended.
pub open spec fn all_finished(metas: Seq<MetaView>) -> bool {
    metas.len() > 0 && forall|i: int|
        0 <= i < metas.len() ==> (#[trigger] metas[i]).status.terminal()
}

/// Whether watching a run can stop: there are tasks and all of them have ended.
pub fn should_stop(metas: &Vec<TaskMeta>) -> (r: bool)
    ensures
        r == all_finished(meta_views(metas@)),
{
    let ghost all = meta_views(metas@);
    let mut i: usize = 0;
    while i < metas.len()
        invariant
            i <= metas@.len(),
            all == meta_views(metas@),
            forall|j: int| 0 <= j < i ==> (#[trigger] all[j]).status.terminal(),
        decreases metas@.len() - i,
    {
        if !metas[i].status.is_terminal() {
            assert(!all[i as int].status.terminal());
            return false;
        }
        i = i + 1;
    }
    metas.len() > 0
}

/// A run has one dashboard at a time, in whatever order its tasks were found.
pub proof fn dashboard_is_determined(
    tasks: Seq<ShownView>,
    now: Timestamp,
    a: Seq<char>,
    b: Seq<char>,
)
    requires
        dashboard_of(tasks, now, a),
        dashboard_of(tasks, now, b),
    ensures
        a == b,
{
    let before = display_order();
    assert forall|x: ShownView| !#[trigger] before(x, x) by {
        showing_key_order(x.meta.wave, x.meta.name, None, seq![], None, seq![]);
    }
    assert forall|x: ShownView, y: ShownView, z: ShownView| #[trigger]
        before(x, y) && #[trigger] before(y, z) implies before(x, z) by {
        showing_key_order(
            x.meta.wave,
            x.meta.name,
            y.meta.wave,
            y.meta.name,
            z.meta.wave,
            z.meta.name,
        );
    }
    assert forall|x: ShownView, y: ShownView, z: ShownView|
        !#[trigger] before(x, y) && !#[trigger] before(y, z) implies !before(x, z) by {
        showing_key_order(
            x.meta.wave,
            x.meta.name,
            y.meta.wave,
            y.meta.name,
            z.meta.wave,
            z.meta.name,
        );
    }
    assert(weak_order(before));
    let s = choose|sorted: Seq<ShownView>| #[trigger]
        stably_sorted(tasks, before, sorted) && a == dashboard_text(sorted, now);
    let t = choose|sorted: Seq<ShownView>| #[trigger]
        stably_sorted(tasks, before, sorted) && b == dashboard_text(sorted, now);
    stable_sorts_agree(tasks, before, s, t);
}

/// The dashboard groups its tasks by wave: between two tasks of a wave stand only tasks of that
/// wave, so that each wave has one line above it.
pub proof fn waves_are_shown_together(
    tasks: Seq<ShownView>,
    sorted: Seq<ShownView>,
    i: int,
    k: int,
    j: int,
)
    requires
        stably_sorted(tasks, display_order(), sorted),
        0 <= i <= k <= j < sorted.len(),
        sorted[i].meta.wave == sorted[j].meta.wave,
    ensures
        sorted[k].meta.wave == sorted[i].meta.wave,
{
    let order = choose|order: Seq<int>| #[trigger]
        stable_order_of(tasks, display_order(), order) && sorted == picked(tasks, order);
    if i < k && k < j {
        assert(placed_before(tasks, display_order(), order[i], order[k]));
        assert(placed_before(tasks, display_order(), order[k], order[j]));
    }
}

/// Each status has its own mark.
pub proof fn marks_tell_the_status()
    ensures
        task_icon(TaskStatus::Running) == "\x1b[33m⟳\x1b[0m"@,
        task_icon(TaskStatus::Done) == "\x1b[32m✓\x1b[0m"@,
        task_icon(TaskStatus::Failed) == "\x1b[31m✗\x1b[0m"@,
        task_icon(TaskStatus::Pending) == "\x1b[90m◯\x1b[0m"@,
        task_icon(TaskStatus::Cancelled) == "\x1b[35m⊘\x1b[0m"@,
{
}

/// A duration is written as its minutes, and as its seconds with two digits.
pub proof fn durations_are_written_in_minutes_and_seconds(minutes: nat, seconds: nat)
    requires
        seconds < 60,
    ensures
        seconds >= 10 ==> minutes_text(60int * minutes + seconds) == decimal(minutes) + "m"@ + decimal(
            seconds,
        ) + "s"@,
        seconds < 10 ==> minutes_text(60int * minutes + seconds) == decimal(minutes) + "m"@ + (seq![
            '0',
        ] + decimal(seconds)) + "s"@,
{
    assert((60 * minutes + seconds) / 60 == minutes);
}

/// The duration of a task goes to its end where it has ended, and until now where it still runs; a
/// task that has done neither has none.
pub proof fn durations_go_to_the_end_or_until_now(meta: MetaView, end: Timestamp, now: Timestamp)
    ensures
        duration_text(MetaView { end_time: Some(end), ..meta }, now) == minutes_text(
            whole_seconds(meta.start_time, end),
        ),
        duration_text(
            MetaView { end_time: None, status: TaskStatus::Running, ..meta },
            now,
        ) == minutes_text(whole_seconds(meta.start_time, now)),
        meta.end_time is None && !(meta.status is Running) ==> duration_text(meta, now) == "-"@,
{
}

/// The lines of a task show its name behind its mark, its status, how long it has run, its events
/// and tokens, the files it has read and the commands it has run, the start of its last action, and
/// the start of its error where it has one.
#[verifier::rlimit(40)]
pub proof fn task_lines_show_every_field(task: ShownView, now: Timestamp)
    ensures
        has_part(task_text(task, now), task_icon(task.meta.status) + " "@ + task.meta.name),
        has_part(task_text(task, now), " Status: "@ + padded(task.meta.status.label(), 10)),
        has_part(task_text(task, now), " Duration: "@ + padded(duration_text(task.meta, now), 8)),
        has_part(task_text(task, now), " Events: "@ + decimal(task.meta.events_count) + "\n"@),
        has_part(task_text(task, now), " Tokens: "@ + task.tokens_in + "K in / "@),
        has_part(task_text(task, now), "K in / "@ + task.tokens_out + "K out"@),
        has_part(task_text(task, now), " Files: "@ + decimal(task.meta.files_read) + "  Cmds: "@),
        has_part(task_text(task, now), "  Cmds: "@ + decimal(task.meta.commands_run) + "\n"@),
        has_part(task_text(task, now), " Last: "@ + first_chars(task.meta.last_action, 60) + "\n"@),
        task.meta.error matches Some(e) ==> has_part(
            task_text(task, now),
            "Error: "@ + first_chars(e, 60) + "\x1b[0m"@,
        ),
        task.meta.error is None ==> has_suffix(
            task_text(task, now),
            " Last: "@ + first_chars(task.meta.last_action, 60) + "\n\n"@,
        ),
{
    let meta = task.meta;
    let icon = task_icon(meta.status);
    let status = padded(meta.status.label(), 10);
    let duration = padded(duration_text(meta, now), 8);
    let events = decimal(meta.events_count);
    let files = decimal(meta.files_read);
    let commands = decimal(meta.commands_run);
    let last = first_chars(meta.last_action, 60);
    let p1 = "    "@ + icon + " "@ + meta.name;
    let p2 = p1 + "\n      Status: "@ + status;
    let p3 = p2 + " Duration: "@ + duration;
    let p4 = p3 + " Events: "@ + events;
    let p5 = p4 + "\n      Tokens: "@ + task.tokens_in;
    let p6 = p5 + "K in / "@ + task.tokens_out;
    let p7 = p6 + "K out    Files: "@ + files;
    let p8 = p7 + "  Cmds: "@ + commands;
    let p9 = p8 + "\n      Last: "@ + last;
    let text = task_text(task, now);
    let a9 = error_line(meta.error) + "\n"@;
    let r9 = "\n"@ + a9;
    assert(text == p9 + "\n"@ + error_line(meta.error) + "\n"@);
    assert(text =~= p9 + r9);
    lemma_step(text, p8, "\n      Last: "@, last, r9);
    let r8 = "\n      Last: "@ + (last + r9);
    lemma_step(text, p7, "  Cmds: "@, commands, r8);
    let r7 = "  Cmds: "@ + (commands + r8);
    lemma_step(text, p6, "K out    Files: "@, files, r7);
    let r6 = "K out    Files: "@ + (files + r7);
    lemma_step(text, p5, "K in / "@, task.tokens_out, r6);
    let r5 = "K in / "@ + (task.tokens_out + r6);
    lemma_step(text, p4, "\n      Tokens: "@, task.tokens_in, r5);
    let r4 = "\n      Tokens: "@ + (task.tokens_in + r5);
    lemma_step(text, p3, " Events: "@, events, r4);
    let r3 = " Events: "@ + (events + r4);
    lemma_step(text, p2, " Duration: "@, duration, r3);
    let r2 = " Duration: "@ + (duration + r3);
    lemma_step(text, p1, "\n      Status: "@, status, r2);
    let r1 = "\n      Status: "@ + (status + r2);
    lemma_line_captions();
    let named = icon + " "@ + meta.name;
    assert(p1 =~= "    "@ + named);
    lemma_part_at(text, "    "@, named, r1);
    lemma_shown(text, p8, "\n      Last: "@, " Last: "@, last, "\n"@, "\n"@, a9);
    lemma_shown(text, p7, "  Cmds: "@, "  Cmds: "@, commands, "\n      Last: "@, "\n"@, last + r9);
    lemma_shown(
        text,
        p6,
        "K out    Files: "@,
        " Files: "@,
        files,
        "  Cmds: "@,
        "  Cmds: "@,
        commands + r8,
    );
    lemma_shown(
        text,
        p5,
        "K in / "@,
        "K in / "@,
        task.tokens_out,
        "K out    Files: "@,
        "K out"@,
        files + r7,
    );
    lemma_shown(
        text,
        p4,
        "\n      Tokens: "@,
        " Tokens: "@,
        task.tokens_in,
        "K in / "@,
        "K in / "@,
        task.tokens_out + r6,
    );
    lemma_shown(
        text,
        p3,
        " Events: "@,
        " Events: "@,
        events,
        "\n      Tokens: "@,
        "\n"@,
        task.tokens_in + r5,
    );
    let none = Seq::<char>::empty();
    assert(r3 + none =~= r3 && r2 + none =~= r2);
    assert(r3.take(0) =~= none && r2.take(0) =~= none);
    lemma_shown(text, p2, " Duration: "@, " Duration: "@, duration, r3, none, none);
    lemma_shown(text, p1, "\n      Status: "@, " Status: "@, status, r2, none, none);
    assert(" Duration: "@ + duration + Seq::<char>::empty() =~= " Duration: "@ + duration);
    assert(" Status: "@ + status + Seq::<char>::empty() =~= " Status: "@ + status);
    if let Some(e) = meta.error {
        let shown = first_chars(e, 60);
        let line = error_line(meta.error);
        let middle = "Error: "@ + shown + "\x1b[0m"@;
        assert(line =~= ("      \x1b[31m"@ + middle) + "\n"@) by {
            reveal_strlit("      \x1b[31mError: ");
            reveal_strlit("      \x1b[31m");
            reveal_strlit("Error: ");
            reveal_strlit("\x1b[0m\n");
            reveal_strlit("\x1b[0m");
            reveal_strlit("\n");
        }
        lemma_part_at(line, "      \x1b[31m"@, middle, "\n"@);
        assert(text =~= ((p9 + "\n"@) + line) + "\n"@);
        lemma_part_at(text, p9 + "\n"@, line, "\n"@);
        parts_of_parts_are_parts(text, line, middle);
    } else {
        let tail = " Last: "@ + last + "\n\n"@;
        let caption = "\n      Last: "@;
        let left = p8 + caption.take(caption.len() - " Last: "@.len());
        reveal_strlit("\n");
        reveal_strlit("\n\n");
        assert(r9 =~= "\n\n"@);
        assert(caption =~= caption.take(caption.len() - " Last: "@.len()) + " Last: "@);
        assert(text =~= left + tail);
        assert(text.skip(text.len() - tail.len()) =~= tail);
    }
}

/// The captions of a task's lines end in their words.
proof fn lemma_line_captions()
    ensures
        has_suffix("\n      Status: "@, " Status: "@),
        has_suffix("\n      Tokens: "@, " Tokens: "@),
        has_suffix("K out    Files: "@, " Files: "@),
        has_suffix("\n      Last: "@, " Last: "@),
        has_suffix(" Duration: "@, " Duration: "@),
        has_suffix(" Events: "@, " Events: "@),
        has_suffix("K in / "@, "K in / "@),
        has_suffix("  Cmds: "@, "  Cmds: "@),
        has_prefix("\n      Tokens: "@, "\n"@),
        has_prefix("K out    Files: "@, "K out"@),
        has_prefix("\n      Last: "@, "\n"@),
        has_prefix("K in / "@, "K in / "@),
        has_prefix("  Cmds: "@, "  Cmds: "@),
        has_prefix("\n"@, "\n"@),
{
    reveal_strlit("\n      Status: ");
    reveal_strlit(" Status: ");
    reveal_strlit("\n      Tokens: ");
    reveal_strlit(" Tokens: ");
    reveal_strlit("K out    Files: ");
    reveal_strlit(" Files: ");
    reveal_strlit("\n      Last: ");
    reveal_strlit(" Last: ");
    reveal_strlit("\n");
    reveal_strlit("K out");
    assert("\n      Status: "@.skip(6) =~= " Status: "@);
    assert("\n      Tokens: "@.skip(6) =~= " Tokens: "@);
    assert("K out    Files: "@.skip(8) =~= " Files: "@);
    assert("\n      Last: "@.skip(6) =~= " Last: "@);
    assert("\n      Tokens: "@.take(1) =~= "\n"@);
    assert("K out    Files: "@.take(5) =~= "K out"@);
    assert("\n      Last: "@.take(1) =~= "\n"@);
    assert(" Duration: "@.skip(0) =~= " Duration: "@);
    assert(" Events: "@.skip(0) =~= " Events: "@);
    assert("K in / "@.skip(0) =~= "K in / "@);
    assert("  Cmds: "@.skip(0) =~= "  Cmds: "@);
    assert("K in / "@.take("K in / "@.len() as int) =~= "K in / "@);
    assert("  Cmds: "@.take("  Cmds: "@.len() as int) =~= "  Cmds: "@);
    assert("\n"@.take(1) =~= "\n"@);
}

/// Whether `head` stands at the start of `s`.
spec fn has_prefix(s: Seq<char>, head: Seq<char>) -> bool {
    head.len() <= s.len() && s.take(head.len() as int) == head
}

proof fn lemma_step(text: Seq<char>, p: Seq<char>, c: Seq<char>, v: Seq<char>, r: Seq<char>)
    requires
        text == (p + c + v) + r,
    ensures
        text == p + (c + (v + r)),
{
    assert(text =~= p + (c + (v + r)));
}

proof fn lemma_shown(
    text: Seq<char>,
    before: Seq<char>,
    caption: Seq<char>,
    word: Seq<char>,
    value: Seq<char>,
    next: Seq<char>,
    stop: Seq<char>,
    rest: Seq<char>,
)
    requires
        text == (before + caption + value) + (next + rest),
        has_suffix(caption, word),
        has_prefix(next, stop),
    ensures
        has_part(text, word + value + stop),
{
    let lead = caption.take(caption.len() - word.len());
    let trail = next.skip(stop.len() as int);
    assert(caption =~= lead + word);
    assert(next =~= stop + trail);
    assert(text =~= ((before + lead) + (word + value + stop)) + (trail + rest));
    lemma_part_at(text, before + lead, word + value + stop, trail + rest);
}

/// The counts of two lists of tasks add up, a single task counts under its own status alone, and
/// the counts under all statuses make up the whole list.
pub proof fn counts_add_up(a: Seq<ShownView>, b: Seq<ShownView>, status: TaskStatus)
    ensures
        with_status(a + b, status) == with_status(a, status) + with_status(b, status),
        a.len() == 1 ==> with_status(a, status) == if a[0].meta.status == status {
            1nat
        } else {
            0nat
        },
        with_status(a, TaskStatus::Pending) + with_status(a, TaskStatus::Running) + with_status(
            a,
            TaskStatus::Done,
        ) + with_status(a, TaskStatus::Failed) + with_status(a, TaskStatus::Cancelled) == a.len(),
    decreases a.len() + b.len(),
{
    if b.len() > 0 {
        assert((a + b).drop_last() =~= a + b.drop_last());
        counts_add_up(a, b.drop_last(), status);
    } else {
        assert(a + b =~= a);
        if a.len() > 0 {
            counts_add_up(a.drop_last(), b, status);
        }
        if a.len() == 1 {
            assert(with_status(a.drop_last(), status) == 0);
        }
    }
}

/// The group of a wave holds its tasks and no others, in their order.
pub proof fn groups_hold_the_tasks_of_their_wave(tasks: Seq<ShownView>, wave: u32, task: ShownView)
    ensures
        in_group(tasks, wave).contains(task) <==> tasks.contains(task) && task.meta.wave == Some(
            wave,
        ),
        in_group(tasks.push(task), wave) == if task.meta.wave == Some(wave) {
            in_group(tasks, wave).push(task)
        } else {
            in_group(tasks, wave)
        },
    decreases tasks.len(),
{
    assert(tasks.push(task).drop_last() =~= tasks);
    let group = in_group(tasks, wave);
    if tasks.len() > 0 {
        let before = tasks.drop_last();
        let last = tasks.last();
        let some = in_group(before, wave);
        groups_hold_the_tasks_of_their_wave(before, wave, task);
        if some.contains(task) {
            let i = choose|i: int| 0 <= i < some.len() && some[i] == task;
            assert(group[i] == task);
        }
        if before.contains(task) {
            let i = choose|i: int| 0 <= i < before.len() && before[i] == task;
            assert(tasks[i] == task);
        }
        if task == last {
            assert(tasks[tasks.len() - 1] == task);
            if last.meta.wave == Some(wave) {
                assert(group[group.len() - 1] == task);
            }
        }
        if group.contains(task) && task != last {
            let i = choose|i: int| 0 <= i < group.len() && group[i] == task;
            assert(some[i] == task);
        }
        if tasks.contains(task) && task != last {
            let i = choose|i: int| 0 <= i < tasks.len() && tasks[i] == task;
            assert(before[i] == task);
        }
    }
}

/// The dashboard shows the lines of every task.
#[verifier::rlimit(40)]
pub proof fn dashboards_show_every_task(tasks: Seq<ShownView>, now: Timestamp, i: int)
    requires
        0 <= i < tasks.len(),
    ensures
        has_part(dashboard_text(tasks, now), task_text(tasks[i], now)),
{
    let body = body_text(tasks, now, tasks.len());
    lemma_body_shows(tasks, now, tasks.len(), i);
    lemma_body_stands(tasks, now);
    parts_of_parts_are_parts(dashboard_text(tasks, now), body, task_text(tasks[i], now));
}

/// The dashboard shows the time of day, and how many tasks are done, run and have failed out of how
/// many.
#[verifier::rlimit(40)]
pub proof fn dashboards_show_the_counts(tasks: Seq<ShownView>, now: Timestamp)
    ensures
        has_part(
            dashboard_text(tasks, now),
            time_of_day(now.unix_seconds() + now.utc_offset(), now.in_leap_second()) + "  |  "@
                + decimal(with_status(tasks, TaskStatus::Done)) + "/"@ + decimal(tasks.len())
                + " done, "@ + decimal(with_status(tasks, TaskStatus::Running)) + " running, "@
                + decimal(with_status(tasks, TaskStatus::Failed)) + " failed\n"@,
        ),
{
    let rule = repeated('=', DASHBOARD_WIDTH as nat);
    let title = rule + "\n  CODEX PARALLEL DASHBOARD  |  "@;
    let clock = time_of_day(now.unix_seconds() + now.utc_offset(), now.in_leap_second());
    let done = decimal(with_status(tasks, TaskStatus::Done));
    let total = decimal(tasks.len());
    let running = decimal(with_status(tasks, TaskStatus::Running));
    let failed = decimal(with_status(tasks, TaskStatus::Failed));
    let counts = clock + "  |  "@ + done + "/"@ + total + " done, "@ + running + " running, "@
        + failed + " failed\n"@;
    let head = title + clock + "  |  "@ + done + "/"@ + total + " done, "@ + running
        + " running, "@ + failed + " failed\n"@;
    lemma_ten(
        title,
        clock,
        "  |  "@,
        done,
        "/"@,
        total,
        " done, "@,
        running,
        " running, "@,
        failed,
        " failed\n"@,
    );
    assert(head =~= (title + counts) + Seq::<char>::empty());
    lemma_part_at(head, title, counts, Seq::empty());
    let body = body_text(tasks, now, tasks.len());
    let dashes = repeated('-', DASHBOARD_WIDTH as nat);
    let foot = "\n  Results: outputs/*.md  |  Logs: logs/*.jsonl  |  Ctrl+C to cancel\n"@;
    lemma_still_holds(head, rule, counts);
    lemma_still_holds(head + rule, "\n\n"@, counts);
    lemma_still_holds(head + rule + "\n\n"@, body, counts);
    lemma_still_holds(head + rule + "\n\n"@ + body, dashes, counts);
    lemma_still_holds(head + rule + "\n\n"@ + body + dashes, foot, counts);
    assert(dashboard_text(tasks, now) == head + rule + "\n\n"@ + body + dashes + foot);
}

/// Ten texts behind another are one text behind it.
proof fn lemma_ten(
    p: Seq<char>,
    a: Seq<char>,
    b: Seq<char>,
    c: Seq<char>,
    d: Seq<char>,
    e: Seq<char>,
    f: Seq<char>,
    g: Seq<char>,
    h: Seq<char>,
    i: Seq<char>,
    j: Seq<char>,
)
    ensures
        p + a + b + c + d + e + f + g + h + i + j == p + (a + b + c + d + e + f + g + h + i + j),
{
    assert(p + a + b =~= p + (a + b));
    assert(p + (a + b) + c =~= p + (a + b + c));
    assert(p + (a + b + c) + d =~= p + (a + b + c + d));
    assert(p + (a + b + c + d) + e =~= p + (a + b + c + d + e));
    assert(p + (a + b + c + d + e) + f =~= p + (a + b + c + d + e + f));
    assert(p + (a + b + c + d + e + f) + g =~= p + (a + b + c + d + e + f + g));
    assert(p + (a + b + c + d + e + f + g) + h =~= p + (a + b + c + d + e + f + g + h));
    assert(p + (a + b + c + d + e + f + g + h) + i =~= p + (a + b + c + d + e + f + g + h + i));
    assert(p + (a + b + c + d + e + f + g + h + i) + j =~= p + (a + b + c + d + e + f + g + h + i
        + j));
}

proof fn lemma_body_shows(tasks: Seq<ShownView>, now: Timestamp, n: nat, i: int)
    requires
        0 <= i < n <= tasks.len(),
    ensures
        has_part(body_text(tasks, now, n), task_text(tasks[i], now)),
        has_part(body_text(tasks, now, n), group_line(tasks, i)),
    decreases n,
{
    let before = body_text(tasks, now, (n - 1) as nat);
    let line = group_line(tasks, n - 1);
    let shown = task_text(tasks[n - 1], now);
    let none = Seq::<char>::empty();
    if i < n - 1 {
        lemma_body_shows(tasks, now, (n - 1) as nat, i);
        assert(body_text(tasks, now, n) =~= before + (line + shown));
        lemma_still_holds(before, line + shown, task_text(tasks[i], now));
        lemma_still_holds(before, line + shown, group_line(tasks, i));
    } else {
        assert(body_text(tasks, now, n) =~= ((before + line) + shown) + none);
        lemma_part_at(body_text(tasks, now, n), before + line, shown, none);
        lemma_part_at(body_text(tasks, now, n), before, line, shown);
    }
}

/// Every wave that has a task is shown with its number and how many of its tasks are done, out of
/// how many.
#[verifier::rlimit(40)]
pub proof fn dashboards_show_every_wave(tasks: Seq<ShownView>, now: Timestamp, i: int, wave: u32)
    requires
        0 <= i < tasks.len(),
        tasks[i].meta.wave == Some(wave),
    ensures
        has_part(
            dashboard_text(tasks, now),
            "-- Wave "@ + decimal(wave as nat) + " ("@ + decimal(
                with_status(in_group(tasks, wave), TaskStatus::Done),
            ) + "/"@ + decimal(in_group(tasks, wave).len()) + " done) --\n"@,
        ),
    decreases i,
{
    if i > 0 && tasks[i - 1].meta.wave == Some(wave) {
        dashboards_show_every_wave(tasks, now, i - 1, wave);
    } else {
        let group = in_group(tasks, wave);
        let line = group_line(tasks, i);
        let done = decimal(with_status(group, TaskStatus::Done));
        let total = decimal(group.len());
        let tail = decimal(wave as nat) + " ("@ + done + "/"@ + total + " done) --\n"@;
        let shown = "-- Wave "@ + decimal(wave as nat) + " ("@ + done + "/"@ + total
            + " done) --\n"@;
        reveal_strlit("  -- Wave ");
        reveal_strlit("-- Wave ");
        reveal_strlit("  ");
        assert("  -- Wave "@ =~= "  "@ + "-- Wave "@);
        assert(line =~= ("  "@ + shown) + Seq::<char>::empty());
        lemma_part_at(line, "  "@, shown, Seq::empty());
        lemma_body_shows(tasks, now, tasks.len(), i);
        let body = body_text(tasks, now, tasks.len());
        parts_of_parts_are_parts(body, line, shown);
        lemma_body_stands(tasks, now);
        parts_of_parts_are_parts(dashboard_text(tasks, now), body, shown);
    }
}

proof fn lemma_body_stands(tasks: Seq<ShownView>, now: Timestamp)
    ensures
        has_part(dashboard_text(tasks, now), body_text(tasks, now, tasks.len())),
{
    let rule = repeated('=', DASHBOARD_WIDTH as nat);
    let clock = time_of_day(now.unix_seconds() + now.utc_offset(), now.in_leap_second());
    let before = rule + "\n  CODEX PARALLEL DASHBOARD  |  "@ + clock + "  |  "@ + decimal(
        with_status(tasks, TaskStatus::Done),
    ) + "/"@ + decimal(tasks.len()) + " done, "@ + decimal(with_status(tasks, TaskStatus::Running))
        + " running, "@ + decimal(with_status(tasks, TaskStatus::Failed)) + " failed\n"@ + rule
        + "\n\n"@;
    let body = body_text(tasks, now, tasks.len());
    let foot = repeated('-', DASHBOARD_WIDTH as nat)
        + "\n  Results: outputs/*.md  |  Logs: logs/*.jsonl  |  Ctrl+C to cancel\n"@;
    assert(dashboard_text(tasks, now) =~= (before + body) + foot);
    lemma_part_at(dashboard_text(tasks, now), before, body, foot);
}

/// Watching stops just where there is a task and every task is done, failed or cancelled.
pub proof fn watching_stops_when_all_have_ended(metas: Seq<MetaView>)
    ensures
        all_finished(metas) <==> metas.len() > 0 && forall|i: int|
            0 <= i < metas.len() ==> {
                ||| (#[trigger] metas[i]).status is Done
                ||| metas[i].status is Failed
                ||| metas[i].status is Cancelled
            },
{
    if metas.len() > 0 && forall|i: int|
        0 <= i < metas.len() ==> {
            ||| (#[trigger] metas[i]).status is Done
            ||| metas[i].status is Failed
            ||| metas[i].status is Cancelled
        } {
        assert forall|i: int| 0 <= i < metas.len() implies (
        #[trigger] metas[i]).status.terminal() by {}
    }
    if all_finished(metas) {
        assert forall|i: int| 0 <= i < metas.len() implies {
            ||| (#[trigger] metas[i]).status is Done
            ||| metas[i].status is Failed
            ||| metas[i].status is Cancelled
        } by {
            assert(metas[i].status.terminal());
        }
    }
}

/// The dashboard shows tasks by wave, those without a wave first, and within a wave by name.
pub proof fn tasks_are_shown_by_wave_and_name(
    tasks: Seq<ShownView>,
    sorted: Seq<ShownView>,
    p: int,
    q: int,
)
    requires
        stably_sorted(tasks, display_order(), sorted),
        0 <= p < q < sorted.len(),
    ensures
        sorted[q].meta.wave is None ==> sorted[p].meta.wave is None,
        sorted[p].meta.wave matches Some(a) ==> (sorted[q].meta.wave matches Some(b) && a <= b),
        sorted[p].meta.wave == sorted[q].meta.wave ==> sorted[p].meta.name == sorted[q].meta.name
            || text_before(sorted[p].meta.name, sorted[q].meta.name),
{
    let order = choose|order: Seq<int>| #[trigger]
        stable_order_of(tasks, display_order(), order) && sorted == picked(tasks, order);
    assert(placed_before(tasks, display_order(), order[p], order[q]));
    text_before_total(sorted[p].meta.name, sorted[q].meta.name);
}

/// The line of a wave stands above the first of its tasks alone, and tasks without a wave have
/// none.
pub proof fn wave_lines_stand_once(tasks: Seq<ShownView>, i: int)
    requires
        0 <= i < tasks.len(),
    ensures
        tasks[i].meta.wave is None ==> group_line(tasks, i).len() == 0,
        i > 0 && tasks[i - 1].meta.wave == tasks[i].meta.wave ==> group_line(tasks, i).len() == 0,
{
}

} // verus!

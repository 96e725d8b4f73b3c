//! The status of a run, as it is shown to those who ask for it.
use vstd::prelude::*;
use vstd::string::*;

use crate::listing::lemma_text_order;
use crate::meta::{meta_views, MetaView, RunStatus, TaskMeta, TaskStatus};
use crate::order::{
    picked, placed_before, sort_by_keys, sorting_keeps_the_items, stable_order_of,
    stable_sorts_agree, stably_sorted, views, weak_order, SortKey,
};
use crate::text::{comes_before, opt_text, text_before, text_before_total};

verus! {

/// What is shown of a task.
#[derive(Debug)]
pub struct TaskStatusInfo {
    pub name: String,
    pub status: String,
    pub wave: Option<u32>,
    pub tokens_in: u64,
    pub tokens_out: u64,
    pub last_action: String,
    pub error: Option<String>,
    pub exit_code: Option<i32>,
    pub has_output: bool,
}

/// The contents of what is shown of a task.
#[verifier::ext_equal]
pub struct StatusRow {
    pub name: Seq<char>,
    pub status: Seq<char>,
    pub wave: Option<u32>,
    pub tokens_in: nat,
    pub tokens_out: nat,
    pub last_action: Seq<char>,
    pub error: Option<Seq<char>>,
    pub exit_code: Option<i32>,
    pub has_output: bool,
}

impl View for TaskStatusInfo {
    type V = StatusRow;

    open spec fn view(&self) -> StatusRow {
        StatusRow {
            name: self.name@,
            status: self.status@,
            wave: self.wave,
            tokens_in: self.tokens_in as nat,
            tokens_out: self.tokens_out as nat,
            last_action: self.last_action@,
            error: opt_text(self.error),
            exit_code: self.exit_code,
            has_output: self.has_output,
        }
    }
}

/// The contents of a list of rows.
pub open spec fn row_views(rows: Seq<TaskStatusInfo>) -> Seq<StatusRow> {
    rows.map_values(|r: TaskStatusInfo| r@)
}

/// A task as it was found on disk: its status, and whether its result is there.
#[derive(Debug)]
pub struct FoundTask {
    pub meta: TaskMeta,
    pub has_output: bool,
}

/// What is shown of a task that was found.
pub open spec fn row_for(meta: MetaView, has_output: bool) -> StatusRow {
    StatusRow {
        name: meta.name,
        status: meta.status.label(),
        wave: meta.wave,
        tokens_in: meta.input_tokens,
        tokens_out: meta.output_tokens,
        last_action: meta.last_action,
        error: meta.error,
        exit_code: meta.exit_code,
        has_output,
    }
}

/// What is shown of the tasks that were found, in their order.
pub open spec fn rows_for(found: Seq<FoundTask>) -> Seq<StatusRow> {
    found.map_values(|f: FoundTask| row_for(f.meta@, f.has_output))
}

/// Whether a wave comes before another; a task without a wave comes first.
pub open spec fn wave_before(a: Option<u32>, b: Option<u32>) -> bool {
    match (a, b) {
        (None, Some(_)) => true,
        (Some(x), Some(y)) => x < y,
        _ => false,
    }
}

/// Whether a task is shown before another: by wave, then by name.
pub open spec fn shown_before(
    wave_a: Option<u32>,
    name_a: Seq<char>,
    wave_b: Option<u32>,
    name_b: Seq<char>,
) -> bool {
    wave_before(wave_a, wave_b) || (wave_a == wave_b && text_before(name_a, name_b))
}

/// The order in which tasks are shown.
pub open spec fn by_wave_and_name() -> spec_fn(StatusRow, StatusRow) -> bool {
    |a: StatusRow, b: StatusRow| shown_before(a.wave, a.name, b.wave, b.name)
}

/// What tasks are sorted by when they are shown.
#[derive(Debug)]
pub struct ShownKey {
    pub wave: Option<u32>,
    pub name: String,
}

impl SortKey for ShownKey {
    open spec fn before(&self, other: &Self) -> bool {
        shown_before(self.wave, self.name@, other.wave, other.name@)
    }

    proof fn before_is_weak_order(a: Self, b: Self, c: Self) {
        lemma_text_order(a.name@, b.name@, c.name@);
    }

    fn precedes(&self, other: &Self) -> bool {
        match (self.wave, other.wave) {
            (None, Some(_)) => true,
            (Some(_), None) => false,
            (None, None) => comes_before(self.name.as_str(), other.name.as_str()),
            (Some(x), Some(y)) => x < y || (x == y && comes_before(
                self.name.as_str(),
                other.name.as_str(),
            )),
        }
    }
}

/// Showing tasks by wave and name is a weak order.
pub proof fn showing_key_order(
    wave_a: Option<u32>,
    name_a: Seq<char>,
    wave_b: Option<u32>,
    name_b: Seq<char>,
    wave_c: Option<u32>,
    name_c: Seq<char>,
)
    ensures
        !shown_before(wave_a, name_a, wave_a, name_a),
        shown_before(wave_a, name_a, wave_b, name_b) && shown_before(
            wave_b,
            name_b,
            wave_c,
            name_c,
        ) ==> shown_before(wave_a, name_a, wave_c, name_c),
        !shown_before(wave_a, name_a, wave_b, name_b) && !shown_before(
            wave_b,
            name_b,
            wave_c,
            name_c,
        ) ==> !shown_before(wave_a, name_a, wave_c, name_c),
{
    lemma_text_order(name_a, name_b, name_c);
}

/// The order in which tasks are shown is one that sorting needs.
pub proof fn showing_is_a_weak_order()
    ensures
        weak_order(by_wave_and_name()),
{
    let before = by_wave_and_name();
    assert forall|a: StatusRow| !#[trigger] before(a, a) by {
        lemma_text_order(a.name, a.name, a.name);
    }
    assert forall|a: StatusRow, b: StatusRow, c: StatusRow| #[trigger]
        before(a, b) && #[trigger] before(b, c) implies before(a, c) by {
        lemma_text_order(a.name, b.name, c.name);
    }
    assert forall|a: StatusRow, b: StatusRow, c: StatusRow|
        !#[trigger] before(a, b) && !#[trigger] before(b, c) implies !before(a, c) by {
        lemma_text_order(a.name, b.name, c.name);
    }
}

/// The status of a run in one word.
pub open spec fn run_status_label(status: Option<RunStatus>) -> Seq<char> {
    match status {
        None => "not_found"@,
        Some(RunStatus::Running) => "running"@,
        Some(RunStatus::Done) => "done"@,
        Some(RunStatus::Failed) => "failed"@,
    }
}

/// What is shown of a run.
#[derive(Debug)]
pub struct GetStatusResult {
    /// `running`, `done`, `failed` or `not_found`.
    pub run_status: String,
    pub tasks: Vec<TaskStatusInfo>,
}

/// The row that shows a task.
pub fn status_row(found: FoundTask) -> (r: TaskStatusInfo)
    ensures
        r@ == row_for(found.meta@, found.has_output),
        r.name@ == found.meta.name@,
        r.status@ == found.meta.status.label(),
        r.wave == found.meta.wave,
        r.tokens_in == found.meta.input_tokens,
        r.tokens_out == found.meta.output_tokens,
        r.last_action@ == found.meta.last_action@,
        opt_text(r.error) == opt_text(found.meta.error),
        r.exit_code == found.meta.exit_code,
        r.has_output == found.has_output,
{
    let meta = found.meta;
    TaskStatusInfo {
        name: meta.name,
        status: meta.status.as_text().to_owned(),
        wave: meta.wave,
        tokens_in: meta.input_tokens,
        tokens_out: meta.output_tokens,
        last_action: meta.last_action,
        error: meta.error,
        exit_code: meta.exit_code,
        has_output: found.has_output,
    }
}

/// Whether a row shows each field of a task that was found.
pub open spec fn shown_in(rows: Seq<TaskStatusInfo>, task: FoundTask) -> bool {
    exists|r: int|
        {
            &&& 0 <= r < rows.len()
            &&& (#[trigger] rows[r]).name@ == task.meta.name@
            &&& rows[r].status@ == task.meta.status.label()
            &&& rows[r].wave == task.meta.wave
            &&& rows[r].tokens_in == task.meta.input_tokens
            &&& rows[r].tokens_out == task.meta.output_tokens
            &&& rows[r].last_action@ == task.meta.last_action@
            &&& opt_text(rows[r].error) == opt_text(task.meta.error)
            &&& rows[r].exit_code == task.meta.exit_code
            &&& rows[r].has_output == task.has_output
        }
}

/// What is shown of a run: its status, and its tasks by wave and name. A run that is not there
/// has no tasks.
pub fn get_status(run_status: Option<RunStatus>, found: Vec<FoundTask>) -> (r: GetStatusResult)
    ensures
        r.run_status@ == run_status_label(run_status),
        run_status is None ==> r.tasks@.len() == 0,
        run_status is Some ==> stably_sorted(
            rows_for(found@),
            by_wave_and_name(),
            row_views(r.tasks@),
        ),
        run_status is Some ==> r.tasks@.len() == found@.len(),
        run_status is Some ==> forall|i: int|
            0 <= i < found@.len() ==> shown_in(r.tasks@, #[trigger] found@[i]),
{
    let ghost given = found@;
    let label = match run_status {
        None => {
            return GetStatusResult { run_status: "not_found".to_owned(), tasks: Vec::new() };
        },
        Some(RunStatus::Running) => "running",
        Some(RunStatus::Done) => "done",
        Some(RunStatus::Failed) => "failed",
    };
    let tasks = sort_rows(found);
    proof {
        assert forall|i: int| 0 <= i < given.len() implies shown_in(
            tasks@,
            #[trigger] given[i],
        ) by {
            let shown = row_views(tasks@);
            found_tasks_are_shown_field_by_field(given, shown, i);
            let r = choose|r: int|
                {
                    &&& 0 <= r < shown.len()
                    &&& (#[trigger] shown[r]).name == given[i].meta.name@
                    &&& shown[r].wave == given[i].meta.wave
                    &&& shown[r].status == given[i].meta.status.label()
                    &&& shown[r].tokens_in == given[i].meta.input_tokens
                    &&& shown[r].tokens_out == given[i].meta.output_tokens
                    &&& shown[r].last_action == given[i].meta.last_action@
                    &&& shown[r].error == opt_text(given[i].meta.error)
                    &&& shown[r].exit_code == given[i].meta.exit_code
                    &&& shown[r].has_output == given[i].has_output
                };
            assert(shown[r] == tasks@[r]@);
            assert(tasks@[r].name@ == given[i].meta.name@);
        }
        sorting_keeps_the_items(
            rows_for(given),
            by_wave_and_name(),
            row_views(tasks@),
            arbitrary(),
        );
    }
    GetStatusResult { run_status: label.to_owned(), tasks }
}

fn sort_rows(found: Vec<FoundTask>) -> (r: Vec<TaskStatusInfo>)
    ensures
        stably_sorted(rows_for(found@), by_wave_and_name(), row_views(r@)),
{
    let ghost all = rows_for(found@);
    let mut rows: Vec<TaskStatusInfo> = Vec::new();
    let mut keys: Vec<ShownKey> = Vec::new();
    for task in it: found
        invariant
            it.seq() == found@,
            all == rows_for(found@),
            rows@.len() == it.index(),
            keys@.len() == it.index(),
            forall|j: int| 0 <= j < rows@.len() ==> (#[trigger] rows@[j])@ == all[j],
            forall|j: int|
                0 <= j < keys@.len() ==> (#[trigger] keys@[j]).wave == all[j].wave && keys@[j].name@
                    == all[j].name,
    {
        let ghost k = it.index() as int;
        assert(all[k] == row_for(task.meta@, task.has_output));
        let row = status_row(task);
        keys.push(ShownKey { wave: row.wave, name: row.name.clone() });
        rows.push(row);
    }
    assert(views(rows@) =~= all);
    let sorted = sort_by_keys(rows, &keys, Ghost(by_wave_and_name()));
    assert(views(sorted@) =~= row_views(sorted@));
    sorted
}

/// Every task that was found is shown, and nothing else is.
pub proof fn every_found_task_is_shown(found: Seq<FoundTask>, shown: Seq<StatusRow>, row: StatusRow)
    requires
        stably_sorted(rows_for(found), by_wave_and_name(), shown),
    ensures
        shown.len() == found.len(),
        shown.contains(row) == rows_for(found).contains(row),
{
    sorting_keeps_the_items(rows_for(found), by_wave_and_name(), shown, row);
}

/// What is shown of a run does not depend on how its tasks are sorted: there is one order only.
pub proof fn status_is_determined(found: Seq<FoundTask>, a: Seq<StatusRow>, b: Seq<StatusRow>)
    requires
        stably_sorted(rows_for(found), by_wave_and_name(), a),
        stably_sorted(rows_for(found), by_wave_and_name(), b),
    ensures
        a == b,
{
    showing_is_a_weak_order();
    stable_sorts_agree(rows_for(found), by_wave_and_name(), a, b);
}

/// The error that a failed run is recorded with: that of the first failed task that has one.
pub open spec fn first_error_of(metas: Seq<MetaView>) -> Option<Seq<char>>
    decreases metas.len(),
{
    if metas.len() == 0 {
        None
    } else if metas.first().status == TaskStatus::Failed && metas.first().error is Some {
        metas.first().error
    } else {
        first_error_of(metas.drop_first())
    }
}

/// The error that a failed run is recorded with.
pub fn collect_first_task_error(metas: &Vec<TaskMeta>) -> (r: Option<String>)
    ensures
        opt_text(r) == first_error_of(meta_views(metas@)),
{
    let ghost all = meta_views(metas@);
    let mut i: usize = 0;
    assert(all.skip(0) =~= all);
    while i < metas.len()
        invariant
            i <= metas@.len(),
            all == meta_views(metas@),
            first_error_of(all) == first_error_of(all.skip(i as int)),
        decreases metas@.len() - i,
    {
        proof {
            assert(all.skip(i as int).first() == metas@[i as int]@);
            assert(all.skip(i as int).drop_first() =~= all.skip(i + 1));
        }
        match metas[i].status {
            TaskStatus::Failed => {
                if let Some(e) = &metas[i].error {
                    return Some(e.clone());
                }
            },
            _ => {},
        }
        i = i + 1;
    }
    None
}

/// The row of a task shows each field of its status.
pub proof fn rows_show_every_field(meta: MetaView, has_output: bool)
    ensures
        row_for(meta, has_output).name == meta.name,
        row_for(meta, has_output).wave == meta.wave,
        row_for(meta, has_output).tokens_in == meta.input_tokens,
        row_for(meta, has_output).tokens_out == meta.output_tokens,
        row_for(meta, has_output).last_action == meta.last_action,
        row_for(meta, has_output).error == meta.error,
        row_for(meta, has_output).exit_code == meta.exit_code,
        row_for(meta, has_output).has_output == has_output,
        meta.status is Pending ==> row_for(meta, has_output).status == "pending"@,
        meta.status is Running ==> row_for(meta, has_output).status == "running"@,
        meta.status is Done ==> row_for(meta, has_output).status == "done"@,
        meta.status is Failed ==> row_for(meta, has_output).status == "failed"@,
        meta.status is Cancelled ==> row_for(meta, has_output).status == "cancelled"@,
{
}

/// Every task that was found has a row that shows its name, wave, tokens, last action, error, exit
/// code and result.
pub proof fn found_tasks_are_shown_field_by_field(
    found: Seq<FoundTask>,
    shown: Seq<StatusRow>,
    i: int,
)
    requires
        stably_sorted(rows_for(found), by_wave_and_name(), shown),
        0 <= i < found.len(),
    ensures
        exists|r: int|
            {
                &&& 0 <= r < shown.len()
                &&& (#[trigger] shown[r]).name == found[i].meta.name@
                &&& shown[r].wave == found[i].meta.wave
                &&& shown[r].status == found[i].meta.status.label()
                &&& shown[r].tokens_in == found[i].meta.input_tokens
                &&& shown[r].tokens_out == found[i].meta.output_tokens
                &&& shown[r].last_action == found[i].meta.last_action@
                &&& shown[r].error == opt_text(found[i].meta.error)
                &&& shown[r].exit_code == found[i].meta.exit_code
                &&& shown[r].has_output == found[i].has_output
            },
{
    let rows = rows_for(found);
    sorting_keeps_the_items(rows, by_wave_and_name(), shown, rows[i]);
    assert(rows.contains(rows[i]));
    let r = choose|r: int| 0 <= r < shown.len() && shown[r] == rows[i];
    assert(shown[r].name == found[i].meta.name@);
}

/// Rows stand by wave, those without a wave first, and within a wave by name.
pub proof fn rows_stand_by_wave_and_name(
    found: Seq<FoundTask>,
    shown: Seq<StatusRow>,
    p: int,
    q: int,
)
    requires
        stably_sorted(rows_for(found), by_wave_and_name(), shown),
        0 <= p < q < shown.len(),
    ensures
        shown[q].wave is None ==> shown[p].wave is None,
        shown[p].wave matches Some(a) ==> (shown[q].wave matches Some(b) && a <= b),
        shown[p].wave == shown[q].wave ==> shown[p].name == shown[q].name || text_before(
            shown[p].name,
            shown[q].name,
        ),
{
    let rows = rows_for(found);
    let order = choose|order: Seq<int>| #[trigger]
        stable_order_of(rows, by_wave_and_name(), order) && shown == picked(rows, order);
    assert(placed_before(rows, by_wave_and_name(), order[p], order[q]));
    text_before_total(shown[p].name, shown[q].name);
}

/// The status of a run is told in the word of that status, or that there is none.
pub proof fn runs_are_told_by_their_words()
    ensures
        run_status_label(None) == "not_found"@,
        run_status_label(Some(RunStatus::Running)) == "running"@,
        run_status_label(Some(RunStatus::Done)) == "done"@,
        run_status_label(Some(RunStatus::Failed)) == "failed"@,
{
}

/// A failed run is recorded with the error of a failed task, the first that has one, and without an
/// error just where no failed task has one.
pub proof fn the_first_error_of_a_failed_task_is_recorded(metas: Seq<MetaView>, i: int)
    requires
        0 <= i < metas.len(),
        metas[i].status == TaskStatus::Failed,
        metas[i].error is Some,
        forall|j: int|
            0 <= j < i ==> (#[trigger] metas[j]).status != TaskStatus::Failed || metas[j].error
                is None,
    ensures
        first_error_of(metas) == metas[i].error,
    decreases metas.len(),
{
    if i > 0 {
        let rest = metas.drop_first();
        assert(metas[0].status != TaskStatus::Failed || metas[0].error is None);
        assert forall|j: int| 0 <= j < i - 1 implies (#[trigger] rest[j]).status
            != TaskStatus::Failed || rest[j].error is None by {
            assert(rest[j] == metas[j + 1]);
        }
        the_first_error_of_a_failed_task_is_recorded(rest, i - 1);
    }
}

/// A failed run without an error of a failed task is recorded without one.
pub proof fn no_error_is_made_up(metas: Seq<MetaView>)
    requires
        forall|j: int|
            0 <= j < metas.len() ==> (#[trigger] metas[j]).status != TaskStatus::Failed
                || metas[j].error is None,
    ensures
        first_error_of(metas) is None,
    decreases metas.len(),
{
    if metas.len() > 0 {
        let rest = metas.drop_first();
        assert(metas[0].status != TaskStatus::Failed || metas[0].error is None);
        assert forall|j: int| 0 <= j < rest.len() implies (#[trigger] rest[j]).status
            != TaskStatus::Failed || rest[j].error is None by {
            assert(rest[j] == metas[j + 1]);
        }
        no_error_is_made_up(rest);
    }
}

} // verus!

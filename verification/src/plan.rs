//! The plan of a run: its tasks in waves, and the statuses that they start with.
use vstd::prelude::*;
use vstd::string::*;

use crate::config::{
    all_known, config_refusal, dependencies_run_earlier, distinct_names, in_wave, knows_dependencies,
    one_wave_at_most, schedulable, task_views, waits_for, wave, wave_among, wave_members,
    wave_total, wave_views, waves_hold_every_task_once, waves_of, TaskDef, TaskView, TasksConfig,
};
use crate::coordinator::{all_in, task_names};
use crate::error::Error;
use crate::meta::{
    agent_for, agent_of, fresh_meta, thread_for, thread_of, MetaView, TaskMeta, TaskStatus,
};
use crate::names::NameSet;
use crate::text::texts;
use crate::time::Timestamp;

verus! {

/// The tasks of a run in waves, and how many there are.
#[derive(Debug)]
pub struct RunPlan {
    pub waves: Vec<Vec<TaskDef>>,
    pub task_count: usize,
    pub wave_count: usize,
}

impl RunPlan {
    /// Puts the tasks of a configuration into waves.
    pub fn new(config: TasksConfig) -> (r: Result<RunPlan, Error>)
        ensures
            match r {
                Ok(plan) => {
                    &&& schedulable(task_views(config.tasks@))
                    &&& waves_of(task_views(config.tasks@), wave_views(plan.waves@))
                    &&& plan.task_count == config.tasks@.len()
                    &&& plan.wave_count == plan.waves@.len()
                },
                Err(e) => {
                    &&& !schedulable(task_views(config.tasks@))
                    &&& config_refusal(task_views(config.tasks@), e)
                },
            },
    {
        let ghost tasks = task_views(config.tasks@);
        let given = config.tasks.len();
        match config.into_waves() {
            Ok(waves) => {
                proof {
                    waves_hold_every_task_once(tasks, wave_views(waves@));
                    assert(wave_total(wave_views(waves@)) == given);
                }
                let task_count = count_tasks(&waves);
                let wave_count = waves.len();
                Ok(RunPlan { waves, task_count, wave_count })
            },
            Err(e) => Err(e),
        }
    }
}

/// How many tasks the waves hold together.
pub fn count_tasks(waves: &Vec<Vec<TaskDef>>) -> (r: usize)
    requires
        wave_total(wave_views(waves@)) <= usize::MAX,
    ensures
        r == wave_total(wave_views(waves@)),
{
    let ghost all = wave_views(waves@);
    let mut total: usize = 0;
    let mut i: usize = 0;
    assert(all.take(all.len() as int) =~= all);
    while i < waves.len()
        invariant
            i <= waves@.len(),
            all == wave_views(waves@),
            total == wave_total(all.take(i as int)),
            wave_total(all) <= usize::MAX,
        decreases waves@.len() - i,
    {
        proof {
            assert(all.take(i + 1).drop_last() =~= all.take(i as int));
            assert(all.take(i + 1).last() == task_views(waves@[i as int]@));
            lemma_total_grows(all, i + 1);
        }
        total = total + waves[i].len();
        i = i + 1;
    }
    assert(all.take(i as int) =~= all);
    total
}

proof fn lemma_total_grows(waves: Seq<Seq<TaskView>>, n: int)
    requires
        0 <= n <= waves.len(),
    ensures
        wave_total(waves.take(n)) <= wave_total(waves),
    decreases waves.len() - n,
{
    if n < waves.len() {
        lemma_total_grows(waves, n + 1);
        assert(waves.take(n + 1).drop_last() =~= waves.take(n));
    } else {
        assert(waves.take(n) =~= waves);
    }
}

/// The number of a wave, as a status holds it.
pub open spec fn wave_number(i: int) -> u32 {
    (i % 0x1_0000_0000) as u32
}

/// The number of a wave, as a status holds it.
pub fn wave_number_of(i: usize) -> (r: u32)
    ensures
        r == wave_number(i as int),
{
    let n: u64 = i as u64;
    (n % 0x1_0000_0000) as u32
}

/// The status that a task starts with in a run from the command line.
pub open spec fn planned_meta(task: TaskView, wave: int, created: Timestamp) -> MetaView {
    MetaView {
        wave: Some(wave_number(wave)),
        ..fresh_meta(task.name, task.cwd, task.prompt, created)
    }
}

/// The status that a task starts with in a run that has an identifier.
pub open spec fn identified_meta(
    task: TaskView,
    wave: int,
    run_id: Seq<char>,
    created: Timestamp,
) -> MetaView {
    MetaView {
        run_id,
        agent_id: agent_of(task),
        thread_id: thread_of(task),
        ..planned_meta(task, wave, created)
    }
}

/// The status that a task of a wave starts with.
pub fn plan_task(task: &TaskDef, wave: usize, created: Timestamp) -> (r: TaskMeta)
    ensures
        r@ == planned_meta(task@, wave as int, created),
{
    let mut meta = TaskMeta::new_at(
        task.name.as_str(),
        task.cwd.as_str(),
        task.prompt.as_str(),
        created,
    );
    meta.wave = Some(wave_number_of(wave));
    meta.status = TaskStatus::Pending;
    meta
}

/// The status that a task of a wave starts with, in a run that has an identifier.
pub fn plan_identified_task(task: &TaskDef, wave: usize, run_id: &str, created: Timestamp) -> (r:
    TaskMeta)
    ensures
        r@ == identified_meta(task@, wave as int, run_id@, created),
{
    let mut meta = plan_task(task, wave, created);
    meta.agent_id = agent_for(task);
    meta.run_id = run_id.to_owned();
    meta.thread_id = thread_for(task);
    meta
}

/// Whether there is a status for each task of each wave, in its place: the one that it starts
/// with.
pub open spec fn planned_metas(waves: Seq<Seq<TaskView>>, metas: Seq<Vec<TaskMeta>>) -> bool {
    &&& metas.len() == waves.len()
    &&& forall|w: int| 0 <= w < waves.len() ==> (#[trigger] metas[w])@.len() == waves[w].len()
    &&& forall|w: int, i: int|
        0 <= w < waves.len() && 0 <= i < waves[w].len() ==> (#[trigger] metas[w]@[i])@
            == planned_meta(waves[w][i], w, metas[w]@[i].start_time)
}

/// Whether there is a status with the run's identifier for each task of each wave, in its place.
pub open spec fn identified_metas(
    waves: Seq<Seq<TaskView>>,
    run_id: Seq<char>,
    metas: Seq<Vec<TaskMeta>>,
) -> bool {
    &&& metas.len() == waves.len()
    &&& forall|w: int| 0 <= w < waves.len() ==> (#[trigger] metas[w])@.len() == waves[w].len()
    &&& forall|w: int, i: int|
        0 <= w < waves.len() && 0 <= i < waves[w].len() ==> (#[trigger] metas[w]@[i])@
            == identified_meta(waves[w][i], w, run_id, metas[w]@[i].start_time)
}

/// The statuses that the tasks of a run from the command line start with.
pub fn plan_metas(waves: &Vec<Vec<TaskDef>>) -> (r: Vec<Vec<TaskMeta>>)
    ensures
        planned_metas(wave_views(waves@), r@),
{
    let ghost all = wave_views(waves@);
    let mut metas: Vec<Vec<TaskMeta>> = Vec::new();
    let mut w: usize = 0;
    while w < waves.len()
        invariant
            w <= waves@.len(),
            all == wave_views(waves@),
            planned_metas(all.take(w as int), metas@),
        decreases waves@.len() - w,
    {
        let mut row: Vec<TaskMeta> = Vec::new();
        let mut i: usize = 0;
        while i < waves[w].len()
            invariant
                w < waves@.len(),
                i <= waves@[w as int]@.len(),
                all == wave_views(waves@),
                row@.len() == i,
                forall|j: int| 0 <= j < i ==> (#[trigger] row@[j])@ == planned_meta(
                    all[w as int][j],
                    w as int,
                    row@[j].start_time,
                ),
            decreases waves@[w as int]@.len() - i,
        {
            row.push(plan_task(&waves[w][i], w, Timestamp::now()));
            i = i + 1;
        }
        metas.push(row);
        w = w + 1;
    }
    assert(all.take(w as int) =~= all);
    metas
}

/// The statuses that the tasks of a run with an identifier start with.
pub fn plan_identified_metas(waves: &Vec<Vec<TaskDef>>, run_id: &str) -> (r: Vec<Vec<TaskMeta>>)
    ensures
        identified_metas(wave_views(waves@), run_id@, r@),
{
    let ghost all = wave_views(waves@);
    let mut metas: Vec<Vec<TaskMeta>> = Vec::new();
    let mut w: usize = 0;
    while w < waves.len()
        invariant
            w <= waves@.len(),
            all == wave_views(waves@),
            identified_metas(all.take(w as int), run_id@, metas@),
        decreases waves@.len() - w,
    {
        let mut row: Vec<TaskMeta> = Vec::new();
        let mut i: usize = 0;
        while i < waves[w].len()
            invariant
                w < waves@.len(),
                i <= waves@[w as int]@.len(),
                all == wave_views(waves@),
                row@.len() == i,
                forall|j: int| 0 <= j < i ==> (#[trigger] row@[j])@ == identified_meta(
                    all[w as int][j],
                    w as int,
                    run_id@,
                    row@[j].start_time,
                ),
            decreases waves@[w as int]@.len() - i,
        {
            row.push(plan_identified_task(&waves[w][i], w, run_id, Timestamp::now()));
            i = i + 1;
        }
        metas.push(row);
        w = w + 1;
    }
    assert(all.take(w as int) =~= all);
    metas
}

/// The tasks of all waves, wave by wave.
pub open spec fn flattened(waves: Seq<Seq<TaskView>>) -> Seq<TaskView>
    decreases waves.len(),
{
    if waves.len() == 0 {
        seq![]
    } else {
        flattened(waves.drop_last()) + waves.last()
    }
}

/// The tasks of all waves, wave by wave.
pub fn flatten_waves(waves: Vec<Vec<TaskDef>>) -> (r: Vec<TaskDef>)
    ensures
        task_views(r@) == flattened(wave_views(waves@)),
{
    let ghost all = wave_views(waves@);
    let mut tasks: Vec<TaskDef> = Vec::new();
    assert(task_views(tasks@) =~= flattened(all.take(0)));
    for wave in outer: waves
        invariant
            outer.seq() == waves@,
            all == wave_views(waves@),
            task_views(tasks@) == flattened(all.take(outer.index() as int)),
    {
        let ghost k = outer.index() as int;
        let ghost start = task_views(tasks@);
        let ghost row = task_views(wave@);
        let ghost members = wave@;
        assert(start + row.take(0) =~= start);
        for task in inner: wave
            invariant
                inner.seq() == members,
                row == task_views(members),
                task_views(tasks@) == start + row.take(inner.index() as int),
        {
            let ghost j = inner.index() as int;
            let ghost shown = task@;
            let ghost so_far = task_views(tasks@);
            assert(row[j] == shown);
            tasks.push(task);
            assert(task_views(tasks@) =~= so_far.push(shown));
            assert(row.take(j + 1) =~= row.take(j).push(shown));
            assert(task_views(tasks@) =~= start + row.take(j + 1));
        }
        proof {
            assert(row.take(row.len() as int) =~= row);
            assert(all.take(k + 1).drop_last() =~= all.take(k));
            assert(all.take(k + 1).last() == row);
        }
    }
    assert(all.take(all.len() as int) =~= all);
    tasks
}

/// The names of the tasks.
pub fn names_of_tasks(tasks: &Vec<TaskDef>) -> (r: NameSet)
    ensures
        r@ == task_names(task_views(tasks@)).to_set(),
{
    let mut names: Vec<String> = Vec::new();
    let mut i: usize = 0;
    while i < tasks.len()
        invariant
            i <= tasks@.len(),
            names@.len() == i,
            forall|j: int| 0 <= j < i ==> (#[trigger] names@[j])@ == tasks@[j].name@,
        decreases tasks@.len() - i,
    {
        names.push(tasks[i].name.clone());
        i = i + 1;
    }
    assert(texts(names@) =~= task_names(task_views(tasks@)));
    NameSet::from_list(&names)
}

/// Whether the task is one of the first `n` that belong into wave `k`.
spec fn from_wave(tasks: Seq<TaskView>, k: nat, n: nat, t: TaskView) -> bool {
    exists|i: int| 0 <= i < n && #[trigger] in_wave(tasks, k, i) && tasks[i] == t
}

proof fn lemma_wave_names(tasks: Seq<TaskView>, k: nat, n: nat)
    requires
        distinct_names(tasks),
        n <= tasks.len(),
    ensures
        task_names(wave_among(tasks, k, n)).no_duplicates(),
        forall|p: int|
            0 <= p < wave_among(tasks, k, n).len() ==> from_wave(
                tasks,
                k,
                n,
                #[trigger] wave_among(tasks, k, n)[p],
            ),
    decreases n,
{
    if n > 0 {
        let before = wave_among(tasks, k, (n - 1) as nat);
        lemma_wave_names(tasks, k, (n - 1) as nat);
        assert forall|p: int| 0 <= p < before.len() implies from_wave(
            tasks,
            k,
            n,
            #[trigger] before[p],
        ) by {
            let i = choose|i: int|
                0 <= i < n - 1 && #[trigger] in_wave(tasks, k, i) && tasks[i] == before[p];
            assert(0 <= i < n && in_wave(tasks, k, i) && tasks[i] == before[p]);
        }
        if in_wave(tasks, k, n - 1) {
            let here = wave_among(tasks, k, n);
            assert(here =~= before.push(tasks[n - 1]));
            assert forall|p: int| 0 <= p < here.len() implies from_wave(
                tasks,
                k,
                n,
                #[trigger] here[p],
            ) by {
                if p < before.len() {
                    assert(here[p] == before[p]);
                } else {
                    assert(in_wave(tasks, k, n - 1) && tasks[n - 1] == here[p]);
                }
            }
            let names = task_names(here);
            assert forall|p: int, q: int| 0 <= p < q < names.len() implies names[p] != names[q] by {
                assert(task_names(before)[p] == names[p]);
                if q < before.len() {
                    assert(task_names(before)[q] == names[q]);
                } else {
                    assert(from_wave(tasks, k, (n - 1) as nat, before[p]));
                    let i = choose|i: int|
                        0 <= i < n - 1 && #[trigger] in_wave(tasks, k, i) && tasks[i] == before[p];
                    assert(tasks[i].name != tasks[n - 1].name);
                }
            }
        }
    }
}

/// Whether the task belongs into one of the first `m` waves.
spec fn from_waves(tasks: Seq<TaskView>, m: nat, t: TaskView) -> bool {
    exists|k: nat, i: int|
        k < m && 0 <= i < tasks.len() && #[trigger] in_wave(tasks, k, i) && tasks[i] == t
}

proof fn lemma_flat_members(tasks: Seq<TaskView>, waves: Seq<Seq<TaskView>>, m: nat)
    requires
        distinct_names(tasks),
        m <= waves.len(),
        forall|k: int| 0 <= k < waves.len() ==> #[trigger] waves[k] == wave(tasks, k as nat),
    ensures
        forall|p: int|
            0 <= p < flattened(waves.take(m as int)).len() ==> from_waves(
                tasks,
                m,
                #[trigger] flattened(waves.take(m as int))[p],
            ),
        forall|k: nat, i: int|
            k < m && 0 <= i < tasks.len() && #[trigger] in_wave(tasks, k, i) ==> flattened(
                waves.take(m as int),
            ).contains(tasks[i]),
    decreases m,
{
    let here = flattened(waves.take(m as int));
    if m > 0 {
        let n = (m - 1) as nat;
        lemma_flat_members(tasks, waves, n);
        lemma_wave_names(tasks, n, tasks.len());
        let before = flattened(waves.take(n as int));
        let last = wave(tasks, n);
        assert(waves.take(m as int).drop_last() =~= waves.take(n as int));
        assert(waves.take(m as int).last() == waves[n as int]);
        assert(here == before + last);
        assert forall|p: int| 0 <= p < here.len() implies from_waves(
            tasks,
            m,
            #[trigger] here[p],
        ) by {
            if p < before.len() {
                assert(here[p] == before[p]);
                let (k, i) = choose|k: nat, i: int|
                    k < n && 0 <= i < tasks.len() && #[trigger] in_wave(tasks, k, i) && tasks[i]
                        == before[p];
                assert(k < m && in_wave(tasks, k, i) && tasks[i] == here[p]);
            } else {
                assert(here[p] == last[p - before.len()]);
                let i = choose|i: int|
                    0 <= i < tasks.len() && #[trigger] in_wave(tasks, n, i) && tasks[i] == last[p
                        - before.len()];
                assert(n < m && in_wave(tasks, n, i) && tasks[i] == here[p]);
            }
        }
        assert forall|k: nat, i: int|
            k < m && 0 <= i < tasks.len() && #[trigger] in_wave(tasks, k, i) implies here.contains(
            tasks[i],
        ) by {
            if k < n {
                assert(before.contains(tasks[i]));
                let p = choose|p: int| 0 <= p < before.len() && before[p] == tasks[i];
                assert(here[p] == tasks[i]);
            } else {
                wave_members(tasks, n, tasks[i]);
                let p = choose|p: int| 0 <= p < last.len() && last[p] == tasks[i];
                assert(here[before.len() + p] == tasks[i]);
            }
        }
    }
}

proof fn lemma_flat_order(tasks: Seq<TaskView>, waves: Seq<Seq<TaskView>>, m: nat)
    requires
        distinct_names(tasks),
        all_known(tasks),
        m <= waves.len(),
        forall|k: int| 0 <= k < waves.len() ==> #[trigger] waves[k] == wave(tasks, k as nat),
    ensures
        task_names(flattened(waves.take(m as int))).no_duplicates(),
        forall|p: int|
            0 <= p < flattened(waves.take(m as int)).len() ==> all_in(
                (#[trigger] flattened(waves.take(m as int))[p]).depends_on,
                task_names(flattened(waves.take(m as int)).take(p)).to_set(),
            ),
    decreases m,
{
    if m > 0 {
        let n = (m - 1) as nat;
        let here = flattened(waves.take(m as int));
        let before = flattened(waves.take(n as int));
        let last = wave(tasks, n);
        lemma_flat_order(tasks, waves, n);
        lemma_flat_members(tasks, waves, n);
        lemma_wave_names(tasks, n, tasks.len());
        assert(waves.take(m as int).drop_last() =~= waves.take(n as int));
        assert(waves.take(m as int).last() == waves[n as int]);
        assert(here == before + last);
        let names = task_names(here);
        assert forall|p: int, q: int| 0 <= p < q < names.len() implies names[p] != names[q] by {
            if q < before.len() {
                assert(task_names(before)[p] == names[p]);
                assert(task_names(before)[q] == names[q]);
            } else if p >= before.len() {
                assert(task_names(last)[p - before.len()] == names[p]);
                assert(task_names(last)[q - before.len()] == names[q]);
            } else {
                assert(here[p] == before[p]);
                assert(from_waves(tasks, n, before[p]));
                let (k, i) = choose|k: nat, i: int|
                    k < n && 0 <= i < tasks.len() && #[trigger] in_wave(tasks, k, i) && tasks[i]
                        == before[p];
                assert(from_wave(tasks, n, tasks.len(), last[q - before.len()]));
                let j = choose|j: int|
                    0 <= j < tasks.len() && #[trigger] in_wave(tasks, n, j) && tasks[j] == last[q
                        - before.len()];
                if names[p] == names[q] {
                    assert(tasks[i].name == tasks[j].name);
                    one_wave_at_most(tasks, k, n, i);
                }
            }
        }
        assert forall|p: int| 0 <= p < here.len() implies all_in(
            (#[trigger] here[p]).depends_on,
            task_names(here.take(p)).to_set(),
        ) by {
            if p < before.len() {
                assert(here[p] == before[p]);
                assert(here.take(p) =~= before.take(p));
            } else {
                let t = here[p];
                assert(t == last[p - before.len()]);
                assert(from_wave(tasks, n, tasks.len(), last[p - before.len()]));
                let i = choose|i: int|
                    0 <= i < tasks.len() && #[trigger] in_wave(tasks, n, i) && tasks[i] == last[p
                        - before.len()];
                assert(knows_dependencies(tasks, i));
                let earlier = task_names(here.take(p));
                assert forall|d: int| 0 <= d < t.depends_on.len() implies earlier.to_set().contains(
                    #[trigger] t.depends_on[d],
                ) by {
                    dependency_before(tasks, n, i, d);
                    let (k, j) = choose|k: nat, j: int|
                        k < n && 0 <= j < tasks.len() && #[trigger] in_wave(tasks, k, j)
                            && tasks[j].name == t.depends_on[d];
                    assert(before.contains(tasks[j]));
                    let q = choose|q: int| 0 <= q < before.len() && before[q] == tasks[j];
                    assert(here.take(p)[q] == tasks[j]);
                    assert(earlier[q] == t.depends_on[d]);
                    assert(earlier.contains(t.depends_on[d]));
                }
            }
        }
    }
}

/// What a task depends on, by name, belongs into an earlier wave.
pub proof fn dependency_before(tasks: Seq<TaskView>, n: nat, i: int, d: int)
    requires
        distinct_names(tasks),
        all_known(tasks),
        0 <= i < tasks.len(),
        in_wave(tasks, n, i),
        0 <= d < tasks[i].depends_on.len(),
    ensures
        exists|k: nat, j: int|
            k < n && 0 <= j < tasks.len() && #[trigger] in_wave(tasks, k, j) && tasks[j].name
                == tasks[i].depends_on[d],
{
    assert(knows_dependencies(tasks, i));
    let name = tasks[i].depends_on[d];
    let j = choose|j: int| 0 <= j < tasks.len() && #[trigger] tasks[j].name == name;
    assert(waits_for(tasks, i, j));
    dependencies_run_earlier(tasks, n, i, j);
    let k = choose|k: nat| k < n && #[trigger] in_wave(tasks, k, j);
    assert(k < n && in_wave(tasks, k, j) && tasks[j].name == name);
}

/// The tasks of a plan, wave by wave, have different names, and each depends only on tasks that
/// stand before it.
pub proof fn planned_tasks_are_in_order(tasks: Seq<TaskView>, waves: Seq<Seq<TaskView>>)
    requires
        schedulable(tasks),
        waves_of(tasks, waves),
    ensures
        task_names(flattened(waves)).no_duplicates(),
        forall|i: int|
            0 <= i < flattened(waves).len() ==> all_in(
                (#[trigger] flattened(waves)[i]).depends_on,
                task_names(flattened(waves).take(i)).to_set(),
            ),
{
    assert(waves.take(waves.len() as int) =~= waves);
    lemma_flat_order(tasks, waves, waves.len());
}

/// The number of a wave is its place, as long as a status can hold it.
pub proof fn waves_are_numbered_by_place(i: int)
    requires
        0 <= i <= 0xffff_ffff,
    ensures
        wave_number(i) == i,
{
}

/// The status that a task starts with waits, holds its wave and, in a run with an identifier, the
/// run, the agent and the thread; else it is as blank as a new one.
pub proof fn planned_tasks_wait_in_their_wave(
    task: TaskView,
    wave: int,
    run_id: Seq<char>,
    created: Timestamp,
)
    requires
        0 <= wave <= 0xffff_ffff,
    ensures
        planned_meta(task, wave, created).wave == Some(wave as u32),
        planned_meta(task, wave, created).status == TaskStatus::Pending,
        planned_meta(task, wave, created).name == task.name,
        planned_meta(task, wave, created).cwd == task.cwd,
        planned_meta(task, wave, created).start_time == created,
        planned_meta(task, wave, created).run_id.len() == 0,
        planned_meta(task, wave, created) == (MetaView {
            wave: Some(wave as u32),
            ..fresh_meta(task.name, task.cwd, task.prompt, created)
        }),
        identified_meta(task, wave, run_id, created).run_id == run_id,
        task.agent_id matches Some(a) ==> identified_meta(task, wave, run_id, created).agent_id == a,
        task.agent_id is None ==> identified_meta(task, wave, run_id, created).agent_id
            == task.name,
        task.thread_id matches Some(t) ==> identified_meta(task, wave, run_id, created).thread_id
            == t,
        task.thread_id is None ==> identified_meta(task, wave, run_id, created).thread_id
            == task.name,
        identified_meta(task, wave, run_id, created) == (MetaView {
            run_id,
            agent_id: identified_meta(task, wave, run_id, created).agent_id,
            thread_id: identified_meta(task, wave, run_id, created).thread_id,
            ..planned_meta(task, wave, created)
        }),
{
}

/// Every task of every wave has its own status to start with: that of its own name, in its own
/// wave, in a run with an identifier that of the run.
pub proof fn every_planned_task_has_a_status(
    waves: Seq<Seq<TaskView>>,
    run_id: Seq<char>,
    plain: Seq<Vec<TaskMeta>>,
    identified: Seq<Vec<TaskMeta>>,
    w: int,
    i: int,
)
    requires
        planned_metas(waves, plain),
        identified_metas(waves, run_id, identified),
        0 <= w < waves.len(),
        w <= 0xffff_ffff,
        0 <= i < waves[w].len(),
    ensures
        plain.len() == waves.len() && plain[w]@.len() == waves[w].len(),
        plain[w]@[i].name@ == waves[w][i].name,
        plain[w]@[i].wave == Some(w as u32),
        plain[w]@[i].status == TaskStatus::Pending,
        identified.len() == waves.len() && identified[w]@.len() == waves[w].len(),
        identified[w]@[i].name@ == waves[w][i].name,
        identified[w]@[i].wave == Some(w as u32),
        identified[w]@[i].status == TaskStatus::Pending,
        identified[w]@[i].run_id@ == run_id,
{
    assert(plain[w]@[i]@ == planned_meta(waves[w][i], w, plain[w]@[i].start_time));
    assert(identified[w]@[i]@ == identified_meta(
        waves[w][i],
        w,
        run_id,
        identified[w]@[i].start_time,
    ));
    assert(plain[w]@.len() == waves[w].len());
    assert(identified[w]@.len() == waves[w].len());
}

/// The tasks of all waves stand wave by wave, each wave whole and in its order.
pub proof fn waves_follow_each_other(waves: Seq<Seq<TaskView>>, w: int, i: int)
    requires
        0 <= w < waves.len(),
        0 <= i < waves[w].len(),
    ensures
        flattened(waves).len() == wave_total(waves),
        wave_total(waves.take(w)) + i < flattened(waves).len(),
        flattened(waves)[wave_total(waves.take(w)) + i] == waves[w][i],
    decreases waves.len(),
{
    lemma_flattened_len(waves);
    let before = waves.drop_last();
    lemma_flattened_len(before);
    if w == waves.len() - 1 {
        assert(waves.take(w) =~= before);
    } else {
        waves_follow_each_other(before, w, i);
        assert(before.take(w) =~= waves.take(w));
    }
}

proof fn lemma_flattened_len(waves: Seq<Seq<TaskView>>)
    ensures
        flattened(waves).len() == wave_total(waves),
    decreases waves.len(),
{
    if waves.len() > 0 {
        lemma_flattened_len(waves.drop_last());
    }
}

} // verus!

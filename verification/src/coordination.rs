//! What always holds of a run, whatever happens in it.
use vstd::prelude::*;

use crate::config::TaskView;
use crate::coordinator::{
    accepting, accepting_all, after, all_in, barrier_in, cancels, closes, dropped, finished,
    names_of, newly_accepted, ready_now, spawned, started, still_waiting, task_barrier, task_names,
    unblocked, waits_on, DispatchRequest, Happening, PendingView, RunEvent, RunView,
};
use crate::meta::TaskStatus;
use crate::runner::ReportView;

verus! {

/// Whether a run is in order: no task waits twice, and none waits, runs or has ended at the same
/// time as it does another of these; all of them were accepted, and no more run than were started.
pub open spec fn sound(s: RunView) -> bool {
    &&& names_of(s.pending).no_duplicates()
    &&& s.running.finite()
    &&& s.live <= s.running.len()
    &&& s.all_ok ==> s.live == s.running.len()
    &&& forall|name: Seq<char>| #[trigger]
        names_of(s.pending).contains(name) ==> s.accepted.contains(name) && !s.running.contains(
            name,
        ) && !s.completed.contains(name)
    &&& forall|name: Seq<char>| #[trigger]
        s.running.contains(name) ==> s.accepted.contains(name) && !s.completed.contains(name)
    &&& forall|name: Seq<char>| #[trigger]
        s.completed.contains(name) ==> s.accepted.contains(name)
}

/// Whether every task that a run has accepted waits, runs or has ended.
pub open spec fn accounted(s: RunView) -> bool {
    forall|name: Seq<char>| #[trigger]
        s.accepted.contains(name) ==> s.completed.contains(name) || s.running.contains(name)
            || names_of(s.pending).contains(name)
}

/// Whether something can happen in a run: only a task that runs reports or crashes, and once a
/// run takes no more requests, none come.
pub open spec fn possible(s: RunView, h: Happening) -> bool {
    match h {
        Happening::Reported(report) => s.running.contains(report.name) && s.live > 0,
        Happening::Crashed => s.live > 0,
        Happening::Task(_) | Happening::Wave(_) => !s.sealed,
        _ => true,
    }
}

/// A run that starts with tasks of different names is in order.
pub proof fn runs_start_sound(tasks: Seq<TaskView>)
    requires
        task_names(tasks).no_duplicates(),
    ensures
        sound(started(tasks)),
        accounted(started(tasks)),
{
    let s = started(tasks);
    assert(names_of(s.pending) =~= task_names(tasks));
}

proof fn lemma_accepting_sound(s: RunView, task: TaskView, barrier: Set<Seq<char>>)
    requires
        sound(s),
    ensures
        sound(accepting(s, task, barrier)),
        accounted(s) ==> accounted(accepting(s, task, barrier)),
        accepting(s, task, barrier).all_ok == s.all_ok,
        accepting(s, task, barrier).sealed == s.sealed,
        accepting(s, task, barrier).running == s.running,
        accepting(s, task, barrier).completed == s.completed,
        s.accepted.subset_of(accepting(s, task, barrier).accepted),
{
    let t = accepting(s, task, barrier);
    if !s.accepted.contains(task.name) {
        let old_names = names_of(s.pending);
        let names = names_of(t.pending);
        assert(names =~= old_names.push(task.name));
        assert forall|name: Seq<char>| #[trigger] names.contains(name) implies old_names.contains(
            name,
        ) || name == task.name by {
            let i = choose|i: int| 0 <= i < names.len() && names[i] == name;
            if i < old_names.len() {
                assert(old_names[i] == name);
            }
        }
        assert forall|name: Seq<char>| #[trigger] old_names.contains(name) implies names.contains(
            name,
        ) by {
            let i = choose|i: int| 0 <= i < old_names.len() && old_names[i] == name;
            assert(names[i] == name);
        }
        assert(names[old_names.len() as int] == task.name);
        assert(names.contains(task.name));
        assert(!old_names.contains(task.name));
        assert(names.no_duplicates()) by {
            assert forall|i: int, j: int| 0 <= i < j < names.len() implies names[i] != names[j] by {
                assert(old_names[i] == names[i]);
                assert(old_names.contains(old_names[i]));
                if j < old_names.len() {
                    assert(old_names[j] == names[j]);
                }
            }
        }
    }
}

proof fn lemma_accepting_all_sound(s: RunView, tasks: Seq<TaskView>, barrier: Set<Seq<char>>)
    requires
        sound(s),
    ensures
        sound(accepting_all(s, tasks, barrier)),
        accounted(s) ==> accounted(accepting_all(s, tasks, barrier)),
        accepting_all(s, tasks, barrier).all_ok == s.all_ok,
        accepting_all(s, tasks, barrier).sealed == s.sealed,
        accepting_all(s, tasks, barrier).running == s.running,
        accepting_all(s, tasks, barrier).completed == s.completed,
        s.accepted.subset_of(accepting_all(s, tasks, barrier).accepted),
    decreases tasks.len(),
{
    if tasks.len() > 0 {
        lemma_accepting_all_sound(s, tasks.drop_last(), barrier);
        lemma_accepting_sound(
            accepting_all(s, tasks.drop_last(), barrier),
            tasks.last(),
            barrier,
        );
    }
}

/// A run in order stays in order, whatever happens in it.
pub proof fn runs_stay_sound(s: RunView, h: Happening)
    requires
        sound(s),
        possible(s, h),
    ensures
        sound(after(s, h)),
{
    match h {
        Happening::Reported(report) => {
            assert(after(s, h).running.len() == s.running.len() - 1);
        },
        Happening::Task(task) => {
            lemma_accepting_sound(s, task, task_barrier(s, task));
        },
        Happening::Wave(tasks) => {
            lemma_accepting_all_sound(s, tasks, barrier_in(s));
        },
        Happening::Cancelled => {
            assert(names_of(after(s, h).pending) =~= Seq::empty());
        },
        _ => {},
    }
}

/// A run loses none of its tasks, unless it is cancelled.
pub proof fn runs_lose_no_task(s: RunView, h: Happening)
    requires
        sound(s),
        accounted(s),
        possible(s, h),
        !(h is Cancelled),
    ensures
        accounted(after(s, h)),
{
    match h {
        Happening::Task(task) => {
            lemma_accepting_sound(s, task, task_barrier(s, task));
        },
        Happening::Wave(tasks) => {
            lemma_accepting_all_sound(s, tasks, barrier_in(s));
        },
        Happening::Reported(report) => {
            let t = after(s, h);
            assert forall|name: Seq<char>| #[trigger] t.accepted.contains(name) implies t.completed.contains(
                name,
            ) || t.running.contains(name) || names_of(t.pending).contains(name) by {
                assert(s.accepted.contains(name));
            }
        },
        _ => {},
    }
}

/// Every task that waited either starts or still waits, and the tasks that start are those that
/// have nothing left to wait for.
proof fn lemma_split(pending: Seq<PendingView>, completed: Set<Seq<char>>)
    requires
        names_of(pending).no_duplicates(),
    ensures
        forall|name: Seq<char>| #[trigger]
            names_of(pending).contains(name) ==> names_of(still_waiting(pending, completed)).contains(
                name,
            ) || task_names(ready_now(pending, completed)).contains(name),
        forall|name: Seq<char>| #[trigger]
            names_of(still_waiting(pending, completed)).contains(name) ==> names_of(
                pending,
            ).contains(name) && !task_names(ready_now(pending, completed)).contains(name),
        forall|name: Seq<char>| #[trigger]
            task_names(ready_now(pending, completed)).contains(name) ==> names_of(pending).contains(
                name,
            ),
        names_of(still_waiting(pending, completed)).no_duplicates(),
        task_names(ready_now(pending, completed)).no_duplicates(),
        ready_now(pending, completed).len() + still_waiting(pending, completed).len()
            == pending.len(),
    decreases pending.len(),
{
    if pending.len() > 0 {
        let before = pending.drop_last();
        let last = pending.last();
        let all_before = names_of(before);
        let all = names_of(pending);
        assert(all =~= all_before.push(last.def.name));
        assert(all_before =~= all.drop_last());
        assert(all_before.no_duplicates()) by {
            assert forall|i: int, j: int| 0 <= i < all_before.len() && 0 <= j < all_before.len()
                && i != j implies all_before[i] != all_before[j] by {
                assert(all[i] == all_before[i] && all[j] == all_before[j]);
            }
        }
        assert(!all_before.contains(last.def.name)) by {
            if all_before.contains(last.def.name) {
                let i = choose|i: int| 0 <= i < all_before.len() && all_before[i] == last.def.name;
                assert(all[i] == all[all_before.len() as int]);
            }
        }
        lemma_split(before, completed);
        let wait_before = names_of(still_waiting(before, completed));
        let ready_before = task_names(ready_now(before, completed));
        let wait = names_of(still_waiting(pending, completed));
        let ready = task_names(ready_now(pending, completed));
        lemma_push_contains(all_before, last.def.name);
        if unblocked(last, completed) {
            assert(wait =~= wait_before);
            assert(ready =~= ready_before.push(last.def.name));
            lemma_push_contains(ready_before, last.def.name);
            lemma_push_distinct(ready_before, last.def.name);
        } else {
            assert(ready =~= ready_before);
            assert(wait =~= wait_before.push(last.def.name));
            lemma_push_contains(wait_before, last.def.name);
            lemma_push_distinct(wait_before, last.def.name);
        }
    }
}

proof fn lemma_push_contains(s: Seq<Seq<char>>, x: Seq<char>)
    ensures
        forall|y: Seq<char>| #[trigger] s.push(x).contains(y) == (s.contains(y) || y == x),
{
    assert forall|y: Seq<char>| #[trigger] s.push(x).contains(y) == (s.contains(y) || y == x) by {
        if s.contains(y) {
            let i = choose|i: int| 0 <= i < s.len() && s[i] == y;
            assert(s.push(x)[i] == y);
        }
        assert(s.push(x)[s.len() as int] == x);
    }
}

proof fn lemma_push_distinct(s: Seq<Seq<char>>, x: Seq<char>)
    requires
        s.no_duplicates(),
        !s.contains(x),
    ensures
        s.push(x).no_duplicates(),
{
    let t = s.push(x);
    assert forall|i: int, j: int| 0 <= i < t.len() && 0 <= j < t.len() && i != j implies t[i]
        != t[j] by {
        if i < s.len() {
            assert(s.contains(s[i]));
        }
        if j < s.len() {
            assert(s.contains(s[j]));
        }
    }
}

proof fn lemma_union_len(a: Set<Seq<char>>, b: Seq<Seq<char>>)
    requires
        a.finite(),
        b.no_duplicates(),
        forall|x: Seq<char>| #[trigger] b.contains(x) ==> !a.contains(x),
    ensures
        a.union(b.to_set()).finite(),
        a.union(b.to_set()).len() == a.len() + b.len(),
    decreases b.len(),
{
    if b.len() == 0 {
        assert(a.union(b.to_set()) =~= a);
    } else {
        let c = b.drop_last();
        assert(b =~= c.push(b.last()));
        lemma_push_contains(c, b.last());
        assert(!c.contains(b.last())) by {
            if c.contains(b.last()) {
                let i = choose|i: int| 0 <= i < c.len() && c[i] == b.last();
                assert(b[i] == b[b.len() - 1]);
            }
        }
        assert forall|x: Seq<char>| #[trigger] c.contains(x) implies !a.contains(x) by {
            assert(b.contains(x));
        }
        lemma_union_len(a, c);
        assert(b.contains(b.last()));
        assert(a.union(b.to_set()) =~= a.union(c.to_set()).insert(b.last()));
    }
}

/// Starting the tasks that can start keeps a run in order and loses none.
pub proof fn spawning_stays_sound(s: RunView)
    requires
        sound(s),
    ensures
        sound(spawned(s)),
        accounted(s) ==> accounted(spawned(s)),
{
    let t = spawned(s);
    let ready = task_names(ready_now(s.pending, s.completed));
    lemma_split(s.pending, s.completed);
    lemma_union_len(s.running, ready);
    assert forall|name: Seq<char>| #[trigger] t.running.contains(name) implies t.accepted.contains(
        name,
    ) && !t.completed.contains(name) by {
        if !s.running.contains(name) {
            assert(ready.contains(name));
            assert(names_of(s.pending).contains(name));
        }
    }
    assert forall|name: Seq<char>| #[trigger] names_of(t.pending).contains(name) implies t.accepted.contains(
        name,
    ) && !t.running.contains(name) && !t.completed.contains(name) by {
        assert(names_of(s.pending).contains(name));
    }
    if accounted(s) {
        assert forall|name: Seq<char>| #[trigger] t.accepted.contains(name) implies t.completed.contains(
            name,
        ) || t.running.contains(name) || names_of(t.pending).contains(name) by {
            assert(s.accepted.contains(name));
            if names_of(s.pending).contains(name) && !names_of(t.pending).contains(name) {
                assert(ready.contains(name));
            }
        }
    }
}

/// A task starts only once everything that it depends on, and everything in its barrier, has
/// ended.
pub proof fn tasks_wait_for_their_dependencies(
    pending: Seq<PendingView>,
    completed: Set<Seq<char>>,
    i: int,
)
    requires
        0 <= i < ready_now(pending, completed).len(),
    ensures
        all_in(ready_now(pending, completed)[i].depends_on, completed),
        exists|j: int|
            0 <= j < pending.len() && (#[trigger] pending[j]).def == ready_now(pending, completed)[i]
                && pending[j].barrier.subset_of(completed),
    decreases pending.len(),
{
    if pending.len() > 0 {
        let before = pending.drop_last();
        let last = pending.last();
        if i < ready_now(before, completed).len() {
            tasks_wait_for_their_dependencies(before, completed, i);
            let j = choose|j: int|
                0 <= j < before.len() && (#[trigger] before[j]).def == ready_now(before, completed)[i]
                    && before[j].barrier.subset_of(completed);
            assert(pending[j] == before[j]);
        } else {
            let deps = last.def.depends_on;
            assert forall|k: int| 0 <= k < deps.len() implies completed.contains(
                #[trigger] deps[k],
            ) by {
                assert(deps.contains(deps[k]));
                assert(waits_on(last, deps[k]));
            }
            assert forall|name: Seq<char>| last.barrier.contains(name) implies completed.contains(
                name,
            ) by {
                assert(waits_on(last, name));
            }
            assert(pending[pending.len() - 1] == last);
        }
    }
}

/// No task starts twice: the ones that start have different names, and none of them runs or has
/// ended.
pub proof fn no_task_starts_twice(s: RunView)
    requires
        sound(s),
    ensures
        task_names(ready_now(s.pending, s.completed)).no_duplicates(),
        forall|name: Seq<char>| #[trigger]
            task_names(ready_now(s.pending, s.completed)).contains(name) ==> s.accepted.contains(
                name,
            ) && !s.running.contains(name) && !s.completed.contains(name),
{
    lemma_split(s.pending, s.completed);
}

/// What has started stays started, and what has ended stays ended; what is accepted stays so.
pub proof fn runs_go_forward(s: RunView, h: Happening, name: Seq<char>)
    requires
        sound(s),
        possible(s, h),
    ensures
        s.accepted.contains(name) ==> after(s, h).accepted.contains(name),
        s.completed.contains(name) ==> after(s, h).completed.contains(name),
        s.running.contains(name) ==> after(s, h).running.contains(name) || after(
            s,
            h,
        ).completed.contains(name),
        s.sealed ==> after(s, h).sealed,
{
    match h {
        Happening::Task(task) => {
            lemma_accepting_sound(s, task, task_barrier(s, task));
        },
        Happening::Wave(tasks) => {
            lemma_accepting_all_sound(s, tasks, barrier_in(s));
        },
        _ => {},
    }
}

/// A run that has gone wrong never counts as gone well again; it goes wrong when a task fails, is
/// cancelled or crashes, and when the run is cancelled, and at no other time.
pub proof fn runs_go_wrong_for_good(s: RunView, h: Happening)
    requires
        sound(s),
        possible(s, h),
    ensures
        after(s, h).all_ok == (s.all_ok && match h {
            Happening::Reported(report) => report.status != TaskStatus::Failed && report.status
                != TaskStatus::Cancelled,
            Happening::Crashed => false,
            Happening::Cancelled => false,
            _ => true,
        }),
        spawned(s).all_ok == s.all_ok,
        cancels(h) ==> !after(s, h).all_ok,
{
    match h {
        Happening::Task(task) => {
            lemma_accepting_sound(s, task, task_barrier(s, task));
        },
        Happening::Wave(tasks) => {
            lemma_accepting_all_sound(s, tasks, barrier_in(s));
        },
        _ => {},
    }
}

/// A cancelled run starts nothing more: nothing waits in it, whatever happens next, and it has
/// ended once the tasks that still run have reported.
pub proof fn cancelled_runs_wind_down(s: RunView, h: Happening, closed: bool)
    requires
        s.sealed,
        s.pending.len() == 0,
        possible(s, h),
    ensures
        after(s, h).sealed,
        after(s, h).pending.len() == 0,
        spawned(s) =~= s,
        ready_now(s.pending, s.completed).len() == 0,
        finished(s, closed) == (s.live == 0),
{
    assert(s.pending =~= seq![]);
    assert(still_waiting(s.pending, s.completed) =~= s.pending);
    let ready = ready_now(s.pending, s.completed);
    assert(task_names(ready).to_set() =~= Set::empty());
    assert(s.running.union(task_names(ready).to_set()) =~= s.running);
}

/// A run that is cancelled winds down.
pub proof fn cancelling_winds_a_run_down(s: RunView)
    ensures
        after(s, Happening::Cancelled).sealed,
        after(s, Happening::Cancelled).pending.len() == 0,
        !after(s, Happening::Cancelled).all_ok,
{
}

/// A request for a name that the run has accepted changes nothing.
pub proof fn accepted_names_are_accepted_once(s: RunView, task: TaskView)
    requires
        s.accepted.contains(task.name),
    ensures
        after(s, Happening::Task(task)) == s,
{
}

/// Whether each task on a list waits only for names in a set and for tasks on the list that have
/// a lower rank.
pub open spec fn grounded_in(
    pending: Seq<PendingView>,
    base: Set<Seq<char>>,
    rank: spec_fn(Seq<char>) -> nat,
) -> bool {
    forall|i: int, name: Seq<char>|
        0 <= i < pending.len() && #[trigger] waits_on(pending[i], name) ==> base.contains(name) || (
        names_of(pending).contains(name) && rank(name) < rank(pending[i].def.name))
}

/// Whether the tasks that wait do so only for tasks that run, have ended, or wait themselves
/// with a lower rank: none of them waits, over whatever others, for itself.
pub open spec fn grounded(s: RunView) -> bool {
    exists|rank: spec_fn(Seq<char>) -> nat| #[trigger]
        grounded_in(s.pending, s.completed.union(s.running), rank)
}

/// Whether each task on a list depends only on known names and on tasks of the list that have a
/// lower level.
pub open spec fn leveled(
    tasks: Seq<TaskView>,
    known: Set<Seq<char>>,
    level: spec_fn(Seq<char>) -> nat,
) -> bool {
    forall|i: int, d: int|
        0 <= i < tasks.len() && 0 <= d < tasks[i].depends_on.len() ==> known.contains(
            #[trigger] tasks[i].depends_on[d],
        ) || (task_names(tasks).contains(tasks[i].depends_on[d]) && level(tasks[i].depends_on[d])
            < level(tasks[i].name))
}

/// Whether the tasks on a list depend only on known names and, without a circle, on each other.
pub open spec fn without_circles(tasks: Seq<TaskView>, known: Set<Seq<char>>) -> bool {
    exists|level: spec_fn(Seq<char>) -> nat| #[trigger] leveled(tasks, known, level)
}

/// Whether the tasks that something brings depend only on tasks that the run has accepted, and,
/// within a wave, on each other without a circle.
pub open spec fn brings_known_dependencies(s: RunView, h: Happening) -> bool {
    match h {
        Happening::Task(task) => all_in(task.depends_on, s.accepted),
        Happening::Wave(tasks) => without_circles(tasks, s.accepted),
        _ => true,
    }
}

/// A run never gets stuck: while tasks wait and none runs, one of them can start.
pub proof fn runs_do_not_get_stuck(s: RunView)
    requires
        grounded(s),
        s.running =~= Set::empty(),
        s.pending.len() > 0,
    ensures
        ready_now(s.pending, s.completed).len() > 0,
        spawned(s).live > 0,
{
    let base = s.completed.union(s.running);
    let rank = choose|rank: spec_fn(Seq<char>) -> nat| #[trigger]
        grounded_in(s.pending, base, rank);
    let k = lemma_lowest(s.pending, rank, s.pending.len() as int);
    assert forall|name: Seq<char>| #[trigger] waits_on(s.pending[k], name) implies s.completed.contains(
        name,
    ) by {
        if !base.contains(name) {
            let j = choose|j: int| 0 <= j < s.pending.len() && names_of(s.pending)[j] == name;
            assert(rank(s.pending[k].def.name) <= rank(s.pending[j].def.name));
        }
    }
    lemma_one_is_ready(s.pending, s.completed, k);
}

proof fn lemma_lowest(
    pending: Seq<PendingView>,
    rank: spec_fn(Seq<char>) -> nat,
    n: int,
) -> (k: int)
    requires
        0 < n <= pending.len(),
    ensures
        0 <= k < n,
        forall|j: int|
            0 <= j < n ==> rank(pending[k].def.name) <= rank((#[trigger] pending[j]).def.name),
    decreases n,
{
    if n == 1 {
        0
    } else {
        let k = lemma_lowest(pending, rank, n - 1);
        if rank(pending[n - 1].def.name) < rank(pending[k].def.name) {
            n - 1
        } else {
            k
        }
    }
}

proof fn lemma_one_is_ready(pending: Seq<PendingView>, completed: Set<Seq<char>>, k: int)
    requires
        0 <= k < pending.len(),
        unblocked(pending[k], completed),
    ensures
        ready_now(pending, completed).len() > 0,
    decreases pending.len(),
{
    if k < pending.len() - 1 {
        lemma_one_is_ready(pending.drop_last(), completed, k);
    }
}

/// A run that starts with tasks in an order in which each depends only on earlier ones has none
/// that waits for itself.
pub proof fn runs_start_grounded(tasks: Seq<TaskView>)
    requires
        task_names(tasks).no_duplicates(),
        forall|i: int|
            0 <= i < tasks.len() ==> all_in(
                (#[trigger] tasks[i]).depends_on,
                task_names(tasks.take(i)).to_set(),
            ),
    ensures
        grounded(started(tasks)),
{
    let s = started(tasks);
    let names = task_names(tasks);
    let place = |name: Seq<char>| names.index_of(name) as nat;
    let base = s.completed.union(s.running);
    assert(names_of(s.pending) =~= names);
    assert forall|i: int, name: Seq<char>|
        0 <= i < s.pending.len() && #[trigger] waits_on(s.pending[i], name) implies base.contains(
        name,
    ) || (names_of(s.pending).contains(name) && place(name) < place(s.pending[i].def.name)) by {
        let deps = tasks[i].depends_on;
        assert(deps.contains(name));
        let k = choose|k: int| 0 <= k < deps.len() && deps[k] == name;
        let earlier = task_names(tasks.take(i));
        assert(earlier.to_set().contains(deps[k]));
        let j = choose|j: int| 0 <= j < earlier.len() && earlier[j] == name;
        assert(names[j] == name);
        assert(names.contains(name));
        assert(names[i] == tasks[i].name);
        assert(names.contains(tasks[i].name));
        assert(names[names.index_of(name)] == name);
        assert(names[names.index_of(tasks[i].name)] == tasks[i].name);
    }
    assert(grounded_in(s.pending, base, place));
}

proof fn lemma_grounded_larger(
    pending: Seq<PendingView>,
    a: Set<Seq<char>>,
    b: Set<Seq<char>>,
    rank: spec_fn(Seq<char>) -> nat,
)
    requires
        grounded_in(pending, a, rank),
        a.subset_of(b),
    ensures
        grounded_in(pending, b, rank),
{
    assert forall|i: int, name: Seq<char>|
        0 <= i < pending.len() && #[trigger] waits_on(pending[i], name) implies b.contains(name) || (
    names_of(pending).contains(name) && rank(name) < rank(pending[i].def.name)) by {
        assert(a.contains(name) || names_of(pending).contains(name));
    }
}

proof fn lemma_highest(
    pending: Seq<PendingView>,
    rank: spec_fn(Seq<char>) -> nat,
) -> (top: nat)
    ensures
        forall|j: int| 0 <= j < pending.len() ==> rank((#[trigger] pending[j]).def.name) <= top,
    decreases pending.len(),
{
    if pending.len() == 0 {
        0
    } else {
        let before = pending.drop_last();
        let top = lemma_highest(before, rank);
        let last = rank(pending.last().def.name);
        assert forall|j: int| 0 <= j < pending.len() implies rank((#[trigger] pending[j]).def.name)
            <= if last > top {
            last
        } else {
            top
        } by {
            if j < before.len() {
                assert(pending[j] == before[j]);
            }
        }
        if last > top {
            last
        } else {
            top
        }
    }
}

/// What a run takes on of a list of tasks stands behind what waited before.
proof fn lemma_accepted_suffix(s: RunView, tasks: Seq<TaskView>, barrier: Set<Seq<char>>)
    ensures
        accepting_all(s, tasks, barrier).pending.len() >= s.pending.len(),
        accepting_all(s, tasks, barrier).pending.take(s.pending.len() as int) =~= s.pending,
        forall|i: int|
            s.pending.len() <= i < accepting_all(s, tasks, barrier).pending.len() ==> {
                let p = #[trigger] accepting_all(s, tasks, barrier).pending[i];
                p.barrier == barrier && !s.accepted.contains(p.def.name) && tasks.contains(p.def)
            },
        forall|name: Seq<char>| #[trigger]
            accepting_all(s, tasks, barrier).accepted.contains(name) == (s.accepted.contains(name)
                || task_names(tasks).contains(name)),
    decreases tasks.len(),
{
    let t = accepting_all(s, tasks, barrier);
    if tasks.len() > 0 {
        let before = tasks.drop_last();
        let last = tasks.last();
        let mid = accepting_all(s, before, barrier);
        lemma_accepted_suffix(s, before, barrier);
        assert(task_names(tasks) =~= task_names(before).push(last.name));
        lemma_push_contains(task_names(before), last.name);
        assert forall|name: Seq<char>| #[trigger] t.accepted.contains(name) == (s.accepted.contains(
            name,
        ) || task_names(tasks).contains(name)) by {
            assert(mid.accepted.contains(name) == (s.accepted.contains(name) || task_names(
                before,
            ).contains(name)));
        }
        assert forall|i: int| s.pending.len() <= i < t.pending.len() implies {
            let p = #[trigger] t.pending[i];
            p.barrier == barrier && !s.accepted.contains(p.def.name) && tasks.contains(p.def)
        } by {
            if i < mid.pending.len() {
                let p = mid.pending[i];
                assert(t.pending[i] == p);
                let j = choose|j: int| 0 <= j < before.len() && before[j] == p.def;
                assert(tasks[j] == p.def);
            } else {
                assert(tasks[tasks.len() - 1] == last);
                assert(mid.accepted.contains(last.name) == (s.accepted.contains(last.name)
                    || task_names(before).contains(last.name)));
            }
        }
        assert(t.pending.take(s.pending.len() as int) =~= s.pending);
    } else {
        assert(t.pending.take(s.pending.len() as int) =~= s.pending);
        assert forall|name: Seq<char>| #[trigger] t.accepted.contains(name) == (s.accepted.contains(
            name,
        ) || task_names(tasks).contains(name)) by {
            assert(!task_names(tasks).contains(name));
        }
    }
}

proof fn lemma_grounded_wave(
    s: RunView,
    tasks: Seq<TaskView>,
    barrier: Set<Seq<char>>,
    level: spec_fn(Seq<char>) -> nat,
)
    requires
        sound(s),
        accounted(s),
        grounded(s),
        leveled(tasks, s.accepted, level),
        forall|name: Seq<char>| #[trigger]
            barrier.contains(name) ==> s.accepted.contains(name),
    ensures
        grounded(accepting_all(s, tasks, barrier)),
{
    let t = accepting_all(s, tasks, barrier);
    let base = s.completed.union(s.running);
    let n = s.pending.len() as int;
    let rank = choose|rank: spec_fn(Seq<char>) -> nat| #[trigger]
        grounded_in(s.pending, base, rank);
    let top = lemma_highest(s.pending, rank);
    let wide = |name: Seq<char>|
        if names_of(s.pending).contains(name) {
            rank(name)
        } else {
            top + 1 + level(name)
        };
    lemma_accepted_suffix(s, tasks, barrier);
    lemma_accepting_all_sound(s, tasks, barrier);
    assert forall|name: Seq<char>| #[trigger] names_of(s.pending).contains(name) implies names_of(
        t.pending,
    ).contains(name) && rank(name) <= top by {
        let j = choose|j: int| 0 <= j < s.pending.len() && names_of(s.pending)[j] == name;
        assert(t.pending.take(n)[j] == t.pending[j]);
        assert(names_of(t.pending)[j] == name);
        assert(s.pending[j].def.name == name);
    }
    assert forall|i: int, name: Seq<char>|
        0 <= i < t.pending.len() && #[trigger] waits_on(t.pending[i], name) implies base.contains(
        name,
    ) || (names_of(t.pending).contains(name) && wide(name) < wide(t.pending[i].def.name)) by {
        let p = t.pending[i];
        if i < n {
            assert(t.pending.take(n)[i] == s.pending[i]);
            assert(waits_on(s.pending[i], name));
            assert(names_of(s.pending)[i] == p.def.name);
            assert(names_of(s.pending).contains(p.def.name));
        } else {
            assert(!names_of(s.pending).contains(p.def.name));
            if s.accepted.contains(name) {
            } else {
                assert(!barrier.contains(name));
                let d = choose|d: int| 0 <= d < p.def.depends_on.len() && p.def.depends_on[d] == name;
                let k = choose|k: int| 0 <= k < tasks.len() && tasks[k] == p.def;
                assert(tasks[k].depends_on[d] == name);
                assert(task_names(tasks).contains(name));
                assert(t.accepted.contains(name));
                assert(!names_of(s.pending).contains(name));
                assert(!t.completed.contains(name) && !t.running.contains(name));
            }
        }
    }
    assert(grounded_in(t.pending, t.completed.union(t.running), wide));
}

/// A run in which no task waits for itself stays so, as long as each task that it takes on
/// depends only on accepted ones, or, within a wave, on each other without a circle.
pub proof fn runs_stay_grounded(s: RunView, h: Happening)
    requires
        sound(s),
        accounted(s),
        grounded(s),
        possible(s, h),
        brings_known_dependencies(s, h),
    ensures
        grounded(after(s, h)),
{
    let base = s.completed.union(s.running);
    let rank = choose|rank: spec_fn(Seq<char>) -> nat| #[trigger]
        grounded_in(s.pending, base, rank);
    let t = after(s, h);
    match h {
        Happening::Reported(report) => {
            lemma_grounded_larger(s.pending, base, t.completed.union(t.running), rank);
            assert(grounded_in(t.pending, t.completed.union(t.running), rank));
        },
        Happening::Task(task) => {
            let level = |name: Seq<char>| 0nat;
            let tasks = seq![task];
            assert(leveled(tasks, s.accepted, level));
            lemma_grounded_wave(s, tasks, task_barrier(s, task), level);
            reveal_with_fuel(accepting_all, 2);
            assert(tasks.drop_last() =~= seq![]);
        },
        Happening::Wave(tasks) => {
            let level = choose|level: spec_fn(Seq<char>) -> nat| #[trigger]
                leveled(tasks, s.accepted, level);
            lemma_grounded_wave(s, tasks, barrier_in(s), level);
        },
        _ => {
            assert(grounded_in(t.pending, t.completed.union(t.running), rank));
        },
    }
}

proof fn lemma_waiting_from(pending: Seq<PendingView>, completed: Set<Seq<char>>)
    ensures
        forall|i: int|
            0 <= i < still_waiting(pending, completed).len() ==> pending.contains(
                #[trigger] still_waiting(pending, completed)[i],
            ),
    decreases pending.len(),
{
    if pending.len() > 0 {
        let before = pending.drop_last();
        lemma_waiting_from(before, completed);
        let some = still_waiting(before, completed);
        let all = still_waiting(pending, completed);
        assert forall|i: int| 0 <= i < all.len() implies pending.contains(#[trigger] all[i]) by {
            if i < some.len() {
                assert(all[i] == some[i]);
                let j = choose|j: int| 0 <= j < before.len() && before[j] == some[i];
                assert(pending[j] == all[i]);
            } else {
                assert(pending[pending.len() - 1] == all[i]);
            }
        }
    }
}

/// Starting the tasks that can start leaves none of the others stuck.
pub proof fn spawning_stays_grounded(s: RunView)
    requires
        sound(s),
        grounded(s),
    ensures
        grounded(spawned(s)),
{
    let t = spawned(s);
    let base = s.completed.union(s.running);
    let rank = choose|rank: spec_fn(Seq<char>) -> nat| #[trigger]
        grounded_in(s.pending, base, rank);
    lemma_split(s.pending, s.completed);
    lemma_waiting_from(s.pending, s.completed);
    let wide = t.completed.union(t.running);
    assert forall|i: int, name: Seq<char>|
        0 <= i < t.pending.len() && #[trigger] waits_on(t.pending[i], name) implies wide.contains(
        name,
    ) || (names_of(t.pending).contains(name) && rank(name) < rank(t.pending[i].def.name)) by {
        assert(s.pending.contains(t.pending[i]));
        let j = choose|j: int| 0 <= j < s.pending.len() && s.pending[j] == t.pending[i];
        assert(waits_on(s.pending[j], name));
    }
    assert(grounded_in(t.pending, wide, rank));
}

/// One step of a run: the tasks that can start do so, or something happens.
pub enum Step {
    Spawn,
    Happens(Happening),
}

/// Where a run stands that started with the given tasks, after some steps.
pub open spec fn run_to(tasks: Seq<TaskView>, steps: Seq<Step>) -> RunView
    decreases steps.len(),
{
    if steps.len() == 0 {
        started(tasks)
    } else {
        let before = run_to(tasks, steps.drop_last());
        match steps.last() {
            Step::Spawn => spawned(before),
            Step::Happens(h) => after(before, h),
        }
    }
}

/// Whether each of the steps can happen when its turn comes.
pub open spec fn legal(tasks: Seq<TaskView>, steps: Seq<Step>) -> bool
    decreases steps.len(),
{
    if steps.len() == 0 {
        true
    } else {
        legal(tasks, steps.drop_last()) && match steps.last() {
            Step::Spawn => true,
            Step::Happens(h) => possible(run_to(tasks, steps.drop_last()), h),
        }
    }
}

/// Every run of tasks with different names is in order at every moment, and as long as it goes
/// well none of its tasks is lost.
pub proof fn runs_are_always_sound(tasks: Seq<TaskView>, steps: Seq<Step>)
    requires
        task_names(tasks).no_duplicates(),
        legal(tasks, steps),
    ensures
        sound(run_to(tasks, steps)),
        run_to(tasks, steps).all_ok ==> accounted(run_to(tasks, steps)),
    decreases steps.len(),
{
    if steps.len() == 0 {
        runs_start_sound(tasks);
    } else {
        runs_are_always_sound(tasks, steps.drop_last());
        let before = run_to(tasks, steps.drop_last());
        match steps.last() {
            Step::Spawn => {
                spawning_stays_sound(before);
            },
            Step::Happens(h) => {
                runs_stay_sound(before, h);
                runs_go_wrong_for_good(before, h);
                if after(before, h).all_ok {
                    runs_lose_no_task(before, h);
                }
            },
        }
    }
}

/// A run that ends well has seen every task that it ever accepted come to its end.
pub proof fn good_runs_complete_every_task(tasks: Seq<TaskView>, steps: Seq<Step>, closed: bool)
    requires
        task_names(tasks).no_duplicates(),
        legal(tasks, steps),
        run_to(tasks, steps).all_ok,
        finished(run_to(tasks, steps), closed),
    ensures
        run_to(tasks, steps).completed =~= run_to(tasks, steps).accepted,
{
    runs_are_always_sound(tasks, steps);
    let s = run_to(tasks, steps);
    assert(s.running =~= Set::empty());
    assert forall|name: Seq<char>| s.accepted.contains(name) implies s.completed.contains(name) by {
        assert(!names_of(s.pending).contains(name));
    }
}

/// Whether none of the steps cancels the run, and every task that is brought depends only on
/// accepted ones.
pub open spec fn orderly(tasks: Seq<TaskView>, steps: Seq<Step>) -> bool
    decreases steps.len(),
{
    if steps.len() == 0 {
        true
    } else {
        orderly(tasks, steps.drop_last()) && match steps.last() {
            Step::Spawn => true,
            Step::Happens(h) => !(h is Cancelled) && brings_known_dependencies(
                run_to(tasks, steps.drop_last()),
                h,
            ),
        }
    }
}

/// A run whose tasks depend on accepted tasks alone never gets stuck: until it is cancelled, a
/// task can start whenever tasks wait and none runs.
pub proof fn orderly_runs_never_get_stuck(tasks: Seq<TaskView>, steps: Seq<Step>)
    requires
        task_names(tasks).no_duplicates(),
        forall|i: int|
            0 <= i < tasks.len() ==> all_in(
                (#[trigger] tasks[i]).depends_on,
                task_names(tasks.take(i)).to_set(),
            ),
        legal(tasks, steps),
        orderly(tasks, steps),
    ensures
        run_to(tasks, steps).pending.len() > 0 && run_to(tasks, steps).running =~= Set::empty()
            ==> ready_now(
            run_to(tasks, steps).pending,
            run_to(tasks, steps).completed,
        ).len() > 0,
{
    lemma_orderly_runs_are_grounded(tasks, steps);
    let s = run_to(tasks, steps);
    if s.pending.len() > 0 && s.running =~= Set::empty() {
        runs_do_not_get_stuck(s);
    }
}

proof fn lemma_orderly_runs_are_grounded(tasks: Seq<TaskView>, steps: Seq<Step>)
    requires
        task_names(tasks).no_duplicates(),
        forall|i: int|
            0 <= i < tasks.len() ==> all_in(
                (#[trigger] tasks[i]).depends_on,
                task_names(tasks.take(i)).to_set(),
            ),
        legal(tasks, steps),
        orderly(tasks, steps),
    ensures
        grounded(run_to(tasks, steps)),
        accounted(run_to(tasks, steps)),
    decreases steps.len(),
{
    if steps.len() == 0 {
        runs_start_sound(tasks);
        runs_start_grounded(tasks);
    } else {
        let before = run_to(tasks, steps.drop_last());
        lemma_orderly_runs_are_grounded(tasks, steps.drop_last());
        runs_are_always_sound(tasks, steps.drop_last());
        match steps.last() {
            Step::Spawn => {
                spawning_stays_sound(before);
                spawning_stays_grounded(before);
            },
            Step::Happens(h) => {
                runs_lose_no_task(before, h);
                runs_stay_grounded(before, h);
            },
        }
    }
}

/// A task that names no dependencies waits for everything that was under way when the run was asked
/// for it, running or waiting, and for nothing else; it starts only once all of that has ended.
pub proof fn tasks_without_dependencies_wait_for_all_under_way(
    s: RunView,
    task: TaskView,
    name: Seq<char>,
    completed: Set<Seq<char>>,
)
    requires
        task.depends_on.len() == 0,
        !s.accepted.contains(task.name),
    ensures
        after(s, Happening::Task(task)).pending.len() == s.pending.len() + 1,
        after(s, Happening::Task(task)).pending.last().def == task,
        waits_on(after(s, Happening::Task(task)).pending.last(), name) <==> s.running.contains(name)
            || names_of(s.pending).contains(name),
        s.running.contains(name) && !completed.contains(name) ==> !unblocked(
            after(s, Happening::Task(task)).pending.last(),
            completed,
        ),
        names_of(s.pending).contains(name) && !completed.contains(name) ==> !unblocked(
            after(s, Happening::Task(task)).pending.last(),
            completed,
        ),
        sound(s) && !completed.contains(name) && (s.running.contains(name) || names_of(
            s.pending,
        ).contains(name)) ==> !task_names(
            ready_now(after(s, Happening::Task(task)).pending, completed),
        ).contains(task.name),
{
    let t = after(s, Happening::Task(task));
    let last = t.pending.last();
    assert(names_of(s.pending).to_set().contains(name) == names_of(s.pending).contains(name));
    if !completed.contains(name) && waits_on(last, name) {
        assert(!unblocked(last, completed));
        if sound(s) {
            assert(t.pending.drop_last() =~= s.pending);
            lemma_ready_are_pending(s.pending, completed);
            if task_names(ready_now(s.pending, completed)).contains(task.name) {
                assert(names_of(s.pending).contains(task.name));
            }
        }
    }
}

proof fn lemma_ready_are_pending(pending: Seq<PendingView>, completed: Set<Seq<char>>)
    ensures
        forall|name: Seq<char>| #[trigger]
            task_names(ready_now(pending, completed)).contains(name) ==> names_of(pending).contains(
                name,
            ),
    decreases pending.len(),
{
    if pending.len() > 0 {
        let before = pending.drop_last();
        lemma_ready_are_pending(before, completed);
        let last = pending.last().def.name;
        assert(names_of(pending) =~= names_of(before).push(last));
        lemma_push_contains(names_of(before), last);
        let some = task_names(ready_now(before, completed));
        if unblocked(pending.last(), completed) {
            assert(task_names(ready_now(pending, completed)) =~= some.push(last));
            lemma_push_contains(some, last);
        } else {
            assert(task_names(ready_now(pending, completed)) =~= some);
        }
    }
}

/// A task that names its dependencies waits for them, and for nothing else.
pub proof fn tasks_with_dependencies_wait_for_them_alone(
    s: RunView,
    task: TaskView,
    name: Seq<char>,
)
    requires
        task.depends_on.len() > 0,
        !s.accepted.contains(task.name),
    ensures
        after(s, Happening::Task(task)).pending.len() == s.pending.len() + 1,
        after(s, Happening::Task(task)).pending.last().def == task,
        waits_on(after(s, Happening::Task(task)).pending.last(), name)
            <==> task.depends_on.contains(name),
{
}

/// Every task of a wave that is new to the run waits, as it was asked for, for everything that was
/// under way when the wave came, and for its own dependencies.
pub proof fn waves_wait_for_all_under_way(s: RunView, tasks: Seq<TaskView>, i: int, name: Seq<char>)
    requires
        s.pending.len() <= i < after(s, Happening::Wave(tasks)).pending.len(),
    ensures
        tasks.contains(after(s, Happening::Wave(tasks)).pending[i].def),
        !s.accepted.contains(after(s, Happening::Wave(tasks)).pending[i].def.name),
        waits_on(after(s, Happening::Wave(tasks)).pending[i], name) <==> s.running.contains(name)
            || names_of(s.pending).contains(name) || after(
            s,
            Happening::Wave(tasks),
        ).pending[i].def.depends_on.contains(name),
{
    lemma_accepted_suffix(s, tasks, barrier_in(s));
    assert(names_of(s.pending).to_set().contains(name) == names_of(s.pending).contains(name));
}

/// A request for tasks takes on each of them that is new, behind those that wait already, and
/// touches nothing else.
pub proof fn requests_only_add_tasks(s: RunView, tasks: Seq<TaskView>, task: TaskView, n: int)
    requires
        0 <= n < tasks.len(),
    ensures
        after(s, Happening::Wave(tasks)).pending.take(s.pending.len() as int) == s.pending,
        !s.accepted.contains(tasks[n].name) ==> names_of(
            after(s, Happening::Wave(tasks)).pending,
        ).contains(tasks[n].name),
        forall|name: Seq<char>|
            after(s, Happening::Wave(tasks)).accepted.contains(name) <==> s.accepted.contains(name)
                || #[trigger] task_names(tasks).contains(name),
        after(s, Happening::Wave(tasks)).running == s.running,
        after(s, Happening::Wave(tasks)).completed == s.completed,
        after(s, Happening::Wave(tasks)).live == s.live,
        after(s, Happening::Wave(tasks)).all_ok == s.all_ok,
        after(s, Happening::Wave(tasks)).sealed == s.sealed,
        after(s, Happening::Task(task)).pending.take(s.pending.len() as int) == s.pending,
        forall|name: Seq<char>| #[trigger]
            after(s, Happening::Task(task)).accepted.contains(name) <==> s.accepted.contains(name)
                || name == task.name,
        after(s, Happening::Task(task)).running == s.running,
        after(s, Happening::Task(task)).completed == s.completed,
        after(s, Happening::Task(task)).live == s.live,
        after(s, Happening::Task(task)).all_ok == s.all_ok,
        after(s, Happening::Task(task)).sealed == s.sealed,
{
    let wall = barrier_in(s);
    lemma_accepted_suffix(s, tasks, wall);
    lemma_untouched(s, tasks, wall);
    lemma_new_names_wait(s, tasks, wall, n);
    assert(after(s, Happening::Task(task)).pending.take(s.pending.len() as int) =~= s.pending);
}

proof fn lemma_untouched(s: RunView, tasks: Seq<TaskView>, barrier: Set<Seq<char>>)
    ensures
        accepting_all(s, tasks, barrier).running == s.running,
        accepting_all(s, tasks, barrier).completed == s.completed,
        accepting_all(s, tasks, barrier).live == s.live,
        accepting_all(s, tasks, barrier).all_ok == s.all_ok,
        accepting_all(s, tasks, barrier).sealed == s.sealed,
    decreases tasks.len(),
{
    if tasks.len() > 0 {
        lemma_untouched(s, tasks.drop_last(), barrier);
    }
}

proof fn lemma_new_names_wait(s: RunView, tasks: Seq<TaskView>, barrier: Set<Seq<char>>, n: int)
    requires
        0 <= n < tasks.len(),
    ensures
        !s.accepted.contains(tasks[n].name) ==> names_of(
            accepting_all(s, tasks, barrier).pending,
        ).contains(tasks[n].name),
    decreases tasks.len(),
{
    let before = tasks.drop_last();
    let mid = accepting_all(s, before, barrier);
    let end = accepting_all(s, tasks, barrier);
    let name = tasks[n].name;
    if !s.accepted.contains(name) {
        lemma_accepted_suffix(s, before, barrier);
        if mid.accepted.contains(name) {
            let m = choose|m: int| 0 <= m < before.len() && task_names(before)[m] == name;
            assert(before[m].name == name);
            lemma_new_names_wait(s, before, barrier, m);
            let k = choose|k: int| 0 <= k < mid.pending.len() && names_of(mid.pending)[k] == name;
            assert(names_of(end.pending)[k] == name);
        } else {
            if n < before.len() {
                assert(task_names(before)[n] == name);
            }
            assert(names_of(end.pending)[mid.pending.len() as int] == name);
        }
    }
}

/// A task that reports has ended and runs no longer; nothing changes about any other task.
pub proof fn reports_end_their_task(s: RunView, report: ReportView, name: Seq<char>)
    requires
        s.live > 0,
    ensures
        after(s, Happening::Reported(report)).completed.contains(name) <==> s.completed.contains(
            name,
        ) || name == report.name,
        after(s, Happening::Reported(report)).running.contains(name) <==> s.running.contains(name)
            && name != report.name,
        after(s, Happening::Reported(report)).live + 1 == s.live,
        after(s, Happening::Reported(report)).pending == s.pending,
        after(s, Happening::Reported(report)).accepted == s.accepted,
        after(s, Happening::Reported(report)).sealed == s.sealed,
        after(s, Happening::Crashed).live + 1 == s.live,
        after(s, Happening::Crashed).pending == s.pending,
        after(s, Happening::Crashed).accepted == s.accepted,
        after(s, Happening::Crashed).running == s.running,
        after(s, Happening::Crashed).completed == s.completed,
        after(s, Happening::Crashed).sealed == s.sealed,
{
}

/// A failed task and one that breaks down cancel the run, and nothing else that happens does; one
/// that was cancelled does not.
pub proof fn failures_cancel_the_run(report: ReportView, task: TaskView, tasks: Seq<TaskView>)
    ensures
        cancels(Happening::Reported(report)) <==> report.status is Failed,
        cancels(Happening::Crashed),
        !cancels(Happening::Task(task)),
        !cancels(Happening::Wave(tasks)),
        !cancels(Happening::Closed),
        !cancels(Happening::Cancelled),
{
}

/// Requests end when no more come or the run is cancelled, and not before; that nobody is left who
/// could ask for anything says so as well as a request does.
pub proof fn requests_end_when_closed_or_cancelled(
    s: RunView,
    report: ReportView,
    task: TaskView,
    tasks: Seq<TaskView>,
)
    ensures
        closes(Happening::Closed) && closes(Happening::Cancelled),
        !closes(Happening::Reported(report)) && !closes(Happening::Crashed),
        !closes(Happening::Task(task)) && !closes(Happening::Wave(tasks)),
        RunEvent::Received(DispatchRequest::Seal)@ == Happening::Closed,
        RunEvent::Disconnected@ == Happening::Closed,
        RunEvent::Crashed@ == Happening::Crashed,
        RunEvent::Cancelled@ == Happening::Cancelled,
        after(s, Happening::Closed) == (RunView { sealed: true, ..s }),
{
}

/// A cancelled run gives up every task that waits, in their order, and leaves those that run; no
/// other happening gives up a task.
pub proof fn cancelled_runs_give_up_what_waits(s: RunView, h: Happening, i: int)
    ensures
        dropped(s, Happening::Cancelled).len() == s.pending.len(),
        0 <= i < s.pending.len() ==> dropped(s, Happening::Cancelled)[i] == s.pending[i].def,
        !(h is Cancelled) ==> dropped(s, h).len() == 0,
        after(s, Happening::Cancelled).running == s.running,
        after(s, Happening::Cancelled).completed == s.completed,
        after(s, Happening::Cancelled).accepted == s.accepted,
        after(s, Happening::Cancelled).live == s.live,
{
}

/// A task that waits starts as soon as all of its dependencies and all of its barrier have ended,
/// behind those that waited longer and start too; else it goes on waiting in its turn.
pub proof fn tasks_start_as_soon_as_they_can(
    pending: Seq<PendingView>,
    completed: Set<Seq<char>>,
    i: int,
)
    requires
        0 <= i < pending.len(),
    ensures
        ({
            let free = (forall|d: int|
                0 <= d < pending[i].def.depends_on.len() ==> completed.contains(
                    #[trigger] pending[i].def.depends_on[d],
                )) && pending[i].barrier.subset_of(completed);
            let started = ready_now(pending.take(i), completed).len() as int;
            let kept = still_waiting(pending.take(i), completed).len() as int;
            &&& started + kept == i
            &&& free ==> started < ready_now(pending, completed).len() && ready_now(
                pending,
                completed,
            )[started] == pending[i].def
            &&& !free ==> kept < still_waiting(pending, completed).len() && still_waiting(
                pending,
                completed,
            )[kept] == pending[i]
        }),
        ready_now(pending, completed).len() + still_waiting(pending, completed).len()
            == pending.len(),
    decreases pending.len(),
{
    let p = pending[i];
    let deps = p.def.depends_on;
    let free = (forall|d: int|
        0 <= d < deps.len() ==> completed.contains(#[trigger] p.def.depends_on[d]))
        && p.barrier.subset_of(completed);
    assert(free == unblocked(p, completed)) by {
        if free {
            assert forall|name: Seq<char>| #[trigger] waits_on(p, name) implies completed.contains(
                name,
            ) by {
                if deps.contains(name) {
                    let d = choose|d: int| 0 <= d < deps.len() && deps[d] == name;
                    assert(completed.contains(p.def.depends_on[d]));
                }
            }
        }
        if unblocked(p, completed) {
            assert forall|d: int| 0 <= d < deps.len() implies completed.contains(
                #[trigger] p.def.depends_on[d],
            ) by {
                assert(deps.contains(deps[d]));
                assert(waits_on(p, deps[d]));
            }
            assert forall|name: Seq<char>| p.barrier.contains(name) implies completed.contains(
                name,
            ) by {
                assert(waits_on(p, name));
            }
        }
    }
    lemma_split_len(pending, completed);
    lemma_split_len(pending.take(i), completed);
    let before = pending.drop_last();
    if i == pending.len() - 1 {
        assert(pending.take(i) =~= before);
    } else {
        tasks_start_as_soon_as_they_can(before, completed, i);
        assert(before.take(i) =~= pending.take(i));
        assert(before[i] == p);
    }
}

proof fn lemma_split_len(pending: Seq<PendingView>, completed: Set<Seq<char>>)
    ensures
        ready_now(pending, completed).len() + still_waiting(pending, completed).len()
            == pending.len(),
    decreases pending.len(),
{
    if pending.len() > 0 {
        lemma_split_len(pending.drop_last(), completed);
    }
}

/// Starting tasks makes them run and count as live, and changes nothing else.
pub proof fn started_tasks_run(s: RunView, name: Seq<char>)
    ensures
        spawned(s).running.contains(name) <==> s.running.contains(name) || task_names(
            ready_now(s.pending, s.completed),
        ).contains(name),
        spawned(s).live + spawned(s).pending.len() == s.live + s.pending.len(),
        spawned(s).live == s.live + ready_now(s.pending, s.completed).len(),
        spawned(s).completed == s.completed,
        spawned(s).accepted == s.accepted,
        spawned(s).sealed == s.sealed,
        spawned(s).all_ok == s.all_ok,
{
    lemma_split_len(s.pending, s.completed);
    let ready = task_names(ready_now(s.pending, s.completed));
    assert(ready.to_set().contains(name) == ready.contains(name));
}

/// A run starts with its tasks waiting in their order, none of them running or ended; those that
/// depend on nothing can start at once, and no others.
pub proof fn runs_start_with_all_tasks_waiting(tasks: Seq<TaskView>, i: int)
    ensures
        started(tasks).pending.len() == tasks.len(),
        0 <= i < tasks.len() ==> started(tasks).pending[i].def == tasks[i],
        0 <= i < tasks.len() ==> started(tasks).accepted.contains(tasks[i].name),
        0 <= i < tasks.len() ==> (unblocked(started(tasks).pending[i], started(tasks).completed)
            <==> tasks[i].depends_on.len() == 0),
        forall|name: Seq<char>|
            started(tasks).accepted.contains(name) ==> #[trigger] task_names(tasks).contains(name),
        forall|name: Seq<char>| !(#[trigger] started(tasks).running.contains(name)),
        forall|name: Seq<char>| !(#[trigger] started(tasks).completed.contains(name)),
        started(tasks).live == 0,
        started(tasks).all_ok,
        !started(tasks).sealed,
{
    let s = started(tasks);
    let names = task_names(tasks);
    if 0 <= i < tasks.len() {
        assert(names[i] == tasks[i].name);
        assert(names.contains(tasks[i].name));
        let p = s.pending[i];
        let deps = tasks[i].depends_on;
        if deps.len() > 0 {
            assert(deps.contains(deps[0]));
            assert(waits_on(p, deps[0]));
        }
    }
}

/// A run goes on as long as a task waits or runs, or more could come; it is finished once nothing
/// waits, nothing runs and nothing more comes.
pub proof fn runs_go_on_while_anything_is_left(s: RunView, closed: bool)
    ensures
        s.pending.len() > 0 ==> !finished(s, closed),
        s.live > 0 ==> !finished(s, closed),
        !s.sealed && !closed ==> !finished(s, closed),
        s.pending.len() == 0 && s.live == 0 && (s.sealed || closed) ==> finished(s, closed),
{
}

/// Statuses are written for the tasks that are new to a run, each name once, and for no others.
pub proof fn new_tasks_are_taken_on_once(accepted: Set<Seq<char>>, tasks: Seq<TaskView>)
    ensures
        task_names(newly_accepted(accepted, tasks)).no_duplicates(),
        forall|i: int|
            0 <= i < newly_accepted(accepted, tasks).len() ==> tasks.contains(
                #[trigger] newly_accepted(accepted, tasks)[i],
            ) && !accepted.contains(newly_accepted(accepted, tasks)[i].name),
        forall|n: int|
            0 <= n < tasks.len() && !accepted.contains((#[trigger] tasks[n]).name) ==> task_names(
                newly_accepted(accepted, tasks),
            ).contains(tasks[n].name),
    decreases tasks.len(),
{
    let all = newly_accepted(accepted, tasks);
    if tasks.len() > 0 {
        let before = tasks.drop_last();
        let last = tasks.last();
        let some = newly_accepted(accepted, before);
        let seen = before.map_values(|t: TaskView| t.name);
        new_tasks_are_taken_on_once(accepted, before);
        assert(seen =~= task_names(before));
        assert forall|i: int| 0 <= i < all.len() implies tasks.contains(#[trigger] all[i])
            && !accepted.contains(all[i].name) by {
            if i < some.len() {
                assert(all[i] == some[i]);
                let m = choose|m: int| 0 <= m < before.len() && before[m] == some[i];
                assert(tasks[m] == all[i]);
            } else {
                assert(tasks[tasks.len() - 1] == all[i]);
            }
        }
        let fresh = !accepted.contains(last.name) && !seen.contains(last.name);
        if fresh {
            assert(task_names(all) =~= task_names(some).push(last.name));
            lemma_push_contains(task_names(some), last.name);
            if task_names(some).contains(last.name) {
                let k = choose|k: int| 0 <= k < some.len() && task_names(some)[k] == last.name;
                assert(before.contains(some[k]));
                let m = choose|m: int| 0 <= m < before.len() && before[m] == some[k];
                assert(seen[m] == last.name);
            }
            lemma_push_distinct(task_names(some), last.name);
        } else {
            assert(all =~= some);
        }
        assert forall|n: int|
            0 <= n < tasks.len() && !accepted.contains((#[trigger] tasks[n]).name) implies task_names(
            all,
        ).contains(tasks[n].name) by {
            if n < before.len() {
                assert(before[n] == tasks[n]);
                assert(task_names(some).contains(before[n].name));
            } else if !fresh {
                let m = choose|m: int| 0 <= m < seen.len() && seen[m] == last.name;
                assert(before[m].name == last.name);
                assert(task_names(some).contains(before[m].name));
            }
        }
    } else {
        assert(task_names(all) =~= seq![]);
    }
}

} // verus!

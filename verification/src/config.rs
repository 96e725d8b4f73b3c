//! Task definitions, and the waves that their dependencies put them into.
use vstd::prelude::*;
use vstd::set_lib::*;
use vstd::string::*;

use crate::commands::names::{name_refusal, valid_task_name, validate_task_name};
use crate::error::Error;
use crate::text::{copy_list, copy_opt, opt_text, same_text, texts};

verus! {

/// What a task may touch.
#[derive(Clone, Copy, Debug, PartialEq, Eq, Structural)]
pub enum Sandbox {
    ReadOnly,
    ReadWrite,
    NetworkReadOnly,
}

impl Sandbox {
    /// The name of the mode on the command line and in a configuration.
    pub open spec fn label(self) -> Seq<char> {
        match self {
            Sandbox::ReadOnly => "read-only"@,
            Sandbox::ReadWrite => "read-write"@,
            Sandbox::NetworkReadOnly => "network-read-only"@,
        }
    }

    /// The name of the mode on the command line and in a configuration.
    pub fn as_text(&self) -> (r: &'static str)
        ensures
            r@ == self.label(),
    {
        match self {
            Sandbox::ReadOnly => "read-only",
            Sandbox::ReadWrite => "read-write",
            Sandbox::NetworkReadOnly => "network-read-only",
        }
    }

    /// The mode with the given name.
    pub fn from_text(name: &str) -> (r: Option<Sandbox>)
        ensures
            match r {
                Some(mode) => mode.label() == name@,
                None => forall|mode: Sandbox| #[trigger] mode.label() != name@,
            },
    {
        if same_text(name, "read-only") {
            Some(Sandbox::ReadOnly)
        } else if same_text(name, "read-write") {
            Some(Sandbox::ReadWrite)
        } else if same_text(name, "network-read-only") {
            Some(Sandbox::NetworkReadOnly)
        } else {
            None
        }
    }
}

/// The names of the three modes differ.
pub proof fn sandbox_labels_differ(a: Sandbox, b: Sandbox)
    ensures
        a.label() == b.label() ==> a == b,
{
    reveal_strlit("read-only");
    reveal_strlit("read-write");
    reveal_strlit("network-read-only");
    assert("read-only"@.len() == 9 && "read-write"@.len() == 10 && "network-read-only"@.len() == 17);
}

/// The mode of a task that asks for none.
pub fn default_sandbox() -> (r: Sandbox)
    ensures
        r == Sandbox::ReadOnly,
{
    Sandbox::ReadOnly
}

impl Default for Sandbox {
    fn default() -> (r: Sandbox)
        ensures
            r == Sandbox::ReadOnly,
    {
        default_sandbox()
    }
}

/// One task: what to run, where, and after which others.
#[derive(Debug)]
pub struct TaskDef {
    pub name: String,
    pub cwd: String,
    pub prompt: String,
    pub sandbox: Sandbox,
    pub agent_id: Option<String>,
    pub thread_id: Option<String>,
    pub output_schema: Option<String>,
    pub ephemeral: bool,
    pub add_dirs: Vec<String>,
    pub ask_for_approval: String,
    pub config_overrides: Vec<String>,
    pub profile: Option<String>,
    pub model: Option<String>,
    pub depends_on: Vec<String>,
}

/// The contents of a task definition.
#[verifier::ext_equal]
pub struct TaskView {
    pub name: Seq<char>,
    pub cwd: Seq<char>,
    pub prompt: Seq<char>,
    pub sandbox: Sandbox,
    pub agent_id: Option<Seq<char>>,
    pub thread_id: Option<Seq<char>>,
    pub output_schema: Option<Seq<char>>,
    pub ephemeral: bool,
    pub add_dirs: Seq<Seq<char>>,
    pub ask_for_approval: Seq<char>,
    pub config_overrides: Seq<Seq<char>>,
    pub profile: Option<Seq<char>>,
    pub model: Option<Seq<char>>,
    pub depends_on: Seq<Seq<char>>,
}

impl View for TaskDef {
    type V = TaskView;

    open spec fn view(&self) -> TaskView {
        TaskView {
            name: self.name@,
            cwd: self.cwd@,
            prompt: self.prompt@,
            sandbox: self.sandbox,
            agent_id: opt_text(self.agent_id),
            thread_id: opt_text(self.thread_id),
            output_schema: opt_text(self.output_schema),
            ephemeral: self.ephemeral,
            add_dirs: texts(self.add_dirs@),
            ask_for_approval: self.ask_for_approval@,
            config_overrides: texts(self.config_overrides@),
            profile: opt_text(self.profile),
            model: opt_text(self.model),
            depends_on: texts(self.depends_on@),
        }
    }
}

impl Clone for TaskDef {
    fn clone(&self) -> (r: TaskDef)
        ensures
            r@ == self@,
    {
        TaskDef {
            name: self.name.clone(),
            cwd: self.cwd.clone(),
            prompt: self.prompt.clone(),
            sandbox: self.sandbox,
            agent_id: copy_opt(&self.agent_id),
            thread_id: copy_opt(&self.thread_id),
            output_schema: copy_opt(&self.output_schema),
            ephemeral: self.ephemeral,
            add_dirs: copy_list(&self.add_dirs),
            ask_for_approval: self.ask_for_approval.clone(),
            config_overrides: copy_list(&self.config_overrides),
            profile: copy_opt(&self.profile),
            model: copy_opt(&self.model),
            depends_on: copy_list(&self.depends_on),
        }
    }
}

/// The contents of a list of tasks.
pub open spec fn task_views(tasks: Seq<TaskDef>) -> Seq<TaskView> {
    tasks.map_values(|t: TaskDef| t@)
}

/// The contents of a list of waves.
pub open spec fn wave_views(waves: Seq<Vec<TaskDef>>) -> Seq<Seq<TaskView>> {
    waves.map_values(|w: Vec<TaskDef>| task_views(w@))
}

/// The tasks of one run, in the order in which they were written down.
#[derive(Debug)]
pub struct TasksConfig {
    pub tasks: Vec<TaskDef>,
}

impl Clone for TasksConfig {
    fn clone(&self) -> (r: TasksConfig)
        ensures
            task_views(r.tasks@) == task_views(self.tasks@),
    {
        let mut tasks: Vec<TaskDef> = Vec::new();
        let mut i: usize = 0;
        while i < self.tasks.len()
            invariant
                i <= self.tasks@.len(),
                tasks@.len() == i,
                forall|j: int| 0 <= j < i ==> (#[trigger] tasks@[j])@ == self.tasks@[j]@,
            decreases self.tasks@.len() - i,
        {
            tasks.push(self.tasks[i].clone());
            i = i + 1;
        }
        assert(task_views(tasks@) =~= task_views(self.tasks@));
        TasksConfig { tasks }
    }
}

/// Whether a task can be run as far as it alone tells: its name is fit, and it has a working
/// directory.
pub open spec fn fit_task(t: TaskView) -> bool {
    valid_task_name(t.name) && t.cwd.len() > 0
}

/// Whether task `i` has a name that an earlier task has too.
pub open spec fn repeats_name(tasks: Seq<TaskView>, i: int) -> bool {
    exists|j: int| 0 <= j < i && #[trigger] tasks[j].name == tasks[i].name
}

/// Whether some task has the name.
pub open spec fn has_task(tasks: Seq<TaskView>, name: Seq<char>) -> bool {
    exists|j: int| 0 <= j < tasks.len() && #[trigger] tasks[j].name == name
}

/// Whether every task that task `i` depends on is there.
pub open spec fn knows_dependencies(tasks: Seq<TaskView>, i: int) -> bool {
    forall|d: int|
        0 <= d < tasks[i].depends_on.len() ==> has_task(tasks, #[trigger] tasks[i].depends_on[d])
}

/// Whether task `i` depends on task `j`.
pub open spec fn waits_for(tasks: Seq<TaskView>, i: int, j: int) -> bool {
    tasks[i].depends_on.contains(tasks[j].name)
}

/// Whether `path` leads from a task over dependencies back to the same task.
pub open spec fn circle(tasks: Seq<TaskView>, path: Seq<int>) -> bool {
    &&& path.len() >= 2
    &&& path.first() == path.last()
    &&& forall|i: int| 0 <= i < path.len() ==> 0 <= #[trigger] path[i] < tasks.len()
    &&& forall|i: int| 0 <= i < path.len() - 1 ==> waits_for(tasks, #[trigger] path[i], path[i + 1])
}

/// Whether some tasks wait for each other in a circle.
pub open spec fn circular(tasks: Seq<TaskView>) -> bool {
    exists|path: Seq<int>| circle(tasks, path)
}

/// Whether every task is fit.
pub open spec fn all_fit(tasks: Seq<TaskView>) -> bool {
    forall|i: int| 0 <= i < tasks.len() ==> fit_task(#[trigger] tasks[i])
}

/// Whether no two tasks have the same name.
pub open spec fn distinct_names(tasks: Seq<TaskView>) -> bool {
    forall|i: int, j: int|
        0 <= i < tasks.len() && 0 <= j < tasks.len() && #[trigger] tasks[i].name
            == #[trigger] tasks[j].name ==> i == j
}

/// Whether every dependency is there.
pub open spec fn all_known(tasks: Seq<TaskView>) -> bool {
    forall|i: int| 0 <= i < tasks.len() ==> #[trigger] knows_dependencies(tasks, i)
}

/// Whether the tasks can be put into waves.
pub open spec fn schedulable(tasks: Seq<TaskView>) -> bool {
    all_fit(tasks) && distinct_names(tasks) && all_known(tasks) && !circular(tasks)
}

/// Whether a task with the name is among those with the given indices.
pub open spec fn name_among(tasks: Seq<TaskView>, among: Set<int>, name: Seq<char>) -> bool {
    exists|j: int| 0 <= j < tasks.len() && tasks[j].name == name && #[trigger] among.contains(j)
}

/// The tasks of the first `k` waves: all that each of them depends on runs in one of the
/// first `k - 1`.
pub open spec fn first_waves(tasks: Seq<TaskView>, k: nat) -> Set<int>
    decreases k,
{
    if k == 0 {
        Set::empty()
    } else {
        let earlier = first_waves(tasks, (k - 1) as nat);
        Set::new(
            |i: int|
                0 <= i < tasks.len() && forall|d: int|
                    0 <= d < tasks[i].depends_on.len() ==> name_among(
                        tasks,
                        earlier,
                        #[trigger] tasks[i].depends_on[d],
                    ),
        )
    }
}

/// Whether task `i` runs in one of the first `k` waves.
pub open spec fn settled(tasks: Seq<TaskView>, k: nat, i: int) -> bool {
    first_waves(tasks, k).contains(i)
}

/// Whether a task with the name runs in one of the first `k` waves.
pub open spec fn name_settled(tasks: Seq<TaskView>, k: nat, name: Seq<char>) -> bool {
    name_among(tasks, first_waves(tasks, k), name)
}

/// Whether task `i` belongs into wave `k`: the first one that all its dependencies come before.
pub open spec fn in_wave(tasks: Seq<TaskView>, k: nat, i: int) -> bool {
    settled(tasks, k + 1, i) && !settled(tasks, k, i)
}

/// Those of the first `n` tasks that belong into wave `k`, in their order.
pub open spec fn wave_among(tasks: Seq<TaskView>, k: nat, n: nat) -> Seq<TaskView>
    decreases n,
{
    if n == 0 {
        Seq::empty()
    } else if in_wave(tasks, k, n - 1) {
        wave_among(tasks, k, (n - 1) as nat).push(tasks[n - 1])
    } else {
        wave_among(tasks, k, (n - 1) as nat)
    }
}

/// The tasks that belong into wave `k`, in the order in which they were written down.
pub open spec fn wave(tasks: Seq<TaskView>, k: nat) -> Seq<TaskView> {
    wave_among(tasks, k, tasks.len())
}

/// Whether `waves` are the waves of the tasks: each holds what belongs into it, none is empty,
/// and every task is in one.
pub open spec fn waves_of(tasks: Seq<TaskView>, waves: Seq<Seq<TaskView>>) -> bool {
    &&& forall|k: int| 0 <= k < waves.len() ==> #[trigger] waves[k] == wave(tasks, k as nat)
    &&& forall|k: int| 0 <= k < waves.len() ==> (#[trigger] waves[k]).len() > 0
    &&& forall|i: int| 0 <= i < tasks.len() ==> #[trigger] settled(tasks, waves.len(), i)
}

/// Whether `e` is the error that the tasks are refused with: the first unfit task, else the
/// first repeated name, else the first unknown dependency, else the circle.
pub open spec fn config_refusal(tasks: Seq<TaskView>, e: Error) -> bool {
    if !all_fit(tasks) {
        exists|i: int|
            {
                &&& 0 <= i < tasks.len()
                &&& !fit_task(#[trigger] tasks[i])
                &&& forall|j: int| 0 <= j < i ==> fit_task(#[trigger] tasks[j])
                &&& if !valid_task_name(tasks[i].name) {
                    name_refusal(tasks[i].name, e)
                } else {
                    e is EmptyCwd
                }
            }
    } else if !distinct_names(tasks) {
        exists|i: int|
            {
                &&& 0 <= i < tasks.len()
                &&& #[trigger] repeats_name(tasks, i)
                &&& forall|j: int| 0 <= j < i ==> !#[trigger] repeats_name(tasks, j)
                &&& e matches Error::DuplicateTask { name } && name@ == tasks[i].name
            }
    } else if !all_known(tasks) {
        exists|i: int, d: int|
            {
                &&& 0 <= i < tasks.len()
                &&& 0 <= d < tasks[i].depends_on.len()
                &&& forall|j: int| 0 <= j < i ==> #[trigger] knows_dependencies(tasks, j)
                &&& forall|c: int|
                    0 <= c < d ==> has_task(tasks, #[trigger] tasks[i].depends_on[c])
                &&& !has_task(tasks, #[trigger] tasks[i].depends_on[d])
                &&& e matches Error::UnknownDependency { task, dependency } && task@
                    == tasks[i].name && dependency@ == tasks[i].depends_on[d]
            }
    } else {
        e is CircularDependency
    }
}

proof fn lemma_settled_unfolds(tasks: Seq<TaskView>, k: nat, i: int)
    ensures
        settled(tasks, k, i) == (k > 0 && 0 <= i < tasks.len() && forall|d: int|
            0 <= d < tasks[i].depends_on.len() ==> name_settled(
                tasks,
                (k - 1) as nat,
                #[trigger] tasks[i].depends_on[d],
            )),
{
}

proof fn lemma_name_settled_unfolds(tasks: Seq<TaskView>, k: nat, name: Seq<char>)
    ensures
        name_settled(tasks, k, name) == exists|j: int|
            0 <= j < tasks.len() && tasks[j].name == name && #[trigger] settled(tasks, k, j),
{
    if name_settled(tasks, k, name) {
        let j = choose|j: int|
            0 <= j < tasks.len() && tasks[j].name == name && #[trigger] first_waves(
                tasks,
                k,
            ).contains(j);
        assert(settled(tasks, k, j));
    }
}

proof fn lemma_settled_step(tasks: Seq<TaskView>, k: nat, i: int)
    requires
        settled(tasks, k, i),
    ensures
        settled(tasks, k + 1, i),
    decreases k,
{
    lemma_settled_unfolds(tasks, k, i);
    lemma_settled_unfolds(tasks, k + 1, i);
    assert forall|d: int| 0 <= d < tasks[i].depends_on.len() implies name_settled(
        tasks,
        k,
        #[trigger] tasks[i].depends_on[d],
    ) by {
        let name = tasks[i].depends_on[d];
        lemma_name_settled_unfolds(tasks, (k - 1) as nat, name);
        lemma_name_settled_unfolds(tasks, k, name);
        assert(name_settled(tasks, (k - 1) as nat, name));
        let j = choose|j: int|
            0 <= j < tasks.len() && tasks[j].name == name && #[trigger] settled(
                tasks,
                (k - 1) as nat,
                j,
            );
        lemma_settled_step(tasks, (k - 1) as nat, j);
    }
}

proof fn lemma_settled_grows(tasks: Seq<TaskView>, k: nat, m: nat, i: int)
    requires
        settled(tasks, k, i),
        k <= m,
    ensures
        settled(tasks, m, i),
    decreases m - k,
{
    if k < m {
        lemma_settled_step(tasks, k, i);
        lemma_settled_grows(tasks, k + 1, m, i);
    }
}

/// The task that is named by dependency `d` of task `i`.
proof fn lemma_named(tasks: Seq<TaskView>, i: int, d: int) -> (j: int)
    requires
        0 <= i < tasks.len(),
        0 <= d < tasks[i].depends_on.len(),
        all_known(tasks),
    ensures
        0 <= j < tasks.len(),
        tasks[j].name == tasks[i].depends_on[d],
        waits_for(tasks, i, j),
{
    assert(knows_dependencies(tasks, i));
    assert(has_task(tasks, tasks[i].depends_on[d]));
    choose|j: int| 0 <= j < tasks.len() && #[trigger] tasks[j].name == tasks[i].depends_on[d]
}

proof fn lemma_circle_never_settles(tasks: Seq<TaskView>, path: Seq<int>, k: nat, t: int)
    requires
        distinct_names(tasks),
        circle(tasks, path),
        0 <= t < path.len(),
    ensures
        !settled(tasks, k, path[t]),
    decreases k,
{
    if settled(tasks, k, path[t]) {
        let s = if t == path.len() - 1 { 0 } else { t };
        assert(path[s] == path[t]);
        assert(waits_for(tasks, path[s], path[s + 1]));
        let d = choose|d: int|
            0 <= d < tasks[path[s]].depends_on.len() && tasks[path[s]].depends_on[d]
                == tasks[path[s + 1]].name;
        let name = tasks[path[s]].depends_on[d];
        lemma_settled_unfolds(tasks, k, path[s]);
        lemma_name_settled_unfolds(tasks, (k - 1) as nat, name);
        assert(name_settled(tasks, (k - 1) as nat, name));
        let j = choose|j: int|
            0 <= j < tasks.len() && tasks[j].name == name && #[trigger] settled(
                tasks,
                (k - 1) as nat,
                j,
            );
        assert(tasks[j].name == tasks[path[s + 1]].name);
        assert(j == path[s + 1]);
        lemma_circle_never_settles(tasks, path, (k - 1) as nat, s + 1);
    }
}

/// A walk over tasks that do not settle, each waiting for the next.
spec fn stuck_walk(tasks: Seq<TaskView>, k: nat, path: Seq<int>) -> bool {
    &&& forall|t: int|
        0 <= t < path.len() ==> 0 <= #[trigger] path[t] < tasks.len() && !settled(tasks, k, path[t])
    &&& forall|t: int| 0 <= t < path.len() - 1 ==> waits_for(tasks, #[trigger] path[t], path[t + 1])
}

proof fn lemma_stuck_walk(tasks: Seq<TaskView>, k: nat, i: int, n: nat) -> (path: Seq<int>)
    requires
        all_known(tasks),
        0 <= i < tasks.len(),
        !settled(tasks, k, i),
        forall|j: int|
            0 <= j < tasks.len() && #[trigger] settled(tasks, k + 1, j) ==> settled(tasks, k, j),
    ensures
        path.len() == n + 1,
        stuck_walk(tasks, k, path),
    decreases n,
{
    if n == 0 {
        seq![i]
    } else {
        let head = lemma_stuck_walk(tasks, k, i, (n - 1) as nat);
        let last = head.last();
        assert(last == head[head.len() - 1]);
        assert(!settled(tasks, k + 1, last));
        lemma_settled_unfolds(tasks, k + 1, last);
        let d = choose|d: int|
            0 <= d < tasks[last].depends_on.len() && !name_settled(
                tasks,
                k,
                #[trigger] tasks[last].depends_on[d],
            );
        let j = lemma_named(tasks, last, d);
        lemma_name_settled_unfolds(tasks, k, tasks[last].depends_on[d]);
        assert(!settled(tasks, k, j));
        let path = head.push(j);
        assert forall|t: int| 0 <= t < path.len() - 1 implies waits_for(
            tasks,
            #[trigger] path[t],
            path[t + 1],
        ) by {
            if t < head.len() - 1 {
                assert(path[t] == head[t] && path[t + 1] == head[t + 1]);
            }
        }
        path
    }
}

/// A list of more indices than there are repeats one.
proof fn lemma_repeats(path: Seq<int>, n: int) -> (r: (int, int))
    requires
        path.len() > n >= 0,
        forall|t: int| 0 <= t < path.len() ==> 0 <= #[trigger] path[t] < n,
    ensures
        0 <= r.0 < r.1 < path.len(),
        path[r.0] == path[r.1],
{
    assert(!path.no_duplicates()) by {
        if path.no_duplicates() {
            path.unique_seq_to_set();
            lemma_int_range(0, n);
            assert forall|x: int| path.to_set().contains(x) implies set_int_range(0, n).contains(
                x,
            ) by {
                let t = choose|t: int| 0 <= t < path.len() && path[t] == x;
                assert(0 <= path[t] < n);
            }
            assert(path.to_set().subset_of(set_int_range(0, n)));
            lemma_len_subset(path.to_set(), set_int_range(0, n));
        }
    }
    let (a, b) = choose|a: int, b: int|
        0 <= a < path.len() && 0 <= b < path.len() && a != b && path[a] == path[b];
    if a < b {
        (a, b)
    } else {
        (b, a)
    }
}

/// A walk that comes back to where it was leads in a circle.
proof fn lemma_ring(tasks: Seq<TaskView>, path: Seq<int>, lo: int, hi: int)
    requires
        forall|t: int| 0 <= t < path.len() ==> 0 <= #[trigger] path[t] < tasks.len(),
        forall|t: int|
            0 <= t < path.len() - 1 ==> waits_for(tasks, #[trigger] path[t], path[t + 1]),
        0 <= lo < hi < path.len(),
        path[lo] == path[hi],
    ensures
        circular(tasks),
{
    let ring = path.subrange(lo, hi + 1);
    assert forall|t: int| 0 <= t < ring.len() - 1 implies waits_for(
        tasks,
        #[trigger] ring[t],
        ring[t + 1],
    ) by {
        assert(ring[t] == path[lo + t] && ring[t + 1] == path[lo + t + 1]);
    }
    assert(circle(tasks, ring));
}

/// Where no further task settles and one has not, tasks wait for each other in a circle.
proof fn lemma_stuck_is_circular(tasks: Seq<TaskView>, k: nat, i: int)
    requires
        all_known(tasks),
        0 <= i < tasks.len(),
        !settled(tasks, k, i),
        forall|j: int|
            0 <= j < tasks.len() && #[trigger] settled(tasks, k + 1, j) ==> settled(tasks, k, j),
    ensures
        circular(tasks),
{
    let path = lemma_stuck_walk(tasks, k, i, tasks.len());
    let (lo, hi) = lemma_repeats(path, tasks.len() as int);
    lemma_ring(tasks, path, lo, hi);
}

/// Counts the marks in front of index `n`.
spec fn marks(placed: Seq<bool>, n: nat) -> nat
    decreases n,
{
    if n == 0 {
        0
    } else {
        marks(placed, (n - 1) as nat) + if placed[n - 1] { 1nat } else { 0nat }
    }
}

proof fn lemma_marks_grow(before: Seq<bool>, after: Seq<bool>, n: nat, at: int)
    requires
        n <= before.len(),
        n <= after.len(),
        forall|i: int| 0 <= i < n && before[i] ==> #[trigger] after[i],
    ensures
        marks(before, n) <= marks(after, n) <= n,
        0 <= at < n && !before[at] && after[at] ==> marks(before, n) < marks(after, n),
    decreases n,
{
    if n > 0 {
        lemma_marks_grow(before, after, (n - 1) as nat, at);
    }
}

/// Whether a marked task has the name.
fn marked_name(tasks: &Vec<TaskDef>, placed: &Vec<bool>, name: &str) -> (r: bool)
    requires
        placed@.len() == tasks@.len(),
    ensures
        r == exists|j: int|
            0 <= j < tasks@.len() && #[trigger] task_views(tasks@)[j].name == name@ && placed@[j],
{
    let mut j: usize = 0;
    while j < tasks.len()
        invariant
            j <= tasks@.len(),
            placed@.len() == tasks@.len(),
            forall|i: int|
                0 <= i < j ==> !(#[trigger] task_views(tasks@)[i].name == name@ && placed@[i]),
        decreases tasks@.len() - j,
    {
        if placed[j] && same_text(tasks[j].name.as_str(), name) {
            assert(task_views(tasks@)[j as int].name == name@);
            return true;
        }
        j = j + 1;
    }
    false
}

/// Whether all that task `i` depends on is marked.
fn unblocked(tasks: &Vec<TaskDef>, placed: &Vec<bool>, i: usize, Ghost(k): Ghost<nat>) -> (r: bool)
    requires
        placed@.len() == tasks@.len(),
        i < tasks@.len(),
        forall|j: int|
            0 <= j < tasks@.len() ==> placed@[j] == #[trigger] settled(task_views(tasks@), k, j),
    ensures
        r == settled(task_views(tasks@), k + 1, i as int),
{
    let ghost all = task_views(tasks@);
    let mut d: usize = 0;
    proof {
        lemma_settled_unfolds(all, k + 1, i as int);
    }
    while d < tasks[i as usize].depends_on.len()
        invariant
            all == task_views(tasks@),
            settled(all, k + 1, i as int) == forall|c: int|
                0 <= c < all[i as int].depends_on.len() ==> name_settled(
                    all,
                    k,
                    #[trigger] all[i as int].depends_on[c],
                ),
            placed@.len() == tasks@.len(),
            i < tasks@.len(),
            d <= all[i as int].depends_on.len(),
            all[i as int].depends_on == texts(tasks@[i as int].depends_on@),
            forall|j: int| 0 <= j < tasks@.len() ==> placed@[j] == #[trigger] settled(all, k, j),
            forall|c: int|
                0 <= c < d ==> name_settled(all, k, #[trigger] all[i as int].depends_on[c]),
        decreases all[i as int].depends_on.len() - d,
    {
        let found = marked_name(tasks, placed, tasks[i].depends_on[d].as_str());
        proof {
            let name = all[i as int].depends_on[d as int];
            assert(name == tasks@[i as int].depends_on@[d as int]@);
            lemma_name_settled_unfolds(all, k, name);
            if found {
                let j = choose|j: int|
                    0 <= j < tasks@.len() && #[trigger] all[j].name == name && placed@[j];
                assert(settled(all, k, j));
                assert(name_settled(all, k, name));
            } else if name_settled(all, k, name) {
                let j = choose|j: int|
                    0 <= j < all.len() && all[j].name == name && #[trigger] settled(all, k, j);
                assert(all[j].name == name && placed@[j]);
            }
        }
        if !found {
            return false;
        }
        d = d + 1;
    }
    true
}

impl TasksConfig {
    /// The tasks that can run first, then those that can run once these are done, and so on.
    /// Tasks of one wave stand in the order in which they were written down.
    pub fn into_waves(self) -> (r: Result<Vec<Vec<TaskDef>>, Error>)
        ensures
            match r {
                Ok(waves) => schedulable(task_views(self.tasks@)) && waves_of(
                    task_views(self.tasks@),
                    wave_views(waves@),
                ),
                Err(e) => !schedulable(task_views(self.tasks@)) && config_refusal(
                    task_views(self.tasks@),
                    e,
                ),
            },
    {
        let tasks = self.tasks;
        match check_fit(&tasks) {
            Err(e) => {
                return Err(e);
            },
            Ok(()) => {},
        }
        match check_distinct(&tasks) {
            Err(e) => {
                return Err(e);
            },
            Ok(()) => {},
        }
        match check_known(&tasks) {
            Err(e) => {
                return Err(e);
            },
            Ok(()) => {},
        }
        plan_waves(&tasks)
    }
}

/// Checks that every task is fit.
fn check_fit(tasks: &Vec<TaskDef>) -> (r: Result<(), Error>)
    ensures
        match r {
            Ok(()) => all_fit(task_views(tasks@)),
            Err(e) => !all_fit(task_views(tasks@)) && config_refusal(task_views(tasks@), e),
        },
{
    let ghost all = task_views(tasks@);
    let mut i: usize = 0;
    while i < tasks.len()
        invariant
            all == task_views(tasks@),
            i <= tasks@.len(),
            forall|j: int| 0 <= j < i ==> fit_task(#[trigger] all[j]),
        decreases tasks@.len() - i,
    {
        assert(all[i as int] == tasks@[i as int]@);
        match validate_task_name(tasks[i].name.as_str()) {
            Err(e) => {
                assert(!fit_task(all[i as int]));
                return Err(e);
            },
            Ok(()) => {},
        }
        if tasks[i].cwd.as_str().is_empty() {
            assert(!fit_task(all[i as int]));
            return Err(Error::EmptyCwd);
        }
        i = i + 1;
    }
    Ok(())
}

/// Checks that no two tasks have the same name.
fn check_distinct(tasks: &Vec<TaskDef>) -> (r: Result<(), Error>)
    requires
        all_fit(task_views(tasks@)),
    ensures
        match r {
            Ok(()) => distinct_names(task_views(tasks@)),
            Err(e) => !distinct_names(task_views(tasks@)) && config_refusal(
                task_views(tasks@),
                e,
            ),
        },
{
    let ghost all = task_views(tasks@);
    let mut i: usize = 0;
    while i < tasks.len()
        invariant
            all == task_views(tasks@),
            all_fit(all),
            i <= tasks@.len(),
            forall|j: int| 0 <= j < i ==> !#[trigger] repeats_name(all, j),
        decreases tasks@.len() - i,
    {
        let mut j: usize = 0;
        while j < i
            invariant
                all == task_views(tasks@),
                all_fit(all),
                j <= i < tasks@.len(),
                forall|c: int| 0 <= c < i ==> !#[trigger] repeats_name(all, c),
                forall|c: int| 0 <= c < j ==> #[trigger] all[c].name != all[i as int].name,
            decreases i - j,
        {
            if same_text(tasks[j].name.as_str(), tasks[i].name.as_str()) {
                assert(all[j as int].name == all[i as int].name);
                assert(repeats_name(all, i as int));
                return Err(Error::DuplicateTask { name: tasks[i].name.clone() });
            }
            j = j + 1;
        }
        assert(!repeats_name(all, i as int));
        i = i + 1;
    }
    proof {
        assert forall|a: int, b: int|
            0 <= a < all.len() && 0 <= b < all.len() && #[trigger] all[a].name
                == #[trigger] all[b].name implies a == b by {
            if a < b {
                assert(repeats_name(all, b));
            } else if b < a {
                assert(repeats_name(all, a));
            }
        }
    }
    Ok(())
}

/// Checks that every dependency is there.
fn check_known(tasks: &Vec<TaskDef>) -> (r: Result<(), Error>)
    requires
        all_fit(task_views(tasks@)),
        distinct_names(task_views(tasks@)),
    ensures
        match r {
            Ok(()) => all_known(task_views(tasks@)),
            Err(e) => !all_known(task_views(tasks@)) && config_refusal(task_views(tasks@), e),
        },
{
    let ghost all = task_views(tasks@);
    let mut i: usize = 0;
    while i < tasks.len()
        invariant
            all == task_views(tasks@),
            all_fit(all),
            distinct_names(all),
            i <= tasks@.len(),
            forall|j: int| 0 <= j < i ==> #[trigger] knows_dependencies(all, j),
        decreases tasks@.len() - i,
    {
        let mut d: usize = 0;
        while d < tasks[i].depends_on.len()
            invariant
                all == task_views(tasks@),
                all_fit(all),
                distinct_names(all),
                i < tasks@.len(),
                all[i as int] == tasks@[i as int]@,
                d <= all[i as int].depends_on.len(),
                forall|j: int| 0 <= j < i ==> #[trigger] knows_dependencies(all, j),
                forall|c: int| 0 <= c < d ==> has_task(all, #[trigger] all[i as int].depends_on[c]),
            decreases all[i as int].depends_on.len() - d,
        {
            let mut found = false;
            let mut j: usize = 0;
            while j < tasks.len()
                invariant
                    all == task_views(tasks@),
                    i < tasks@.len(),
                    all[i as int] == tasks@[i as int]@,
                    d < tasks@[i as int].depends_on@.len(),
                    j <= tasks@.len(),
                    found == exists|c: int|
                        0 <= c < j && #[trigger] all[c].name == all[i as int].depends_on[d as int],
                decreases tasks@.len() - j,
            {
                if same_text(tasks[j].name.as_str(), tasks[i].depends_on[d].as_str()) {
                    assert(all[j as int].name == all[i as int].depends_on[d as int]);
                    found = true;
                } else {
                    assert(all[j as int].name != all[i as int].depends_on[d as int]);
                }
                j = j + 1;
            }
            if !found {
                assert(!has_task(all, all[i as int].depends_on[d as int]));
                assert(!knows_dependencies(all, i as int));
                return Err(
                    Error::UnknownDependency {
                        task: tasks[i].name.clone(),
                        dependency: tasks[i].depends_on[d].clone(),
                    },
                );
            }
            assert(has_task(all, all[i as int].depends_on[d as int]));
            d = d + 1;
        }
        assert(knows_dependencies(all, i as int));
        i = i + 1;
    }
    Ok(())
}

/// Puts the tasks into waves, one wave after the other.
fn plan_waves(tasks: &Vec<TaskDef>) -> (r: Result<Vec<Vec<TaskDef>>, Error>)
    requires
        all_fit(task_views(tasks@)),
        distinct_names(task_views(tasks@)),
        all_known(task_views(tasks@)),
    ensures
        match r {
            Ok(waves) => !circular(task_views(tasks@)) && waves_of(
                task_views(tasks@),
                wave_views(waves@),
            ),
            Err(e) => circular(task_views(tasks@)) && e is CircularDependency,
        },
{
    let ghost all = task_views(tasks@);
    let ghost n = tasks@.len();
    let mut waves: Vec<Vec<TaskDef>> = Vec::new();
    let mut placed: Vec<bool> = Vec::new();
    while placed.len() < tasks.len()
        invariant
            placed@.len() <= tasks@.len(),
            forall|j: int| 0 <= j < placed@.len() ==> !placed@[j],
        decreases tasks@.len() - placed@.len(),
    {
        placed.push(false);
    }
    let mut left: usize = tasks.len();
    proof {
        lemma_none_marked(placed@, n);
        assert forall|j: int| 0 <= j < n implies placed@[j] == #[trigger] settled(all, 0, j) by {
            lemma_settled_unfolds(all, 0, j);
        }
    }
    while left > 0
        invariant
            all == task_views(tasks@),
            n == tasks@.len(),
            all_known(all),
            placed@.len() == n,
            left + marks(placed@, n) == n,
            forall|j: int| 0 <= j < n ==> placed@[j] == #[trigger] settled(all, waves@.len(), j),
            forall|k: int|
                0 <= k < waves@.len() ==> task_views((#[trigger] waves@[k])@) == wave(all, k as nat),
            forall|k: int| 0 <= k < waves@.len() ==> (#[trigger] waves@[k])@.len() > 0,
        decreases left,
    {
        let ghost k = waves@.len();
        let mut next: Vec<TaskDef> = Vec::new();
        let mut after: Vec<bool> = Vec::new();
        let mut i: usize = 0;
        let ghost mut newest: int = -1;
        while i < tasks.len()
            invariant
                all == task_views(tasks@),
                n == tasks@.len(),
                i <= n,
                placed@.len() == n,
                after@.len() == i,
                k == waves@.len(),
                forall|j: int| 0 <= j < n ==> placed@[j] == #[trigger] settled(all, k, j),
                forall|j: int| 0 <= j < i ==> after@[j] == #[trigger] settled(all, k + 1, j),
                task_views(next@) == wave_among(all, k, i as nat),
                next@.len() == 0 ==> forall|j: int| 0 <= j < i ==> #[trigger] after@[j] == placed@[j],
                next@.len() > 0 ==> 0 <= newest < i && !placed@[newest] && after@[newest],
            decreases n - i,
        {
            let ready = unblocked(tasks, &placed, i, Ghost(k));
            proof {
                assert(all[i as int] == tasks@[i as int]@);
                assert(placed@[i as int] == settled(all, k, i as int));
                if placed@[i as int] {
                    lemma_settled_step(all, k, i as int);
                }
            }
            if !placed[i] && ready {
                next.push(tasks[i].clone());
                proof {
                    newest = i as int;
                }
            }
            after.push(ready);
            proof {
                assert(task_views(next@) =~= wave_among(all, k, (i + 1) as nat));
            }
            i = i + 1;
        }
        proof {
            assert forall|j: int| 0 <= j < n && placed@[j] implies #[trigger] after@[j] by {
                assert(settled(all, k, j));
                lemma_settled_step(all, k, j);
                assert(settled(all, k + 1, j));
            }
            lemma_marks_grow(placed@, after@, n, newest);
            lemma_marks_grow(placed@, placed@, n, 0);
            lemma_marks_grow(after@, after@, n, 0);
        }
        if next.len() == 0 {
            proof {
                lemma_unmarked(placed@, n);
                let s = choose|s: int| 0 <= s < n && !placed@[s];
                assert(!settled(all, k, s));
                assert forall|j: int|
                    0 <= j < all.len() && #[trigger] settled(all, k + 1, j) implies settled(
                    all,
                    k,
                    j,
                ) by {
                    assert(after@[j] == placed@[j]);
                    assert(after@[j] == settled(all, k + 1, j));
                    assert(placed@[j] == settled(all, k, j));
                }
                lemma_stuck_is_circular(all, k, s);
            }
            return Err(Error::CircularDependency);
        }
        let count = count_new(&placed, &after);
        left = left - count;
        placed = after;
        waves.push(next);
    }
    proof {
        lemma_all_marked(placed@, n);
        let w = wave_views(waves@);
        assert(w.len() == waves@.len());
        assert forall|i: int| 0 <= i < all.len() implies #[trigger] settled(all, w.len(), i) by {
            assert(placed@[i] == settled(all, waves@.len(), i));
        }
        assert forall|k: int| 0 <= k < w.len() implies #[trigger] w[k] == wave(all, k as nat)
            && w[k].len() > 0 by {
            assert(w[k] == task_views(waves@[k]@));
        }
        if circular(all) {
            let path = choose|path: Seq<int>| circle(all, path);
            lemma_circle_never_settles(all, path, waves@.len(), 0);
            assert(settled(all, waves@.len(), path[0]));
        }
    }
    Ok(waves)
}

proof fn lemma_none_marked(placed: Seq<bool>, n: nat)
    requires
        n <= placed.len(),
        forall|s: int| 0 <= s < n ==> !placed[s],
    ensures
        marks(placed, n) == 0,
    decreases n,
{
    if n > 0 {
        lemma_none_marked(placed, (n - 1) as nat);
    }
}

proof fn lemma_unmarked(placed: Seq<bool>, n: nat)
    requires
        n <= placed.len(),
        marks(placed, n) < n,
    ensures
        exists|s: int| 0 <= s < n && !placed[s],
    decreases n,
{
    if n > 0 && placed[n - 1] {
        lemma_unmarked(placed, (n - 1) as nat);
    }
}

proof fn lemma_all_marked(placed: Seq<bool>, n: nat)
    requires
        n <= placed.len(),
        marks(placed, n) == n,
    ensures
        forall|s: int| 0 <= s < n ==> placed[s],
    decreases n,
{
    if n > 0 {
        lemma_marks_grow(placed, placed, (n - 1) as nat, 0);
        lemma_all_marked(placed, (n - 1) as nat);
    }
}

/// How many marks are new.
fn count_new(before: &Vec<bool>, after: &Vec<bool>) -> (r: usize)
    requires
        before@.len() == after@.len(),
        forall|i: int| 0 <= i < before@.len() && before@[i] ==> #[trigger] after@[i],
    ensures
        r + marks(before@, before@.len()) == marks(after@, after@.len()),
{
    let mut count: usize = 0;
    let mut i: usize = 0;
    while i < before.len()
        invariant
            before@.len() == after@.len(),
            i <= before@.len(),
            count <= i,
            count + marks(before@, i as nat) == marks(after@, i as nat),
            forall|j: int| 0 <= j < before@.len() && before@[j] ==> #[trigger] after@[j],
        decreases before@.len() - i,
    {
        if after[i] && !before[i] {
            count = count + 1;
        }
        i = i + 1;
    }
    count
}

/// A task of the first `k` waves is in one of them.
proof fn lemma_in_some_wave(tasks: Seq<TaskView>, k: nat, i: int) -> (m: nat)
    requires
        settled(tasks, k, i),
    ensures
        m < k,
        in_wave(tasks, m, i),
    decreases k,
{
    if settled(tasks, (k - 1) as nat, i) {
        lemma_in_some_wave(tasks, (k - 1) as nat, i)
    } else {
        (k - 1) as nat
    }
}

/// No task is in two waves.
pub proof fn one_wave_at_most(tasks: Seq<TaskView>, a: nat, b: nat, i: int)
    requires
        in_wave(tasks, a, i),
        in_wave(tasks, b, i),
    ensures
        a == b,
{
    if a < b {
        lemma_settled_grows(tasks, a + 1, b, i);
    } else if b < a {
        lemma_settled_grows(tasks, b + 1, a, i);
    }
}

/// Every task is in one of the waves, and in no other.
pub proof fn one_wave_each(tasks: Seq<TaskView>, waves: Seq<Seq<TaskView>>, i: int)
    requires
        waves_of(tasks, waves),
        0 <= i < tasks.len(),
    ensures
        exists|k: nat|
            k < waves.len() && #[trigger] in_wave(tasks, k, i) && waves[k as int].contains(
                tasks[i],
            ),
        forall|a: nat, b: nat| #[trigger]
            in_wave(tasks, a, i) && #[trigger] in_wave(tasks, b, i) ==> a == b,
{
    assert(settled(tasks, waves.len(), i));
    let k = lemma_in_some_wave(tasks, waves.len(), i);
    assert(waves[k as int] == wave(tasks, k));
    wave_members(tasks, k, tasks[i]);
    assert forall|a: nat, b: nat| #[trigger]
        in_wave(tasks, a, i) && #[trigger] in_wave(tasks, b, i) implies a == b by {
        one_wave_at_most(tasks, a, b, i);
    }
}

proof fn lemma_wave_members(tasks: Seq<TaskView>, k: nat, n: nat, t: TaskView)
    requires
        n <= tasks.len(),
    ensures
        wave_among(tasks, k, n).contains(t) == exists|i: int|
            0 <= i < n && #[trigger] in_wave(tasks, k, i) && tasks[i] == t,
    decreases n,
{
    if n > 0 {
        let m = (n - 1) as nat;
        lemma_wave_members(tasks, k, m, t);
        let front = wave_among(tasks, k, m);
        if in_wave(tasks, k, n - 1) {
            let whole = front.push(tasks[n - 1]);
            assert(whole[front.len() as int] == tasks[n - 1]);
            if front.contains(t) {
                let x = choose|x: int| 0 <= x < front.len() && front[x] == t;
                assert(whole[x] == t);
            }
            if whole.contains(t) {
                let x = choose|x: int| 0 <= x < whole.len() && whole[x] == t;
                if x < front.len() {
                    assert(front[x] == t);
                }
            }
        }
    }
}

/// A wave holds the tasks that belong into it and nothing else.
pub proof fn wave_members(tasks: Seq<TaskView>, k: nat, t: TaskView)
    ensures
        wave(tasks, k).contains(t) == exists|i: int|
            0 <= i < tasks.len() && #[trigger] in_wave(tasks, k, i) && tasks[i] == t,
{
    lemma_wave_members(tasks, k, tasks.len(), t);
}

/// What a task depends on runs in an earlier wave.
pub proof fn dependencies_run_earlier(tasks: Seq<TaskView>, k: nat, i: int, j: int)
    requires
        distinct_names(tasks),
        0 <= i < tasks.len(),
        0 <= j < tasks.len(),
        in_wave(tasks, k, i),
        waits_for(tasks, i, j),
    ensures
        exists|m: nat| m < k && #[trigger] in_wave(tasks, m, j),
{
    let d = choose|d: int|
        0 <= d < tasks[i].depends_on.len() && tasks[i].depends_on[d] == tasks[j].name;
    let name = tasks[i].depends_on[d];
    lemma_settled_unfolds(tasks, k + 1, i);
    assert(name_settled(tasks, k, name));
    lemma_name_settled_unfolds(tasks, k, name);
    let c = choose|c: int|
        0 <= c < tasks.len() && tasks[c].name == name && #[trigger] settled(tasks, k, c);
    assert(tasks[c].name == tasks[j].name);
    let m = lemma_in_some_wave(tasks, k, j);
}

/// The first wave holds the tasks that depend on nothing.
pub proof fn first_wave_depends_on_nothing(tasks: Seq<TaskView>, i: int)
    requires
        0 <= i < tasks.len(),
    ensures
        in_wave(tasks, 0, i) == (tasks[i].depends_on.len() == 0),
{
    lemma_settled_unfolds(tasks, 1, i);
    lemma_settled_unfolds(tasks, 0, i);
    if tasks[i].depends_on.len() > 0 && settled(tasks, 1, i) {
        let name = tasks[i].depends_on[0];
        assert(name_settled(tasks, 0, name));
        lemma_name_settled_unfolds(tasks, 0, name);
    }
}

/// No task waits longer than it must: one of a later wave depends on one of the wave before.
pub proof fn tasks_run_as_early_as_possible(tasks: Seq<TaskView>, k: nat, i: int)
    requires
        distinct_names(tasks),
        0 <= i < tasks.len(),
        k > 0,
        in_wave(tasks, k, i),
    ensures
        exists|j: int|
            0 <= j < tasks.len() && waits_for(tasks, i, j) && #[trigger] in_wave(
                tasks,
                (k - 1) as nat,
                j,
            ),
{
    lemma_settled_unfolds(tasks, k, i);
    lemma_settled_unfolds(tasks, k + 1, i);
    let d = choose|d: int|
        0 <= d < tasks[i].depends_on.len() && !name_settled(
            tasks,
            (k - 1) as nat,
            #[trigger] tasks[i].depends_on[d],
        );
    let name = tasks[i].depends_on[d];
    assert(name_settled(tasks, k, name));
    lemma_name_settled_unfolds(tasks, k, name);
    lemma_name_settled_unfolds(tasks, (k - 1) as nat, name);
    let j = choose|j: int|
        0 <= j < tasks.len() && tasks[j].name == name && #[trigger] settled(tasks, k, j);
    assert(!settled(tasks, (k - 1) as nat, j));
    assert(tasks[i].depends_on[d] == tasks[j].name);
    assert(in_wave(tasks, (k - 1) as nat, j));
}

/// How many tasks the waves hold together.
pub open spec fn wave_total(waves: Seq<Seq<TaskView>>) -> nat
    decreases waves.len(),
{
    if waves.len() == 0 {
        0
    } else {
        wave_total(waves.drop_last()) + waves.last().len()
    }
}

/// How many of the first `n` tasks the first `m` waves hold together.
spec fn partial_total(tasks: Seq<TaskView>, m: nat, n: nat) -> nat
    decreases m,
{
    if m == 0 {
        0
    } else {
        partial_total(tasks, (m - 1) as nat, n) + wave_among(tasks, (m - 1) as nat, n).len()
    }
}

proof fn lemma_partial_total_step(tasks: Seq<TaskView>, m: nat, n: nat)
    requires
        n > 0,
        n <= tasks.len(),
    ensures
        partial_total(tasks, m, n) == partial_total(tasks, m, (n - 1) as nat) + if settled(
            tasks,
            m,
            n - 1,
        ) {
            1nat
        } else {
            0nat
        },
    decreases m,
{
    if m > 0 {
        let p = (m - 1) as nat;
        lemma_partial_total_step(tasks, p, n);
        if settled(tasks, p, n - 1) {
            lemma_settled_step(tasks, p, n - 1);
        }
    }
}

proof fn lemma_partial_total_empty(tasks: Seq<TaskView>, m: nat)
    ensures
        partial_total(tasks, m, 0) == 0,
    decreases m,
{
    if m > 0 {
        lemma_partial_total_empty(tasks, (m - 1) as nat);
    }
}

proof fn lemma_partial_total(tasks: Seq<TaskView>, m: nat, n: nat)
    requires
        n <= tasks.len(),
        forall|i: int| 0 <= i < tasks.len() ==> #[trigger] settled(tasks, m, i),
    ensures
        partial_total(tasks, m, n) == n,
    decreases n,
{
    if n == 0 {
        lemma_partial_total_empty(tasks, m);
    } else {
        lemma_partial_total(tasks, m, (n - 1) as nat);
        lemma_partial_total_step(tasks, m, n);
    }
}

proof fn lemma_wave_total(tasks: Seq<TaskView>, waves: Seq<Seq<TaskView>>)
    requires
        forall|k: int| 0 <= k < waves.len() ==> #[trigger] waves[k] == wave(tasks, k as nat),
    ensures
        wave_total(waves) == partial_total(tasks, waves.len(), tasks.len()),
    decreases waves.len(),
{
    if waves.len() > 0 {
        lemma_wave_total(tasks, waves.drop_last());
    }
}

/// The waves hold as many tasks as there are.
pub proof fn waves_hold_every_task_once(tasks: Seq<TaskView>, waves: Seq<Seq<TaskView>>)
    requires
        waves_of(tasks, waves),
    ensures
        wave_total(waves) == tasks.len(),
{
    lemma_wave_total(tasks, waves);
    lemma_partial_total(tasks, waves.len(), tasks.len());
}

/// The waves of a list of tasks are the only ones.
pub proof fn waves_are_unique(
    tasks: Seq<TaskView>,
    a: Seq<Seq<TaskView>>,
    b: Seq<Seq<TaskView>>,
)
    requires
        waves_of(tasks, a),
        waves_of(tasks, b),
    ensures
        a == b,
{
    lemma_no_longer(tasks, a, b);
    lemma_no_longer(tasks, b, a);
    assert(a =~= b);
}

proof fn lemma_no_longer(tasks: Seq<TaskView>, a: Seq<Seq<TaskView>>, b: Seq<Seq<TaskView>>)
    requires
        waves_of(tasks, a),
        waves_of(tasks, b),
    ensures
        b.len() <= a.len(),
{
    if a.len() < b.len() {
        let k = a.len();
        assert(b[k as int] == wave(tasks, k));
        let t = b[k as int][0];
        wave_members(tasks, k, t);
        assert(wave(tasks, k).contains(t));
        let i = choose|i: int|
            0 <= i < tasks.len() && #[trigger] in_wave(tasks, k, i) && tasks[i] == t;
        assert(settled(tasks, k, i));
    }
}

/// Tasks can be put into waves exactly where none waits for itself over others.
pub proof fn waves_exist_without_circles(tasks: Seq<TaskView>)
    requires
        distinct_names(tasks),
        all_known(tasks),
    ensures
        circular(tasks) == !(exists|waves: Seq<Seq<TaskView>>| waves_of(tasks, waves)),
{
    if exists|waves: Seq<Seq<TaskView>>| waves_of(tasks, waves) {
        let waves = choose|waves: Seq<Seq<TaskView>>| waves_of(tasks, waves);
        if circular(tasks) {
            let path = choose|path: Seq<int>| circle(tasks, path);
            lemma_circle_never_settles(tasks, path, waves.len(), 0);
            assert(settled(tasks, waves.len(), path[0]));
        }
    } else if !circular(tasks) {
        let n = tasks.len() as int;
        lemma_int_range(0, n);
        lemma_len_subset(unsettled(tasks, 0), set_int_range(0, n));
        let waves = lemma_waves_from(tasks, Seq::empty(), tasks.len());
        assert(waves_of(tasks, waves));
    }
}

/// The tasks that are in none of the first `k` waves.
spec fn unsettled(tasks: Seq<TaskView>, k: nat) -> Set<int> {
    set_int_range(0, tasks.len() as int).difference(first_waves(tasks, k))
}

proof fn lemma_waves_from(
    tasks: Seq<TaskView>,
    so_far: Seq<Seq<TaskView>>,
    budget: nat,
) -> (waves: Seq<Seq<TaskView>>)
    requires
        all_known(tasks),
        !circular(tasks),
        forall|k: int| 0 <= k < so_far.len() ==> #[trigger] so_far[k] == wave(tasks, k as nat),
        forall|k: int| 0 <= k < so_far.len() ==> (#[trigger] so_far[k]).len() > 0,
        unsettled(tasks, so_far.len()).len() <= budget,
    ensures
        waves_of(tasks, waves),
    decreases budget,
{
    let k = so_far.len();
    let n = tasks.len() as int;
    lemma_int_range(0, n);
    lemma_len_subset(unsettled(tasks, k), set_int_range(0, n));
    if forall|i: int| 0 <= i < tasks.len() ==> #[trigger] settled(tasks, k, i) {
        so_far
    } else {
        let s = choose|s: int| 0 <= s < tasks.len() && !#[trigger] settled(tasks, k, s);
        if forall|j: int|
            0 <= j < tasks.len() && #[trigger] settled(tasks, k + 1, j) ==> settled(tasks, k, j) {
            lemma_stuck_is_circular(tasks, k, s);
            so_far
        } else {
            let j = choose|j: int|
                0 <= j < tasks.len() && #[trigger] settled(tasks, k + 1, j) && !settled(tasks, k, j);
            assert(in_wave(tasks, k, j));
            wave_members(tasks, k, tasks[j]);
            assert(wave(tasks, k).contains(tasks[j]));
            let next = so_far.push(wave(tasks, k));
            assert(unsettled(tasks, k + 1).subset_of(unsettled(tasks, k).remove(j))) by {
                assert forall|x: int| unsettled(tasks, k + 1).contains(x) implies unsettled(
                    tasks,
                    k,
                ).remove(j).contains(x) by {
                    if settled(tasks, k, x) {
                        lemma_settled_step(tasks, k, x);
                    }
                }
            }
            assert(unsettled(tasks, k).contains(j));
            lemma_len_subset(unsettled(tasks, k + 1), unsettled(tasks, k).remove(j));
            lemma_waves_from(tasks, next, (budget - 1) as nat)
        }
    }
}

/// A sandbox is known by its name, and each name is that of one.
pub proof fn sandboxes_are_known_by_name()
    ensures
        Sandbox::ReadOnly.label() == "read-only"@,
        Sandbox::ReadWrite.label() == "read-write"@,
        Sandbox::NetworkReadOnly.label() == "network-read-only"@,
{
}

/// Tasks can be put into waves just where each is fit and has a directory, no two have one name,
/// each dependency is the name of a task, and none waits for itself over others.
pub proof fn schedulable_tasks_meet_every_rule(tasks: Seq<TaskView>, i: int, j: int, d: int)
    requires
        schedulable(tasks),
        0 <= i < tasks.len(),
        0 <= j < tasks.len(),
    ensures
        valid_task_name(tasks[i].name),
        tasks[i].cwd.len() > 0,
        i != j ==> tasks[i].name != tasks[j].name,
        0 <= d < tasks[i].depends_on.len() ==> exists|k: int|
            0 <= k < tasks.len() && #[trigger] tasks[k].name == tasks[i].depends_on[d],
        !tasks[i].depends_on.contains(tasks[i].name),
        !(tasks[i].depends_on.contains(tasks[j].name) && tasks[j].depends_on.contains(
            tasks[i].name,
        )),
{
    assert(fit_task(tasks[i]));
    assert(knows_dependencies(tasks, i));
    if 0 <= d < tasks[i].depends_on.len() {
        assert(has_task(tasks, tasks[i].depends_on[d]));
    }
    if waits_for(tasks, i, i) {
        let path = seq![i, i];
        assert(circle(tasks, path));
    }
    if waits_for(tasks, i, j) && waits_for(tasks, j, i) {
        let path = seq![i, j, i];
        assert forall|t: int| 0 <= t < path.len() - 1 implies waits_for(
            tasks,
            #[trigger] path[t],
            path[t + 1],
        ) by {}
        assert(circle(tasks, path));
    }
}

/// Tasks that follow the rules one by one, and that can be ranked so that each depends only on
/// lower ones, can be put into waves.
pub proof fn ranked_tasks_are_schedulable(tasks: Seq<TaskView>, rank: spec_fn(int) -> nat)
    requires
        forall|i: int|
            0 <= i < tasks.len() ==> valid_task_name((#[trigger] tasks[i]).name) && tasks[i].cwd.len()
                > 0,
        forall|i: int, j: int|
            0 <= i < tasks.len() && 0 <= j < tasks.len() && #[trigger] tasks[i].name
                == #[trigger] tasks[j].name ==> i == j,
        forall|i: int, d: int|
            0 <= i < tasks.len() && 0 <= d < tasks[i].depends_on.len() ==> has_task(
                tasks,
                #[trigger] tasks[i].depends_on[d],
            ),
        forall|i: int, j: int|
            0 <= i < tasks.len() && 0 <= j < tasks.len() && #[trigger] tasks[i].depends_on.contains(
                #[trigger] tasks[j].name,
            ) ==> rank(j) < rank(i),
    ensures
        schedulable(tasks),
{
    assert forall|i: int| 0 <= i < tasks.len() implies fit_task(#[trigger] tasks[i]) by {}
    assert forall|i: int| 0 <= i < tasks.len() implies #[trigger] knows_dependencies(tasks, i) by {}
    if circular(tasks) {
        let path = choose|path: Seq<int>| circle(tasks, path);
        lemma_ranks_fall(tasks, rank, path, path.len() - 1);
    }
}

proof fn lemma_ranks_fall(tasks: Seq<TaskView>, rank: spec_fn(int) -> nat, path: Seq<int>, n: int)
    requires
        circle(tasks, path),
        0 <= n < path.len(),
        forall|i: int, j: int|
            0 <= i < tasks.len() && 0 <= j < tasks.len() && #[trigger] tasks[i].depends_on.contains(
                #[trigger] tasks[j].name,
            ) ==> rank(j) < rank(i),
    ensures
        n > 0 ==> rank(path[n]) < rank(path[0]),
    decreases n,
{
    if n > 0 {
        lemma_ranks_fall(tasks, rank, path, n - 1);
        assert(waits_for(tasks, path[n - 1], path[n]));
        assert(0 <= path[n - 1] < tasks.len() && 0 <= path[n] < tasks.len());
        assert(tasks[path[n - 1]].depends_on.contains(tasks[path[n]].name));
    }
}

/// Tasks are refused for something that is wrong with them: an unfit name that one of them has, a
/// missing directory, a name that two of them have, a dependency that is no task, or a circle.
pub proof fn refusals_say_what_is_wrong(tasks: Seq<TaskView>, e: Error)
    requires
        !schedulable(tasks),
        config_refusal(tasks, e),
    ensures
        match e {
            Error::EmptyTaskName => exists|i: int|
                0 <= i < tasks.len() && (#[trigger] tasks[i]).name.len() == 0,
            Error::InvalidTaskName { name } => exists|i: int|
                0 <= i < tasks.len() && (#[trigger] tasks[i]).name == name@ && !valid_task_name(
                    name@,
                ),
            Error::ReservedTaskName { name } => exists|i: int|
                0 <= i < tasks.len() && (#[trigger] tasks[i]).name == name@ && !valid_task_name(
                    name@,
                ),
            Error::EmptyCwd => exists|i: int|
                0 <= i < tasks.len() && (#[trigger] tasks[i]).cwd.len() == 0,
            Error::DuplicateTask { name } => exists|i: int, j: int|
                0 <= i < j < tasks.len() && (#[trigger] tasks[i]).name == name@ && (
                #[trigger] tasks[j]).name == name@,
            Error::UnknownDependency { task, dependency } => exists|i: int|
                0 <= i < tasks.len() && (#[trigger] tasks[i]).name == task@
                    && tasks[i].depends_on.contains(dependency@) && forall|j: int|
                    0 <= j < tasks.len() ==> (#[trigger] tasks[j]).name != dependency@,
            Error::CircularDependency => circular(tasks),
            _ => false,
        },
{
    if !all_fit(tasks) {
        let i = choose|i: int|
            {
                &&& 0 <= i < tasks.len()
                &&& !fit_task(#[trigger] tasks[i])
                &&& forall|j: int| 0 <= j < i ==> fit_task(#[trigger] tasks[j])
                &&& if !valid_task_name(tasks[i].name) {
                    name_refusal(tasks[i].name, e)
                } else {
                    e is EmptyCwd
                }
            };
        assert(tasks[i].name == tasks[i].name);
    } else if !distinct_names(tasks) {
        let i = choose|i: int|
            {
                &&& 0 <= i < tasks.len()
                &&& #[trigger] repeats_name(tasks, i)
                &&& forall|j: int| 0 <= j < i ==> !#[trigger] repeats_name(tasks, j)
                &&& e matches Error::DuplicateTask { name } && name@ == tasks[i].name
            };
        let j = choose|j: int| 0 <= j < i && #[trigger] tasks[j].name == tasks[i].name;
        assert(tasks[j].name == tasks[i].name);
    } else if !all_known(tasks) {
        let (i, d) = choose|i: int, d: int|
            {
                &&& 0 <= i < tasks.len()
                &&& 0 <= d < tasks[i].depends_on.len()
                &&& forall|j: int| 0 <= j < i ==> #[trigger] knows_dependencies(tasks, j)
                &&& forall|c: int|
                    0 <= c < d ==> has_task(tasks, #[trigger] tasks[i].depends_on[c])
                &&& !has_task(tasks, #[trigger] tasks[i].depends_on[d])
                &&& e matches Error::UnknownDependency { task, dependency } && task@
                    == tasks[i].name && dependency@ == tasks[i].depends_on[d]
            };
        assert(tasks[i].depends_on.contains(tasks[i].depends_on[d]));
    }
}

/// What is wrong with a task by itself is told before what is wrong between tasks, a repeated name
/// before an unknown dependency, and that before a circle.
pub proof fn refusals_tell_the_plainest_fault_first(tasks: Seq<TaskView>, e: Error, i: int, j: int)
    requires
        config_refusal(tasks, e),
        0 <= i < tasks.len(),
        0 <= j < tasks.len(),
    ensures
        !valid_task_name(tasks[i].name) || tasks[i].cwd.len() == 0 ==> e is EmptyTaskName
            || e is InvalidTaskName || e is ReservedTaskName || e is EmptyCwd,
        e is DuplicateTask || e is UnknownDependency || e is CircularDependency
            ==> valid_task_name(tasks[i].name) && tasks[i].cwd.len() > 0,
        i != j && tasks[i].name == tasks[j].name ==> !(e is UnknownDependency) && !(
        e is CircularDependency),
        e is CircularDependency ==> forall|d: int|
            0 <= d < tasks[i].depends_on.len() ==> has_task(
                tasks,
                #[trigger] tasks[i].depends_on[d],
            ),
{
    if !valid_task_name(tasks[i].name) || tasks[i].cwd.len() == 0 {
        assert(!fit_task(tasks[i]));
    }
    if all_fit(tasks) {
        assert(fit_task(tasks[i]));
    }
    if all_known(tasks) {
        assert(knows_dependencies(tasks, i));
    }
}

/// Tasks of one wave stand in it in the order in which they were written down.
pub proof fn waves_keep_the_written_order(tasks: Seq<TaskView>, k: nat, i: int, j: int)
    requires
        0 <= i < j < tasks.len(),
        in_wave(tasks, k, i),
        in_wave(tasks, k, j),
    ensures
        exists|p: int, q: int|
            0 <= p < q < wave(tasks, k).len() && #[trigger] wave(tasks, k)[p] == tasks[i]
                && #[trigger] wave(tasks, k)[q] == tasks[j],
{
    lemma_wave_place(tasks, k, tasks.len(), i);
    lemma_wave_place(tasks, k, tasks.len(), j);
    lemma_wave_place(tasks, k, j as nat, i);
    let p = wave_among(tasks, k, i as nat).len() as int;
    let q = wave_among(tasks, k, j as nat).len() as int;
    assert(wave(tasks, k)[p] == tasks[i] && wave(tasks, k)[q] == tasks[j]);
}

proof fn lemma_wave_place(tasks: Seq<TaskView>, k: nat, n: nat, i: int)
    requires
        0 <= i < n <= tasks.len(),
        in_wave(tasks, k, i),
    ensures
        wave_among(tasks, k, i as nat).len() < wave_among(tasks, k, n).len(),
        wave_among(tasks, k, n)[wave_among(tasks, k, i as nat).len() as int] == tasks[i],
    decreases n,
{
    if i < n - 1 {
        lemma_wave_place(tasks, k, (n - 1) as nat, i);
    }
}

} // verus!

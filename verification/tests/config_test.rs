use codex_par::config::{default_sandbox, Sandbox, TaskDef, TasksConfig};
use codex_par::error::Error;
use codex_par::plan::{count_tasks, flatten_waves, plan_metas, wave_number_of, RunPlan};

fn task(name: &str, deps: &[&str]) -> TaskDef {
    TaskDef {
        name: name.to_string(),
        cwd: "/tmp".to_string(),
        prompt: "p".to_string(),
        sandbox: Sandbox::default(),
        agent_id: None,
        thread_id: None,
        output_schema: None,
        ephemeral: false,
        add_dirs: Vec::new(),
        ask_for_approval: "never".to_string(),
        config_overrides: Vec::new(),
        profile: None,
        model: None,
        depends_on: deps.iter().map(|d| d.to_string()).collect(),
    }
}

fn waves(tasks: Vec<TaskDef>) -> Result<Vec<Vec<String>>, Error> {
    let waves = TasksConfig { tasks }.into_waves()?;
    Ok(waves.iter().map(|w| w.iter().map(|t| t.name.clone()).collect()).collect())
}

fn refusal(tasks: Vec<TaskDef>) -> String {
    waves(tasks).unwrap_err().message()
}

#[test]
fn independent_tasks_share_the_first_wave() {
    let w = waves(vec![task("b", &[]), task("a", &[]), task("c", &[])]).unwrap();
    assert_eq!(w, vec![vec!["b", "a", "c"]]);
    assert!(waves(Vec::new()).unwrap().is_empty());
}

#[test]
fn waves_follow_dependencies() {
    let w = waves(vec![
        task("report", &["left", "right"]),
        task("left", &["base"]),
        task("base", &[]),
        task("right", &["base"]),
        task("early", &["base"]),
        task("free", &[]),
    ])
    .unwrap();
    assert_eq!(
        w,
        vec![vec!["base", "free"], vec!["left", "right", "early"], vec!["report"]]
    );
}

#[test]
fn waves_take_the_longest_way() {
    let w = waves(vec![
        task("a", &[]),
        task("b", &["a"]),
        task("c", &["b"]),
        task("d", &["a", "c"]),
    ])
    .unwrap();
    assert_eq!(w, vec![vec!["a"], vec!["b"], vec!["c"], vec!["d"]]);
}

#[test]
fn circles_are_refused() {
    assert_eq!(refusal(vec![task("a", &["a"])]), "circular dependency detected");
    assert_eq!(
        refusal(vec![task("x", &[]), task("a", &["c"]), task("b", &["a"]), task("c", &["b"])]),
        "circular dependency detected"
    );
}

#[test]
fn bad_tasks_are_refused_in_turn() {
    assert_eq!(refusal(vec![task("a", &[]), task("a", &[])]), "duplicate task name: 'a'");
    assert_eq!(refusal(vec![task("a", &["z"])]), "task 'a' depends on unknown task 'z'");
    assert_eq!(refusal(vec![task("", &[])]), "task name cannot be empty");
    assert!(refusal(vec![task("a b", &[])]).contains("invalid characters"));
    assert_eq!(refusal(vec![task(".", &[])]), "task name '.' is not a valid file stem");
    let mut nowhere = task("a", &[]);
    nowhere.cwd = String::new();
    assert_eq!(refusal(vec![nowhere]), "cwd cannot be empty");
    assert_eq!(
        refusal(vec![task("a", &["z"]), task("a", &[]), task("b/", &[])]),
        "task name 'b/' contains invalid characters (only [A-Za-z0-9._-] allowed)"
    );
    assert_eq!(refusal(vec![task("a", &["z"]), task("a", &[])]), "duplicate task name: 'a'");
}

#[test]
fn sandboxes_have_names() {
    for mode in [Sandbox::ReadOnly, Sandbox::ReadWrite, Sandbox::NetworkReadOnly] {
        assert_eq!(Sandbox::from_text(mode.as_text()), Some(mode));
    }
    assert_eq!(default_sandbox().as_text(), "read-only");
    assert_eq!(Sandbox::ReadWrite.as_text(), "read-write");
    assert_eq!(Sandbox::NetworkReadOnly.as_text(), "network-read-only");
    assert_eq!(Sandbox::from_text("Read-Only"), None);
}

#[test]
fn plans_count_and_place_their_tasks() {
    let config = TasksConfig {
        tasks: vec![task("b", &["a"]), task("a", &[]), task("c", &["a"])],
    };
    let plan = RunPlan::new(config).unwrap();
    assert_eq!((plan.task_count, plan.wave_count), (3, 2));
    assert_eq!(count_tasks(&plan.waves), 3);
    let metas = plan_metas(&plan.waves);
    assert_eq!(metas[0][0].name, "a");
    assert_eq!(metas[1][1].wave, Some(1));
    assert_eq!(metas[1][1].agent_id, "");
    let flat: Vec<String> = flatten_waves(plan.waves).into_iter().map(|t| t.name).collect();
    assert_eq!(flat, vec!["a", "b", "c"]);
    assert_eq!(wave_number_of(7), 7);
}

#[test]
fn tasks_are_copied_whole() {
    let mut t = task("a", &["b"]);
    t.model = Some("m".to_string());
    t.add_dirs = vec!["/x".to_string()];
    let c = t.clone();
    assert_eq!(c.model.as_deref(), Some("m"));
    assert_eq!(c.add_dirs, vec!["/x".to_string()]);
    assert_eq!(c.depends_on, vec!["b".to_string()]);
    let config = TasksConfig { tasks: vec![t, c] };
    let copy = config.clone();
    assert_eq!(copy.tasks.len(), 2);
    assert_eq!(copy.tasks[1].model.as_deref(), Some("m"));
}

use job_book::config::{default_executor, default_working_dir, Error, JobConfig, TaskConfig, TaskKind, TaskLabels, Template};
use job_book::engine::TemplateRun;
use job_book::graph::rank_graph;
use job_book::process::{exit_code, RunOutcome, Task};
use job_book::scheduler::{Scheduler, TokenPool};
use job_book::select::is_eligible;
use job_book::status::{aggregate, Phase};

fn s(x: &str) -> String {
    x.to_string()
}

fn script(name: &str, body: &str, labels: &[&str]) -> TaskConfig {
    TaskConfig {
        name: s(name),
        labels: TaskLabels(labels.iter().map(|l| s(l)).collect()),
        kind: TaskKind::Script {
            script: s(body),
            executor: default_executor(),
            executor_args: vec![],
            working_dir: default_working_dir(),
        },
    }
}

fn reference(target: &str) -> TaskConfig {
    TaskConfig { name: s(""), labels: TaskLabels(vec![]), kind: TaskKind::Template { template: s(target) } }
}

fn template(stages: Vec<Vec<TaskConfig>>) -> Template {
    Template { parallelism: None, tasks: stages }
}

fn job(entry: &str, templates: Vec<(&str, Template)>) -> JobConfig {
    JobConfig {
        name: s("job"),
        entrypoint: s(entry),
        parallelism: None,
        templates: templates.into_iter().map(|(n, t)| (s(n), t)).collect(),
    }
}

fn none() -> Vec<String> {
    vec![]
}

#[test]
fn defaults_are_bash_and_current_dir() {
    assert_eq!(default_executor(), "bash");
    assert_eq!(default_working_dir(), ".");
}

#[test]
fn valid_job_passes() {
    let cfg = job(
        "main",
        vec![
            ("main", template(vec![vec![reference("run_it")]])),
            ("run_it", template(vec![vec![script("", "echo hello", &[])]])),
        ],
    );
    assert_eq!(cfg.validate(), Ok(()));
}

#[test]
fn unknown_entrypoint_is_reported() {
    let cfg = job("main", vec![("main2", template(vec![vec![script("", "echo hello", &[])]]))]);
    assert_eq!(cfg.validate(), Err(Error::UnknownEntrypoint(s("main"))));
    // no run can start from it
    let sched = Scheduler::new(cfg);
    assert!(sched.start_template(&s("main"), &none(), &none(), None).is_none());
}

#[test]
fn unknown_template_is_reported() {
    let cfg = job(
        "main",
        vec![
            ("main", template(vec![vec![reference("run_it2")]])),
            ("run_it", template(vec![vec![script("", "print(\"hello\")", &["second", "third"])]])),
        ],
    );
    assert_eq!(cfg.validate(), Err(Error::UnknownTemplate(s("run_it2"))));
}

#[test]
fn self_reference_is_a_cycle() {
    let cfg = job("main", vec![("main", template(vec![vec![reference("main")]]))]);
    assert_eq!(cfg.validate(), Err(Error::Cycle(vec![s("main"), s("main")])));
}

#[test]
fn two_template_loop_is_named() {
    let cfg = job(
        "a",
        vec![
            ("a", template(vec![vec![script("", "true", &[])], vec![reference("b")]])),
            ("b", template(vec![vec![reference("a")]])),
        ],
    );
    match cfg.validate() {
        Err(Error::Cycle(names)) => {
            assert_eq!(names.len(), 3);
            assert_eq!(names[0], names[2]);
            assert!(names.contains(&s("a")) && names.contains(&s("b")));
        }
        other => panic!("expected a cycle, got {:?}", other),
    }
}

#[test]
fn shared_template_without_loop_passes() {
    let cfg = job(
        "main",
        vec![
            ("main", template(vec![vec![reference("x"), reference("y")]])),
            ("x", template(vec![vec![reference("leaf")]])),
            ("y", template(vec![vec![reference("leaf")]])),
            ("leaf", template(vec![])),
        ],
    );
    assert_eq!(cfg.validate(), Ok(()));
}

#[test]
fn parallelism_below_one_is_accepted_and_sets_no_cap() {
    let mut cfg = job("main", vec![("main", template(vec![vec![script("1", "true", &[]), script("2", "true", &[])]]))]);
    cfg.parallelism = Some(0);
    cfg.templates[0].1.parallelism = Some(-1);
    assert_eq!(cfg.validate(), Ok(()));
    let sched = Scheduler::new(cfg);
    assert_eq!(sched.job_cap(), None);
    let mut run = sched.start_template(&s("main"), &none(), &none(), Some(0)).unwrap();
    assert_eq!(run.cap, None);
    assert!(run.dispatch().is_some());
    assert!(run.dispatch().is_some());
}

#[test]
fn self_loop_with_zero_parallelism_names_the_loop() {
    let mut cfg = job("main", vec![("main", template(vec![vec![reference("main")]]))]);
    cfg.parallelism = Some(0);
    assert_eq!(cfg.validate(), Err(Error::Cycle(vec![s("main"), s("main")])));
}

#[test]
fn duplicate_template_names_are_refused() {
    let cfg = job("main", vec![("main", template(vec![])), ("other", template(vec![])), ("main", template(vec![]))]);
    assert_eq!(cfg.validate(), Err(Error::DuplicateTemplate(s("main"))));
}

#[test]
fn validation_messages() {
    let cfg = job("main", vec![("main2", template(vec![vec![script("", "echo hello", &[])]]))]);
    assert_eq!(
        cfg.validate().unwrap_err().message(),
        "invalid entrypoint, no template names 'main'".to_string()
    );
    let cfg = job(
        "main",
        vec![
            ("main", template(vec![vec![reference("run_it2")]])),
            ("run_it", template(vec![vec![script("", "print(\"hello\")", &["second", "third"])]])),
        ],
    );
    assert_eq!(
        cfg.validate().unwrap_err().message(),
        "invalid template, no template names 'run_it2'".to_string()
    );
    assert_eq!(
        Error::Cycle(vec![s("a"), s("b"), s("a")]).message(),
        "invalid templates, they refer to each other in a loop: a -> b -> a"
    );
    assert_eq!(Error::DuplicateTemplate(s("x")).message(), "invalid templates, two templates named 'x'");
}

#[test]
fn ranking_orders_edges_downward() {
    let g = vec![vec![1, 2], vec![2], vec![]];
    let r = rank_graph(&g).unwrap();
    assert!(r[0] > r[1] && r[1] > r[2] && r[0] > r[2]);
    let cyclic = vec![vec![1], vec![2], vec![0]];
    let c = rank_graph(&cyclic).unwrap_err();
    assert_eq!(c.len(), 4);
    assert_eq!(c[0], c[3]);
}

#[test]
fn selection_by_tags() {
    let a = vec![s("a")];
    assert!(!is_eligible(&TaskLabels(vec![s("b")]), &a, &none()));
    assert!(is_eligible(&TaskLabels(vec![s("a")]), &a, &none()));
    // exclusion wins over inclusion
    assert!(!is_eligible(&TaskLabels(vec![s("a")]), &a, &a));
    assert!(is_eligible(&TaskLabels(vec![]), &none(), &none()));
    assert!(!is_eligible(&TaskLabels(vec![]), &a, &none()));
}

#[test]
fn filtered_task_is_skipped_without_dispatch() {
    let t = template(vec![vec![script("b", "true", &["b"])]]);
    let mut run = TemplateRun::new(&t, &vec![s("a")], &none(), None);
    assert!(run.is_done());
    assert_eq!(run.dispatch(), None);
    assert_eq!(run.phases[0][0], Phase::Skipped);
    assert_eq!(run.phase(), Phase::Skipped);

    let t = template(vec![vec![script("a", "true", &["a"])]]);
    let run = TemplateRun::new(&t, &vec![s("a")], &vec![s("a")], None);
    assert_eq!(run.phases[0][0], Phase::Skipped);
    assert_eq!(run.phase(), Phase::Skipped);
}

#[test]
fn stage_of_successes_succeeds() {
    let t = template(vec![vec![script("1", "true", &[]), script("2", "true", &[])]]);
    let mut run = TemplateRun::new(&t, &none(), &none(), None);
    let a = run.dispatch().unwrap();
    let b = run.dispatch().unwrap();
    assert_ne!(a, b);
    assert_eq!(run.dispatch(), None);
    run.settle(a, Phase::Succeeded);
    assert!(!run.is_done());
    assert_eq!(run.phase(), Phase::Running);
    run.settle(b, Phase::Succeeded);
    assert!(run.is_done());
    assert_eq!(run.phase(), Phase::Succeeded);
}

#[test]
fn failing_sibling_keeps_success() {
    let t = template(vec![vec![script("bad", "false", &[]), script("good", "true", &[])]]);
    let mut run = TemplateRun::new(&t, &none(), &none(), None);
    let a = run.dispatch().unwrap();
    let b = run.dispatch().unwrap();
    run.settle(b, Phase::Succeeded);
    run.settle(a, Phase::Failed);
    assert_eq!(run.phases[0][b], Phase::Succeeded);
    assert_eq!(run.phases[0][a], Phase::Failed);
    assert_eq!(run.phase(), Phase::Failed);
}

#[test]
fn cap_of_one_runs_one_at_a_time() {
    let mut t = template(vec![vec![
        script("1", "sleep 0.1", &[]),
        script("2", "sleep 0.1", &[]),
        script("3", "sleep 0.1", &[]),
    ]]);
    t.parallelism = Some(1);
    let mut run = TemplateRun::new(&t, &none(), &none(), None);
    for _ in 0..3 {
        let k = run.dispatch().unwrap();
        assert_eq!(run.dispatch(), None);
        assert_eq!(run.phases[0].iter().filter(|p| **p == Phase::Running).count(), 1);
        run.settle(k, Phase::Succeeded);
    }
    assert!(run.is_done());
    assert_eq!(run.phase(), Phase::Succeeded);
}

#[test]
fn inherited_cap_applies_without_own() {
    let t = template(vec![vec![script("1", "true", &[]), script("2", "true", &[])]]);
    let mut run = TemplateRun::new(&t, &none(), &none(), Some(1));
    assert_eq!(run.cap, Some(1));
    assert!(run.dispatch().is_some());
    assert_eq!(run.dispatch(), None);
}

#[test]
fn failure_skips_later_stages() {
    let t = template(vec![vec![script("bad", "false", &[])], vec![script("good", "true", &[])]]);
    let mut run = TemplateRun::new(&t, &none(), &none(), None);
    let k = run.dispatch().unwrap();
    run.settle(k, Phase::Failed);
    assert!(run.is_done());
    assert_eq!(run.phases[1][0], Phase::Skipped);
    assert_eq!(run.phase(), Phase::Failed);
}

#[test]
fn stages_run_in_order() {
    let t = template(vec![vec![script("1", "true", &[])], vec![script("2", "true", &[])]]);
    let mut run = TemplateRun::new(&t, &none(), &none(), None);
    let k = run.dispatch().unwrap();
    assert_eq!(run.dispatch(), None);
    assert_eq!(run.phases[1][0], Phase::Pending);
    run.settle(k, Phase::Succeeded);
    assert_eq!(run.current, 1);
    // a success leaves the next stage to run
    assert_eq!(run.phases[1][0], Phase::Pending);
    let k = run.dispatch().unwrap();
    run.settle(k, Phase::Succeeded);
    assert_eq!(run.phase(), Phase::Succeeded);
}

#[test]
fn empty_template_is_skipped() {
    let t = template(vec![]);
    let run = TemplateRun::new(&t, &none(), &none(), None);
    assert!(run.is_done());
    assert_eq!(run.phase(), Phase::Skipped);
    let t = template(vec![vec![], vec![]]);
    let run = TemplateRun::new(&t, &none(), &none(), None);
    assert_eq!(run.phase(), Phase::Skipped);
}

#[test]
fn aggregation_rule() {
    assert_eq!(aggregate(&vec![]), Phase::Skipped);
    assert_eq!(aggregate(&vec![Phase::Skipped, Phase::Succeeded]), Phase::Succeeded);
    assert_eq!(aggregate(&vec![Phase::Succeeded, Phase::Failed, Phase::Skipped]), Phase::Failed);
    assert_eq!(aggregate(&vec![Phase::Skipped, Phase::Skipped]), Phase::Skipped);
}

#[test]
fn phase_transitions() {
    assert!(Phase::Pending.can_transition(Phase::Running));
    assert!(Phase::Pending.can_transition(Phase::Skipped));
    assert!(Phase::Running.can_transition(Phase::Failed));
    assert!(!Phase::Pending.can_transition(Phase::Succeeded));
    assert!(!Phase::Succeeded.can_transition(Phase::Running));
    assert!(Phase::Skipped.is_terminal());
    assert!(!Phase::Running.is_terminal());
}

fn echo_task(body: &str) -> Task {
    Task::from_config(&script("echo", body, &[])).unwrap()
}

#[test]
fn test_task() {
    let mut task = echo_task("echo hello");
    task.start();
    task.finish(RunOutcome::Exited { code: Some(0), stderr: s("") });
    assert_eq!(task.status_phase, Phase::Succeeded);
    assert_eq!(task.failed_reason, "");
    assert_eq!(task.name, "echo");
    assert_eq!(task.script, "echo hello");
    assert_eq!(task.executor, "bash");
    assert_eq!(task.working_dir, ".");
}

#[test]
fn test_failed_task() {
    let mut task = echo_task("echos hello");
    task.start();
    task.finish(RunOutcome::Exited { code: Some(127), stderr: s("bash: line 1: echos: command not found\n") });
    assert_eq!(task.status_phase, Phase::Failed);
    assert!(task.failed_reason.contains("echos: command not found"));
}

#[test]
fn signal_and_spawn_failure_fail() {
    let mut task = echo_task("sleep 10");
    task.start();
    task.finish(RunOutcome::Exited { code: None, stderr: s("killed") });
    assert_eq!(task.status_phase, Phase::Failed);
    assert_eq!(task.failed_reason, "killed");

    let mut task = echo_task("true");
    task.start();
    task.finish(RunOutcome::NotStarted { reason: s("No such file or directory (os error 2)") });
    assert_eq!(task.status_phase, Phase::Failed);
    assert_eq!(task.failed_reason, "No such file or directory (os error 2)");
}

#[test]
fn template_reference_is_no_script_task() {
    assert!(Task::from_config(&reference("main")).is_none());
}

#[test]
fn command_line_text() {
    let cfg = TaskConfig {
        name: s(""),
        labels: TaskLabels(vec![]),
        kind: TaskKind::Script {
            script: s("print(\"hello\")"),
            executor: s("python"),
            executor_args: vec![s("-u"), s("-B")],
            working_dir: s("/home"),
        },
    };
    let task = Task::from_config(&cfg).unwrap();
    assert_eq!(task.command_line("/tmp/x/script"), "cd /home && python -u -B /tmp/x/script\n");
    let plain = echo_task("echo hello");
    assert_eq!(plain.command_line("/s"), "cd . && bash /s\n");
}

#[test]
fn job_exit_codes() {
    assert_eq!(exit_code(Phase::Succeeded), 0);
    assert_eq!(exit_code(Phase::Failed), 1);
    assert_eq!(exit_code(Phase::Skipped), 1);
}

#[test]
fn token_pool_bounds() {
    let mut pool = TokenPool::new(Some(2));
    assert!(pool.try_acquire());
    assert!(pool.try_acquire());
    assert!(!pool.try_acquire());
    pool.release();
    assert!(pool.try_acquire());
    assert_eq!(pool.in_use, 2);
    let mut open = TokenPool::new(None);
    for _ in 0..10 {
        assert!(open.try_acquire());
    }
}

#[test]
fn scheduler_starts_entrypoint() {
    let mut cfg = job("main", vec![("main", template(vec![vec![script("", "echo hello", &[])]]))]);
    cfg.parallelism = Some(3);
    let sched = Scheduler::new(cfg);
    assert_eq!(sched.check(), Ok(()));
    assert_eq!(sched.job_cap(), Some(3));
    let mut run = sched.start_template(&s("main"), &none(), &none(), sched.job_cap()).unwrap();
    assert_eq!(run.cap, Some(3));
    let k = run.dispatch().unwrap();
    run.settle(k, Phase::Succeeded);
    assert_eq!(run.phase(), Phase::Succeeded);
    assert!(sched.template(&s("main")).is_some());
    assert!(sched.template(&s("other")).is_none());
    assert_eq!(sched.config().name, "job");
}

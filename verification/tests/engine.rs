use tagwatch::config::{Config, Trigger};
use tagwatch::engine::{observe_repo, run_cycle, Outcome};
use tagwatch::record::Record;

fn rule(target: &str) -> Trigger {
    Trigger {
        target_repo: target.to_string(),
        workflow_repo: "acme/ci".to_string(),
        workflow_id: "release.yml".to_string(),
        workflow_ref: "main".to_string(),
        token: Some("t1".to_string()),
        inputs: None,
    }
}

fn config(triggers: Vec<Trigger>) -> Config {
    Config { interval: 3600, token: None, triggers }
}

fn strings(v: &[&str]) -> Vec<String> {
    v.iter().map(|s| s.to_string()).collect()
}

#[test]
fn changed_tag_dispatches_resolved_rule() {
    let c = config(vec![rule("acme/app")]);
    let mut r = Record::new();
    r.set("acme/app", "v1.2");
    let dispatches = run_cycle(&c, &mut r, &strings(&["acme/app"]), &strings(&["v1.3"]));
    assert_eq!(dispatches.len(), 1);
    let d = &dispatches[0];
    assert_eq!(d.workflow_repo, "acme/ci");
    assert_eq!(d.workflow_id, "release.yml");
    assert_eq!(d.workflow_ref, "main");
    assert_eq!(d.token, Some("t1".to_string()));
    assert_eq!(d.inputs, None);
    assert_eq!(r.get("acme/app"), "v1.3");
}

#[test]
fn unchanged_tag_does_not_dispatch() {
    let c = config(vec![rule("acme/app")]);
    let mut r = Record::new();
    r.set("acme/app", "v1.2");
    let dispatches = run_cycle(&c, &mut r, &strings(&["acme/app"]), &strings(&["v1.2"]));
    assert_eq!(dispatches.len(), 0);
    assert_eq!(r.get("acme/app"), "v1.2");
}

#[test]
fn untracked_repo_without_rule_is_still_recorded() {
    let c = config(vec![]);
    let mut r = Record::new();
    let o = observe_repo(&c, &mut r, "acme/x", "v1.0");
    assert!(matches!(o, Outcome::NoTrigger));
    assert_eq!(r.get("acme/x"), "v1.0");
    let mut r2 = Record::new();
    let dispatches = run_cycle(&c, &mut r2, &strings(&["acme/x"]), &strings(&["v1.0"]));
    assert_eq!(dispatches.len(), 0);
    assert_eq!(r2.get("acme/x"), "v1.0");
}

#[test]
fn failed_fetch_preserves_prior_tag() {
    let c = config(vec![rule("acme/app")]);
    let mut r = Record::new();
    r.set("acme/app", "v1.2");
    let o = observe_repo(&c, &mut r, "acme/app", "");
    assert!(matches!(o, Outcome::FetchFailed));
    assert_eq!(r.get("acme/app"), "v1.2");
    let dispatches = run_cycle(&c, &mut r, &strings(&["acme/app"]), &strings(&[""]));
    assert_eq!(dispatches.len(), 0);
    assert_eq!(r.get("acme/app"), "v1.2");
}

#[test]
fn state_reflects_last_fetch_per_repo() {
    let c = config(vec![rule("acme/app"), rule("acme/lib")]);
    let mut r = Record::new();
    r.set("acme/app", "v1.0");
    r.set("acme/lib", "v0.1");
    run_cycle(
        &c,
        &mut r,
        &strings(&["acme/app", "acme/lib"]),
        &strings(&["v2.0", ""]),
    );
    assert_eq!(r.get("acme/app"), "v2.0");
    assert_eq!(r.get("acme/lib"), "v0.1");
}

#[test]
fn second_cycle_with_same_fetch_is_idempotent() {
    let c = config(vec![rule("acme/app")]);
    let mut r = Record::new();
    let repos = strings(&["acme/app"]);
    let tags = strings(&["v1.0"]);
    let first = run_cycle(&c, &mut r, &repos, &tags);
    assert_eq!(first.len(), 1);
    let second = run_cycle(&c, &mut r, &repos, &tags);
    assert_eq!(second.len(), 0);
    assert_eq!(r.get("acme/app"), "v1.0");
}

#[test]
fn duplicate_entries_dispatch_at_most_once() {
    let mut one = rule("acme/app");
    one.workflow_id = "one.yml".to_string();
    let mut two = rule("acme/app");
    two.workflow_id = "two.yml".to_string();
    let c = config(vec![one, two]);
    let mut r = Record::new();
    // The repository list mirrors the trigger list, so the repeated target
    // appears twice; the fetcher answers alike both times.
    let dispatches = run_cycle(
        &c,
        &mut r,
        &strings(&["acme/app", "acme/app"]),
        &strings(&["v1.0", "v1.0"]),
    );
    assert_eq!(dispatches.len(), 1);
    assert_eq!(dispatches[0].workflow_id, "one.yml");
    assert_eq!(r.get("acme/app"), "v1.0");
}

#[test]
fn missing_workflow_fields_skip_dispatch_but_record() {
    let mut bad = rule("acme/app");
    bad.workflow_id = String::new();
    let c = config(vec![bad]);
    let mut r = Record::new();
    let o = observe_repo(&c, &mut r, "acme/app", "v1.0");
    assert!(matches!(o, Outcome::MissingWorkflow));
    assert_eq!(r.get("acme/app"), "v1.0");
}

#[test]
fn missing_token_skips_dispatch_but_records() {
    let mut bare = rule("acme/app");
    bare.token = None;
    let c = config(vec![bare]);
    let mut r = Record::new();
    let o = observe_repo(&c, &mut r, "acme/app", "v1.0");
    assert!(matches!(o, Outcome::MissingToken));
    assert_eq!(r.get("acme/app"), "v1.0");
}

#[test]
fn one_repo_failure_does_not_block_others() {
    let c = config(vec![rule("acme/app"), rule("acme/lib")]);
    let mut r = Record::new();
    let dispatches = run_cycle(
        &c,
        &mut r,
        &strings(&["acme/app", "acme/lib"]),
        &strings(&["", "v0.2"]),
    );
    assert_eq!(dispatches.len(), 1);
    assert_eq!(dispatches[0].target_repo, "acme/lib");
    assert_eq!(r.get("acme/app"), "");
    assert_eq!(r.get("acme/lib"), "v0.2");
}

use deeptracking::dependency::{Dependency, DependencyType};
use deeptracking::manager::{state_file_name, AnalyzerManager, FileAction};
use deeptracking::state::{FileState, ProjectState};

fn s(x: &str) -> String {
    x.to_string()
}

fn manager() -> AnalyzerManager {
    AnalyzerManager::new(s("/p/.deeptracking-state.json"), None, 7, vec![vec![s("rs")], vec![s("py")]])
}

fn deps(t: &str) -> Vec<Dependency> {
    vec![Dependency::new(s("/p/a.rs"), s(t), DependencyType::Import)]
}

#[test]
fn untracked_file_needs_analysis() {
    let m = manager();
    assert!(m.needs_analysis(&s("/p/a.rs"), 10, &s("h1")));
}

#[test]
fn unchanged_file_is_reused_and_run_is_idempotent() {
    let mut m = manager();
    m.update_file_state(s("/p/a.rs"), 10, s("h1"), deps("b"));
    m.finish_run(&vec![s("/p/a.rs")], 20);
    let first: Vec<String> = m.file_dependencies(&s("/p/a.rs")).iter().map(|d| d.target.clone()).collect();
    assert!(!m.needs_analysis(&s("/p/a.rs"), 10, &s("h1")));
    m.finish_run(&vec![s("/p/a.rs")], 30);
    let second: Vec<String> = m.file_dependencies(&s("/p/a.rs")).iter().map(|d| d.target.clone()).collect();
    assert_eq!(first, second);
    assert_eq!(m.project_state().tracked_paths(), vec![s("/p/a.rs")]);
    assert_eq!(m.project_state().get(&s("/p/a.rs")).unwrap().hash, "h1");
    assert_eq!(m.project_state().last_analysis(), 30);
}

#[test]
fn content_change_with_same_mtime_needs_analysis() {
    let mut m = manager();
    m.update_file_state(s("/p/a.rs"), 10, s("h1"), deps("b"));
    assert!(m.needs_analysis(&s("/p/a.rs"), 10, &s("h2")));
    assert!(m.needs_analysis(&s("/p/a.rs"), 5, &s("h2")));
}

#[test]
fn touched_mtime_needs_analysis() {
    let mut m = manager();
    m.update_file_state(s("/p/a.rs"), 10, s("h1"), deps("b"));
    assert!(m.needs_analysis(&s("/p/a.rs"), 11, &s("h1")));
    assert!(!m.needs_analysis(&s("/p/a.rs"), 9, &s("h1")));
}

#[test]
fn deleted_file_is_dropped() {
    let mut m = manager();
    m.update_file_state(s("/p/a.rs"), 10, s("h1"), deps("b"));
    m.update_file_state(s("/p/b.rs"), 10, s("h2"), deps("c"));
    m.finish_run(&vec![s("/p/b.rs")], 20);
    assert!(m.project_state().get(&s("/p/a.rs")).is_none());
    assert!(m.project_state().get(&s("/p/b.rs")).is_some());
    assert!(m.file_dependencies(&s("/p/a.rs")).is_empty());
}

#[test]
fn reanalysis_replaces_record() {
    let mut m = manager();
    m.update_file_state(s("/p/a.rs"), 10, s("h1"), deps("b"));
    m.update_file_state(s("/p/a.rs"), 12, s("h3"), deps("z"));
    assert_eq!(m.project_state().tracked_paths().len(), 1);
    let got = m.file_dependencies(&s("/p/a.rs"));
    assert_eq!(got.len(), 1);
    assert_eq!(got[0].target, "z");
}

#[test]
fn ignored_components() {
    let m = manager();
    assert!(m.is_ignored(&vec![s("p"), s("target"), s("x.rs")]));
    assert!(m.is_ignored(&vec![s(".git")]));
    assert!(m.is_ignored(&vec![s("p"), s(".deeptracking-state.json")]));
    assert!(m.is_ignored(&vec![s("node_modules"), s("x")]));
    assert!(m.is_ignored(&vec![s("__pycache__")]));
    assert!(!m.is_ignored(&vec![s("p"), s("targets"), s("x.rs")]));
    assert!(!m.is_ignored(&vec![]));
}

#[test]
fn languages_and_analyzers_by_extension() {
    let m = manager();
    assert_eq!(m.determine_language(&Some(s("rs"))), "Rust");
    assert_eq!(m.determine_language(&Some(s("py"))), "Python");
    assert_eq!(m.determine_language(&Some(s("go"))), "Unknown");
    assert_eq!(m.determine_language(&None), "Unknown");
    assert_eq!(m.get_analyzer_for_file(&Some(s("py"))), Some(1));
    assert_eq!(m.get_analyzer_for_file(&Some(s("rs"))), Some(0));
    assert_eq!(m.get_analyzer_for_file(&Some(s("md"))), None);
    assert_eq!(m.get_analyzer_for_file(&None), None);
    assert_eq!(state_file_name(), ".deeptracking-state.json");
    assert_eq!(m.state_file(), "/p/.deeptracking-state.json");
}

#[test]
fn state_from_persisted_records_keeps_last_per_path() {
    let st = ProjectState::from_files(
        5,
        vec![
            FileState { path: s("x"), last_modified: 1, dependencies: vec![], hash: s("a") },
            FileState { path: s("y"), last_modified: 2, dependencies: vec![], hash: s("b") },
            FileState { path: s("x"), last_modified: 3, dependencies: vec![], hash: s("c") },
        ],
    );
    assert_eq!(st.tracked_paths().len(), 2);
    assert_eq!(st.get(&s("x")).unwrap().hash, "c");
    assert_eq!(st.last_analysis(), 5);
    let m = AnalyzerManager::new(s("f"), Some(st), 9, vec![]);
    assert!(!m.needs_analysis(&s("x"), 3, &s("c")));
    assert_eq!(m.project_state().last_analysis(), 5);
}

#[test]
fn plan_file_actions() {
    let mut m = manager();
    assert_eq!(m.plan_file(&s("/p/a.md"), &Some(s("md")), 1, &s("h")), FileAction::Unsupported);
    assert_eq!(m.plan_file(&s("/p/a"), &None, 1, &s("h")), FileAction::Unsupported);
    assert_eq!(m.plan_file(&s("/p/a.py"), &Some(s("py")), 1, &s("h")), FileAction::Analyze(1));
    m.update_file_state(s("/p/a.py"), 1, s("h"), vec![]);
    assert_eq!(m.plan_file(&s("/p/a.py"), &Some(s("py")), 1, &s("h")), FileAction::Reuse);
    assert_eq!(m.plan_file(&s("/p/a.py"), &Some(s("py")), 1, &s("h2")), FileAction::Analyze(1));
}

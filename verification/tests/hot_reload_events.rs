use ruuter_on_rust::hot_reload::{batch_warrants_reload, FsEvent, FsEventKind, WatchedPath};

/// A path below the DSL root, given relative to it.
fn under_root(rel: &str) -> WatchedPath {
    let comps: Vec<String> = rel.split('/').map(|c| c.to_string()).collect();
    let name = comps.last().cloned();
    WatchedPath { rel: Some(comps), name }
}

fn debounced(kind: FsEventKind, paths: Vec<WatchedPath>) -> FsEvent {
    FsEvent { kind, paths }
}

#[test]
fn modify_data_on_yaml_triggers() {
    let ev = debounced(FsEventKind::ModifyData, vec![under_root("proj/GET/hello.yml")]);
    assert!(batch_warrants_reload(&vec![ev]));
}

#[test]
fn create_yaml_triggers() {
    let ev = debounced(FsEventKind::Create, vec![under_root("proj/GET/new.yaml")]);
    assert!(batch_warrants_reload(&vec![ev]));
}

#[test]
fn remove_yaml_triggers() {
    let ev = debounced(FsEventKind::Remove, vec![under_root("proj/GET/gone.yml")]);
    assert!(batch_warrants_reload(&vec![ev]));
}

#[test]
fn rename_yaml_triggers() {
    let ev = debounced(FsEventKind::ModifyName, vec![under_root("proj/GET/renamed.yml")]);
    assert!(batch_warrants_reload(&vec![ev]));
}

#[test]
fn create_guard_dot_file_triggers() {
    let ev = debounced(FsEventKind::Create, vec![under_root("proj/GET/nested/.guard")]);
    assert!(batch_warrants_reload(&vec![ev]));
}

#[test]
fn sibling_dot_guard_dot_yml_triggers() {
    let ev = debounced(FsEventKind::Create, vec![under_root("proj/GET/foo.guard.yml")]);
    assert!(batch_warrants_reload(&vec![ev]));
}

#[test]
#[allow(non_snake_case)]
fn metadata_modify_on_yaml_does_NOT_trigger() {
    let ev = debounced(FsEventKind::ModifyOther, vec![under_root("proj/GET/hello.yml")]);
    assert!(!batch_warrants_reload(&vec![ev]));
}

#[test]
#[allow(non_snake_case)]
fn access_open_does_NOT_trigger() {
    let ev = debounced(FsEventKind::Access, vec![under_root("proj/GET/hello.yml")]);
    assert!(!batch_warrants_reload(&vec![ev]));
}

#[test]
#[allow(non_snake_case)]
fn modify_any_does_NOT_trigger_on_yaml_path() {
    let ev = debounced(FsEventKind::ModifyOther, vec![under_root("proj/GET/hello.yml")]);
    assert!(!batch_warrants_reload(&vec![ev]));
}

#[test]
#[allow(non_snake_case)]
fn modify_data_on_non_yaml_does_NOT_trigger() {
    let ev = debounced(FsEventKind::ModifyData, vec![under_root("proj/GET/.hello.yml.swp")]);
    assert!(!batch_warrants_reload(&vec![ev]));
}

#[test]
#[allow(non_snake_case)]
fn modify_data_on_dot_ds_store_does_NOT_trigger() {
    let ev = debounced(FsEventKind::ModifyData, vec![under_root("proj/GET/.DS_Store")]);
    assert!(!batch_warrants_reload(&vec![ev]));
}

#[test]
#[allow(non_snake_case)]
fn modify_data_on_git_head_does_NOT_trigger() {
    let ev = debounced(FsEventKind::ModifyData, vec![under_root(".git/HEAD")]);
    assert!(!batch_warrants_reload(&vec![ev]));
}

#[test]
#[allow(non_snake_case)]
fn modify_data_under_triggers_subdir_does_NOT_trigger() {
    let ev = debounced(FsEventKind::ModifyData, vec![under_root("proj/triggers/topic/on-event.yml")]);
    assert!(!batch_warrants_reload(&vec![ev]));
}

#[test]
#[allow(non_snake_case)]
fn modify_data_under_sources_subdir_does_NOT_trigger() {
    let ev = debounced(FsEventKind::ModifyData, vec![under_root("proj/sources/stock-feed.yml")]);
    assert!(!batch_warrants_reload(&vec![ev]));
}

#[test]
#[allow(non_snake_case)]
fn modify_data_under_ws_outbound_does_NOT_trigger() {
    let ev = debounced(FsEventKind::ModifyData, vec![under_root("proj/WS/outbound/stock-feed.yml")]);
    assert!(!batch_warrants_reload(&vec![ev]));
}

#[test]
fn modify_data_under_ws_inbound_triggers() {
    let ev = debounced(FsEventKind::ModifyData, vec![under_root("proj/WS/inbound/echo.yml")]);
    assert!(batch_warrants_reload(&vec![ev]));
}

#[test]
fn modify_data_under_ws_legacy_direct_triggers() {
    let ev = debounced(FsEventKind::ModifyData, vec![under_root("proj/WS/echo.yml")]);
    assert!(batch_warrants_reload(&vec![ev]));
}

#[test]
#[allow(non_snake_case)]
fn modify_data_under_cronmanager_does_NOT_trigger() {
    let ev = debounced(FsEventKind::ModifyData, vec![under_root("proj/cronmanager-jobs/heartbeat.yaml")]);
    assert!(!batch_warrants_reload(&vec![ev]));
}

#[test]
fn batch_with_one_relevant_and_many_irrelevant_triggers() {
    let irrelevant = debounced(FsEventKind::ModifyOther, vec![under_root("proj/GET/hello.yml")]);
    let relevant = debounced(FsEventKind::ModifyData, vec![under_root("proj/POST/new.yml")]);
    assert!(batch_warrants_reload(&vec![irrelevant, relevant]));
}

#[test]
#[allow(non_snake_case)]
fn batch_of_only_metadata_events_does_NOT_trigger() {
    let a = debounced(FsEventKind::ModifyOther, vec![under_root("proj/GET/hello.yml")]);
    let b = debounced(FsEventKind::ModifyOther, vec![under_root("proj/GET/hello.yml")]);
    assert!(!batch_warrants_reload(&vec![a, b]));
}

#[test]
fn event_without_paths_treated_as_relevant() {
    let ev = debounced(FsEventKind::Create, vec![]);
    assert!(batch_warrants_reload(&vec![ev]));
}

#[test]
fn path_outside_root_is_judged_by_name() {
    let outside = WatchedPath { rel: None, name: Some("x.yml".to_string()) };
    assert!(batch_warrants_reload(&vec![debounced(FsEventKind::Create, vec![outside])]));
}

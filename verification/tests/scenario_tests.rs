//! End-to-end scenarios: one coordinator, a stream of messages, and checks
//! on the state and the outward actions after each.

use constellation::constellation::{Action, Constellation, Msg, NavigationDirection, WindowSize};
use constellation::pipeline::NavigationType;
use constellation::url::Url;

fn url(host: &str, path: &str) -> Url {
    Url { host: host.as_bytes().to_vec(), port: None, path: path.as_bytes().to_vec() }
}

fn size() -> WindowSize {
    WindowSize { width: 800, height: 600 }
}

fn registry_ids(c: &Constellation) -> Vec<u64> {
    let mut ids: Vec<u64> = c.pipelines.iter().map(|p| p.id).collect();
    ids.sort();
    ids
}

fn has_exit(actions: &[Action], id: u64) -> bool {
    actions.iter().any(|a| matches!(a, Action::ExitPipeline { id: x } if *x == id))
}

/// Bootstrap, then first renderer-ready: the root tree is published.
#[test]
fn bootstrap() {
    let mut c = Constellation::new();
    let (actions, go) = c.handle_request(Msg::InitLoadUrlMsg(url("a", "/"), size()));
    assert!(go);
    assert_eq!(actions.len(), 2);
    assert!(matches!(
        actions[0],
        Action::CreatePipeline { id: 0, subpage_id: None, script_worker: 0, .. }
    ));
    assert!(matches!(
        &actions[1],
        Action::LoadPipeline { id: 0, navigation_type: Some(NavigationType::Load), .. }
    ));
    assert_eq!(registry_ids(&c), vec![0]);
    assert_eq!(c.pending_frames.len(), 1);
    assert!(c.pending_frames[0].before.is_none());
    assert_eq!(c.pending_frames[0].after.pipeline_id, 0);

    let (actions, go) = c.handle_request(Msg::RendererReadyMsg(0));
    assert!(go);
    match &actions[0] {
        Action::SetIds { snapshot } => {
            assert_eq!(snapshot.pipeline.id, 0);
            assert!(snapshot.children.is_empty());
        },
        other => panic!("expected SetIds first, got {:?}", action_name(other)),
    }
    assert!(matches!(actions[1], Action::GrantPaintPermission { id: 0 }));
    assert_eq!(actions.len(), 2);
    assert!(c.navigation_context.previous.is_empty());
    assert!(c.navigation_context.next.is_empty());
    assert_eq!(c.navigation_context.current.as_ref().unwrap().pipeline_id, 0);
    assert!(c.pending_frames.is_empty());
}

fn action_name(a: &Action) -> &'static str {
    match a {
        Action::CreatePipeline { .. } => "CreatePipeline",
        Action::LoadPipeline { .. } => "LoadPipeline",
        Action::ReloadPipeline { .. } => "ReloadPipeline",
        Action::ExecutePipeline { .. } => "ExecutePipeline",
        Action::SetIds { .. } => "SetIds",
        Action::GrantPaintPermission { .. } => "GrantPaintPermission",
        Action::RevokePaintPermission { .. } => "RevokePaintPermission",
        Action::ResizeInactive { .. } => "ResizeInactive",
        Action::ExitPipeline { .. } => "ExitPipeline",
        Action::ExitImageCache => "ExitImageCache",
        Action::ExitResourceTask => "ExitResourceTask",
    }
}

fn bootstrapped() -> Constellation {
    let mut c = Constellation::new();
    c.handle_request(Msg::InitLoadUrlMsg(url("a", "/"), size()));
    c.handle_request(Msg::RendererReadyMsg(0));
    c
}

/// A same-origin iframe reuses the source's script worker and appears in the
/// current tree at once, with no pending change.
#[test]
fn iframe_load_same_origin() {
    let mut c = bootstrapped();
    let (actions, _) = c.handle_request(Msg::LoadIframeUrlMsg(url("a", "/child"), 0, 7, size()));
    assert!(matches!(
        actions[0],
        Action::CreatePipeline { id: 1, subpage_id: Some(7), script_worker: 0, .. }
    ));
    assert!(matches!(&actions[1], Action::LoadPipeline { id: 1, navigation_type: None, .. }));
    let cur = c.navigation_context.current.as_ref().unwrap();
    assert_eq!(cur.children.len(), 1);
    assert_eq!(cur.children[0].pipeline_id, 1);
    assert_eq!(cur.children[0].parent, Some(0));
    assert_eq!(registry_ids(&c), vec![0, 1]);
    assert!(c.pending_frames.is_empty());
}

/// A cross-origin iframe gets a fresh worker trio.
#[test]
fn iframe_load_cross_origin() {
    let mut c = bootstrapped();
    let (actions, _) = c.handle_request(Msg::LoadIframeUrlMsg(url("b", "/child"), 0, 7, size()));
    assert!(matches!(
        actions[0],
        Action::CreatePipeline { id: 1, subpage_id: Some(7), script_worker: 1, .. }
    ));
    let cur = c.navigation_context.current.as_ref().unwrap();
    assert_eq!(cur.children.len(), 1);
    assert_eq!(cur.children[0].pipeline_id, 1);
    assert_eq!(registry_ids(&c), vec![0, 1]);
}

/// A second load from the same source is dropped while one is pending.
#[test]
fn superseded_load_url() {
    let mut c = bootstrapped();
    let (_, _) = c.handle_request(Msg::LoadUrlMsg(0, url("a", "/p1"), size()));
    assert_eq!(c.pending_frames.len(), 1);
    assert_eq!(c.pending_frames[0].before, Some(0));
    assert_eq!(c.pending_frames[0].after.pipeline_id, 1);
    assert_eq!(registry_ids(&c), vec![0, 1]);

    let (actions, go) = c.handle_request(Msg::LoadUrlMsg(0, url("a", "/p2"), size()));
    assert!(go);
    assert!(actions.is_empty());
    assert_eq!(registry_ids(&c), vec![0, 1]);
    assert_eq!(c.pending_frames.len(), 1);
    assert_eq!(c.next_pipeline_id, 2);
}

/// Committing a pending load pushes the old page into history and keeps its
/// pipeline registered.
#[test]
fn commit_and_history() {
    let mut c = bootstrapped();
    c.handle_request(Msg::LoadUrlMsg(0, url("a", "/p1"), size()));
    c.handle_request(Msg::LoadUrlMsg(0, url("a", "/p2"), size()));
    let (actions, _) = c.handle_request(Msg::RendererReadyMsg(1));
    assert!(matches!(actions[0], Action::RevokePaintPermission { id: 0 }));
    match &actions[1] {
        Action::SetIds { snapshot } => assert_eq!(snapshot.pipeline.id, 1),
        other => panic!("expected SetIds, got {:?}", action_name(other)),
    }
    assert!(matches!(actions[2], Action::GrantPaintPermission { id: 1 }));
    assert_eq!(actions.len(), 3);
    assert_eq!(c.navigation_context.previous.len(), 1);
    assert_eq!(c.navigation_context.previous[0].pipeline_id, 0);
    assert_eq!(c.navigation_context.current.as_ref().unwrap().pipeline_id, 1);
    assert!(c.navigation_context.next.is_empty());
    assert_eq!(registry_ids(&c), vec![0, 1]);
    assert!(c.pending_frames.is_empty());
}

/// Going back and then loading a new page evicts the forward stack and exits
/// its pipelines where they survive nowhere else.
#[test]
fn back_then_new_load_evicts_forward_stack() {
    let mut c = bootstrapped();
    c.handle_request(Msg::LoadUrlMsg(0, url("a", "/p1"), size()));
    c.handle_request(Msg::RendererReadyMsg(1));

    let (actions, _) = c.handle_request(Msg::NavigateMsg(NavigationDirection::Back));
    assert!(matches!(actions[0], Action::RevokePaintPermission { id: 1 }));
    assert!(actions.iter().any(|a| matches!(
        a,
        Action::ReloadPipeline { id: 0, navigation_type: NavigationType::Navigate }
    )));
    assert_eq!(c.navigation_context.current.as_ref().unwrap().pipeline_id, 0);
    assert_eq!(c.navigation_context.next.len(), 1);
    assert_eq!(c.navigation_context.next[0].pipeline_id, 1);

    c.handle_request(Msg::LoadUrlMsg(0, url("a", "/p3"), size()));
    let (actions, _) = c.handle_request(Msg::RendererReadyMsg(2));
    assert!(has_exit(&actions, 1));
    assert!(!has_exit(&actions, 0));
    assert_eq!(registry_ids(&c), vec![0, 2]);
    assert!(c.navigation_context.next.is_empty());
    assert_eq!(c.navigation_context.current.as_ref().unwrap().pipeline_id, 2);
    assert_eq!(c.navigation_context.previous.len(), 1);
    assert_eq!(c.navigation_context.previous[0].pipeline_id, 0);
}

/// A renderer-ready for an id that no pending change and no current frame
/// holds is ignored.
#[test]
fn renderer_ready_unknown_is_noop() {
    let mut c = bootstrapped();
    let before_registry = registry_ids(&c);
    let (actions, go) = c.handle_request(Msg::RendererReadyMsg(42));
    assert!(go);
    assert!(actions.is_empty());
    assert_eq!(registry_ids(&c), before_registry);
    assert_eq!(c.navigation_context.current.as_ref().unwrap().pipeline_id, 0);
}

/// A renderer-ready for a pipeline already in the current tree republishes
/// the current tree and changes nothing.
#[test]
fn renderer_ready_current_republishes() {
    let mut c = bootstrapped();
    let (actions, _) = c.handle_request(Msg::RendererReadyMsg(0));
    match &actions[0] {
        Action::SetIds { snapshot } => assert_eq!(snapshot.pipeline.id, 0),
        other => panic!("expected SetIds, got {:?}", action_name(other)),
    }
    assert!(matches!(actions[1], Action::GrantPaintPermission { id: 0 }));
    assert!(c.pending_frames.is_empty());
}

/// Navigating against an empty stack does nothing.
#[test]
fn navigate_empty_stack_is_noop() {
    let mut c = bootstrapped();
    let (actions, go) = c.handle_request(Msg::NavigateMsg(NavigationDirection::Forward));
    assert!(go);
    assert!(actions.is_empty());
    let (actions, _) = c.handle_request(Msg::NavigateMsg(NavigationDirection::Back));
    assert!(actions.is_empty());
}

/// Back then forward restores the prior current tree.
#[test]
fn forward_undoes_back() {
    let mut c = bootstrapped();
    c.handle_request(Msg::LoadUrlMsg(0, url("a", "/p1"), size()));
    c.handle_request(Msg::RendererReadyMsg(1));
    c.handle_request(Msg::NavigateMsg(NavigationDirection::Back));
    assert_eq!(c.navigation_context.current.as_ref().unwrap().pipeline_id, 0);
    c.handle_request(Msg::NavigateMsg(NavigationDirection::Forward));
    assert_eq!(c.navigation_context.current.as_ref().unwrap().pipeline_id, 1);
    assert_eq!(c.navigation_context.previous.len(), 1);
    assert!(c.navigation_context.next.is_empty());
}

/// A script-only URL is executed, never loaded, and leaves no pending change.
#[test]
fn script_only_url_is_executed() {
    let mut c = Constellation::new();
    let (actions, _) = c.handle_request(Msg::InitLoadUrlMsg(url("a", "/boot.js"), size()));
    assert!(matches!(actions[1], Action::ExecutePipeline { id: 0, .. }));
    assert!(c.pending_frames.is_empty());
    assert_eq!(registry_ids(&c), vec![0]);
    assert!(c.pipelines[0].url.is_none());
}

/// Resizing tells exactly the pipelines of the back and forward stacks that
/// the current tree does not show.
#[test]
fn resize_reaches_inactive_pipelines() {
    let mut c = bootstrapped();
    c.handle_request(Msg::LoadUrlMsg(0, url("a", "/p1"), size()));
    c.handle_request(Msg::RendererReadyMsg(1));
    let new_size = WindowSize { width: 1024, height: 768 };
    let (actions, _) = c.handle_request(Msg::ResizedWindowBroadcast(new_size));
    assert_eq!(actions.len(), 1);
    assert!(matches!(actions[0], Action::ResizeInactive { id: 0, size } if size == new_size));
}

/// Exit shuts down every pipeline, then the image cache, then the resource
/// task, and stops the loop.
#[test]
fn exit_shuts_everything_down() {
    let mut c = bootstrapped();
    c.handle_request(Msg::LoadIframeUrlMsg(url("a", "/child"), 0, 7, size()));
    let (actions, go) = c.handle_request(Msg::ExitMsg);
    assert!(!go);
    assert_eq!(actions.len(), 4);
    assert!(has_exit(&actions, 0));
    assert!(has_exit(&actions, 1));
    assert!(matches!(actions[2], Action::ExitImageCache));
    assert!(matches!(actions[3], Action::ExitResourceTask));
}

/// An iframe appears in every copy of its source frame, pending trees
/// included.
#[test]
fn iframe_attaches_into_pending_trees() {
    let mut c = bootstrapped();
    c.handle_request(Msg::LoadUrlMsg(0, url("a", "/p1"), size()));
    // Pipeline 1 is pending; its document parses an iframe of its own.
    let (_, _) = c.handle_request(Msg::LoadIframeUrlMsg(url("a", "/inner"), 1, 3, size()));
    assert_eq!(c.pending_frames.len(), 1);
    let after = &c.pending_frames[0].after;
    assert_eq!(after.pipeline_id, 1);
    assert_eq!(after.children.len(), 1);
    assert_eq!(after.children[0].pipeline_id, 2);
    assert_eq!(after.children[0].parent, Some(1));
    // The current tree does not hold pipeline 1, so it gains nothing.
    assert!(c.navigation_context.current.as_ref().unwrap().children.is_empty());
}

use ironland_copositor::focus_grab::{check, FocusGrabManagerState};
use ironland_copositor::foreign_toplevel::{is_activated, ForeignToplevelManagerState, Instance};
use ironland_copositor::session::{announce_session_end, session_environment, session_start_commands};
use ironland_copositor::workspace_groups::WorkspaceGroups;
use ironland_copositor::workspace_windows::WorkspaceWindowsState;

#[test]
fn focus_grab_check_clears_grabs_elsewhere() {
    let mut grabs = FocusGrabManagerState::new();
    grabs.grab(10, 100);
    grabs.grab(11, 101);
    grabs.grab(10, 102);
    assert_eq!(check(&mut grabs, Some(10)), vec![101]);
    assert!(check(&mut grabs, Some(10)).is_empty());
    assert_eq!(check(&mut grabs, None), vec![100, 102]);
    assert!(check(&mut grabs, None).is_empty());
}

#[test]
fn destroyed_grab_is_not_notified() {
    let mut grabs = FocusGrabManagerState::new();
    grabs.grab(10, 100);
    grabs.grab(11, 101);
    grabs.destroyed(101);
    assert_eq!(check(&mut grabs, Some(12)), vec![100]);
}

#[test]
fn toplevel_handles_follow_the_window_list() {
    let mut inst = Instance::new(7);
    assert_eq!(inst.manager(), 7);
    assert!(inst.retain_present(&vec![1, 2]).is_empty());
    for (w, r) in [(1u64, 50u64), (2, 51)] {
        assert_eq!(inst.handle_for(w), None);
        inst.add_handle(w, r);
    }
    assert_eq!(inst.handle_for(2), Some(51));
    assert_eq!(inst.retain_present(&vec![2, 3]), vec![50]);
    assert_eq!(inst.handle_for(1), None);
    assert_eq!(inst.handle_for(2), Some(51));
    inst.handle_destroyed(51);
    assert_eq!(inst.handle_for(2), None);
    assert!(is_activated(Some(3), 3));
    assert!(!is_activated(Some(3), 2));
    assert!(!is_activated(None, 2));
}

#[test]
fn toplevel_manager_drops_destroyed_instances_and_handles() {
    let mut state = ForeignToplevelManagerState::new();
    let mut a = Instance::new(1);
    a.add_handle(5, 500);
    let mut b = Instance::new(2);
    b.add_handle(5, 501);
    state.instances.push(a);
    state.instances.push(b);
    state.handle_destroyed(500);
    assert_eq!(state.instances[0].handle_for(5), None);
    assert_eq!(state.instances[1].handle_for(5), Some(501));
    state.manager_destroyed(1);
    assert_eq!(state.instances.len(), 1);
    assert_eq!(state.instances[0].manager(), 2);
}

#[test]
fn workspace_windows_bound_objects() {
    let mut s = WorkspaceWindowsState::new();
    s.bind(3);
    s.bind(4);
    s.bind(3);
    assert_eq!(s.bound(), vec![3, 4, 3]);
    s.destroyed(3);
    assert_eq!(s.bound(), vec![4]);
}

#[test]
fn workspace_groups_track_names_order_and_activation() {
    let mut g = WorkspaceGroups::new();
    g.add_group(1);
    g.add_group(2);
    g.set_output(1, Some("eDP-1".to_string()));
    g.workspace_enter(1, 10, Some("1".to_string()), true);
    g.workspace_enter(1, 11, None, false);
    assert!(g.rename_workspace(11, "2".to_string()));
    assert!(!g.rename_workspace(99, "x".to_string()));
    g.workspace_enter(2, 20, Some("a".to_string()), true);
    let snap = g.snapshot();
    assert_eq!(snap.len(), 1);
    assert_eq!(snap[0].0, "eDP-1");
    assert_eq!(snap[0].1, vec![(0, "1".to_string(), true), (1, "2".to_string(), false)]);
    assert_eq!(g.activation_target("eDP-1", 1), Some(11));
    assert_eq!(g.activation_target("eDP-1", 2), None);
    assert_eq!(g.activation_target("HDMI-A-1", 0), None);

    assert!(g.set_workspace_active(10, false));
    assert!(g.set_workspace_active(11, true));
    g.workspace_leave(1, 10);
    let snap = g.snapshot();
    assert_eq!(snap[0].1, vec![(0, "2".to_string(), true)]);
    assert_eq!(g.activation_target("eDP-1", 0), Some(11));

    g.set_output(2, Some("DP-1".to_string()));
    assert_eq!(g.snapshot().len(), 2);
    g.group_removed(1);
    let snap = g.snapshot();
    assert_eq!(snap.len(), 1);
    assert_eq!(snap[0].0, "DP-1");
}

#[test]
fn session_commands_and_environment() {
    let env = session_environment(Some("wayland-1"));
    assert_eq!(env[0], ("WAYLAND_DISPLAY".to_string(), "wayland-1".to_string()));
    assert_eq!(env.len(), 3);
    assert_eq!(session_environment(None).len(), 2);
    let cmds = session_start_commands();
    assert_eq!(cmds.len(), 3);
    assert_eq!(cmds[0].program, "systemctl");
    assert_eq!(cmds[0].args, vec!["--user", "import-environment", "WAYLAND_DISPLAY", "XDG_CURRENT_DESKTOP", "XDG_SESSION_TYPE"]);
    assert_eq!(cmds[1].program, "dbus-update-activation-environment");
    let end = announce_session_end();
    assert_eq!(end.program, "systemctl");
    assert_eq!(end.args, vec!["--user", "stop", "graphical-session.target"]);
}

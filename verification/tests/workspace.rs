use ironland_copositor::shell::workspace::target_index;

#[test]
fn target_index_steps_within_bounds() {
    assert_eq!(target_index(1, 4, 1, false), Some(2));
    assert_eq!(target_index(1, 4, -1, false), Some(0));
}

#[test]
fn target_index_fixed_mode_clamps_at_edges() {
    assert_eq!(target_index(0, 4, -1, false), None);
    assert_eq!(target_index(3, 4, 1, false), None);
}

#[test]
fn target_index_dynamic_mode_grows_past_the_last_workspace() {
    assert_eq!(target_index(3, 4, 1, true), Some(4));
    assert_eq!(target_index(0, 4, -1, true), None);
}

use ironland_copositor::geometry::Rect;
use ironland_copositor::shell::tiling::{apply_layout, tile_new_window};
use ironland_copositor::shell::workspace::{
    activate_workspace, assign_new_window, cleanup_dead, init_output, mark_floating, move_focused_window,
    overlay_info, switch_workspace, WorkspaceMode, WorkspaceSettings,
};
use ironland_copositor::shell::{Action, OutputState, Shell};

fn shell(mode: WorkspaceMode, dynamic: bool, outputs: usize) -> Shell {
    let mut shell = Shell::new(WorkspaceSettings { mode, count: 3, dynamic, overlay: true });
    for k in 0..outputs {
        let r = Rect::new(1000 * k as i32, 0, 1000, 800);
        shell.outputs.push(OutputState::new(k as u64, r, r));
        init_output(&mut shell, k);
    }
    shell
}

#[test]
fn switching_hides_the_old_workspace_and_shows_the_new_one() {
    let mut s = shell(WorkspaceMode::PerMonitor, false, 1);
    assert_eq!(overlay_info(&s, 0), (0, 3));
    tile_new_window(&mut s, 1, Some(0), None);
    tile_new_window(&mut s, 2, Some(0), Some(1));
    let alive = vec![1, 2];
    let acts = switch_workspace(&mut s, 0, 1, &alive);
    assert_eq!(acts, vec![Action::Unmap(1), Action::Unmap(2), Action::ApplyLayout(0), Action::ClearFocus, Action::ShowOverlay]);
    assert_eq!(overlay_info(&s, 0), (1, 3));
    assert!(apply_layout(&s, 0).is_empty());
    let acts = switch_workspace(&mut s, 0, -1, &alive);
    assert_eq!(acts, vec![Action::ApplyLayout(0), Action::RaiseAndFocus(1), Action::ShowOverlay]);
    assert_eq!(apply_layout(&s, 0).len(), 2);
    assert!(switch_workspace(&mut s, 0, -1, &alive).is_empty());
    assert_eq!(overlay_info(&s, 0), (0, 3));
}

#[test]
fn fixed_mode_stops_at_the_last_workspace_and_dynamic_mode_grows() {
    let mut s = shell(WorkspaceMode::PerMonitor, false, 1);
    let alive: Vec<u64> = vec![];
    activate_workspace(&mut s, 0, 2, &alive);
    assert!(switch_workspace(&mut s, 0, 1, &alive).is_empty());
    assert_eq!(overlay_info(&s, 0), (2, 3));

    let mut d = shell(WorkspaceMode::PerMonitor, true, 1);
    activate_workspace(&mut d, 0, 2, &alive);
    switch_workspace(&mut d, 0, 1, &alive);
    assert_eq!(overlay_info(&d, 0), (3, 4));
    switch_workspace(&mut d, 0, -1, &alive);
    assert_eq!(overlay_info(&d, 0), (2, 3));
}

#[test]
fn combined_mode_switches_every_output() {
    let mut s = shell(WorkspaceMode::Combined, false, 2);
    let alive: Vec<u64> = vec![];
    switch_workspace(&mut s, 1, 1, &alive);
    assert_eq!(overlay_info(&s, 0), (1, 3));
    assert_eq!(overlay_info(&s, 1), (1, 3));
}

#[test]
fn moving_a_window_takes_it_to_the_neighbouring_workspace() {
    let mut s = shell(WorkspaceMode::PerMonitor, false, 1);
    tile_new_window(&mut s, 1, Some(0), None);
    tile_new_window(&mut s, 2, Some(0), Some(1));
    let alive = vec![1, 2];
    let acts = move_focused_window(&mut s, 1, Some(2), &alive);
    assert_eq!(acts, vec![Action::ApplyLayout(0), Action::Unmap(2), Action::RaiseAndFocus(1), Action::ShowOverlay]);
    assert_eq!(apply_layout(&s, 0), vec![(1, Rect::new(0, 0, 1000, 800))]);
    switch_workspace(&mut s, 0, 1, &alive);
    assert_eq!(apply_layout(&s, 0), vec![(2, Rect::new(0, 0, 1000, 800))]);
    assert!(move_focused_window(&mut s, 1, None, &alive).is_empty());
}

#[test]
fn floating_windows_are_remembered_and_cleaned_up() {
    let mut s = shell(WorkspaceMode::PerMonitor, false, 1);
    assign_new_window(&mut s, 5, 0, true);
    assert_eq!(mark_floating(&mut s, 6, 0, 0), vec![Action::RememberPosition(6)]);
    let alive = vec![5, 6];
    let acts = switch_workspace(&mut s, 0, 1, &alive);
    assert_eq!(
        acts,
        vec![
            Action::RememberPosition(5),
            Action::Unmap(5),
            Action::RememberPosition(6),
            Action::Unmap(6),
            Action::ApplyLayout(0),
            Action::ClearFocus,
            Action::ShowOverlay,
        ]
    );
    assert!(cleanup_dead(&mut s, &vec![6]));
    assert!(!cleanup_dead(&mut s, &vec![6]));
    let acts = switch_workspace(&mut s, 0, -1, &vec![6]);
    assert_eq!(acts, vec![Action::ApplyLayout(0), Action::MapFloating(6), Action::RaiseAndFocus(6), Action::ShowOverlay]);
}

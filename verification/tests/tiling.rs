use ironland_copositor::geometry::Rect;
use ironland_copositor::shell::tiling::{
    cleanup_dead, directional_score, focus_direction, nearest_neighbor, neighbor, resize_tiled,
    retile_all_outputs, should_tile, swap_direction, tile_new_window, toggle_floating, untile_window,
    apply_layout, Direction, TilingLayout,
};
use ironland_copositor::shell::workspace::{WorkspaceMode, WorkspaceSettings};
use ironland_copositor::shell::{Action, OutputState, Shell};
use ironland_copositor::geometry::Size;

fn area() -> Rect {
    Rect::new(0, 0, 1000, 800)
}

fn three_windows() -> TilingLayout {
    let mut t = TilingLayout::new();
    t.insert(1, area(), None);
    t.insert(2, area(), None);
    t.insert(3, area(), Some(2));
    t
}

fn settings() -> WorkspaceSettings {
    WorkspaceSettings { mode: WorkspaceMode::PerMonitor, count: 4, dynamic: false, overlay: false }
}

fn shell_with_outputs(n: usize) -> Shell {
    let mut shell = Shell::new(settings());
    for k in 0..n {
        let x = 1000 * k as i32;
        shell.outputs.push(OutputState::new(k as u64, Rect::new(x, 0, 1000, 800), Rect::new(x, 0, 1000, 800)));
    }
    shell
}

#[test]
fn first_window_fills_the_area() {
    let mut t = TilingLayout::new();
    assert!(t.is_empty());
    t.insert(7, area(), None);
    assert!(!t.is_empty());
    assert!(t.contains(7));
    assert_eq!(t.layout(area()), vec![(7, area())]);
}

#[test]
fn second_window_splits_the_last_one_along_its_longer_side() {
    let mut t = TilingLayout::new();
    t.insert(1, area(), None);
    t.insert(2, area(), None);
    assert_eq!(t.layout(area()), vec![(1, Rect::new(0, 0, 496, 800)), (2, Rect::new(504, 0, 496, 800))]);
}

#[test]
fn insert_next_to_target_splits_that_window() {
    let t = three_windows();
    assert_eq!(t.windows(), vec![1, 2, 3]);
    assert_eq!(
        t.layout(area()),
        vec![
            (1, Rect::new(0, 0, 496, 800)),
            (2, Rect::new(504, 0, 496, 396)),
            (3, Rect::new(504, 404, 496, 396)),
        ]
    );
}

#[test]
fn insert_with_unknown_target_uses_the_last_inserted_window() {
    let mut t = three_windows();
    t.insert(4, area(), Some(99));
    assert_eq!(t.windows(), vec![1, 2, 3, 4]);
    assert_eq!(
        t.layout(area())[3],
        (4, Rect::new(756, 404, 244, 396))
    );
}

#[test]
fn remove_collapses_the_parent_split() {
    let mut t = three_windows();
    assert!(t.remove(2));
    assert_eq!(t.layout(area()), vec![(1, Rect::new(0, 0, 496, 800)), (3, Rect::new(504, 0, 496, 800))]);
    assert!(!t.remove(2));
    assert!(t.remove(1));
    assert!(t.remove(3));
    assert!(t.is_empty());
}

#[test]
fn remove_undoes_insert() {
    let before = three_windows();
    let mut t = three_windows();
    t.insert(9, area(), Some(1));
    assert!(t.remove(9));
    assert_eq!(t.layout(area()), before.layout(area()));
}

#[test]
fn swap_exchanges_places_and_twice_restores() {
    let mut t = three_windows();
    t.swap(1, 3);
    assert_eq!(t.windows(), vec![3, 2, 1]);
    assert_eq!(t.layout(area())[0], (3, Rect::new(0, 0, 496, 800)));
    t.swap(1, 3);
    assert_eq!(t.layout(area()), three_windows().layout(area()));
}

#[test]
fn adjust_ratio_grows_and_clamps() {
    let mut t = three_windows();
    t.adjust_ratio(1, true, 50);
    assert_eq!(t.layout(area())[0], (1, Rect::new(0, 0, 546, 800)));
    for _ in 0..20 {
        t.adjust_ratio(1, true, 50);
    }
    assert_eq!(t.layout(area())[0], (1, Rect::new(0, 0, 896, 800)));
    t.adjust_ratio(3, true, 50);
    assert_eq!(t.layout(area())[0], (1, Rect::new(0, 0, 846, 800)));
    assert_eq!(t.windows(), vec![1, 2, 3]);
}

#[test]
fn retain_alive_drops_dead_windows() {
    let mut t = three_windows();
    assert!(!t.retain_alive(&vec![1, 2, 3]));
    assert!(t.retain_alive(&vec![3]));
    assert_eq!(t.layout(area()), vec![(3, area())]);
    assert!(t.retain_alive(&vec![]));
    assert!(t.is_empty());
}

#[test]
fn directional_scores_prefer_aligned_neighbors() {
    assert_eq!(directional_score(Direction::Right, (0, 0), (10, 0)), Some(40));
    assert_eq!(directional_score(Direction::Right, (0, 0), (-10, 0)), None);
    assert_eq!(directional_score(Direction::Down, (0, 0), (3, 10)), Some(43));
    assert_eq!(directional_score(Direction::Left, (0, 0), (-10, 4)), Some(44));
    assert_eq!(directional_score(Direction::Right, (i32::MAX, 0), (-1, 0)), None);
    assert_eq!(directional_score(Direction::Left, (i32::MAX, 0), (0, 0)), Some(4 * i32::MAX as i64));
}

#[test]
fn neighbor_follows_direction() {
    let t = three_windows();
    let rects = t.layout(area());
    assert_eq!(neighbor(&rects, 1, Direction::Right), Some(2));
    assert_eq!(neighbor(&rects, 2, Direction::Down), Some(1));
    assert_eq!(neighbor(&rects, 3, Direction::Up), Some(1));
    assert_eq!(neighbor(&rects, 3, Direction::Right), None);
    assert_eq!(neighbor(&rects, 1, Direction::Left), None);
    assert_eq!(neighbor(&rects, 42, Direction::Left), None);
    assert!(nearest_neighbor(&rects, 1).is_some());
}

#[test]
fn should_tile_skips_dialogs_and_fixed_size_windows() {
    let zero = Size { w: 0, h: 0 };
    let fixed = Size { w: 300, h: 200 };
    assert!(should_tile(false, zero, zero));
    assert!(!should_tile(true, zero, zero));
    assert!(!should_tile(false, fixed, fixed));
    assert!(should_tile(false, fixed, Size { w: 600, h: 200 }));
}

#[test]
fn shell_tiles_and_untiles_windows() {
    let mut shell = shell_with_outputs(1);
    let acts = tile_new_window(&mut shell, 1, Some(0), None);
    assert_eq!(acts, vec![Action::ApplyLayout(0), Action::RaiseAndFocus(1)]);
    tile_new_window(&mut shell, 2, Some(0), Some(1));
    assert_eq!(apply_layout(&shell, 0), vec![(1, Rect::new(0, 0, 496, 800)), (2, Rect::new(504, 0, 496, 800))]);
    let (removed, acts) = untile_window(&mut shell, 1);
    assert!(removed);
    assert_eq!(acts, vec![Action::RememberPosition(1), Action::ApplyLayout(0)]);
    assert_eq!(apply_layout(&shell, 0), vec![(2, Rect::new(0, 0, 1000, 800))]);
    let (removed, acts) = untile_window(&mut shell, 1);
    assert!(!removed);
    assert!(acts.is_empty());
}

#[test]
fn toggle_floating_moves_a_window_out_of_and_back_into_the_tree() {
    let mut shell = shell_with_outputs(1);
    tile_new_window(&mut shell, 1, Some(0), None);
    tile_new_window(&mut shell, 2, Some(0), Some(1));
    toggle_floating(&mut shell, 2, Some(0), Some(2));
    assert_eq!(apply_layout(&shell, 0), vec![(1, Rect::new(0, 0, 1000, 800))]);
    toggle_floating(&mut shell, 2, Some(0), Some(1));
    assert_eq!(apply_layout(&shell, 0).len(), 2);
}

#[test]
fn focus_swap_and_resize_follow_the_layout() {
    let mut shell = shell_with_outputs(2);
    tile_new_window(&mut shell, 1, Some(0), None);
    tile_new_window(&mut shell, 2, Some(0), Some(1));
    tile_new_window(&mut shell, 5, Some(1), None);
    let alive = vec![1, 2, 5];
    assert_eq!(focus_direction(&shell, Direction::Right, Some(1), &alive), vec![Action::RaiseAndFocus(2)]);
    assert_eq!(focus_direction(&shell, Direction::Right, Some(2), &alive), vec![Action::RaiseAndFocus(5)]);
    assert!(focus_direction(&shell, Direction::Left, Some(1), &alive).is_empty());
    assert!(focus_direction(&shell, Direction::Left, None, &alive).is_empty());

    let acts = swap_direction(&mut shell, Direction::Right, Some(1));
    assert_eq!(acts, vec![Action::ApplyLayout(0), Action::RaiseAndFocus(1)]);
    assert_eq!(apply_layout(&shell, 0)[0].0, 2);

    let acts = resize_tiled(&mut shell, Direction::Right, Some(2));
    assert_eq!(acts, vec![Action::ApplyLayout(0)]);
    assert_eq!(apply_layout(&shell, 0)[0].1, Rect::new(0, 0, 546, 800));

    assert_eq!(retile_all_outputs(&shell), vec![Action::ApplyLayout(0), Action::ApplyLayout(1)]);
}

#[test]
fn cleanup_dead_drops_closed_windows() {
    let mut shell = shell_with_outputs(1);
    tile_new_window(&mut shell, 1, Some(0), None);
    tile_new_window(&mut shell, 2, Some(0), Some(1));
    let (changed, _acts) = cleanup_dead(&mut shell, &vec![1, 2], Some(1));
    assert!(!changed);
    let (changed, _acts) = cleanup_dead(&mut shell, &vec![1], Some(2));
    assert!(changed);
    assert_eq!(apply_layout(&shell, 0), vec![(1, Rect::new(0, 0, 1000, 800))]);
}

#[test]
fn layout_range_check_follows_the_split_arithmetic() {
    let t = three_windows();
    assert!(t.check_in_range(area()));
    assert!(t.check_in_range(Rect::new(i32::MAX - 2000, 0, 1000, 800)));
    assert!(!t.check_in_range(Rect::new(i32::MAX - 500, 0, 1000, 800)));
    assert!(TilingLayout::new().check_in_range(Rect::new(i32::MAX, i32::MAX, i32::MAX, i32::MAX)));
    let mut one = TilingLayout::new();
    one.insert(1, area(), None);
    assert!(one.check_in_range(Rect::new(i32::MIN, i32::MIN, i32::MAX, i32::MAX)));
}

#[test]
fn toggle_floating_takes_a_floating_window_off_the_floating_list() {
    let mut shell = shell_with_outputs(1);
    tile_new_window(&mut shell, 1, Some(0), None);
    tile_new_window(&mut shell, 2, Some(0), Some(1));
    toggle_floating(&mut shell, 2, Some(0), Some(2));
    assert_eq!(shell.outputs[0].workspaces.floating_at(0), vec![2]);
    toggle_floating(&mut shell, 2, Some(0), Some(1));
    assert!(shell.outputs[0].workspaces.floating_at(0).is_empty());
    assert_eq!(apply_layout(&shell, 0).len(), 2);
}

#[test]
fn resize_toward_left_grows_the_second_window() {
    let mut shell = shell_with_outputs(1);
    tile_new_window(&mut shell, 1, Some(0), None);
    tile_new_window(&mut shell, 2, Some(0), Some(1));
    let acts = resize_tiled(&mut shell, Direction::Left, Some(2));
    assert_eq!(acts, vec![Action::ApplyLayout(0)]);
    let layout = apply_layout(&shell, 0);
    assert_eq!(layout[0], (1, Rect::new(0, 0, 446, 800)));
    assert_eq!(layout[1].0, 2);
    assert!(layout[1].1.size.w > layout[0].1.size.w);
}

#[test]
fn swap_exchanges_layout_rectangles() {
    let mut t = three_windows();
    let before = t.layout(area());
    t.swap(1, 3);
    let after = t.layout(area());
    let renamed: Vec<(u64, Rect)> = before
        .iter()
        .map(|(w, r)| (if *w == 1 { 3 } else if *w == 3 { 1 } else { *w }, *r))
        .collect();
    assert_eq!(after, renamed);
    assert_eq!(after[0], (3, before[0].1));
}

#[test]
fn tiling_works_far_from_the_origin() {
    let mut shell = Shell::new(settings());
    let x = 0x7000_0000;
    shell.outputs.push(OutputState::new(0, Rect::new(x, 0, 1000, 800), Rect::new(x, 0, 1000, 800)));
    tile_new_window(&mut shell, 1, Some(0), None);
    tile_new_window(&mut shell, 2, Some(0), Some(1));
    assert_eq!(apply_layout(&shell, 0), vec![(1, Rect::new(x, 0, 496, 800)), (2, Rect::new(x + 504, 0, 496, 800))]);
    let alive = vec![1, 2];
    assert_eq!(focus_direction(&shell, Direction::Right, Some(1), &alive), vec![Action::RaiseAndFocus(2)]);
    let acts = swap_direction(&mut shell, Direction::Right, Some(1));
    assert_eq!(acts, vec![Action::ApplyLayout(0), Action::RaiseAndFocus(1)]);
    assert_eq!(apply_layout(&shell, 0)[1], (1, Rect::new(x + 504, 0, 496, 800)));
}

use ironland_copositor::drawing::{digit_atlas_rect, truncate, BufferStep, FpsCounter, LauncherState};
use ironland_copositor::geometry::{Rect, Size};
use ironland_copositor::launcher::DesktopEntry;
use ironland_copositor::wallpaper::{cover_crop, cover_target, WallpaperCache};

fn entry(name: &str) -> DesktopEntry {
    DesktopEntry { id: format!("{name}.desktop"), name: name.to_string(), command: name.to_lowercase(), terminal: false }
}

fn entries() -> Vec<DesktopEntry> {
    vec![entry("Files"), entry("Firefox"), entry("Terminal"), entry("Calculator")]
}

#[test]
fn truncate_keeps_short_names_and_marks_cut_ones() {
    assert_eq!(truncate("Files", 10), "Files");
    assert_eq!(truncate("Files", 5), "Files");
    assert_eq!(truncate("Calculator", 6), "Calc..");
    assert_eq!(truncate("Calculator", 1), "..");
    assert_eq!(truncate("日本語テキスト", 4), "日本..");
}

#[test]
fn launcher_opens_with_every_entry_listed() {
    let mut l = LauncherState::default();
    assert!(!l.is_visible());
    l.open(entries());
    assert!(l.is_visible());
    let rows = l.display_rows(40);
    let names: Vec<&str> = rows.iter().map(|(n, _)| n.as_str()).collect();
    assert_eq!(names, vec!["Files", "Firefox", "Terminal", "Calculator"]);
    assert!(rows[0].1 && !rows[1].1);
    assert_eq!(l.prompt(), "> ");
}

#[test]
fn launcher_filters_as_the_query_grows_and_shrinks() {
    let mut l = LauncherState::default();
    l.open(entries());
    l.push_char('f');
    l.push_char('i');
    assert_eq!(l.prompt(), "> fi");
    let names: Vec<String> = l.display_rows(40).into_iter().map(|(n, _)| n).collect();
    assert_eq!(names, vec!["Files", "Firefox"]);
    l.push_char('r');
    let names: Vec<String> = l.display_rows(40).into_iter().map(|(n, _)| n).collect();
    assert_eq!(names, vec!["Firefox"]);
    l.backspace();
    l.backspace();
    l.backspace();
    l.backspace();
    assert_eq!(l.prompt(), "> ");
    assert_eq!(l.display_rows(40).len(), 4);
}

#[test]
fn launcher_selection_wraps_and_activation_closes() {
    let mut l = LauncherState::default();
    l.open(entries());
    l.move_selection(-1);
    let rows = l.display_rows(40);
    assert!(rows[3].1);
    l.move_selection(2);
    assert!(l.display_rows(40)[1].1);
    let picked = l.activate().unwrap();
    assert_eq!(picked.name, "Firefox");
    assert_eq!(picked.command, "firefox");
    assert!(!l.is_visible());
}

#[test]
fn launcher_with_no_match_activates_nothing() {
    let mut l = LauncherState::default();
    l.open(entries());
    l.push_char('z');
    l.move_selection(1);
    assert!(l.display_rows(40).is_empty());
    assert_eq!(l.logical_size(), Size { w: 480, h: 36 + 26 + 20 });
    assert!(l.activate().is_none());
}

#[test]
fn launcher_size_grows_with_matches_up_to_eight_rows() {
    let mut l = LauncherState::default();
    l.open(entries());
    assert_eq!(l.logical_size(), Size { w: 480, h: 36 + 4 * 26 + 20 });
    let many: Vec<DesktopEntry> = (0..12).map(|k| entry(&format!("App {k}"))).collect();
    l.open(many);
    assert_eq!(l.logical_size(), Size { w: 480, h: 36 + 8 * 26 + 20 });
    assert_eq!(l.display_rows(40).len(), 8);
}

#[test]
fn launcher_toggle_and_buffer_steps() {
    let mut l = LauncherState::default();
    assert_eq!(l.ensure_buffer(), BufferStep::Hidden);
    assert!(l.toggle());
    assert!(!l.is_visible());
    l.open(entries());
    assert_eq!(l.ensure_buffer(), BufferStep::Rebuild);
    assert_eq!(l.ensure_buffer(), BufferStep::Reuse);
    l.push_char('t');
    assert_eq!(l.ensure_buffer(), BufferStep::Rebuild);
    assert!(!l.toggle());
    assert!(!l.is_visible());
    assert_eq!(l.ensure_buffer(), BufferStep::Hidden);
}

#[test]
fn fps_counter_reports_changes_and_digits() {
    let mut f = FpsCounter::new();
    assert_eq!(f.digits(), 1);
    assert!(f.update_fps(60));
    assert!(!f.update_fps(60));
    assert_eq!(f.digits(), 2);
    f.update_fps(144);
    assert_eq!(f.digits(), 3);
    f.update_fps(5000);
    assert_eq!(f.digits(), 3);
}

#[test]
fn wallpaper_rebuilds_only_when_the_size_changes() {
    let mut cache = WallpaperCache::new();
    for (w, h) in [(1920, 1080), (800, 600), (3440, 1440)] {
        assert!(cache.buffer_for(Size { w, h }));
    }
    let size = Size { w: 1280, h: 720 };
    assert!(cache.buffer_for(size));
    assert!(!cache.buffer_for(size));
}

#[test]
fn cover_fit_targets_and_crops_centered() {
    assert_eq!(cover_target(Size { w: 1920, h: 0 }), (1920, 1));
    assert_eq!(cover_target(Size { w: -5, h: 720 }), (1, 720));
    assert_eq!(cover_crop(2000, 1080, 1920, 1080), (40, 0));
    assert_eq!(cover_crop(1921, 1200, 1920, 1080), (0, 60));
}

#[test]
fn buffer_for_handles_a_range_of_output_sizes_and_aspect_ratios() {
    let mut cache = WallpaperCache::new();
    for size in [Size { w: 1920, h: 1080 }, Size { w: 800, h: 600 }, Size { w: 3440, h: 1440 }] {
        cache.buffer_for(size);
        assert_eq!(cache.cached_size(), Some(size));
    }
}

#[test]
fn buffer_for_only_rebuilds_when_the_size_changes() {
    let mut cache = WallpaperCache::new();
    let size = Size { w: 1280, h: 720 };
    assert!(cache.buffer_for(size));
    assert!(cache.cached_size().is_some());
    assert!(!cache.buffer_for(size));
    assert_eq!(cache.cached_size(), Some(size));
}

#[test]
fn fps_counter_shows_capped_decimal_digits() {
    let mut f = FpsCounter::new();
    assert_eq!(f.shown_digits(), vec![0]);
    f.update_fps(7);
    assert_eq!(f.shown_digits(), vec![7]);
    f.update_fps(60);
    assert_eq!(f.shown_digits(), vec![6, 0]);
    f.update_fps(144);
    assert_eq!(f.shown_digits(), vec![1, 4, 4]);
    f.update_fps(5000);
    assert_eq!(f.shown_digits(), vec![9, 9, 9]);
}

#[test]
fn digit_atlas_lays_digits_out_in_three_rows() {
    assert_eq!(digit_atlas_rect(9), Rect::new(0, 0, 22, 35));
    assert_eq!(digit_atlas_rect(1), Rect::new(66, 0, 22, 35));
    assert_eq!(digit_atlas_rect(0), Rect::new(22, 35, 22, 35));
    assert_eq!(digit_atlas_rect(5), Rect::new(44, 70, 22, 35));
}

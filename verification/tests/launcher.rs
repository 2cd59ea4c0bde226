use ironland_copositor::launcher::{
    filter_entries, launch_command, parse_desktop_entry, parse_exec, split_dir_list, DesktopEntry,
};

fn entry(name: &str) -> DesktopEntry {
    DesktopEntry {
        id: format!("{name}.desktop"),
        name: name.to_string(),
        command: String::new(),
        terminal: false,
    }
}

#[test]
fn parse_exec_strips_field_codes() {
    let (program, args) = parse_exec("firefox %u --new-window", "Firefox").unwrap();
    assert_eq!(program, "firefox");
    assert_eq!(args, vec!["--new-window"]);
}

#[test]
fn parse_exec_keeps_quoted_arguments_together() {
    let (program, args) = parse_exec(r#"sh -c "echo hello world""#, "Shell").unwrap();
    assert_eq!(program, "sh");
    assert_eq!(args, vec!["-c", "echo hello world"]);
}

#[test]
fn parse_exec_expands_percent_c_to_name() {
    let (program, args) = parse_exec("launcher %c", "My App").unwrap();
    assert_eq!(program, "launcher");
    assert_eq!(args, vec!["My App"]);
}

#[test]
fn parse_exec_rejects_empty_command() {
    assert!(parse_exec("", "Empty").is_none());
}

#[test]
fn parse_exec_rejects_whitespace_and_dropped_codes_only() {
    assert!(parse_exec("   \t ", "Blank").is_none());
    assert!(parse_exec("%f %U", "Codes").is_none());
}

#[test]
fn parse_exec_double_percent_is_a_literal_percent() {
    let (program, args) = parse_exec("printf 100%% %x", "P").unwrap();
    assert_eq!(program, "printf");
    assert_eq!(args, vec!["100%", "x"]);
}

#[test]
fn parse_exec_trailing_percent_is_dropped() {
    let (program, args) = parse_exec("app arg%", "A").unwrap();
    assert_eq!(program, "app");
    assert_eq!(args, vec!["arg"]);
}

#[test]
fn parse_exec_empty_quotes_make_no_argument() {
    let (program, args) = parse_exec(r#"app "" b"#, "A").unwrap();
    assert_eq!(program, "app");
    assert_eq!(args, vec!["b"]);
}

#[test]
fn parse_desktop_file_skips_hidden_entries() {
    let contents = "[Desktop Entry]\nType=Application\nName=Hidden App\nExec=hidden\nNoDisplay=true\n";
    assert!(parse_desktop_entry(contents, "hidden.desktop".into()).is_none());
}

#[test]
fn parse_desktop_file_reads_visible_entries() {
    let contents = "[Desktop Entry]\nType=Application\nName=Visible App\nExec=visible %F\nTerminal=true\n\n[Desktop Action New]\nName=New Window\nExec=visible --new\n";
    let parsed = parse_desktop_entry(contents, "visible.desktop".into()).unwrap();
    assert_eq!(parsed.name, "Visible App");
    assert_eq!(parsed.command, "visible %F");
    assert!(parsed.terminal);
    assert_eq!(parsed.id, "visible.desktop");
}

#[test]
fn desktop_entry_without_exec_is_skipped() {
    let contents = "[Desktop Entry]\nName=No Exec\n";
    assert!(parse_desktop_entry(contents, "x.desktop".into()).is_none());
}

#[test]
fn desktop_entry_of_other_type_is_skipped() {
    let contents = "[Desktop Entry]\nType=Link\nName=L\nExec=l\n";
    assert!(parse_desktop_entry(contents, "l.desktop".into()).is_none());
}

#[test]
fn desktop_entry_hidden_key_is_case_insensitive() {
    let contents = "[Desktop Entry]\nName=H\nExec=h\nHidden=TRUE\n";
    assert!(parse_desktop_entry(contents, "h.desktop".into()).is_none());
}

#[test]
fn desktop_entry_keys_outside_main_group_are_ignored() {
    let contents = "Name=Before\n[Other]\nExec=other\n[Desktop Entry]\n  # comment\n Name = Spaced Name \nExec=run\r\n";
    let parsed = parse_desktop_entry(contents, "s.desktop".into()).unwrap();
    assert_eq!(parsed.name, "Spaced Name");
    assert_eq!(parsed.command, "run");
    assert!(!parsed.terminal);
}

#[test]
fn desktop_entry_last_value_wins_and_value_may_hold_equals() {
    let contents = "[Desktop Entry]\nName=First\nName=Second\nExec=env A=b run\n";
    let parsed = parse_desktop_entry(contents, "e.desktop".into()).unwrap();
    assert_eq!(parsed.name, "Second");
    assert_eq!(parsed.command, "env A=b run");
}

#[test]
fn filter_entries_ranks_prefix_matches_first() {
    let entries = vec![entry("GNOME Terminal"), entry("Terminator"), entry("Files")];
    let filtered = filter_entries(&entries, "term");
    let names: Vec<_> = filtered.iter().map(|&i| entries[i].name.as_str()).collect();
    assert_eq!(names, vec!["Terminator", "GNOME Terminal"]);
}

#[test]
fn filter_entries_empty_query_returns_everything_in_order() {
    let entries = vec![entry("A"), entry("B")];
    assert_eq!(filter_entries(&entries, ""), vec![0, 1]);
}

#[test]
fn filter_entries_orders_word_matches_before_substring_matches() {
    let entries = vec![entry("Xterm"), entry("Big Term"), entry("term b"), entry("Term a"), entry("None")];
    let filtered = filter_entries(&entries, "TERM");
    assert_eq!(filtered, vec![3, 2, 1, 0]);
}

#[test]
fn filter_entries_keeps_list_order_for_equal_names() {
    let entries = vec![entry("Same"), entry("same"), entry("SAME")];
    assert_eq!(filter_entries(&entries, "sa"), vec![0, 1, 2]);
}

#[test]
fn filter_entries_with_no_match_is_empty() {
    let entries = vec![entry("Files"), entry("Editor")];
    assert!(filter_entries(&entries, "zzz").is_empty());
}

use ironland_copositor::launcher::collect_desktop_entries;

fn desktop(name: &str, exec: &str) -> Option<String> {
    Some(format!("[Desktop Entry]\nType=Application\nName={name}\nExec={exec}\n"))
}

#[test]
fn collected_entries_are_sorted_by_lowercased_name() {
    let files = vec![
        ("zed.desktop".to_string(), desktop("zed", "zed")),
        ("files.desktop".to_string(), desktop("Files", "nautilus")),
        ("alacritty.desktop".to_string(), desktop("Alacritty", "alacritty")),
        ("files2.desktop".to_string(), desktop("files", "other")),
    ];
    let entries = collect_desktop_entries(files);
    let names: Vec<&str> = entries.iter().map(|e| e.name.as_str()).collect();
    assert_eq!(names, vec!["Alacritty", "Files", "files", "zed"]);
    assert_eq!(entries[1].command, "nautilus");
}

#[test]
fn first_file_for_an_id_wins_even_when_hidden_or_unreadable() {
    let files = vec![
        ("a.desktop".to_string(), desktop("First A", "a1")),
        ("b.desktop".to_string(), Some("[Desktop Entry]\nName=B\nExec=b\nHidden=true\n".to_string())),
        ("c.desktop".to_string(), None),
        ("a.desktop".to_string(), desktop("Second A", "a2")),
        ("b.desktop".to_string(), desktop("Visible B", "b2")),
        ("c.desktop".to_string(), desktop("C", "c2")),
    ];
    let entries = collect_desktop_entries(files);
    assert_eq!(entries.len(), 1);
    assert_eq!(entries[0].name, "First A");
    assert_eq!(entries[0].id, "a.desktop");
}

#[test]
fn launch_command_wraps_terminal_entries() {
    let mut e = entry("Htop");
    e.command = "htop --tree %U".to_string();
    assert_eq!(
        launch_command(&e, "foot"),
        Some(("htop".to_string(), vec!["--tree".to_string()]))
    );
    e.terminal = true;
    assert_eq!(
        launch_command(&e, "foot"),
        Some(("foot".to_string(), vec!["-e".to_string(), "htop".to_string(), "--tree".to_string()]))
    );
    e.command = "  %f ".to_string();
    assert_eq!(launch_command(&e, "foot"), None);
}

#[test]
fn dir_lists_split_at_colons_and_skip_empty_entries() {
    assert_eq!(split_dir_list("/usr/local/share:/usr/share"), vec!["/usr/local/share", "/usr/share"]);
    assert_eq!(split_dir_list("::/opt/share::"), vec!["/opt/share"]);
    assert!(split_dir_list("").is_empty());
}

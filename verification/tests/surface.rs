use finger::logger::{
    error, info, info_p, register_prefix, warn, Logger, COLOR_BLUE, COLOR_GRAY,
};
use finger::settings::{apply_settings, Settings};
use finger::strutil::u64_to_string;
use finger::stub::StubPlatform;
use finger::types::{BotEntry, Command, RunState};
use finger::ui::{App, ConfirmDialog};

fn entry(name: &str, enabled: bool) -> BotEntry {
    BotEntry {
        name: name.to_string(),
        window_pattern: "p".to_string(),
        description: String::new(),
        enabled,
        instances: Vec::new(),
        error: None,
        script_path: format!("bots/{}/main.lua", name),
    }
}

#[test]
fn u64_rendering_is_decimal() {
    assert_eq!(u64_to_string(0), "0");
    assert_eq!(u64_to_string(7), "7");
    assert_eq!(u64_to_string(12345), "12345");
    assert_eq!(u64_to_string(u64::MAX), "18446744073709551615");
}

#[test]
fn app_starts_with_defaults() {
    let app = App::new();
    assert_eq!(app.selected, 0);
    assert!(app.log_visible);
    assert!(app.log_messages.is_empty());
    assert_eq!(app.log_scroll, 0);
    assert!(!app.should_quit);
}

#[test]
fn selection_moves_stay_in_bounds() {
    let mut app = App::new();
    app.move_up();
    assert_eq!(app.selected, 0);
    app.move_down(3);
    app.move_down(3);
    assert_eq!(app.selected, 2);
    app.move_down(3);
    assert_eq!(app.selected, 2);
    app.move_up();
    assert_eq!(app.selected, 1);
    app.move_down(0);
    assert_eq!(app.selected, 1);
}

#[test]
fn log_scrolling_saturates() {
    let mut app = App::new();
    app.scroll_log_down(5);
    assert_eq!(app.log_scroll, 0);
    app.scroll_log_up(3);
    app.scroll_log_up(3);
    assert_eq!(app.log_scroll, 6);
    app.scroll_log_down(2);
    assert_eq!(app.log_scroll, 4);
}

#[test]
fn drain_logs_appends_in_order() {
    let mut app = App::new();
    app.drain_logs(vec!["a".to_string(), "b".to_string()]);
    app.drain_logs(vec!["c".to_string()]);
    assert_eq!(app.log_messages, vec!["a", "b", "c"]);
}

#[test]
fn toggle_log_flips_visibility() {
    let mut app = App::new();
    app.toggle_log();
    assert!(!app.log_visible);
    app.toggle_log();
    assert!(app.log_visible);
}

#[test]
fn quit_sends_the_quit_command() {
    let mut app = App::new();
    assert_eq!(app.quit(), Command::Quit);
    assert!(app.should_quit);
}

#[test]
fn toggle_selected_flips_and_persists() {
    let mut app = App::new();
    app.move_down(2);
    let mut entries = vec![entry("alpha", true), entry("beta", false)];
    let (settings, cmd) = app.toggle_selected(&mut entries);
    assert_eq!(cmd, Command::Toggle(1));
    assert!(entries[1].enabled);
    assert!(entries[0].enabled);
    assert_eq!(settings.enabled_bots, vec!["alpha", "beta"]);
    let (settings, _) = app.toggle_selected(&mut entries);
    assert!(!entries[1].enabled);
    assert_eq!(settings.enabled_bots, vec!["alpha"]);
}

#[test]
fn start_stop_walks_the_run_state_cycle() {
    let mut app = App::new();
    let mut rs = RunState::Stopped;
    assert_eq!(app.start_stop(&mut rs), Some(Command::StartStop));
    assert_eq!(rs, RunState::Running);
    assert_eq!(app.start_stop(&mut rs), Some(Command::StartStop));
    assert_eq!(rs, RunState::Stopping);
    assert_eq!(app.start_stop(&mut rs), None);
    assert_eq!(rs, RunState::Stopping);
}

#[test]
fn restart_targets_the_selection() {
    let mut app = App::new();
    app.move_down(5);
    app.move_down(5);
    assert_eq!(app.restart_selected(), Command::Restart(2));
}

#[test]
fn confirm_dialog_defaults_to_no() {
    let mut d = ConfirmDialog::new("Restart bot?".to_string());
    assert_eq!(d.message, "Restart bot?");
    assert!(!d.selected);
    d.toggle();
    assert!(d.selected);
    d.toggle();
    assert!(!d.selected);
}

#[test]
fn settings_seed_the_enabled_flags() {
    let mut entries = vec![entry("alpha", false), entry("beta", false), entry("gamma", true)];
    let settings = Settings { enabled_bots: vec!["beta".to_string()] };
    assert!(settings.contains_name(&"beta".to_string()));
    assert!(!settings.contains_name(&"alpha".to_string()));
    apply_settings(&mut entries, &settings);
    assert!(!entries[0].enabled);
    assert!(entries[1].enabled);
    assert!(entries[2].enabled);

    let again = Settings::from_entries(&entries);
    assert_eq!(again.enabled_bots, vec!["beta", "gamma"]);
}

#[test]
fn settings_default_is_empty() {
    let s: Settings = Default::default();
    assert!(s.enabled_bots.is_empty());
    assert!(Settings::new().enabled_bots.is_empty());
}

#[test]
fn unprefixed_lines_carry_level_and_timestamp() {
    let mut log = Logger::new();
    info(&mut log, "hello");
    warn(&mut log, "careful");
    error(&mut log, "broken");
    assert_eq!(log.file_lines.len(), 3);
    let line = &log.file_lines[0];
    // "[HH:MM:SS] [INFO] hello"
    assert_eq!(line.len(), "[12:34:56] [INFO] hello".len());
    assert!(line.ends_with("] [INFO] hello"));
    assert!(line.starts_with('['));
    let ts = &line[1..9];
    let b = ts.as_bytes();
    assert!(b[0].is_ascii_digit() && b[1].is_ascii_digit());
    assert_eq!(b[2], b':');
    assert!(b[3].is_ascii_digit() && b[4].is_ascii_digit());
    assert_eq!(b[5], b':');
    assert!(b[6].is_ascii_digit() && b[7].is_ascii_digit());
    assert!(log.file_lines[1].ends_with("] [WARN] careful"));
    assert!(log.file_lines[2].ends_with("] [ERROR] broken"));
}

#[test]
fn prefixed_lines_use_the_registered_color() {
    let mut log = Logger::new();
    register_prefix(&mut log, "stub", COLOR_GRAY);
    register_prefix(&mut log, "demo", COLOR_BLUE);
    register_prefix(&mut log, "stub", COLOR_BLUE);
    info_p(&mut log, "stub", "ping");
    info_p(&mut log, "unknown", "pong");
    let fields: Vec<&str> = log.tui_lines[0].split('\u{1f}').collect();
    assert_eq!(fields.len(), 5);
    assert_eq!(fields[0], "INFO");
    assert_eq!(fields[1], "stub");
    assert_eq!(fields[2], "2");
    assert_eq!(fields[4], "ping");
    assert!(log.file_lines[0].ends_with("] [INFO] [stub] ping"));
    let fields: Vec<&str> = log.tui_lines[1].split('\u{1f}').collect();
    assert_eq!(fields[2], "0");
}

#[test]
fn stub_platform_matches_patterns_case_insensitively() {
    let stub = StubPlatform;
    let mut log = Logger::new();
    let wins = stub.get_instances("WoW Classic", &mut log);
    assert_eq!(
        wins,
        vec![
            (10001, "World of Warcraft".to_string()),
            (10002, "World of Warcraft".to_string())
        ]
    );
    let wins = stub.get_instances("Zombie Arena", &mut log);
    assert_eq!(wins, vec![(20001, "向僵尸开炮".to_string())]);
    let wins = stub.get_instances("notepad", &mut log);
    assert_eq!(wins, vec![(30001, "Window<notepad>".to_string())]);
    assert_eq!(log.file_lines.len(), 3);
    assert!(log.file_lines[0].ends_with("get_instances(\"WoW Classic\")"));
}

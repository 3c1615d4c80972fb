use finger::logger::Logger;
use finger::orch::{
    apply_toggle, cooldown_after_tick, derive_bot_name, handle_quit, handle_restart,
    handle_start_stop, load_bots, ready_ids, reconcile_all, record_tick, scan_instances,
    AgentTable, MetaLoad,
};
use finger::types::{BotEntry, Command, Instance, RunState};
use finger::ui::App;

fn demo_entries() -> Vec<BotEntry> {
    let mut log = Logger::new();
    let scripts = vec![(
        "bots/demo/main.lua".to_string(),
        MetaLoad::Loaded { pattern: "win".to_string(), description: "a demo".to_string() },
    )];
    load_bots("bots", scripts, &mut log)
}

fn two_window_snap() -> Vec<Vec<(u64, String)>> {
    vec![vec![(1, "W1".to_string()), (2, "W2".to_string())]]
}

#[test]
fn derive_bot_name_strips_root_and_script() {
    assert_eq!(derive_bot_name("bots/wow-rally-hk/main.lua", "bots"), "wow-rally-hk");
    assert_eq!(derive_bot_name("bots/group/sub/main.lua", "bots"), "group/sub");
    assert_eq!(derive_bot_name("elsewhere/x/main.lua", "bots"), "elsewhere/x");
    assert_eq!(derive_bot_name("main.lua", "bots"), "");
}

#[test]
fn derive_bot_name_normalizes_backslashes() {
    assert_eq!(derive_bot_name("bots/wow\\hk/main.lua", "bots"), "wow/hk");
}

#[test]
fn load_bots_drops_failed_scripts_and_logs_them() {
    let mut log = Logger::new();
    let scripts = vec![
        (
            "bots/good/main.lua".to_string(),
            MetaLoad::Loaded { pattern: "p".to_string(), description: "d".to_string() },
        ),
        (
            "bots/bad/main.lua".to_string(),
            MetaLoad::Failed { message: "missing tick".to_string() },
        ),
    ];
    let entries = load_bots("bots", scripts, &mut log);
    assert_eq!(entries.len(), 1);
    assert_eq!(entries[0].name, "good");
    assert_eq!(entries[0].window_pattern, "p");
    assert_eq!(entries[0].description, "d");
    assert!(!entries[0].enabled);
    assert!(entries[0].instances.is_empty());
    assert_eq!(log.file_lines.len(), 1);
    assert!(log.file_lines[0].contains("failed to load bot bad: missing tick"));
}

#[test]
fn instance_id_joins_name_and_window() {
    let inst = Instance::new("demo", 7, "Title".to_string());
    assert_eq!(inst.id, "demo-7");
    assert_eq!(inst.window_id, 7);
    assert_eq!(inst.window_title, "Title");
    assert_eq!(inst.status, "");
    assert!(inst.error.is_none());
}

#[test]
fn scan_instances_fills_every_entry() {
    let mut entries = demo_entries();
    scan_instances(&mut entries, &two_window_snap());
    assert_eq!(entries[0].instances.len(), 2);
    assert_eq!(entries[0].instances[0].id, "demo-1");
    assert_eq!(entries[0].instances[1].id, "demo-2");
}

#[test]
fn start_stop_then_toggle_scenario() {
    // One definition matching two windows, both disabled.
    let mut entries = demo_entries();
    scan_instances(&mut entries, &two_window_snap());
    let mut table = AgentTable::new();
    let mut app = App::new();
    let mut rs = RunState::Stopped;

    // StartStop (Stopped -> Running) creates zero agents: nothing enabled.
    let cmd = app.start_stop(&mut rs);
    assert_eq!(cmd, Some(Command::StartStop));
    assert_eq!(rs, RunState::Running);
    let starts = handle_start_stop(&entries, rs, &table);
    assert!(starts.is_empty());

    // Toggle(0) creates exactly two agents.
    let (_settings, cmd) = app.toggle_selected(&mut entries);
    assert_eq!(cmd, Command::Toggle(0));
    assert!(entries[0].enabled);
    let stops = reconcile_all(&mut entries, &two_window_snap(), &mut table);
    assert!(stops.is_empty());
    let eff = apply_toggle(&entries, 0, true, &mut table);
    assert_eq!(eff.starts.len(), 2);
    assert!(eff.resets.is_empty());
    for req in &eff.starts {
        table.agent_started(req.id.clone());
    }
    assert_eq!(table.live.len(), 2);

    // Record a status on the surviving instance.
    record_tick(&mut entries, &mut table, &"demo-1".to_string(), Ok(None), Some("busy".to_string()), 0);
    assert_eq!(entries[0].instances[0].status, "busy");

    // A synthetic window removal followed by a reconcile drops exactly the
    // removed instance's agent and leaves the other's status untouched.
    let snap2 = vec![vec![(1, "W1".to_string())]];
    let stops = reconcile_all(&mut entries, &snap2, &mut table);
    assert_eq!(stops, vec!["demo-2".to_string()]);
    assert_eq!(entries[0].instances.len(), 1);
    assert_eq!(entries[0].instances[0].id, "demo-1");
    assert_eq!(entries[0].instances[0].status, "busy");
    assert_eq!(table.live, vec!["demo-1".to_string()]);
}

#[test]
fn reconcile_twice_gives_the_same_instances() {
    let mut entries = demo_entries();
    let mut table = AgentTable::new();
    let snap = two_window_snap();
    reconcile_all(&mut entries, &snap, &mut table);
    let ids1: Vec<String> = entries[0].instances.iter().map(|i| i.id.clone()).collect();
    let stops = reconcile_all(&mut entries, &snap, &mut table);
    let ids2: Vec<String> = entries[0].instances.iter().map(|i| i.id.clone()).collect();
    assert!(stops.is_empty());
    assert_eq!(ids1, ids2);
    assert_eq!(ids1, vec!["demo-1".to_string(), "demo-2".to_string()]);
}

#[test]
fn toggling_off_and_on_keeps_at_most_one_agent_per_id() {
    let mut entries = demo_entries();
    scan_instances(&mut entries, &two_window_snap());
    let mut table = AgentTable::new();
    let mut app = App::new();

    // Enable while running: two agents come up.
    app.toggle_selected(&mut entries);
    let eff = apply_toggle(&entries, 0, true, &mut table);
    for req in eff.starts {
        table.agent_started(req.id);
    }
    assert_eq!(table.live.len(), 2);

    // Disable: both stop.
    app.toggle_selected(&mut entries);
    let eff = apply_toggle(&entries, 0, true, &mut table);
    assert_eq!(eff.stops.len(), 2);
    assert!(table.live.is_empty());

    // Enable again, and report one start twice: still one agent.
    app.toggle_selected(&mut entries);
    let eff = apply_toggle(&entries, 0, true, &mut table);
    assert_eq!(eff.starts.len(), 2);
    table.agent_started("demo-1".to_string());
    table.agent_started("demo-1".to_string());
    assert_eq!(table.live, vec!["demo-1".to_string()]);
}

#[test]
fn toggle_while_stopped_is_inert() {
    let mut entries = demo_entries();
    scan_instances(&mut entries, &two_window_snap());
    let mut table = AgentTable::new();
    let mut app = App::new();
    app.toggle_selected(&mut entries);
    let eff = apply_toggle(&entries, 0, false, &mut table);
    assert!(eff.starts.is_empty() && eff.resets.is_empty() && eff.stops.is_empty());
}

#[test]
fn toggle_reuses_a_live_agent_via_reset() {
    let mut entries = demo_entries();
    scan_instances(&mut entries, &two_window_snap());
    let mut table = AgentTable::new();
    table.agent_started("demo-1".to_string());
    entries[0].enabled = true;
    let eff = apply_toggle(&entries, 0, true, &mut table);
    assert_eq!(eff.resets, vec!["demo-1".to_string()]);
    assert_eq!(eff.starts.len(), 1);
    assert_eq!(eff.starts[0].id, "demo-2");
    assert_eq!(eff.starts[0].script_path, "bots/demo/main.lua");
    assert_eq!(eff.starts[0].window_pattern, "win");
    assert_eq!(eff.starts[0].window_id, 2);
}

#[test]
fn restart_stops_and_recreates_every_instance() {
    let mut entries = demo_entries();
    scan_instances(&mut entries, &two_window_snap());
    entries[0].enabled = true;
    let mut table = AgentTable::new();
    table.agent_started("demo-1".to_string());
    table.set_cd(&"demo-1".to_string(), 99_999);
    let eff = handle_restart(&entries, 0, true, &mut table);
    assert_eq!(eff.stops, vec!["demo-1".to_string()]);
    assert_eq!(eff.starts.len(), 2);
    assert!(table.live.is_empty());
    assert!(table.cooldowns.is_empty());

    // Not running, or a disabled entry: nothing happens.
    let eff = handle_restart(&entries, 0, false, &mut table);
    assert!(eff.stops.is_empty() && eff.starts.is_empty());
}

#[test]
fn quit_empties_the_live_agent_table_and_stops() {
    let mut table = AgentTable::new();
    table.agent_started("demo-1".to_string());
    table.agent_started("demo-2".to_string());
    table.set_cd(&"demo-1".to_string(), 50);
    let mut rs = RunState::Running;
    let stops = handle_quit(&mut table, &mut rs);
    assert_eq!(stops, vec!["demo-1".to_string(), "demo-2".to_string()]);
    assert!(table.live.is_empty());
    assert!(table.cooldowns.is_empty());
    assert_eq!(rs, RunState::Stopped);
}

#[test]
fn tick_without_cooldown_value_earns_the_default() {
    assert_eq!(cooldown_after_tick(None), 5000);
    assert_eq!(cooldown_after_tick(Some(1200)), 1200);

    let mut entries = demo_entries();
    scan_instances(&mut entries, &two_window_snap());
    let mut table = AgentTable::new();
    let id = "demo-1".to_string();
    table.agent_started(id.clone());
    record_tick(&mut entries, &mut table, &id, Ok(None), None, 1000);
    assert_eq!(table.cooldowns, vec![(id.clone(), 6000)]);

    // Not immediately re-eligible: only once the deadline arrives.
    entries[0].enabled = true;
    assert!(ready_ids(&entries, &table, 1000).is_empty());
    assert_eq!(ready_ids(&entries, &table, 6000), vec![id]);
}

#[test]
fn tick_error_is_recorded_and_keeps_the_agent() {
    let mut entries = demo_entries();
    scan_instances(&mut entries, &two_window_snap());
    let mut table = AgentTable::new();
    let id = "demo-2".to_string();
    table.agent_started(id.clone());
    record_tick(&mut entries, &mut table, &id, Err("script blew up".to_string()), None, 10);
    assert_eq!(entries[0].instances[1].error.as_deref(), Some("script blew up"));
    assert_eq!(entries[0].instances[1].status, "");
    assert!(table.contains_live(&id));
    assert_eq!(table.cooldowns, vec![(id, 5010)]);
}

#[test]
fn ready_ids_skips_disabled_entries_and_agentless_instances() {
    let mut entries = demo_entries();
    scan_instances(&mut entries, &two_window_snap());
    let mut table = AgentTable::new();
    table.agent_started("demo-2".to_string());
    // Disabled: nothing is ready.
    assert!(ready_ids(&entries, &table, 0).is_empty());
    entries[0].enabled = true;
    // Only the instance with a live agent is ready.
    assert_eq!(ready_ids(&entries, &table, 0), vec!["demo-2".to_string()]);
}

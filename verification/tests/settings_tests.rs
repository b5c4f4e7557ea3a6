use life_tui::settings::{
    default_key_bindings, default_simulation_settings, AppState, Screen, SettingsRecord,
    SimulationRecord,
};
use life_tui::strmap::StrMap;

fn rec(a: &str, k: &str) -> SettingsRecord {
    SettingsRecord { action_id: a.to_string(), key_name: k.to_string() }
}

#[test]
fn strmap_insert_get_and_order() {
    let mut m: StrMap<usize> = StrMap::new();
    assert_eq!(m.len(), 0);
    m.insert("b".to_string(), 1);
    m.insert("a".to_string(), 2);
    m.insert("b".to_string(), 3);
    assert_eq!(m.len(), 2);
    assert_eq!(m.get(&"b".to_string()), Some(&3));
    assert_eq!(m.get(&"a".to_string()), Some(&2));
    assert_eq!(m.get(&"c".to_string()), None);
    let (k0, v0) = m.entry_at(0);
    assert_eq!((k0.as_str(), *v0), ("b", 3));
    let (k1, v1) = m.entry_at(1);
    assert_eq!((k1.as_str(), *v1), ("a", 2));
}

#[test]
fn strmap_key_of_value_finds_first_bound() {
    let mut m: StrMap<String> = StrMap::new();
    m.insert("up".to_string(), "K".to_string());
    m.insert("step".to_string(), "T".to_string());
    m.insert("down".to_string(), "K".to_string());
    assert_eq!(m.key_of_value(&"K".to_string()), Some("up".to_string()));
    assert_eq!(m.key_of_value(&"T".to_string()), Some("step".to_string()));
    assert_eq!(m.key_of_value(&"Z".to_string()), None);
}

#[test]
fn default_bindings_are_the_documented_ones() {
    let m = default_key_bindings();
    assert_eq!(m.len(), 10);
    let expect = [
        ("pause", "Space"),
        ("right", "Right"),
        ("left", "Left"),
        ("up", "Up"),
        ("down", "Down"),
        ("zoom_in", "+"),
        ("zoom_out", "-"),
        ("speed_up", "L"),
        ("speed_down", "J"),
        ("step", "T"),
    ];
    for (a, k) in expect {
        assert_eq!(m.get(&a.to_string()).map(|s| s.as_str()), Some(k));
    }
}

#[test]
fn default_simulation_settings_values() {
    let m = default_simulation_settings();
    assert_eq!(m.len(), 3);
    assert_eq!(m.get(&"cells_to_alive".to_string()), Some(&1));
    assert_eq!(m.get(&"cells_to_birth".to_string()), Some(&3));
    assert_eq!(m.get(&"simulation_speed".to_string()), Some(&1));
}

#[test]
fn new_state_is_empty_settings_screen() {
    let s = AppState::new();
    assert_eq!(s.screen, Screen::Settings);
    assert_eq!(s.simulations_settings.len(), 0);
    assert_eq!(s.key_bindings.len(), 0);
    assert_eq!(s.error_message, "");
}

#[test]
fn setting_or_falls_back_to_default() {
    let mut s = AppState::new();
    assert_eq!(s.setting_or("cells_to_birth", 3), 3);
    s.simulations_settings.insert("cells_to_birth".to_string(), 6);
    assert_eq!(s.setting_or("cells_to_birth", 3), 6);
}

#[test]
fn later_binding_rows_win() {
    let mut s = AppState::new();
    s.key_bindings.insert("pause".to_string(), "Space".to_string());
    let rows = vec![rec("step", "T"), rec("pause", "P"), rec("step", "N")];
    s.load_binding_records(&rows);
    assert_eq!(s.key_bindings.len(), 2);
    assert_eq!(s.key_bindings.get(&"pause".to_string()).unwrap(), "P");
    assert_eq!(s.key_bindings.get(&"step".to_string()).unwrap(), "N");
}

#[test]
fn replace_bindings_drops_old_ones() {
    let mut s = AppState::new();
    s.key_bindings.insert("pause".to_string(), "Space".to_string());
    s.simulations_settings.insert("cells_to_alive".to_string(), 2);
    s.replace_bindings(&vec![rec("up", "W")]);
    assert_eq!(s.key_bindings.len(), 1);
    assert_eq!(s.key_bindings.get(&"up".to_string()).unwrap(), "W");
    assert_eq!(s.key_bindings.get(&"pause".to_string()), None);
    assert_eq!(s.simulations_settings.get(&"cells_to_alive".to_string()), Some(&2));
}

#[test]
fn simulation_record_defaults() {
    let s = AppState::new();
    let r = s.simulation_record();
    assert_eq!(r, SimulationRecord { cells_to_alive: 1, cells_to_birth: 3, simulation_speed: 1 });
}

#[test]
fn simulation_record_round_trip() {
    let mut s = AppState::new();
    let r = SimulationRecord { cells_to_alive: 2, cells_to_birth: 5, simulation_speed: 4 };
    s.load_simulation_record(&r);
    assert_eq!(s.simulation_record(), r);
    assert_eq!(s.setting_or("simulation_speed", 1), 4);
}

#[test]
fn binding_rows_round_trip() {
    let mut s = AppState::new();
    s.key_bindings = default_key_bindings();
    let rows = s.binding_records();
    assert_eq!(rows.len(), 10);
    assert_eq!(rows[0].action_id, "pause");
    assert_eq!(rows[0].key_name, "Space");
    let mut t = AppState::new();
    t.replace_bindings(&rows);
    assert_eq!(t.key_bindings.len(), 10);
    for r in &rows {
        assert_eq!(t.key_bindings.get(&r.action_id), s.key_bindings.get(&r.action_id));
    }
}

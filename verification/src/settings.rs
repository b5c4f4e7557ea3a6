//! The settings of the program: the key bindings, the rules and speed of the
//! simulation, the screen shown and the message for the user, with their
//! defaults and their rows in the settings files.

use vstd::prelude::*;

use crate::strmap::StrMap;

verus! {

broadcast use vstd::string::group_string_axioms;

/// The screen shown.
#[derive(Clone, Copy, Debug, PartialEq, Eq, Structural)]
pub enum Screen {
    Settings,
    Simulation,
}

/// A row of a key-binding file: an action and the name of its key.
#[derive(Clone, Debug)]
pub struct SettingsRecord {
    pub action_id: String,
    pub key_name: String,
}

/// The row of a simulation file.
#[derive(Clone, Copy, Debug, PartialEq, Eq, Structural)]
pub struct SimulationRecord {
    pub cells_to_alive: usize,
    pub cells_to_birth: usize,
    pub simulation_speed: usize,
}

/// The name of the setting for the number of neighbours with which a cell
/// survives.
pub open spec fn survival_key() -> Seq<char> {
    "cells_to_alive"@
}

/// The name of the setting for the number of neighbours with which a cell
/// is born.
pub open spec fn birth_key() -> Seq<char> {
    "cells_to_birth"@
}

/// The name of the setting for the speed of the simulation.
pub open spec fn speed_key() -> Seq<char> {
    "simulation_speed"@
}

/// The value of `key` in `m`, or `default` where it has none.
pub open spec fn value_or(m: Map<Seq<char>, usize>, key: Seq<char>, default: usize) -> usize {
    if m.contains_key(key) {
        m[key]
    } else {
        default
    }
}

/// The key bindings after the rows `records` are read into `m`, one by one.
pub open spec fn apply_records(m: Map<Seq<char>, String>, records: Seq<SettingsRecord>) -> Map<
    Seq<char>,
    String,
>
    decreases records.len(),
{
    if records.len() == 0 {
        m
    } else {
        apply_records(m, records.drop_last()).insert(
            records.last().action_id@,
            records.last().key_name,
        )
    }
}

/// The actions and their key names by default.
pub open spec fn default_bindings_spec() -> Map<Seq<char>, Seq<char>> {
    map![
        "pause"@ => "Space"@,
        "right"@ => "Right"@,
        "left"@ => "Left"@,
        "up"@ => "Up"@,
        "down"@ => "Down"@,
        "zoom_in"@ => "+"@,
        "zoom_out"@ => "-"@,
        "speed_up"@ => "L"@,
        "speed_down"@ => "J"@,
        "step"@ => "T"@,
    ]
}

/// A map of key bindings, its values taken as strings.
pub open spec fn binding_names(m: Map<Seq<char>, String>) -> Map<Seq<char>, Seq<char>> {
    m.map_values(|v: String| v@)
}

/// A string holding `s`.
fn owned(s: &str) -> (r: String)
    ensures
        r@ == s@,
{
    s.to_string()
}

/// The key bindings by default.
pub fn default_key_bindings() -> (m: StrMap<String>)
    ensures
        binding_names(m@) == default_bindings_spec(),
{
    let mut m: StrMap<String> = StrMap::new();
    m.insert(owned("pause"), owned("Space"));
    m.insert(owned("right"), owned("Right"));
    m.insert(owned("left"), owned("Left"));
    m.insert(owned("up"), owned("Up"));
    m.insert(owned("down"), owned("Down"));
    m.insert(owned("zoom_in"), owned("+"));
    m.insert(owned("zoom_out"), owned("-"));
    m.insert(owned("speed_up"), owned("L"));
    m.insert(owned("speed_down"), owned("J"));
    m.insert(owned("step"), owned("T"));
    proof {
        assert(binding_names(m@) =~= default_bindings_spec());
    }
    m
}

/// The simulation settings by default: survival with 1 neighbour, birth
/// with 3, speed 1.
pub fn default_simulation_settings() -> (m: StrMap<usize>)
    ensures
        m@ == map![survival_key() => 1usize, birth_key() => 3usize, speed_key() => 1usize],
{
    let mut m: StrMap<usize> = StrMap::new();
    m.insert(owned("cells_to_alive"), 1);
    m.insert(owned("cells_to_birth"), 3);
    m.insert(owned("simulation_speed"), 1);
    proof {
        assert(m@ =~= map![survival_key() => 1usize, birth_key() => 3usize, speed_key() => 1usize]);
    }
    m
}

/// Reading a row of a simulation file into the settings and writing the
/// settings back to a row gives the same row.
pub proof fn lemma_simulation_record_round_trip(m: Map<Seq<char>, usize>, r: SimulationRecord)
    ensures
        ({
            let m2 = m.insert(survival_key(), r.cells_to_alive).insert(
                birth_key(),
                r.cells_to_birth,
            ).insert(speed_key(), r.simulation_speed);
            &&& value_or(m2, survival_key(), 1) == r.cells_to_alive
            &&& value_or(m2, birth_key(), 3) == r.cells_to_birth
            &&& value_or(m2, speed_key(), 1) == r.simulation_speed
        }),
{
    reveal_strlit("cells_to_alive");
    reveal_strlit("cells_to_birth");
    reveal_strlit("simulation_speed");
    assert(survival_key()[9] != birth_key()[9]);
    assert(survival_key() != birth_key());
    assert(survival_key()[0] != speed_key()[0]);
    assert(birth_key()[0] != speed_key()[0]);
}

/// Writing the key bindings to rows, one per action, and reading the rows
/// into an empty map gives the same bindings.
pub proof fn lemma_binding_rows_round_trip(m: Map<Seq<char>, String>, rows: Seq<SettingsRecord>)
    requires
        m.dom().finite(),
        forall|i: int, j: int|
            0 <= i < j < rows.len() ==> #[trigger] rows[i].action_id@ != #[trigger] rows[j].action_id@,
        forall|i: int|
            #![trigger rows[i]]
            0 <= i < rows.len() ==> m.contains_key(rows[i].action_id@) && rows[i].key_name
                == m[rows[i].action_id@],
        forall|k: Seq<char>|
            #![trigger m.contains_key(k)]
            m.contains_key(k) ==> exists|i: int| 0 <= i < rows.len() && #[trigger] rows[i].action_id@ == k,
    ensures
        apply_records(Map::empty(), rows) == m,
    decreases rows.len(),
{
    if rows.len() == 0 {
        assert forall|k: Seq<char>| !m.contains_key(k) by {
            if m.contains_key(k) {
                let i = choose|i: int| 0 <= i < rows.len() && #[trigger] rows[i].action_id@ == k;
            }
        }
        assert(m =~= Map::empty());
    } else {
        let last = rows.last();
        let rest = rows.drop_last();
        let m1 = m.remove(last.action_id@);
        assert forall|k: Seq<char>|
            #![trigger m1.contains_key(k)]
            m1.contains_key(k) implies exists|i: int| 0 <= i < rest.len() && #[trigger] rest[i].action_id@ == k by {
            let i = choose|i: int| 0 <= i < rows.len() && #[trigger] rows[i].action_id@ == k;
            assert(i != rows.len() - 1);
            assert(rest[i] == rows[i]);
        }
        assert forall|i: int|
            #![trigger rest[i]]
            0 <= i < rest.len() implies m1.contains_key(rest[i].action_id@) && rest[i].key_name
                == m1[rest[i].action_id@] by {
            assert(rest[i] == rows[i]);
            assert(rows[i].action_id@ != rows[rows.len() - 1].action_id@);
        }
        assert forall|i: int, j: int|
            0 <= i < j < rest.len() implies #[trigger] rest[i].action_id@ != #[trigger] rest[j].action_id@ by {
            assert(rest[i] == rows[i] && rest[j] == rows[j]);
        }
        lemma_binding_rows_round_trip(m1, rest);
        assert(rows[rows.len() - 1] == last);
        assert(m1.insert(last.action_id@, last.key_name) =~= m);
    }
}

/// The state shared by the screens.
pub struct AppState {
    pub screen: Screen,
    pub simulations_settings: StrMap<usize>,
    pub error_message: String,
    pub key_bindings: StrMap<String>,
}

impl AppState {
    /// The settings screen, with no settings, bindings or message.
    pub fn new() -> (s: Self)
        ensures
            s.screen == Screen::Settings,
            s.simulations_settings@ == Map::<Seq<char>, usize>::empty(),
            s.key_bindings@ == Map::<Seq<char>, String>::empty(),
            s.error_message@ == Seq::<char>::empty(),
    {
        AppState {
            screen: Screen::Settings,
            simulations_settings: StrMap::new(),
            error_message: String::new(),
            key_bindings: StrMap::new(),
        }
    }

    /// The simulation setting `key`, or `default` where it is not set.
    pub fn setting_or(&self, key: &str, default: usize) -> (v: usize)
        ensures
            v == value_or(self.simulations_settings@, key@, default),
    {
        match self.simulations_settings.get(&owned(key)) {
            Some(v) => *v,
            None => default,
        }
    }

    /// Reads the rows of a key-binding file into the bindings, one by one;
    /// a later row for the same action wins.
    pub fn load_binding_records(&mut self, records: &Vec<SettingsRecord>)
        ensures
            final(self).key_bindings@ == apply_records(old(self).key_bindings@, records@),
            final(self).simulations_settings@ == old(self).simulations_settings@,
            final(self).screen == old(self).screen,
            final(self).error_message == old(self).error_message,
    {
        let mut i: usize = 0;
        while i < records.len()
            invariant
                i <= records.len(),
                self.key_bindings@ == apply_records(old(self).key_bindings@, records@.take(i as int)),
                self.simulations_settings@ == old(self).simulations_settings@,
                self.screen == old(self).screen,
                self.error_message == old(self).error_message,
            decreases records.len() - i,
        {
            let r = &records[i];
            self.key_bindings.insert(r.action_id.clone(), r.key_name.clone());
            proof {
                assert(records@.take(i + 1).drop_last() =~= records@.take(i as int));
            }
            i = i + 1;
        }
        proof {
            assert(records@.take(records.len() as int) =~= records@);
        }
    }

    /// Replaces the key bindings with those read from the rows of a file.
    pub fn replace_bindings(&mut self, records: &Vec<SettingsRecord>)
        ensures
            final(self).key_bindings@ == apply_records(Map::empty(), records@),
            final(self).simulations_settings@ == old(self).simulations_settings@,
            final(self).screen == old(self).screen,
            final(self).error_message == old(self).error_message,
    {
        let mut temp = AppState {
            screen: Screen::Settings,
            simulations_settings: StrMap::new(),
            error_message: String::new(),
            key_bindings: StrMap::new(),
        };
        temp.load_binding_records(records);
        self.key_bindings = temp.key_bindings;
    }

    /// Reads the row of a simulation file into the settings.
    pub fn load_simulation_record(&mut self, record: &SimulationRecord)
        ensures
            final(self).simulations_settings@ == old(self).simulations_settings@.insert(
                survival_key(),
                record.cells_to_alive,
            ).insert(birth_key(), record.cells_to_birth).insert(speed_key(), record.simulation_speed),
            final(self).key_bindings@ == old(self).key_bindings@,
            final(self).screen == old(self).screen,
            final(self).error_message == old(self).error_message,
    {
        self.simulations_settings.insert(owned("cells_to_alive"), record.cells_to_alive);
        self.simulations_settings.insert(owned("cells_to_birth"), record.cells_to_birth);
        self.simulations_settings.insert(owned("simulation_speed"), record.simulation_speed);
    }

    /// The row to write to a simulation file; a setting that is not set is
    /// written as its default (1 for survival, 3 for birth, 1 for speed).
    pub fn simulation_record(&self) -> (r: SimulationRecord)
        ensures
            r.cells_to_alive == value_or(self.simulations_settings@, survival_key(), 1),
            r.cells_to_birth == value_or(self.simulations_settings@, birth_key(), 3),
            r.simulation_speed == value_or(self.simulations_settings@, speed_key(), 1),
    {
        SimulationRecord {
            cells_to_alive: self.setting_or("cells_to_alive", 1),
            cells_to_birth: self.setting_or("cells_to_birth", 3),
            simulation_speed: self.setting_or("simulation_speed", 1),
        }
    }

    /// The rows to write to a key-binding file, one per action, in the order
    /// the actions were first bound.
    pub fn binding_records(&self) -> (rows: Vec<SettingsRecord>)
        ensures
            rows.len() == self.key_bindings@.dom().len(),
            rows.len() == self.key_bindings.key_order().len(),
            forall|i: int|
                #![trigger rows@[i]]
                0 <= i < rows.len() ==> rows@[i].action_id@ == self.key_bindings.key_order()[i],
            forall|i: int|
                #![trigger rows@[i]]
                0 <= i < rows.len() ==> self.key_bindings@.contains_key(rows@[i].action_id@)
                    && rows@[i].key_name == self.key_bindings@[rows@[i].action_id@],
            forall|i: int, j: int|
                0 <= i < j < rows.len() ==> #[trigger] rows@[i].action_id@ != #[trigger] rows@[j].action_id@,
            forall|k: Seq<char>|
                #![trigger self.key_bindings@.contains_key(k)]
                self.key_bindings@.contains_key(k) ==> exists|i: int|
                    0 <= i < rows.len() && #[trigger] rows@[i].action_id@ == k,
    {
        let n = self.key_bindings.len();
        let mut rows: Vec<SettingsRecord> = Vec::new();
        let mut i: usize = 0;
        while i < n
            invariant
                i <= n,
                self.key_bindings@.dom() == self.key_bindings.key_order().to_set(),
                self.key_bindings.key_order().no_duplicates(),
                n == self.key_bindings.key_order().len(),
                n == self.key_bindings@.dom().len(),
                rows.len() == i,
                forall|t: int|
                    #![trigger rows@[t]]
                    0 <= t < i ==> rows@[t].action_id@ == self.key_bindings.key_order()[t]
                        && self.key_bindings@.contains_key(rows@[t].action_id@)
                        && rows@[t].key_name == self.key_bindings@[rows@[t].action_id@],
            decreases n - i,
        {
            let (k, v) = self.key_bindings.entry_at(i);
            rows.push(SettingsRecord { action_id: k.clone(), key_name: v.clone() });
            i = i + 1;
        }
        proof {
            let ks = self.key_bindings.key_order();
            assert forall|a: int, b: int|
                0 <= a < b < rows.len() implies #[trigger] rows@[a].action_id@
                    != #[trigger] rows@[b].action_id@ by {
                assert(rows@[a].action_id@ == ks[a]);
                assert(rows@[b].action_id@ == ks[b]);
            }
            assert forall|k: Seq<char>|
                #![trigger self.key_bindings@.contains_key(k)]
                self.key_bindings@.contains_key(k) implies exists|t: int|
                    0 <= t < rows.len() && #[trigger] rows@[t].action_id@ == k by {
                assert(ks.to_set().contains(k));
                let t = choose|t: int| 0 <= t < ks.len() && ks[t] == k;
                assert(rows@[t].action_id@ == k);
            }
        }
        rows
    }
}

} // verus!

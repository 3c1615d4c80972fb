//! Persisted settings: which bots are enabled. The surrounding program
//! reads and writes the settings file; this module owns the record and how
//! it meets the bot table.

use vstd::prelude::*;

use crate::orch::view_of;
use crate::types::BotEntry;

verus! {

/// The persisted settings record.
#[derive(Debug)]
pub struct Settings {
    /// The names of the enabled bots.
    pub enabled_bots: Vec<String>,
}

/// The names of the enabled entries, in entry order.
pub open spec fn enabled_names_spec(entries: Seq<BotEntry>) -> Seq<String>
    decreases entries.len(),
{
    if entries.len() == 0 {
        Seq::<String>::empty()
    } else {
        let rest = enabled_names_spec(entries.drop_last());
        if entries.last().enabled {
            rest.push(entries.last().name)
        } else {
            rest
        }
    }
}

impl Settings {
    /// An empty record: no bot enabled.
    pub fn new() -> (r: Settings)
        ensures
            r.enabled_bots@ == Seq::<String>::empty(),
    {
        Settings { enabled_bots: Vec::new() }
    }

    /// Whether `name` is among the enabled bots.
    pub fn contains_name(&self, name: &String) -> (r: bool)
        ensures
            r == view_of(self.enabled_bots@).contains(name@),
    {
        let n = self.enabled_bots.len();
        let mut i: usize = 0;
        while i < n
            invariant
                n == self.enabled_bots@.len(),
                i <= n,
                forall|k: int| 0 <= k < i ==> (#[trigger] self.enabled_bots@[k])@ != name@,
            decreases n - i,
        {
            if crate::strutil::str_eq(self.enabled_bots[i].as_str(), name.as_str()) {
                proof {
                    assert(view_of(self.enabled_bots@)[i as int] == name@);
                }
                return true;
            }
            i = i + 1;
        }
        proof {
            if view_of(self.enabled_bots@).contains(name@) {
                let k = choose|k: int|
                    0 <= k < view_of(self.enabled_bots@).len() && view_of(self.enabled_bots@)[k]
                        == name@;
                assert(self.enabled_bots@[k]@ == name@);
            }
        }
        false
    }

    /// The record that captures the current bot table: the names of the
    /// enabled entries, in order.
    pub fn from_entries(entries: &Vec<BotEntry>) -> (r: Settings)
        ensures
            r.enabled_bots@ == enabled_names_spec(entries@),
    {
        let mut names: Vec<String> = Vec::new();
        let n = entries.len();
        let mut i: usize = 0;
        while i < n
            invariant
                n == entries@.len(),
                i <= n,
                names@ == enabled_names_spec(entries@.take(i as int)),
            decreases n - i,
        {
            proof {
                assert(entries@.take(i as int + 1).drop_last() =~= entries@.take(i as int));
                assert(entries@.take(i as int + 1).last() == entries@[i as int]);
            }
            if entries[i].enabled {
                names.push(entries[i].name.clone());
            }
            i = i + 1;
        }
        proof {
            assert(entries@.take(n as int) =~= entries@);
        }
        Settings { enabled_bots: names }
    }
}

impl Default for Settings {
    /// An empty record: no bot enabled.
    fn default() -> (r: Settings)
        ensures
            r.enabled_bots@ == Seq::<String>::empty(),
    {
        Settings { enabled_bots: Vec::new() }
    }
}

/// Pre-seed the entries' enabled flags from the persisted record: an entry
/// whose name the record lists becomes enabled; the others keep their flag.
pub fn apply_settings(entries: &mut Vec<BotEntry>, settings: &Settings)
    ensures
        final(entries)@.len() == old(entries)@.len(),
        forall|i: int|
            0 <= i < old(entries)@.len() ==> {
                &&& (#[trigger] final(entries)@[i]).name == old(entries)@[i].name
                &&& final(entries)@[i].window_pattern == old(entries)@[i].window_pattern
                &&& final(entries)@[i].description == old(entries)@[i].description
                &&& final(entries)@[i].instances == old(entries)@[i].instances
                &&& final(entries)@[i].error == old(entries)@[i].error
                &&& final(entries)@[i].script_path == old(entries)@[i].script_path
                &&& final(entries)@[i].enabled == (old(entries)@[i].enabled || view_of(
                    settings.enabled_bots@,
                ).contains(old(entries)@[i].name@))
            },
{
    let ghost old_entries = entries@;
    let total = entries.len();
    let mut rest = entries.split_off(0);
    proof {
        assert(rest@ =~= old_entries);
        assert(entries@ =~= Seq::<BotEntry>::empty());
    }
    while rest.len() > 0
        invariant
            total == old_entries.len(),
            entries@.len() + rest@.len() == total,
            rest@ == old_entries.skip(entries@.len() as int),
            forall|i: int|
                0 <= i < entries@.len() ==> {
                    &&& (#[trigger] entries@[i]).name == old_entries[i].name
                    &&& entries@[i].window_pattern == old_entries[i].window_pattern
                    &&& entries@[i].description == old_entries[i].description
                    &&& entries@[i].instances == old_entries[i].instances
                    &&& entries@[i].error == old_entries[i].error
                    &&& entries@[i].script_path == old_entries[i].script_path
                    &&& entries@[i].enabled == (old_entries[i].enabled || view_of(
                        settings.enabled_bots@,
                    ).contains(old_entries[i].name@))
                },
        decreases rest@.len(),
    {
        let ghost k = entries@.len() as int;
        proof {
            assert(old_entries.skip(k)[0] == old_entries[k]);
            assert(old_entries.skip(k).drop_first() =~= old_entries.skip(k + 1));
        }
        let mut e = rest.remove(0);
        proof {
            assert(rest@ =~= old_entries.skip(k + 1));
        }
        if settings.contains_name(&e.name) {
            e.enabled = true;
        }
        entries.push(e);
    }
    proof {
        assert forall|i: int| 0 <= i < total implies old_entries[i] == old(entries)@[i] by {}
    }
}

} // verus!

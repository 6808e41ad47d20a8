//! Simulated transport configuration: the hard-coded contact endpoints a
//! service bootstraps against.

use vstd::prelude::*;

use crate::Endpoint;

verus! {

/// Simulated crust config file.
#[derive(Clone, Debug)]
pub struct Config {
    /// Contacts to bootstrap against.
    pub hard_coded_contacts: Vec<Endpoint>,
}

impl Config {
    /// Create default `Config` with no contacts.
    pub fn new() -> (r: Config)
        ensures
            r.hard_coded_contacts@ == Seq::<Endpoint>::empty(),
    {
        Config { hard_coded_contacts: Vec::new() }
    }

    /// Create `Config` with the given hardcoded contacts.
    pub fn with_contacts(contacts: &[Endpoint]) -> (r: Config)
        ensures
            r.hard_coded_contacts@ == contacts@,
    {
        let mut v: Vec<Endpoint> = Vec::new();
        let mut i: usize = 0;
        while i < contacts.len()
            invariant
                i <= contacts@.len(),
                v@ == contacts@.subrange(0, i as int),
            decreases contacts@.len() - i,
        {
            v.push(contacts[i]);
            proof {
                assert(v@ =~= contacts@.subrange(0, i + 1));
            }
            i = i + 1;
        }
        proof {
            assert(v@ =~= contacts@);
        }
        Config { hard_coded_contacts: v }
    }
}

impl Default for Config {
    fn default() -> (r: Config)
        ensures
            r.hard_coded_contacts@ == Seq::<Endpoint>::empty(),
    {
        Config::new()
    }
}

} // verus!

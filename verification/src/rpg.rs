//! Things on which spells are cast.

use vstd::prelude::*;

verus! {

/// What a spell can be cast on.
#[derive(Debug, Clone, Copy, PartialEq, Eq, Structural)]
pub enum Thing {
    Sword,
    Trinket,
}

impl Thing {
    /// What a spell leaves of the thing: the thing as it was where the
    /// spell was successful, and a worthless trinket where it was not.
    pub fn enchant(&mut self, spell_is_successful: bool)
        ensures
            *final(self) == if spell_is_successful {
                *old(self)
            } else {
                Thing::Trinket
            },
    {
        if !spell_is_successful {
            *self = Thing::Trinket;
        }
    }
}

} // verus!

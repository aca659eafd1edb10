//! What every catalogue item offers.

use vstd::prelude::*;

verus! {

/// An item of a catalogue: an id, a display name and further descriptive
/// fields as (key, value) pairs.
pub trait Item {
    type ID;

    fn id(&self) -> Self::ID;

    fn name(&self) -> String;

    fn data(&self) -> Vec<(String, String)>;
}

} // verus!

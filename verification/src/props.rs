//! The renderer's input.

use vstd::prelude::*;
use vstd::std_specs::cmp::PartialEqSpecImpl;

verus! {

/// Input of the renderer: a snapshot of the current order. Two snapshots
/// are equal when they hold the same values at the same positions, so an
/// unchanged order calls for no new render.
#[derive(Clone, Copy, Debug)]
pub struct ListProps {
    pub fields: [u8; 10],
}

impl PartialEq for ListProps {
    fn eq(&self, other: &Self) -> (equal: bool) {
        let mut idx: usize = 0;
        while idx < 10
            invariant
                idx <= 10,
                forall|i: int| 0 <= i < idx ==> self.fields@[i] == other.fields@[i],
            decreases 10 - idx,
        {
            if self.fields[idx] != other.fields[idx] {
                return false;
            }
            idx += 1;
        }
        assert(self.fields@ =~= other.fields@);
        true
    }
}

impl PartialEqSpecImpl for ListProps {
    open spec fn obeys_eq_spec() -> bool {
        true
    }

    open spec fn eq_spec(&self, other: &Self) -> bool {
        self.fields@ == other.fields@
    }
}

} // verus!

//! The chess rules as methods of the grid.

use crate::chess_strategies::kings;
use crate::grid::Grid;
use vstd::prelude::*;

verus! {

impl Grid {
    /// Applies the king's-move rule to the grid. Returns `Some(())` if a
    /// candidate was cleared and `None` if the grid stayed as it was.
    pub fn kings(&mut self) -> (changed: Option<()>)
        requires
            old(self).wf(),
        ensures
            final(self).wf(),
            final(self)@ == old(self)@.kings(),
            changed is Some <==> final(self)@ != old(self)@,
    {
        if kings(self) {
            Some(())
        } else {
            None
        }
    }
}

} // verus!

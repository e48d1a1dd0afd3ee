//! Counting clicks within a frame: a click that nothing made use of cancels
//! the current input sequence.

use vstd::prelude::*;

verus! {

/// The clicks of the current frame. Every click counts once, and a click
/// that something made use of counts once more.
#[derive(Debug, Clone, Copy, PartialEq, Eq, Structural)]
pub struct ClickCounter(pub u8);

impl ClickCounter {
    /// Counts one more click.
    pub fn register_click(&mut self)
        requires
            old(self).0 < u8::MAX,
        ensures
            final(self).0 == old(self).0 + 1,
    {
        self.0 = self.0 + 1;
    }

    /// Ends the frame: when exactly one count was made, the one click of the
    /// frame was of no use, and the current action and active piece are
    /// cleared. The count starts over. Returns whether to clear.
    pub fn cancel_input_sequence(&mut self) -> (cancel: bool)
        ensures
            cancel == (old(self).0 == 1),
            final(self).0 == 0,
    {
        let cancel = self.0 == 1;
        self.0 = 0;
        cancel
    }
}

} // verus!

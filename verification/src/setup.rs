//! The first-run wizard: its three steps, and the game folder it proposes.

use vstd::prelude::*;

verus! {

/// How many steps the wizard has: the mode, the game folder, done.
pub const SETUP_STEPS: usize = 3;

/// The page a step shows.
#[derive(Debug, Clone, Copy, PartialEq, Eq, Structural)]
pub enum Page {
    Mode,
    Game,
    Done,
}

/// The wizard: which step is showing, and the game folder it proposes and
/// whether it found that folder by itself.
#[derive(Debug)]
pub struct Setup {
    pub step: usize,
    pub garrysmod: String,
    pub found_automatically: bool,
}

impl Setup {
    /// A wizard at its first step, proposing the folder the settings
    /// already name, else the one `found` on this machine, else none.
    pub fn new(configured: &String, found: Option<String>) -> (r: Setup)
        ensures
            r.step == 0,
            configured@.len() > 0 ==> r.garrysmod@ == configured@ && !r.found_automatically,
            configured@.len() == 0 ==> match found {
                Some(dir) => r.garrysmod@ == dir@ && r.found_automatically,
                None => r.garrysmod@.len() == 0 && !r.found_automatically,
            },
    {
        if configured.unicode_len() > 0 {
            Setup { step: 0, garrysmod: configured.clone(), found_automatically: false }
        } else {
            match found {
                Some(dir) => Setup { step: 0, garrysmod: dir, found_automatically: true },
                None => Setup { step: 0, garrysmod: String::new(), found_automatically: false },
            }
        }
    }

    /// The page the current step shows.
    pub fn page(&self) -> (r: Page)
        ensures
            r == if self.step == 0 {
                Page::Mode
            } else if self.step == 1 {
                Page::Game
            } else {
                Page::Done
            },
    {
        if self.step == 0 {
            Page::Mode
        } else if self.step == 1 {
            Page::Game
        } else {
            Page::Done
        }
    }

    /// Whether there is a step to go back to.
    pub fn can_go_back(&self) -> (r: bool)
        ensures
            r == (self.step > 0),
    {
        self.step > 0
    }

    /// Back one step, when there is one.
    pub fn back(&mut self)
        ensures
            final(self).step == back_step(old(self).step as int),
            final(self).garrysmod == old(self).garrysmod,
            final(self).found_automatically == old(self).found_automatically,
    {
        if self.step > 0 {
            self.step = self.step - 1;
        }
    }

    /// Whether the step showing is the last, whose button starts the
    /// editor rather than going on.
    pub fn is_last(&self) -> (r: bool)
        ensures
            r == (self.step + 1 >= SETUP_STEPS),
    {
        !(self.step < SETUP_STEPS - 1)
    }

    /// The forward button: on to the next step, or, on the last, start the
    /// editor. Gives back whether the editor starts.
    pub fn forward(&mut self) -> (started: bool)
        ensures
            started == (old(self).step + 1 >= SETUP_STEPS),
            final(self).step == forward_step(old(self).step as int),
            final(self).garrysmod == old(self).garrysmod,
            final(self).found_automatically == old(self).found_automatically,
    {
        if self.step < SETUP_STEPS - 1 {
            self.step = self.step + 1;
            false
        } else {
            true
        }
    }
}

/// The step the back button goes to.
pub open spec fn back_step(step: int) -> int {
    if step > 0 {
        step - 1
    } else {
        0
    }
}

/// The step the forward button goes to: the next, or, on the last, the
/// same while the editor starts.
pub open spec fn forward_step(step: int) -> int {
    if step + 1 >= SETUP_STEPS {
        step
    } else {
        step + 1
    }
}

/// The wizard stays among its steps, and back undoes forward short of the
/// last step.
pub proof fn lemma_forward_back(step: int)
    requires
        0 <= step < SETUP_STEPS,
    ensures
        0 <= forward_step(step) < SETUP_STEPS,
        0 <= back_step(step) < SETUP_STEPS,
        step + 1 < SETUP_STEPS ==> back_step(forward_step(step)) == step,
{
}

} // verus!

use vstd::prelude::*;

verus! {

// Board sizing
pub const MAX_HEIGHT: usize = 11;

pub const MAX_WIDTH: usize = 11;

pub const MAX_BOARD_SIZE: usize = 121;

pub const MAX_SNAKES: usize = 4;

/// Whether a server searches itself or relays requests to workers.
#[derive(Copy, Clone, Debug, Default, PartialEq, Eq, Structural)]
pub enum Mode {
    #[default]
    Worker,
    Relay,
}

} // verus!

//! The driving loop, one turn at a time. The caller prints each frame and
//! sleeps; which world comes next, and what is shown of it, is decided here.

use crate::render::{picture, show_world};
use crate::rules::{next_world, tick_world};
use crate::world::{is_square, World};
use vstd::prelude::*;

verus! {

/// The pause after each new generation, in milliseconds.
pub const PAUSE_MS: u64 = 100;

/// What the caller does in one turn: print `text`, then wait `pause_ms`
/// milliseconds.
#[derive(Debug, PartialEq, Eq)]
pub struct Frame {
    pub text: String,
    pub pause_ms: u64,
}

/// Where the driving loop stands.
#[derive(Debug, PartialEq, Eq)]
pub enum Driver {
    /// The world has been loaded and nothing has been shown yet.
    Loaded(World),
    /// The world is the generation that was shown last.
    Shown(World),
}

impl Driver {
    /// The world that the loop holds.
    pub open spec fn world(self) -> World {
        match self {
            Driver::Loaded(w) => w,
            Driver::Shown(w) => w,
        }
    }
}

/// Computes the next generation and draws it.
pub fn advance_and_show(w: &World) -> (r: (World, String))
    ensures
        r.0@ == next_world(w@),
        r.1@ == picture(next_world(w@)),
        is_square(r.0@),
{
    let next: World = tick_world(w);
    let text: String = show_world(&next);
    (next, text)
}

/// Takes one turn of the driving loop. The first turn shows the world as it
/// was loaded, without a pause; every later turn moves on by one generation,
/// shows it, and asks for the pause. The loop has no last turn.
pub fn run(d: Driver) -> (r: (Driver, Frame))
    ensures
        match d {
            Driver::Loaded(w) => r.0 == Driver::Shown(w) && r.1.text@ == picture(w@)
                && r.1.pause_ms == 0,
            Driver::Shown(w) => r.0 is Shown && r.0.world()@ == next_world(w@) && r.1.text@
                == picture(next_world(w@)) && r.1.pause_ms == PAUSE_MS,
        },
{
    match d {
        Driver::Loaded(w) => {
            let text: String = show_world(&w);
            (Driver::Shown(w), Frame { text, pause_ms: 0 })
        },
        Driver::Shown(w) => {
            let (next, text) = advance_and_show(&w);
            (Driver::Shown(next), Frame { text, pause_ms: PAUSE_MS })
        },
    }
}

} // verus!

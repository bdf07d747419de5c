//! oxvoid: the reactive runtime of the oxvoid apps, and the logic of the
//! apps that is not drawing: the falling-blocks game, the expression
//! parser of the graphing calculator, the raycaster's map and minimap, the
//! backend client's addresses and errors, the landing page's theme switch.
use vstd::prelude::*;

pub mod signals;
pub mod text;
pub mod rng;
pub mod tetris;
pub mod graphcalc;
pub mod doom;
pub mod convex;
pub mod landing;
pub mod mesh;

pub use signals::{batch, effect, memo, signal, ReadSignal, WriteSignal};
pub use convex::ConvexError;

verus! {
} // verus!

//! A deterministic, fixed-timestep movement and collision kernel for one actor
//! among static rectangles. All arithmetic is single precision, carried out on
//! bit patterns, so that a run gives the same trajectory on every machine.
pub mod bignum;
pub mod buttons;
pub mod decimal;
pub mod document;
pub mod events;
pub mod export;
pub mod geom;
pub mod host;
pub mod kernel;
pub mod laws;
pub mod params;
pub mod replay;
pub mod rest;
pub mod single;
pub mod state;
pub mod trace;

pub use buttons::Buttons;
pub use events::Events;
pub use export::{core_default_params, core_init_state, core_step};
pub use host::Core;
pub use geom::{rects_intersect, Rect};
pub use kernel::step;
pub use params::Params;
pub use single::repr::Single;
pub use state::State;

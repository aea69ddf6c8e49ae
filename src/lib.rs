//! Verified core of a clipboard-history utility: the history store, the
//! clipboard capture step, the panel visibility state machine and the
//! screen-edge monitor's geometry.

pub mod text;
pub mod store;
pub mod capture;
pub mod window;
pub mod hotkey;

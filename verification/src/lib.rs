//! Layout and terminal-output planning for a system-information renderer:
//! where text lands in a cell buffer, which cells are sent to the terminal,
//! and the escape sequences that place images next to the readouts.

pub mod geometry;
pub mod terminal;
pub mod buffer;
pub mod escape;
pub mod kitty;
pub mod layout;
pub mod version;

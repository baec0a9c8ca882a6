//! Verified core of a kanshi profile manager: the kanshi configuration
//! grammar (parsing and generation), the display model, profile matching and
//! the decisions of the editor.

pub mod text;
pub mod model;
pub mod grammar;
pub mod parse;
pub mod generate;
pub mod overlay;
pub mod restart;
pub mod matching;
pub mod sway;
pub mod order;
pub mod editor;
pub mod sidebar;
pub mod laws;
pub mod readback;

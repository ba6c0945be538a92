//! What the menu of the program decides.

pub mod menu;

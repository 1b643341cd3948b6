//! Verified core of a university-restaurant menu viewer: parsing of the
//! menu service's replies, the menu model, themes and colours, and the
//! state machine of the terminal interface.

pub mod text;
pub mod menu;
pub mod fetcher;
pub mod theme;
pub mod app;
pub mod display;

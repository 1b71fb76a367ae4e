//! Reader-style chrome laid out at pixel level: the top bar and the popups,
//! matching Nickel's reading view.

pub mod popup;
pub mod topbar;

pub mod fmt;
pub mod font;
pub mod device;
pub mod input;
pub mod nickel;
pub mod pair;
pub mod panel;
pub mod panel_fbink;
pub mod parse;
pub mod px;
pub mod pxui;
pub mod render;
pub mod session;
pub mod store;
pub mod term;
pub mod text;
pub mod transport;
pub mod ui;

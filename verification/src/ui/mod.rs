pub mod draw;
pub mod home;
pub mod osk;
pub mod popup;
pub mod topbar;

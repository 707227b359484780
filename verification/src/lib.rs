//! Remote desktop and file transfer for robots: the rules, state machines and
//! data structures behind the host and the viewer.
pub mod clipboard;
pub mod forward;
pub mod ui;
pub mod panes;
pub mod cli;
pub mod rounding;
pub mod text;
pub mod theme;
pub mod proto;
pub mod xkeys;
pub mod input;
pub mod pixels;
pub mod device;
pub mod codec;
pub mod reorder;
pub mod listing;
pub mod files;
pub mod file_session;
pub mod users;
pub mod robot_files;
pub mod transport;
pub mod sort;
pub mod discovery;
pub mod update;
pub mod keymap;
pub mod cpu;
pub mod transfer;
pub mod session;
pub mod capture;
pub mod stream;
pub mod viewer;

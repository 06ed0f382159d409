//! Settings logic of the haremal control panel: reading and writing the
//! lines of its configuration files, the device list, the update console
//! and the option labels that the panel shows.

pub mod std_calls;
pub mod text;
pub mod numbers;
pub mod edits;
pub mod config_lines;
pub mod region;
pub mod sections;
pub mod applications;
pub mod devices;
pub mod update;
pub mod desktop;
pub mod appearance;

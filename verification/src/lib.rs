pub mod text;
pub mod table;
pub mod desktop_entry;
pub mod process;
pub mod desktop;
pub mod manage;
pub mod metrics;
pub mod command;
pub mod gpu;
pub mod monitor;
pub mod slow;
pub mod history;
pub mod protocol;
pub mod storage;
pub mod services;

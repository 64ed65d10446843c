//! Supervisor engine for a small service manager: the service model, the
//! dependency sorter, the exec-line parser, the ready protocol and the
//! status machine that the supervisor drives.

pub mod command;
pub mod manager;
pub mod order;
pub mod ready;
pub mod sort;
pub mod types;

//! Interactive file sorter and duplicate finder: the verified core.
pub mod buffer;
pub mod control;
pub mod duplicates;
pub mod event_bus;
pub mod file_types;
pub mod grouping;
pub mod layout;
pub mod pages;
pub mod sorting;
pub mod term;
pub mod text;
pub mod ui;
pub mod widgets;

//! The widgets the application is built from.
pub mod ui_filelist;
pub mod ui_input_dialog;
pub mod ui_menu;
pub mod ui_progress_bar;
pub mod ui_status_bar;
pub mod widget;

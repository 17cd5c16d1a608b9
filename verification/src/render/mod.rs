pub mod canvas;
pub mod gate_layout;
pub mod layout;
pub mod panel;
pub mod signal;
pub mod topology;

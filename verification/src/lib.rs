pub mod calendar;
mod text;
pub mod log;
pub mod overlay;
pub mod runtime;

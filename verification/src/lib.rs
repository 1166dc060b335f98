pub mod opt;
pub mod os;
pub mod workers;
pub mod messages;
pub mod input;
pub mod state;

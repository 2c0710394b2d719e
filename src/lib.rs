pub mod events;
pub mod level;

pub mod bridge;
pub mod client;
pub mod coord;
pub mod registry;
pub mod relay;
pub mod text;
pub mod world;

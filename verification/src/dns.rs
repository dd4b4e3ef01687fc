pub mod browse;
pub mod inventory;
pub mod name;
pub mod privacy;
pub mod resolver;
pub mod service;
pub mod upstream;
pub mod wire;

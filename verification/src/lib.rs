pub mod load_balancing;
pub mod round_robin;
pub mod server_group;
pub mod text;
pub mod services;

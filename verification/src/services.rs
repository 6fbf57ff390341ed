pub mod health;
pub mod instance;
pub mod registry;
pub mod service;
pub mod service_map;

pub use health::HealthChecker;
pub use instance::ServerInstance;
pub use registry::ServiceRegistry;
pub use service::Service;
pub use service_map::ServiceMap;

pub mod args;
pub mod text;
pub mod order;
pub mod disk_manager;
pub mod packages;
pub mod system_configs;

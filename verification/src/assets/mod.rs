//! Files that describe algorithms, configurations, devices and packages.

pub mod algorithm;
pub mod configuration;
pub mod defaults;
pub mod device_db;
pub mod embedded_algorithms;
pub mod embedded_configurations;
pub mod package_map;
pub mod registry;

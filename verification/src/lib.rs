//! Declarative process orchestration: configuration model, dependency
//! graph ordering, environment expansion and readiness decisions.

pub mod text;
pub mod name_map;
pub mod config;
pub mod error;
pub mod dag;
pub mod envsubst;
pub mod manager;
pub mod process;
pub mod ready;

pub use config::{Config, Target, WaitFor};
pub use manager::Manager;

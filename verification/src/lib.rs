pub mod config;
pub mod model;
pub mod text;
pub mod sort;
pub mod history;
pub mod matcher;
pub mod desktop;
pub mod runner;
pub mod cli;
pub mod session;
pub mod paint;
pub mod icon;

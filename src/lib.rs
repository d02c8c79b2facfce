pub mod agreement;
pub mod app_configuration;
pub mod day11;
pub mod expression;
pub mod monkey;
pub mod parser;
pub mod service;
pub mod simulation;
pub mod text;

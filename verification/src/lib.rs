pub mod api;
pub mod book;
pub mod bounds;
pub mod clock;
pub mod config;
pub mod discovery;
pub mod document;
pub mod engine;
pub mod exec;
pub mod feed;
pub mod fees;
pub mod health;
pub mod json;
pub mod metrics;
pub mod order;
pub mod portfolio;
pub mod quote;
pub mod record;
pub mod registry;
pub mod report;
pub mod risk;
pub mod run;
pub mod scan;
pub mod solver;
pub mod tally;
pub mod text;
pub mod timestamp;
pub mod types;
pub mod verify;
pub mod wide;

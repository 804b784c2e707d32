//! Pax Americana: the verified core of a copy-trading system that mirrors a master
//! account's net position structure onto client accounts.

pub mod model;
pub mod text;
pub mod sizing;
pub mod symbols;
pub mod reconcile;
pub mod orders;
pub mod clock;
pub mod market_hours;
pub mod update;
pub mod client_state;
pub mod master_state;
pub mod numparse;
pub mod config;
pub mod protocol;
pub mod master_api;
pub mod analytics;
pub mod round_trips;
pub mod metrics;
pub mod appdata;
pub mod gate;
pub mod engine;
pub mod web;
pub mod panel;
pub mod server;
pub mod decimal;
pub mod feed;
pub mod theme;
pub mod alert;
pub mod sectors;
pub mod flex;
pub mod statement;
pub mod license;
pub mod book;
pub mod portfolio;
pub mod report;
pub mod display;
pub mod persist;
pub mod chart_data;
pub mod cooldown;

//! Neutral grid trading: a grid of orders on a perpetual swap, bounded by two options.
//!
//! Prices, sizes and rates are amounts: integers that count units of 10^-10.
pub mod amount;
pub mod binance;
pub mod book;
pub mod decimal;
pub mod geometry;
pub mod grid;
pub mod json;
pub mod models;
pub mod okx;
pub mod options;
pub mod rest;
pub mod scan;
pub mod session;
pub mod signing;
pub mod state;
pub mod strategy;
pub mod text;
pub mod wide;

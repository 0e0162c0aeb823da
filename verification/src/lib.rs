//! A paper-trading terminal for perpetual futures: market data, its feed, the
//! paper account and the desk that shows them.

pub mod candles;
pub mod desk;
pub mod double;
pub mod feed;
pub mod format;
pub mod json;
pub mod lists;
pub mod market;
pub mod paper;
pub mod rest;
pub mod text;
pub mod timeframe;
pub mod ws;

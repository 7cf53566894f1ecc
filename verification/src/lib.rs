//! Comparative-metric graphs over country-keyed datasets.
//!
//! Every quantity is a fixed-point integer: [`fixed::SCALE`] units make up
//! one whole, so `1_500_000` stands for one and a half.

pub mod error;
pub mod fixed;
pub mod number;
pub mod dataset;
pub mod paths;
pub mod graphing;
pub mod layout;
pub mod scene;
pub mod similarity;
pub mod comparative;
pub mod reader;
pub mod scatter;
pub mod tourism_graph;
pub mod gdp_and_tourism_graph;
pub mod purchasing_power_graph;
pub mod unemployment_graph;

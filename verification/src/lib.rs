//! The century index: fixed-point prices, civil dates, daily series, the
//! basket, its collared rent path, and the feed parsers that supply it.

pub mod calendar;
pub mod num;
pub mod text;
pub mod series;
pub mod index;
pub mod fetch;
pub mod calculator;
pub mod chart;
pub mod publish;
pub mod graph;
pub mod site;
pub mod pipeline;

//! The arithmetic of a power meter: running statistics of its readings,
//! running totals of charge and energy, the energy as a number of battery
//! cells, and gauges of fixed width for a text display.
//!
//! Readings are single-precision values, held as their bit patterns and
//! worked on with integers alone; `ieee`, `rounding`, `root`, `exact` and
//! `monotone` hold that arithmetic and its laws. `metrics` and `termviz` are what a
//! caller uses; `monitor` and `sensor` hold the decisions of a firmware loop
//! around an INA219 sensor.
pub mod digits;
pub mod exact;
pub mod ieee;
pub mod metrics;
pub mod monitor;
pub mod monotone;
pub mod root;
pub mod rounding;
pub mod sensor;
pub mod single;
pub mod termviz;

//! Helpers of the driver.

pub mod id_generator;

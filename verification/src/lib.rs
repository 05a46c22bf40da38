//! Library for a serial-attached multi-channel power meter appliance:
//! parsing raw meter lines into fixed-point channel readings,
//! polarity-aware aggregation of those readings, and the state machine
//! of a daily-rotating, rate-limited CSV logger.
//!
//! The unit convention: a raw meter token is taken directly as the
//! configured unit (watts), with no line-voltage divisor applied, and
//! magnitudes are carried in milli-units (three decimal places of that
//! unit), so every quantity in a contract is an integer.

pub mod current_monitor;
pub mod datalogger;
pub mod decimal;

//! The verified core of an interface to the Plantower PMS5003 particulate air quality sensor.
//!
//! [`pms5003`] finds and checks the sensor's frames in its serial byte stream, [`aqi`] sums them
//! up over fixed intervals of time, and [`monitor`] decides how a background task that owns such
//! a summary answers queries. None of these modules touches a serial port: the program around
//! them does the reading, waiting and sending that they ask for.

pub mod aqi;
pub mod clock;
pub mod duration;
pub mod frame;
pub mod history;
pub mod monitor;
pub mod pms5003;
pub mod report;
pub mod run;
pub mod scan;
pub mod stream;

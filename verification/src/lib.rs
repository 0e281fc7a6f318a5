//! Verified core of a desk dashboard: the app tiles of the home screen, the database
//! worker's decisions, the time window of the temperature history, and the text shown on
//! screen.
pub mod apps;
pub mod calendar;
pub mod clock;
pub mod datetime;
pub mod db;
pub mod history;
pub mod home;
pub mod home_laws;
pub mod text;
pub mod weather;

//! Watches a temperature sensor that publishes its reading on a web page and
//! decides when to send an alert by mail.
//!
//! - `decimal`: exact decimal readings, their parsing and their order.
//! - `extract`: finding the reading in a page.
//! - `monitor`: the alert flag carried across poll cycles and its transitions.
//! - `mail`: the notification that goes out on an alert.
pub mod decimal;
pub mod extract;
pub mod monitor;
pub mod mail;

//! The decisions of a desktop service that opens the apps of an Android phone
//! as ordinary windows.

pub mod adb;
pub mod calendar;
pub mod daemon;
pub mod errors;
pub mod hotplug;
pub mod notify;
pub mod numerals;
pub mod permiso;
pub mod process;
pub mod protocol;
pub mod registry;
pub mod service;
pub mod table;
pub mod text;
pub mod webcam;
pub mod windows;

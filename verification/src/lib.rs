//! Verified core of the MapleStory Classic EXP recorder bar: reading the EXP
//! value from a window capture, turning the (time, EXP) samples into rates,
//! the timer buttons, the ini settings file and the report/PK protocol rules.

pub mod bar;
pub mod config;
pub mod data;
pub mod net;
pub mod panel;
pub mod pk;
pub mod report;
pub mod sensor;
pub mod settings;
pub mod state;
pub mod submit;
pub mod text;
pub mod util;
pub mod webview;

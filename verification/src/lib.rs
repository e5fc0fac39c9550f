//! Configuration and command logic of the BeeBotOS launcher.

pub mod text;
pub mod command;
pub mod env;
pub mod report;
pub mod secret;
pub mod roundtrip;

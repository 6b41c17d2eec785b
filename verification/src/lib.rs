//! Assets, protocol and sessions of the SP10/SP20 device programmers.

pub mod arguments;
pub mod assets;
pub mod auto_identify;
pub mod bytes;
pub mod checksum;
pub mod codepage;
pub mod commands;
pub mod exchange;
pub mod layout;
pub mod operations;
pub mod parameters;
pub mod protocol;
pub mod report;
pub mod session;
pub mod target;
pub mod text;
pub mod transport;
pub mod usb;
pub mod usb_transport;
pub mod wire;

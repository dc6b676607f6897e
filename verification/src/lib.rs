//! Pixel remapping and wire framing for addressable-LED controllers.

pub mod binary;
pub mod canonical;
pub mod device;
pub mod dispatch;
pub mod remap;
pub mod settings;
pub mod table;
pub mod text;

//! Builds a window-manager menu description from installed application
//! metadata: configurable category remapping, deduplicated and ordered entry
//! collection, icon resolution with theme fallback, and XML serialization
//! with a restricted escaping rule.

pub mod assemble;
pub mod config;
pub mod escape;
pub mod icons;
pub mod menu;
pub mod order;
pub mod pipeline;
pub mod xml;

pub use escape::{escape, escape_list};

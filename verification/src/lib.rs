//! Verified core of snapseg: prompt and mask data shapes, mask encodings,
//! contour extraction, the label format and its COCO export, the model
//! adapters' conventions, the model registry, the runtime and operator
//! configuration, and the navigation and prompt history of an interactive
//! session.

pub mod text;
pub mod types;
pub mod rle;
pub mod contour;
pub mod edges;
pub mod runtime;
pub mod registry;
pub mod config;
pub mod labels;
pub mod prompts;
pub mod models;
pub mod cycler;
pub mod session;

//! Speech bubble extraction for comics and manga: the verified core.
//!
//! The modules here hold the integer logic of the detector: pixel layouts and their
//! validation, connected-component labelling of the model mask, Moore boundary tracing,
//! outline point selection, model tensor checks and error reporting.

pub mod contour;
pub mod error;
pub mod input;
pub mod layout;
pub mod model;
pub mod options;
pub mod postprocess;
pub mod text;
pub mod types;

pub use contour::{IntPoint, select_kept_points, trace_contour};
pub use error::BubblePopError;
pub use input::{ImageSource, IntoImageSource, PixelFormat, RawPixelView};
pub use options::Backend;
pub use postprocess::PostprocessContext;
pub use types::Phase;

//! Justified (photo-gallery) layout: items known only by their aspect ratio
//! are packed into rows that span a fixed container width exactly, with row
//! heights kept near a target height.
//!
//! All arithmetic is exact. Aspect ratios and the height tolerance are
//! fixed-point numbers in millionths (`SCALE`); geometry is in whole pixels.

pub mod arith;
pub mod config;
pub mod item;
pub mod row;
pub mod layout;
pub mod laws;

pub use arith::{SCALE, MAX_PIXELS, MAX_RATIO, MAX_ITEMS};
pub use config::{Config, Padding, Spacing, WidowLayoutStyle};
pub use item::LayoutItem;
pub use row::Row;
pub use layout::{ComputedLayout, JustifiedLayout, LayoutError};

//! Turning authored control points into one bar after another.
pub mod allocation;
pub mod image;
pub mod layout;
pub mod walk;

pub use self::allocation::{allocate, plan_allocation, AllocationPlan, Division, Ideal, Weight};
pub use self::layout::{asked_bars, asked_fits, lay_out, usable, Slot};
pub use self::image::{content_key, describe, fnv1a, image_size, size_of_image};
pub use self::walk::{
    current_wallpaper, current_wallpaper_file, densify, direction, horizon, horizon_floor,
    resample, segments, Control, Dense, Direction, Height, Lean, PathSpec, Point,
    Resampling, EPSILON, HORIZON_BUCKETS, PER_SEGMENT,
};

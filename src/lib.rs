//! Progressive orthographic ray casting of an ellipsoid: the sample grid of
//! the camera, the RGBA frame buffer, and the coarse-to-fine block scheduler
//! that decides which blocks of the frame each pass samples and paints.
pub mod camera;
pub mod canvas;
pub mod color;
pub mod scene;

pub use camera::{Camera, PointsIter, Ratio, WorldPoint, CAMERA_CENTER_Z};
pub use canvas::{Canvas, Pixel, PixelPoint, PixelsIter, BACKGROUND, PIXEL_LEN};
pub use color::Color;
pub use scene::{
    InvalidBlockSize, Scene, DEFAULT_MAX_BLOCK_SIZE, DEFAULT_VIEWPORT_SIZE, REFINEMENT_FACTOR,
};

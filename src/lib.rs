//! Drawing of points, lines, triangles, rectangles and circles onto a raster
//! image: each shape is turned into pixel positions by verified integer
//! algorithms, and the pixels are written in one random opaque color.

pub mod canvas;
mod chance;
pub mod draw;
pub mod laws;
pub mod rounding;
pub mod shapes;

pub use draw::{Displayable, Drawable};
pub use shapes::{Circle, Line, Point, Rectangle, Triangle};

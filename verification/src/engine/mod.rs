//! The drawing side of the console: sprite sheets, the square viewport,
//! shader-program bookkeeping and the main loop's decisions.

pub mod sprites;
pub mod shader;
pub mod window;

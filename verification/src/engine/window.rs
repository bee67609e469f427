//! Decisions of the main loop: what a window event does, what each frame
//! draws, and where the square play field sits in a resized window.
use vstd::prelude::*;

verus! {

/// The window events the main loop reacts to.
pub enum WindowEvent {
    CloseRequested,
    Resized(u32, u32),
    Other,
}

/// What the main loop does in answer to an event.
pub enum EventAction {
    Nothing,
    /// Resize the drawing surface to the given width and height.
    ResizeSurface(u32, u32),
}

/// The loop's next `running` flag and action for `event`: a close request
/// stops the loop, a resize is passed on to the surface, and anything else
/// is ignored.
pub fn handle_event(running: bool, event: &WindowEvent) -> (r: (bool, EventAction))
    ensures
        r == match *event {
            WindowEvent::CloseRequested => (false, EventAction::Nothing),
            WindowEvent::Resized(w, h) => (running, EventAction::ResizeSurface(w, h)),
            WindowEvent::Other => (running, EventAction::Nothing),
        },
{
    match event {
        WindowEvent::CloseRequested => (false, EventAction::Nothing),
        WindowEvent::Resized(w, h) => (running, EventAction::ResizeSurface(*w, *h)),
        WindowEvent::Other => (running, EventAction::Nothing),
    }
}

/// One drawing command of a frame.
pub enum DrawCommand {
    Pixel { x: u32, y: u32, color: u32 },
    Sprite { x: u32, y: u32, sprite: usize },
}

/// What every frame draws: a white fat pixel in each corner of the 128x128
/// screen, then sprite 0 at (10, 10).
pub open spec fn frame_spec() -> Seq<DrawCommand> {
    seq![
        DrawCommand::Pixel { x: 0, y: 0, color: 1 },
        DrawCommand::Pixel { x: 127, y: 0, color: 1 },
        DrawCommand::Pixel { x: 0, y: 127, color: 1 },
        DrawCommand::Pixel { x: 127, y: 127, color: 1 },
        DrawCommand::Sprite { x: 10, y: 10, sprite: 0 },
    ]
}

/// The drawing commands of one frame (see [`frame_spec`]).
pub fn frame_commands() -> (r: Vec<DrawCommand>)
    ensures
        r@ == frame_spec(),
{
    let mut r = Vec::new();
    r.push(DrawCommand::Pixel { x: 0, y: 0, color: 1 });
    r.push(DrawCommand::Pixel { x: 127, y: 0, color: 1 });
    r.push(DrawCommand::Pixel { x: 0, y: 127, color: 1 });
    r.push(DrawCommand::Pixel { x: 127, y: 127, color: 1 });
    r.push(DrawCommand::Sprite { x: 10, y: 10, sprite: 0 });
    assert(r@ =~= frame_spec());
    r
}

/// A viewport: its lower left corner and its size, in window pixels.
pub struct Viewport {
    pub x: i32,
    pub y: i32,
    pub width: i32,
    pub height: i32,
}

/// The side of the largest square that fits a `w` by `h` window.
pub fn square_side(w: u32, h: u32) -> (side: u32)
    ensures
        side == if w < h {
            w
        } else {
            h
        },
{
    if w < h {
        w
    } else {
        h
    }
}

/// The square viewport of side `side` centred in a `w` by `h` window: the
/// margins are halved, rounding down, and a side too large for `i32` is
/// clamped to `i32::MAX`.
pub fn centered_viewport(w: u32, h: u32, side: u32) -> (v: Viewport)
    requires
        side <= w,
        side <= h,
    ensures
        v.x == (w - side) / 2,
        v.y == (h - side) / 2,
        v.width == if side <= i32::MAX {
            side as int
        } else {
            i32::MAX as int
        },
        v.height == v.width,
{
    let mx = (w - side) / 2;
    let my = (h - side) / 2;
    let s = if side <= 2147483647u32 {
        side as i32
    } else {
        2147483647i32
    };
    Viewport { x: mx as i32, y: my as i32, width: s, height: s }
}

} // verus!

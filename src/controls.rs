use vstd::prelude::*;

verus! {

/// Number of colors in the palette.
pub const PALETTE_LEN: usize = 5;

/// The palette that both the background and the lines cycle through:
/// black, white, red, green, blue.
pub open spec fn palette_spec(i: int) -> u32 {
    if i == 0 {
        0x000000u32
    } else if i == 1 {
        0xFFFFFFFFu32
    } else if i == 2 {
        0xFF0000u32
    } else if i == 3 {
        0x00FF00u32
    } else {
        0x0000FFu32
    }
}

/// The color at position `i` of the palette.
pub fn palette(i: usize) -> (r: u32)
    requires
        i < PALETTE_LEN,
    ensures
        r == palette_spec(i as int),
{
    if i == 0 {
        0x000000
    } else if i == 1 {
        0xFFFFFFFF
    } else if i == 2 {
        0xFF0000
    } else if i == 3 {
        0x00FF00
    } else {
        0x0000FF
    }
}

/// Camera distance at startup, in tenths of a unit.
pub const START_DISTANCE: u64 = 80;

/// Smallest camera distance, in tenths of a unit.
pub const MIN_DISTANCE: u64 = 1;

/// What the user asked for during one frame.
pub struct FrameInput {
    pub zoom_in: bool,
    pub zoom_out: bool,
    pub next_background: bool,
    pub next_object: bool,
    pub toggle_auto_rotate: bool,
}

/// The view settings that the controls change from frame to frame. The
/// rotation angles are kept by the caller.
#[derive(Clone, Copy, Debug, PartialEq, Eq, Structural)]
pub struct ViewState {
    /// Camera distance in tenths of a unit.
    pub distance: u64,
    pub auto_rotate: bool,
    /// Palette position of the line color.
    pub object_color: usize,
    /// Palette position of the background color.
    pub background_color: usize,
}

/// The next palette position, back to the first after the last.
pub open spec fn next_color(i: int) -> int {
    if i + 1 >= PALETTE_LEN {
        0
    } else {
        i + 1
    }
}

/// The distance after the zoom keys of one frame: zooming in takes a tenth
/// off, down to the minimum; zooming out then adds a tenth.
pub open spec fn zoomed(d: int, zoom_in: bool, zoom_out: bool) -> int {
    let d1 = if zoom_in {
        if d - 1 < MIN_DISTANCE {
            MIN_DISTANCE as int
        } else {
            d - 1
        }
    } else {
        d
    };
    if zoom_out {
        d1 + 1
    } else {
        d1
    }
}

impl ViewState {
    pub open spec fn wf(self) -> bool {
        &&& self.distance >= MIN_DISTANCE
        &&& self.object_color < PALETTE_LEN
        &&& self.background_color < PALETTE_LEN
    }

    /// The settings at startup: distance 8, auto-rotation on, black lines
    /// on a white background.
    pub fn initial() -> (r: ViewState)
        ensures
            r.wf(),
            r.distance == START_DISTANCE,
            r.auto_rotate,
            r.object_color == 0,
            r.background_color == 1,
    {
        ViewState { distance: START_DISTANCE, auto_rotate: true, object_color: 0, background_color: 1 }
    }

    /// Applies the input of one frame.
    pub fn update(&mut self, input: &FrameInput)
        requires
            old(self).wf(),
            old(self).distance < u64::MAX,
        ensures
            final(self).wf(),
            final(self).distance == zoomed(old(self).distance as int, input.zoom_in, input.zoom_out),
            final(self).background_color == if input.next_background {
                next_color(old(self).background_color as int)
            } else {
                old(self).background_color as int
            },
            final(self).object_color == if input.next_object {
                next_color(old(self).object_color as int)
            } else {
                old(self).object_color as int
            },
            final(self).auto_rotate == (old(self).auto_rotate != input.toggle_auto_rotate),
    {
        if input.zoom_in {
            if self.distance - 1 < MIN_DISTANCE {
                self.distance = MIN_DISTANCE;
            } else {
                self.distance = self.distance - 1;
            }
        }
        if input.zoom_out {
            self.distance = self.distance + 1;
        }
        if input.next_background {
            self.background_color = self.background_color + 1;
            if self.background_color >= PALETTE_LEN {
                self.background_color = 0;
            }
        }
        if input.next_object {
            self.object_color = self.object_color + 1;
            if self.object_color >= PALETTE_LEN {
                self.object_color = 0;
            }
        }
        if input.toggle_auto_rotate {
            self.auto_rotate = !self.auto_rotate;
        }
    }

    /// The line color.
    pub fn object_rgb(&self) -> (r: u32)
        requires
            self.wf(),
        ensures
            r == palette_spec(self.object_color as int),
    {
        palette(self.object_color)
    }

    /// The background color.
    pub fn background_rgb(&self) -> (r: u32)
        requires
            self.wf(),
        ensures
            r == palette_spec(self.background_color as int),
    {
        palette(self.background_color)
    }
}

} // verus!

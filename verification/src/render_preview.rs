//! The window of the camera view: frames for it, and when it is open.
//!
//! A frame is shown only while the window is open. Once it is closed it stays
//! closed until it is opened again.

use vstd::prelude::*;
use crate::text::{join, same};

verus! {

/// A frame: one number for each pixel, `0x00RRGGBB`, row by row from the top.
#[derive(Debug)]
pub struct Frame {
    pub title: String,
    pub width: usize,
    pub height: usize,
    pub pixels: Vec<u32>,
}

/// A side of at least one pixel.
pub open spec fn side(n: u32) -> nat {
    if n == 0 {
        1
    } else {
        n as nat
    }
}

/// The number of a pixel.
pub open spec fn packed(r: u8, g: u8, b: u8) -> u32 {
    (r as u32 * 65536 + g as u32 * 256 + b as u32) as u32
}

/// A frame from the bytes of a picture; nothing where there are too few.
pub fn make_frame(title: String, width: u32, height: u32, rgba: &[u8]) -> (r: Option<Frame>)
    requires
        side(width) * side(height) * 4 <= usize::MAX,
    ensures
        r is Some == (rgba@.len() >= side(width) * side(height) * 4),
        r matches Some(f) ==> {
            &&& f.title == title
            &&& f.width == side(width)
            &&& f.height == side(height)
            &&& f.pixels@.len() == side(width) * side(height)
            &&& forall|i: int|
                0 <= i < f.pixels@.len() ==> #[trigger] f.pixels@[i] == packed(
                    rgba@[4 * i],
                    rgba@[4 * i + 1],
                    rgba@[4 * i + 2],
                )
        },
{
    let w: usize = if width == 0 {
        1
    } else {
        width as usize
    };
    let h: usize = if height == 0 {
        1
    } else {
        height as usize
    };
    assert(w == side(width) && h == side(height));
    assert(w * h <= w * h * 4) by (nonlinear_arith)
        requires
            w >= 0,
            h >= 0,
    ;
    let count: usize = w * h;
    let total: usize = rgba.len();
    if total < count * 4 {
        return None;
    }
    let mut pixels: Vec<u32> = Vec::new();
    let mut i: usize = 0;
    while i < count
        invariant
            i <= count,
            count * 4 <= total,
            total == rgba@.len(),
            pixels@.len() == i,
            forall|k: int|
                0 <= k < i ==> #[trigger] pixels@[k] == packed(
                    rgba@[4 * k],
                    rgba@[4 * k + 1],
                    rgba@[4 * k + 2],
                ),
        decreases count - i,
    {
        let r: u32 = rgba[4 * i] as u32;
        let g: u32 = rgba[4 * i + 1] as u32;
        let b: u32 = rgba[4 * i + 2] as u32;
        let p: u32 = (r << 16) | (g << 8) | b;
        assert(p == r * 65536 + g * 256 + b) by (bit_vector)
            requires
                r < 256,
                g < 256,
                b < 256,
                p == (r << 16) | (g << 8) | b,
        ;
        pixels.push(p);
        i += 1;
    }
    Some(Frame { title, width: w, height: h, pixels })
}

/// The title of the window.
pub fn window_title(title: &str) -> (r: String)
    ensures
        r@ == "Camera View — "@ + title@ + " (live · F12 / ✕ closes)"@,
{
    let mut s = join("Camera View — ", title);
    s.append(" (live · F12 / ✕ closes)");
    s
}

/// What a new frame asks of the window.
#[derive(Clone, Copy, PartialEq, Eq, Structural, Debug)]
pub enum WindowStep {
    /// Make the window anew, in the size of the frame.
    Recreate,
    /// Give it a new title.
    Retitle,
    Keep,
}

/// What a new frame asks of the window, which shows another one.
pub fn window_step(shown: &Frame, next: &Frame) -> (r: WindowStep)
    ensures
        r == (if next.width != shown.width || next.height != shown.height {
            WindowStep::Recreate
        } else if next.title@ != shown.title@ {
            WindowStep::Retitle
        } else {
            WindowStep::Keep
        }),
{
    if next.width != shown.width || next.height != shown.height {
        WindowStep::Recreate
    } else if !same(next.title.as_str(), shown.title.as_str()) {
        WindowStep::Retitle
    } else {
        WindowStep::Keep
    }
}

/// The window of the camera view, as the program sees it.
#[derive(Debug)]
pub struct RenderPreview {
    open: bool,
    /// The frame that the window has not shown yet.
    frame: Option<Frame>,
    generation: u64,
}

impl RenderPreview {
    /// The window is open.
    pub closed spec fn is_shown(&self) -> bool {
        self.open
    }

    /// The frame that is to be shown next.
    pub closed spec fn waiting(&self) -> Option<Frame> {
        self.frame
    }

    /// How often a frame was handed over since the window was opened.
    pub closed spec fn count(&self) -> u64 {
        self.generation
    }

    pub fn new() -> (r: RenderPreview)
        ensures
            !r.is_shown(),
            r.waiting() is None,
            r.count() == 0,
    {
        RenderPreview { open: false, frame: None, generation: 0 }
    }

    /// Is the window open?
    pub fn is_open(&self) -> (r: bool)
        ensures
            r == self.is_shown(),
    {
        self.open
    }

    /// Closes the window.
    pub fn close(&mut self)
        ensures
            !final(self).is_shown(),
            final(self).waiting() is None,
            final(self).count() == old(self).count(),
    {
        self.open = false;
        self.frame = None;
    }

    /// Opens the window with a first frame. Where there is none, nothing
    /// changes.
    pub fn open(&mut self, first: Option<Frame>)
        ensures
            match first {
                Some(f) => {
                    &&& final(self).is_shown()
                    &&& final(self).waiting() == Some(f)
                    &&& final(self).count() == 1
                },
                None => *final(self) == *old(self),
            },
    {
        match first {
            Some(f) => {
                self.open = true;
                self.frame = Some(f);
                self.generation = 1;
            },
            None => {},
        }
    }

    /// Hands over a frame. Does nothing where the window is closed: it is not
    /// opened again. Says whether the window is open.
    pub fn push_frame(&mut self, next: Option<Frame>) -> (r: bool)
        requires
            old(self).count() < u64::MAX,
        ensures
            r == old(self).is_shown(),
            final(self).is_shown() == old(self).is_shown(),
            match next {
                Some(f) => if old(self).is_shown() {
                    final(self).waiting() == Some(f) && final(self).count() == old(self).count() + 1
                } else {
                    *final(self) == *old(self)
                },
                None => *final(self) == *old(self),
            },
    {
        if !self.open {
            return false;
        }
        match next {
            Some(f) => {
                self.frame = Some(f);
                self.generation = self.generation + 1;
            },
            None => {},
        }
        true
    }

    /// Takes the frame that is to be shown next.
    pub fn take_frame(&mut self) -> (r: Option<Frame>)
        ensures
            r == old(self).waiting(),
            final(self).waiting() is None,
            final(self).is_shown() == old(self).is_shown(),
            final(self).count() == old(self).count(),
    {
        self.frame.take()
    }
}

/// Bytes can be read back from the number of a pixel.
pub proof fn law_pixels_keep_their_bytes(r: u8, g: u8, b: u8)
    ensures
        packed(r, g, b) / 65536 == r,
        packed(r, g, b) / 256 % 256 == g,
        packed(r, g, b) % 256 == b,
{
    let p: u32 = packed(r, g, b);
    let (x, y, z) = (r as u32, g as u32, b as u32);
    assert(p == x * 65536 + y * 256 + z);
    assert(p / 65536 == x && p / 256 % 256 == y && p % 256 == z) by (bit_vector)
        requires
            x < 256,
            y < 256,
            z < 256,
            p == x * 65536 + y * 256 + z,
    ;
}

} // verus!

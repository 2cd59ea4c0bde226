//! The desktop background's per-output picture: which size it was last
//! built for, and the integer part of the "cover" fit (the target size and
//! where the centred crop starts). Decoding and scaling the image are left
//! to the caller.

use vstd::prelude::*;
use crate::geometry::Size;

verus! {

/// Remembers the output size the wallpaper picture was last built for.
pub struct WallpaperCache {
    cached: Option<Size>,
}

impl WallpaperCache {
    pub closed spec fn cached(&self) -> Option<Size> {
        self.cached
    }

    /// The size the picture was last built for.
    pub fn cached_size(&self) -> (r: Option<Size>)
        ensures
            r == self.cached(),
    {
        self.cached
    }

    pub fn new() -> (r: WallpaperCache)
        ensures
            r.cached() is None,
    {
        WallpaperCache { cached: None }
    }

    /// The picture for an output of `size` is wanted. Returns whether it has
    /// to be built anew: only when `size` differs from the last call's.
    pub fn buffer_for(&mut self, size: Size) -> (rebuild: bool)
        ensures
            rebuild == (old(self).cached() != Some(size)),
            final(self).cached() == Some(size),
    {
        let rebuild = match self.cached {
            Some(s) => s.w != size.w || s.h != size.h,
            None => true,
        };
        self.cached = Some(size);
        rebuild
    }
}

/// The pixel size the picture is built at: the output's size, at least 1
/// in each direction.
pub fn cover_target(size: Size) -> (r: (u32, u32))
    ensures
        r.0 == if size.w >= 1 { size.w as int } else { 1 },
        r.1 == if size.h >= 1 { size.h as int } else { 1 },
{
    let w: u32 = if size.w >= 1 { size.w as u32 } else { 1 };
    let h: u32 = if size.h >= 1 { size.h as u32 } else { 1 };
    (w, h)
}

/// Where the `target`-sized window is cut out of an image scaled to
/// `scaled` (at least `target` in each direction): centred, rounding
/// toward the top left.
pub fn cover_crop(scaled_w: u32, scaled_h: u32, target_w: u32, target_h: u32) -> (r: (u32, u32))
    requires
        scaled_w >= target_w,
        scaled_h >= target_h,
    ensures
        r.0 == (scaled_w - target_w) / 2,
        r.1 == (scaled_h - target_h) / 2,
        r.0 + target_w <= scaled_w,
        r.1 + target_h <= scaled_h,
{
    ((scaled_w - target_w) / 2, (scaled_h - target_h) / 2)
}

} // verus!

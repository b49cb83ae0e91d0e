use vstd::prelude::*;

use crate::error::FilterError;
use crate::geom::Rect;

verus! {

/// An opaque, comparable color-space handle.  It is used only for equality
/// and for channel-count queries; the color math itself is an external
/// collaborator's concern.
#[derive(Clone, Copy, Debug, PartialEq, Eq, Structural)]
pub struct ColorSpace {
    n: u8,
}

impl ColorSpace {
    /// The number of color channels, without any alpha channel.
    pub closed spec fn spec_channels(self) -> int {
        self.n as int
    }

    #[verifier::type_invariant]
    spec fn inv(self) -> bool {
        1 <= self.n <= 4
    }

    /// The single-channel device gray color space.
    pub fn device_gray() -> (r: ColorSpace)
        ensures
            r.spec_channels() == 1,
    {
        ColorSpace { n: 1 }
    }

    /// The three-channel device RGB color space.
    pub fn device_rgb() -> (r: ColorSpace)
        ensures
            r.spec_channels() == 3,
    {
        ColorSpace { n: 3 }
    }

    /// The four-channel device CMYK color space.
    pub fn device_cmyk() -> (r: ColorSpace)
        ensures
            r.spec_channels() == 4,
    {
        ColorSpace { n: 4 }
    }

    /// The channel count of this color space.
    pub fn n_channels(&self) -> (r: u8)
        ensures
            r as int == self.spec_channels(),
            1 <= r <= 4,
    {
        proof {
            use_type_invariant(&*self);
        }
        self.n
    }
}

/// The mathematical value of a raster buffer: its placement, shape and the
/// sequence of sample bytes.
pub ghost struct PixView {
    pub x: int,
    pub y: int,
    pub w: int,
    pub h: int,
    pub n: int,
    pub alpha: bool,
    pub stride: int,
    pub cs: ColorSpace,
    pub samples: Seq<u8>,
}

/// The component count a buffer gets over a color space: the channel count,
/// plus one if an alpha channel is requested.
pub open spec fn spec_components(cs: ColorSpace, alpha: bool) -> int {
    cs.spec_channels() + if alpha {
        1int
    } else {
        0int
    }
}

/// The largest byte size (and the largest row stride) this library will
/// allocate for a raster buffer.
pub open spec fn max_pixmap_bytes() -> int {
    0x7fff_ffff
}

/// Whether a buffer of this shape can be allocated: non-negative extent,
/// and row and total byte sizes within [`max_pixmap_bytes`].
pub open spec fn spec_alloc_ok(cs: ColorSpace, w: int, h: int, alpha: bool) -> bool {
    &&& 0 <= w
    &&& 0 <= h
    &&& w * spec_components(cs, alpha) <= max_pixmap_bytes()
    &&& w * spec_components(cs, alpha) * h <= max_pixmap_bytes()
}

/// A rectangular grid of pixel samples with a declared color space.
///
/// The buffer owns its samples outright and is exclusively owned by its
/// creator unless explicitly duplicated.  The bound color space is a plain
/// comparable handle.
#[derive(Debug)]
pub struct Pixmap {
    cs: ColorSpace,
    x: i32,
    y: i32,
    w: i32,
    h: i32,
    n: u8,
    alpha: bool,
    stride: usize,
    samples: Vec<u8>,
}

/// A vector holding `len` copies of the byte `v`.
fn filled_vec(len: usize, v: u8) -> (r: Vec<u8>)
    ensures
        r@ == Seq::new(len as nat, |i: int| v),
{
    let mut r: Vec<u8> = Vec::new();
    while r.len() < len
        invariant
            r@.len() <= len,
            r@ == Seq::new(r@.len(), |i: int| v),
        decreases len - r@.len(),
    {
        r.push(v);
        assert(r@ =~= Seq::new(r@.len(), |i: int| v));
    }
    assert(r@ =~= Seq::new(len as nat, |i: int| v));
    r
}

impl Pixmap {
    #[verifier::type_invariant]
    spec fn inv(self) -> bool {
        &&& 0 <= self.w
        &&& 0 <= self.h
        &&& self.n as int == spec_components(self.cs, self.alpha)
        &&& self.stride as int == self.w as int * self.n as int
        &&& self.stride as int <= max_pixmap_bytes()
        &&& self.samples.len() as int == self.stride as int * self.h as int
    }

    /// The buffer's mathematical value.
    pub closed spec fn view(&self) -> PixView {
        PixView {
            x: self.x as int,
            y: self.y as int,
            w: self.w as int,
            h: self.h as int,
            n: self.n as int,
            alpha: self.alpha,
            stride: self.stride as int,
            cs: self.cs,
            samples: self.samples@,
        }
    }

    /// Allocates a zero-filled buffer at origin `(x, y)` with the given
    /// extent over `cs`, with an alpha channel when `alpha` is set.
    ///
    /// Fails with [`FilterError::AllocationFailure`] exactly when the shape
    /// is negative or too large to allocate.
    pub fn new(cs: &ColorSpace, x: i32, y: i32, w: i32, h: i32, alpha: bool) -> (r: Result<
        Pixmap,
        FilterError,
    >)
        ensures
            r is Ok <==> spec_alloc_ok(*cs, w as int, h as int, alpha),
            r matches Err(e) ==> e == FilterError::AllocationFailure,
            r matches Ok(p) ==> p@ == (PixView {
                x: x as int,
                y: y as int,
                w: w as int,
                h: h as int,
                n: spec_components(*cs, alpha),
                alpha,
                stride: w as int * spec_components(*cs, alpha),
                cs: *cs,
                samples: Seq::new((w as int * spec_components(*cs, alpha) * h as int) as nat, |i: int| 0u8),
            }),
    {
        if w < 0 || h < 0 {
            return Err(FilterError::AllocationFailure);
        }
        let ncs = cs.n_channels();
        let n: u8 = if alpha {
            ncs + 1
        } else {
            ncs
        };
        let wu: u64 = w as u64;
        let nu: u64 = n as u64;
        proof {
            assert(wu as int * nu as int <= 0x7fff_ffff * 5) by (nonlinear_arith)
                requires
                    0 <= wu as int <= 0x7fff_ffff,
                    0 <= nu as int <= 5,
            ;
        }
        let stride64: u64 = wu * nu;
        if stride64 > 0x7fff_ffff {
            return Err(FilterError::AllocationFailure);
        }
        let hu: u64 = h as u64;
        proof {
            assert(stride64 as int * hu as int <= 0x7fff_ffff * (0x7fff_ffff as int))
                by (nonlinear_arith)
                requires
                    0 <= stride64 as int <= 0x7fff_ffff,
                    0 <= hu as int <= 0x7fff_ffff,
            ;
        }
        let total64: u64 = stride64 * hu;
        if total64 > 0x7fff_ffff {
            return Err(FilterError::AllocationFailure);
        }
        let len: usize = total64 as usize;
        let samples = filled_vec(len, 0);
        let p = Pixmap {
            cs: *cs,
            x,
            y,
            w,
            h,
            n,
            alpha,
            stride: stride64 as usize,
            samples,
        };
        Ok(p)
    }

    /// Allocates a zero-filled buffer whose placement and extent are taken
    /// from `rect`.
    pub fn new_with_rect(cs: &ColorSpace, rect: Rect, alpha: bool) -> (r: Result<
        Pixmap,
        FilterError,
    >)
        ensures
            r is Ok <==> rect.x1 - rect.x0 <= i32::MAX && rect.y1 - rect.y0 <= i32::MAX
                && spec_alloc_ok(*cs, rect.x1 - rect.x0, rect.y1 - rect.y0, alpha),
            r matches Err(e) ==> e == FilterError::AllocationFailure,
            r matches Ok(p) ==> p@ == (PixView {
                x: rect.x0 as int,
                y: rect.y0 as int,
                w: rect.x1 - rect.x0,
                h: rect.y1 - rect.y0,
                n: spec_components(*cs, alpha),
                alpha,
                stride: (rect.x1 - rect.x0) * spec_components(*cs, alpha),
                cs: *cs,
                samples: Seq::new(
                    ((rect.x1 - rect.x0) * spec_components(*cs, alpha) * (rect.y1 - rect.y0)) as nat,
                    |i: int| 0u8,
                ),
            }),
    {
        let w64: i64 = rect.x1 as i64 - rect.x0 as i64;
        let h64: i64 = rect.y1 as i64 - rect.y0 as i64;
        if w64 > i32::MAX as i64 || h64 > i32::MAX as i64 {
            return Err(FilterError::AllocationFailure);
        }
        if w64 < 0 || h64 < 0 {
            return Err(FilterError::AllocationFailure);
        }
        Pixmap::new(cs, rect.x0, rect.y0, w64 as i32, h64 as i32, alpha)
    }

    /// Allocates a zero-filled `w` by `h` buffer with origin `(0, 0)`.
    pub fn new_with_w_h(cs: &ColorSpace, w: i32, h: i32, alpha: bool) -> (r: Result<
        Pixmap,
        FilterError,
    >)
        ensures
            r is Ok <==> spec_alloc_ok(*cs, w as int, h as int, alpha),
            r matches Err(e) ==> e == FilterError::AllocationFailure,
            r matches Ok(p) ==> p@ == (PixView {
                x: 0,
                y: 0,
                w: w as int,
                h: h as int,
                n: spec_components(*cs, alpha),
                alpha,
                stride: w as int * spec_components(*cs, alpha),
                cs: *cs,
                samples: Seq::new((w as int * spec_components(*cs, alpha) * h as int) as nat, |i: int| 0u8),
            }),
    {
        Pixmap::new(cs, 0, 0, w, h, alpha)
    }

    /// The x coordinate of the buffer's origin.
    pub fn x(&self) -> (r: i32)
        ensures
            r as int == self@.x,
    {
        self.x
    }

    /// The y coordinate of the buffer's origin.
    pub fn y(&self) -> (r: i32)
        ensures
            r as int == self@.y,
    {
        self.y
    }

    /// The buffer's width in pixels.
    pub fn width(&self) -> (r: i32)
        ensures
            r as int == self@.w,
            r >= 0,
    {
        proof {
            use_type_invariant(&*self);
        }
        self.w
    }

    /// The buffer's height in pixels.
    pub fn height(&self) -> (r: i32)
        ensures
            r as int == self@.h,
            r >= 0,
    {
        proof {
            use_type_invariant(&*self);
        }
        self.h
    }

    /// The number of bytes per row.  Never less than the width times the
    /// component count.
    pub fn stride(&self) -> (r: isize)
        ensures
            r as int == self@.stride,
            r as int >= self@.w * self@.n,
    {
        proof {
            use_type_invariant(&*self);
        }
        self.stride as isize
    }

    /// The number of components per pixel: the color space's channel count,
    /// plus one if the buffer has an alpha channel.
    pub fn number_of_components(&self) -> (r: usize)
        ensures
            r as int == self@.n,
            r as int == spec_components(self@.cs, self@.alpha),
    {
        proof {
            use_type_invariant(&*self);
        }
        self.n as usize
    }

    /// Whether the buffer carries an alpha channel.
    pub fn alpha(&self) -> (r: bool)
        ensures
            r == self@.alpha,
    {
        self.alpha
    }

    /// The bound color-space handle.
    pub fn color_space(&self) -> (r: ColorSpace)
        ensures
            r == self@.cs,
    {
        self.cs
    }

    /// The sample bytes, rows laid out consecutively with `stride` bytes
    /// per row.
    pub fn samples(&self) -> (r: &Vec<u8>)
        ensures
            r@ == self@.samples,
            r@.len() == self@.stride * self@.h,
    {
        proof {
            use_type_invariant(&*self);
        }
        &self.samples
    }

    /// Zero-fills every sample byte.
    pub fn clear(&mut self)
        ensures
            final(self)@ == (PixView {
                samples: Seq::new(old(self)@.samples.len(), |i: int| 0u8),
                ..old(self)@
            }),
    {
        proof {
            use_type_invariant(&*self);
        }
        let len = self.samples.len();
        self.samples = filled_vec(len, 0);
    }

    /// Fills every sample byte with the low byte of `value`.
    pub fn clear_with_value(&mut self, value: i32)
        ensures
            final(self)@ == (PixView {
                samples: Seq::new(old(self)@.samples.len(), |i: int| crate::pixmap::low_byte(value)),
                ..old(self)@
            }),
    {
        proof {
            use_type_invariant(&*self);
            assert(0 <= (value & 0xff) < 256) by (bit_vector);
        }
        let b: u8 = (value & 0xff) as u8;
        let len = self.samples.len();
        self.samples = filled_vec(len, b);
    }

    /// An explicit duplicate of the buffer: same placement, shape, color
    /// space and samples, under new exclusive ownership.
    pub fn duplicate(&self) -> (r: Pixmap)
        ensures
            r@ == self@,
    {
        proof {
            use_type_invariant(&*self);
        }
        let mut samples: Vec<u8> = Vec::new();
        let mut i: usize = 0;
        while i < self.samples.len()
            invariant
                i <= self.samples.len(),
                samples@ == self.samples@.take(i as int),
            decreases self.samples.len() - i,
        {
            samples.push(self.samples[i]);
            i = i + 1;
            assert(samples@ =~= self.samples@.take(i as int));
        }
        assert(samples@ =~= self.samples@);
        Pixmap {
            cs: self.cs,
            x: self.x,
            y: self.y,
            w: self.w,
            h: self.h,
            n: self.n,
            alpha: self.alpha,
            stride: self.stride,
            samples,
        }
    }
}

/// The low byte of a fill value.
pub open spec fn low_byte(value: i32) -> u8 {
    (value & 0xff) as u8
}

} // verus!

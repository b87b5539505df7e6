//! Grayscale image storage and zero-copy views.
//!
//! Pixel indices use an integer-center coordinate convention: pixel `(x, y)`
//! stores the sample at continuous coordinate `(x, y)`. Views may have padded
//! row strides and can represent camera Y planes without copying.
use vstd::prelude::*;

verus! {

broadcast use vstd::slice::group_slice_axioms;

// ---------------------------------------------------------------------------
// Layout arithmetic shared by every view type
// ---------------------------------------------------------------------------
/// Bytes a `width`×`height` layout with row pitch `stride` spans from its
/// first pixel to one past its last: `stride·(height−1) + width`.
pub open spec fn layout_span(width: int, height: int, stride: int) -> int {
    stride * (height - 1) + width
}

/// Which layout rule, if any, a buffer of `len` bytes violates.
pub open spec fn layout_error(len: int, width: int, height: int, stride: int) -> Option<LumaError> {
    if width == 0 || height == 0 {
        Some(LumaError::EmptyDimensions)
    } else if stride < width {
        Some(LumaError::StrideTooSmall)
    } else if layout_span(width, height, stride) > len {
        Some(LumaError::BufferTooSmall)
    } else {
        None
    }
}

/// Byte offset of pixel `(x, y)` in a layout with row pitch `stride`.
pub open spec fn pixel_offset(x: int, y: int, stride: int) -> int {
    y * stride + x
}

/// Every in-bounds pixel of a valid layout lies inside the span.
pub proof fn lemma_pixel_in_span(x: int, y: int, width: int, height: int, stride: int)
    requires
        0 <= x < width,
        0 <= y < height,
        width <= stride,
    ensures
        0 <= pixel_offset(x, y, stride),
        pixel_offset(x, y, stride) + 1 <= layout_span(width, height, stride),
        pixel_offset(0, y, stride) + width <= layout_span(width, height, stride),
{
    assert(y * stride <= (height - 1) * stride) by (nonlinear_arith)
        requires
            0 <= y <= height - 1,
            0 <= stride,
    ;
    assert(0 <= y * stride) by (nonlinear_arith)
        requires
            0 <= y,
            0 <= stride,
    ;
    assert(stride * (height - 1) == (height - 1) * stride) by (nonlinear_arith);
}

/// A sub-rectangle of a valid layout, taken at the parent's pitch, fits in
/// the bytes left after its origin.
pub proof fn lemma_subrect_span(
    x: int,
    y: int,
    w: int,
    h: int,
    width: int,
    height: int,
    stride: int,
)
    requires
        0 <= x,
        0 <= y,
        1 <= w,
        1 <= h,
        x + w <= width,
        y + h <= height,
        width <= stride,
    ensures
        0 <= pixel_offset(x, y, stride),
        pixel_offset(x, y, stride) + layout_span(w, h, stride) <= layout_span(
            width,
            height,
            stride,
        ),
{
    assert(y * stride + stride * (h - 1) <= stride * (height - 1)) by (nonlinear_arith)
        requires
            0 <= y,
            1 <= h,
            y + h <= height,
            0 <= stride,
    ;
    assert(0 <= y * stride) by (nonlinear_arith)
        requires
            0 <= y,
            0 <= stride,
    ;
}

/// Offsets of pixels of a sub-rectangle, measured from the sub-rectangle's
/// origin, are the parent's offsets shifted by that origin.
pub proof fn lemma_subrect_offset(x0: int, y0: int, x: int, y: int, stride: int)
    ensures
        pixel_offset(x0, y0, stride) + pixel_offset(x, y, stride) == pixel_offset(
            x0 + x,
            y0 + y,
            stride,
        ),
{
    assert(y0 * stride + y * stride == (y0 + y) * stride) by (nonlinear_arith);
}

// ---------------------------------------------------------------------------
// Size / Rect / errors
// ---------------------------------------------------------------------------
/// Two-dimensional image dimensions in pixels.
#[derive(Clone, Copy, Debug, PartialEq, Eq, Hash, Structural)]
pub struct Size {
    /// Width in pixels.
    pub width: usize,
    /// Height in pixels.
    pub height: usize,
}

/// Errors produced while constructing or slicing grayscale images.
#[derive(Clone, Copy, Debug, PartialEq, Eq, Structural)]
pub enum LumaError {
    /// Width or height is zero.
    EmptyDimensions,
    /// Row stride is smaller than image width.
    StrideTooSmall,
    /// Backing buffer is shorter than the declared layout requires.
    BufferTooSmall,
}

/// Errors produced by owned images, conversions, and checked ROI operations.
#[derive(Clone, Copy, Debug, PartialEq, Eq, Structural)]
pub enum ImageError {
    /// Layout validation failed for a view or buffer.
    Layout(LumaError),
    /// Owned buffer length does not match `width * height` (tight packing).
    BufferLengthMismatch,
    /// Arithmetic on dimensions overflowed `usize`.
    DimensionOverflow,
    /// Requested ROI is empty or extends outside the parent image.
    RoiOutOfBounds,
}

/// Description of a layout error.
pub open spec fn luma_message(e: LumaError) -> Seq<char> {
    match e {
        LumaError::EmptyDimensions => "image dimensions must be non-zero"@,
        LumaError::StrideTooSmall => "row stride is smaller than image width"@,
        LumaError::BufferTooSmall => "buffer is too small for dimensions and stride"@,
    }
}

/// Description of an image error.
pub open spec fn image_message(e: ImageError) -> Seq<char> {
    match e {
        ImageError::Layout(error) => luma_message(error),
        ImageError::BufferLengthMismatch => "buffer length does not match image dimensions"@,
        ImageError::DimensionOverflow => "image dimensions overflow addressable storage"@,
        ImageError::RoiOutOfBounds => "region of interest is empty or out of bounds"@,
    }
}

impl LumaError {
    /// Human-readable description of the error.
    pub fn message(&self) -> (r: &'static str)
        ensures
            r@ == luma_message(*self),
    {
        match self {
            LumaError::EmptyDimensions => "image dimensions must be non-zero",
            LumaError::StrideTooSmall => "row stride is smaller than image width",
            LumaError::BufferTooSmall => "buffer is too small for dimensions and stride",
        }
    }
}

impl ImageError {
    /// Human-readable description of the error.
    pub fn message(&self) -> (r: &'static str)
        ensures
            r@ == image_message(*self),
    {
        match self {
            ImageError::Layout(error) => error.message(),
            ImageError::BufferLengthMismatch => "buffer length does not match image dimensions",
            ImageError::DimensionOverflow => "image dimensions overflow addressable storage",
            ImageError::RoiOutOfBounds => "region of interest is empty or out of bounds",
        }
    }
}

impl From<LumaError> for ImageError {
    fn from(value: LumaError) -> (r: Self)
        ensures
            r == ImageError::Layout(value),
    {
        ImageError::Layout(value)
    }
}

impl vstd::std_specs::convert::FromSpecImpl<LumaError> for ImageError {
    open spec fn obeys_from_spec() -> bool {
        true
    }

    open spec fn from_spec(value: LumaError) -> Self {
        ImageError::Layout(value)
    }
}

/// What [`Size::area`] returns for `width`×`height`.
pub open spec fn spec_area(width: int, height: int) -> Result<usize, ImageError> {
    if width == 0 || height == 0 {
        Err(ImageError::Layout(LumaError::EmptyDimensions))
    } else if width * height > usize::MAX {
        Err(ImageError::DimensionOverflow)
    } else {
        Ok((width * height) as usize)
    }
}

impl Size {
    /// Create dimensions with the given width and height.
    pub fn new(width: usize, height: usize) -> (r: Self)
        ensures
            r.width == width,
            r.height == height,
    {
        Size { width, height }
    }

    /// Number of pixels (`width * height`), rejecting empty or overflowing sizes.
    pub fn area(self) -> (r: Result<usize, ImageError>)
        ensures
            r == spec_area(self.width as int, self.height as int),
    {
        if self.width == 0 || self.height == 0 {
            return Err(ImageError::Layout(LumaError::EmptyDimensions));
        }
        match self.width.checked_mul(self.height) {
            Some(n) => Ok(n),
            None => Err(ImageError::DimensionOverflow),
        }
    }
}

/// A half-open image rectangle `[x, x + width) × [y, y + height)`.
#[derive(Clone, Copy, Debug, PartialEq, Eq, Hash, Structural)]
pub struct Rect {
    /// Left edge in pixels (inclusive).
    pub x: usize,
    /// Top edge in pixels (inclusive).
    pub y: usize,
    /// Width of the region in pixels.
    pub width: usize,
    /// Height of the region in pixels.
    pub height: usize,
}

impl Rect {
    /// Create a rectangle from origin and size.
    pub fn new(x: usize, y: usize, width: usize, height: usize) -> (r: Self)
        ensures
            r.x == x,
            r.y == y,
            r.width == width,
            r.height == height,
    {
        Rect { x, y, width, height }
    }

    /// Return the rectangle's dimensions as a [`Size`].
    pub fn size(self) -> (r: Size)
        ensures
            r.width == self.width,
            r.height == self.height,
    {
        Size::new(self.width, self.height)
    }
}

/// Which rule, if any, `rect` violates as a region of an image of `size`.
pub open spec fn rect_error(size: Size, rect: Rect) -> Option<ImageError> {
    if rect.width == 0 || rect.height == 0 {
        Some(ImageError::RoiOutOfBounds)
    } else if rect.x + rect.width > usize::MAX || rect.y + rect.height > usize::MAX {
        Some(ImageError::DimensionOverflow)
    } else if rect.x + rect.width > size.width || rect.y + rect.height > size.height {
        Some(ImageError::RoiOutOfBounds)
    } else {
        None
    }
}

fn required_len(width: usize, height: usize, stride: usize) -> (r: Result<usize, LumaError>)
    requires
        height >= 1,
    ensures
        match r {
            Ok(n) => n == layout_span(width as int, height as int, stride as int),
            Err(e) => e == LumaError::BufferTooSmall && layout_span(
                width as int,
                height as int,
                stride as int,
            ) > usize::MAX,
        },
{
    match stride.checked_mul(height - 1) {
        Some(v) => match v.checked_add(width) {
            Some(n) => Ok(n),
            None => Err(LumaError::BufferTooSmall),
        },
        None => {
            assert(stride * (height - 1) + width > usize::MAX) by (nonlinear_arith)
                requires
                    stride * (height - 1) > usize::MAX,
                    width >= 0,
            ;
            Err(LumaError::BufferTooSmall)
        },
    }
}

fn validate_layout(data_len: usize, width: usize, height: usize, stride: usize) -> (r: Result<
    (),
    LumaError,
>)
    ensures
        match r {
            Ok(_) => layout_error(data_len as int, width as int, height as int, stride as int)
                is None,
            Err(e) => layout_error(data_len as int, width as int, height as int, stride as int)
                == Some(e),
        },
{
    if width == 0 || height == 0 {
        return Err(LumaError::EmptyDimensions);
    }
    if stride < width {
        return Err(LumaError::StrideTooSmall);
    }
    let needed = match required_len(width, height, stride) {
        Ok(n) => n,
        Err(e) => return Err(e),
    };
    if data_len < needed {
        return Err(LumaError::BufferTooSmall);
    }
    Ok(())
}

fn validate_rect(size: Size, rect: Rect) -> (r: Result<(), ImageError>)
    ensures
        match r {
            Ok(_) => rect_error(size, rect) is None,
            Err(e) => rect_error(size, rect) == Some(e),
        },
{
    if rect.width == 0 || rect.height == 0 {
        return Err(ImageError::RoiOutOfBounds);
    }
    let right = match rect.x.checked_add(rect.width) {
        Some(v) => v,
        None => return Err(ImageError::DimensionOverflow),
    };
    let bottom = match rect.y.checked_add(rect.height) {
        Some(v) => v,
        None => return Err(ImageError::DimensionOverflow),
    };
    if right > size.width || bottom > size.height {
        return Err(ImageError::RoiOutOfBounds);
    }
    Ok(())
}


// ---------------------------------------------------------------------------
// Immutable grayscale view
// ---------------------------------------------------------------------------
/// Borrowed, zero-copy view over an 8-bit grayscale image.
///
/// The view may use a row `stride` greater than `width` so camera buffers with
/// row padding can be scanned without copying.
#[derive(Clone, Copy, Debug)]
pub struct Gray8View<'a> {
    data: &'a [u8],
    width: usize,
    height: usize,
    stride: usize,
}

impl<'a> Gray8View<'a> {
    /// Backing bytes, from this view's first pixel on.
    pub closed spec fn bytes(&self) -> Seq<u8> {
        self.data@
    }

    /// Width in pixels.
    pub closed spec fn w(&self) -> nat {
        self.width as nat
    }

    /// Height in pixels.
    pub closed spec fn h(&self) -> nat {
        self.height as nat
    }

    /// Row pitch in bytes.
    pub closed spec fn s(&self) -> nat {
        self.stride as nat
    }

    /// The layout is non-empty, its stride covers a row and the bytes cover
    /// every row.
    pub open spec fn wf(&self) -> bool {
        &&& layout_error(self.bytes().len() as int, self.w() as int, self.h() as int, self.s() as int)
            is None
        &&& self.bytes().len() <= usize::MAX
    }

    /// Sample at `(x, y)`.
    pub open spec fn pixel(&self, x: int, y: int) -> u8 {
        self.bytes()[pixel_offset(x, y, self.s() as int)]
    }

    /// Row `y`'s `width` samples.
    pub open spec fn row_seq(&self, y: int) -> Seq<u8> {
        self.bytes().subrange(
            pixel_offset(0, y, self.s() as int),
            pixel_offset(0, y, self.s() as int) + self.w(),
        )
    }

    /// The image content, tightly packed row-major (`width * height` samples).
    pub open spec fn packed(&self) -> Seq<u8> {
        Seq::new(self.w() * self.h(), |i: int| self.pixel(i % self.w() as int, i / self.w() as int))
    }

    /// Borrow `data` as a grayscale image of the given layout.
    ///
    /// `stride` is the number of bytes between consecutive rows and must be
    /// at least `width`. Pass `width` for tightly packed buffers.
    pub fn new(data: &'a [u8], width: usize, height: usize, stride: usize) -> (r: Result<
        Self,
        LumaError,
    >)
        ensures
            match r {
                Ok(v) => {
                    &&& layout_error(data@.len() as int, width as int, height as int, stride as int)
                        is None
                    &&& v.wf()
                    &&& v.bytes() == data@
                    &&& v.w() == width
                    &&& v.h() == height
                    &&& v.s() == stride
                },
                Err(e) => layout_error(data@.len() as int, width as int, height as int, stride as int)
                    == Some(e),
            },
    {
        match validate_layout(data.len(), width, height, stride) {
            Ok(_) => Ok(Gray8View { data, width, height, stride }),
            Err(e) => Err(e),
        }
    }

    /// Read the pixel at `(x, y)`.
    #[inline]
    pub fn get(&self, x: usize, y: usize) -> (r: u8)
        requires
            self.wf(),
            x < self.w(),
            y < self.h(),
        ensures
            r == self.pixel(x as int, y as int),
    {
        proof {
            lemma_pixel_in_span(x as int, y as int, self.w() as int, self.h() as int, self.s() as int);
        }
        self.data[y * self.stride + x]
    }

    /// Read the pixel at `(x, y)`, or `None` if out of bounds.
    pub fn try_get(&self, x: usize, y: usize) -> (r: Option<u8>)
        requires
            self.wf(),
        ensures
            r == (if x < self.w() && y < self.h() {
                Some(self.pixel(x as int, y as int))
            } else {
                None::<u8>
            }),
    {
        if x < self.width && y < self.height {
            Some(self.get(x, y))
        } else {
            None
        }
    }

    /// Image width in pixels.
    #[inline]
    pub fn width(&self) -> (r: usize)
        ensures
            r == self.w(),
    {
        self.width
    }

    /// Image height in pixels.
    #[inline]
    pub fn height(&self) -> (r: usize)
        ensures
            r == self.h(),
    {
        self.height
    }

    /// Row stride in bytes.
    #[inline]
    pub fn stride(&self) -> (r: usize)
        ensures
            r == self.s(),
    {
        self.stride
    }

    /// Image dimensions as a [`Size`].
    #[inline]
    pub fn size(&self) -> (r: Size)
        ensures
            r.width == self.w(),
            r.height == self.h(),
    {
        Size::new(self.width, self.height)
    }

    /// Borrow one tightly packed row of length [`Self::width`].
    #[inline]
    pub fn row(&self, y: usize) -> (r: &'a [u8])
        requires
            self.wf(),
            y < self.h(),
        ensures
            r@ == self.row_seq(y as int),
            r@.len() == self.w(),
            forall|x: int| 0 <= x < self.w() ==> #[trigger] r@[x] == self.pixel(x, y as int),
    {
        proof {
            lemma_pixel_in_span(0, y as int, self.w() as int, self.h() as int, self.s() as int);
            assert(pixel_offset(0, y as int, self.s() as int) == (y as int) * (self.stride as int));
        }
        let start = y * self.stride;
        let r = &self.data[start..start + self.width];
        assert forall|x: int| 0 <= x < self.w() implies #[trigger] r@[x] == self.pixel(
            x,
            y as int,
        ) by {
            assert(pixel_offset(x, y as int, self.s() as int) == start + x);
        }
        r
    }

    /// The minimum backing slice needed to represent this view, including
    /// padding between rows but excluding any unused bytes after its last row.
    pub fn backing_slice(&self) -> (r: &'a [u8])
        requires
            self.wf(),
        ensures
            r@ == self.bytes().subrange(
                0,
                layout_span(self.w() as int, self.h() as int, self.s() as int),
            ),
    {
        let len = match required_len(self.width, self.height, self.stride) {
            Ok(n) => n,
            Err(_) => {
                proof {
                    lemma_pixel_in_span(0, 0, self.w() as int, self.h() as int, self.s() as int);
                }
                0
            },
        };
        &self.data[0..len]
    }

    /// Create a checked, zero-copy subview.
    ///
    /// Coordinates are relative to this view, and the returned view retains
    /// the parent row stride.
    pub fn subview(&self, rect: Rect) -> (r: Result<Self, ImageError>)
        requires
            self.wf(),
        ensures
            match r {
                Ok(v) => {
                    &&& rect_error(Size { width: self.w() as usize, height: self.h() as usize }, rect)
                        is None
                    &&& v.wf()
                    &&& v.w() == rect.width
                    &&& v.h() == rect.height
                    &&& v.s() == self.s()
                    &&& forall|x: int, y: int|
                        0 <= x < rect.width && 0 <= y < rect.height ==> #[trigger] v.pixel(x, y)
                            == self.pixel(rect.x + x, rect.y + y)
                },
                Err(e) => rect_error(Size { width: self.w() as usize, height: self.h() as usize }, rect)
                    == Some(e),
            },
    {
        match validate_rect(self.size(), rect) {
            Ok(_) => {},
            Err(e) => return Err(e),
        }
        proof {
            lemma_subrect_span(
                rect.x as int,
                rect.y as int,
                rect.width as int,
                rect.height as int,
                self.w() as int,
                self.h() as int,
                self.s() as int,
            );
        }
        assert(pixel_offset(rect.x as int, rect.y as int, self.s() as int) == (rect.y as int) * (
        self.stride as int) + rect.x);
        let offset = rect.y * self.stride + rect.x;
        let rest = &self.data[offset..self.data.len()];
        match Self::new(rest, rect.width, rect.height, self.stride) {
            Ok(v) => {
                assert forall|x: int, y: int|
                    0 <= x < rect.width && 0 <= y < rect.height implies #[trigger] v.pixel(x, y)
                    == self.pixel(rect.x + x, rect.y + y) by {
                    lemma_subrect_offset(rect.x as int, rect.y as int, x, y, self.s() as int);
                    lemma_pixel_in_span(x, y, rect.width as int, rect.height as int, self.s() as int);
                }
                Ok(v)
            },
            Err(_) => {
                assert(false);
                Err(ImageError::DimensionOverflow)
            },
        }
    }

    /// Coordinate form of [`Self::subview`], with `None` on error.
    pub fn sub_view(&self, x: usize, y: usize, width: usize, height: usize) -> (r: Option<Self>)
        requires
            self.wf(),
        ensures
            match r {
                Some(v) => {
                    &&& rect_error(
                        Size { width: self.w() as usize, height: self.h() as usize },
                        Rect { x, y, width, height },
                    ) is None
                    &&& v.wf()
                    &&& v.w() == width
                    &&& v.h() == height
                    &&& v.s() == self.s()
                    &&& forall|i: int, j: int|
                        0 <= i < width && 0 <= j < height ==> #[trigger] v.pixel(i, j)
                            == self.pixel(x + i, y + j)
                },
                None => rect_error(
                    Size { width: self.w() as usize, height: self.h() as usize },
                    Rect { x, y, width, height },
                ) is Some,
            },
    {
        match self.subview(Rect::new(x, y, width, height)) {
            Ok(v) => Some(v),
            Err(_) => None,
        }
    }
}


// ---------------------------------------------------------------------------
// Luma conversion
// ---------------------------------------------------------------------------
/// BT.601 integer luminance: `(77·R + 150·G + 29·B + 128) >> 8`.
pub open spec fn luma_of(red: u8, green: u8, blue: u8) -> u8 {
    ((77 * red + 150 * green + 29 * blue + 128) / 256) as u8
}

/// The BT.601 weights sum to 256, so a neutral gray keeps its level.
pub proof fn lemma_luma_of_gray(level: u8)
    ensures
        luma_of(level, level, level) == level,
{
}

/// BT.601 integer luminance of one RGB pixel.
#[inline]
pub fn rgb_to_luma(red: u8, green: u8, blue: u8) -> (r: u8)
    ensures
        r == luma_of(red, green, blue),
{
    let sum: u32 = 77 * red as u32 + 150 * green as u32 + 29 * blue as u32 + 128;
    assert(sum >> 8u32 == sum / 256) by (bit_vector);
    (sum >> 8) as u8
}

/// Luminance of each 4-byte RGBA pixel in `rgba`, alpha ignored.
pub open spec fn luma_of_rgba(rgba: Seq<u8>) -> Seq<u8> {
    Seq::new(
        rgba.len() / 4,
        |i: int| luma_of(rgba[4 * i], rgba[4 * i + 1], rgba[4 * i + 2]),
    )
}

fn rgba_to_luma_vec(rgba: &[u8]) -> (r: Vec<u8>)
    ensures
        r@ == luma_of_rgba(rgba@),
{
    let len = rgba.len();
    let n = len / 4;
    let mut out: Vec<u8> = Vec::with_capacity(n);
    let mut i: usize = 0;
    while i < n
        invariant
            len == rgba@.len(),
            n == rgba@.len() / 4,
            i <= n,
            out@.len() == i,
            forall|k: int| 0 <= k < i ==> #[trigger] out@[k] == luma_of_rgba(rgba@)[k],
        decreases n - i,
    {
        out.push(rgb_to_luma(rgba[4 * i], rgba[4 * i + 1], rgba[4 * i + 2]));
        i = i + 1;
    }
    assert(out@ =~= luma_of_rgba(rgba@));
    out
}

/// What [`try_luma_from_rgba`] returns.
pub open spec fn spec_try_luma_from_rgba(rgba: Seq<u8>, width: int, height: int) -> Result<
    Seq<u8>,
    ImageError,
> {
    match spec_area(width, height) {
        Err(e) => Err(e),
        Ok(pixels) => if pixels * 4 > usize::MAX {
            Err(ImageError::DimensionOverflow)
        } else if rgba.len() != pixels * 4 {
            Err(ImageError::BufferLengthMismatch)
        } else {
            Ok(luma_of_rgba(rgba))
        },
    }
}

/// Checked BT.601 integer conversion from tightly packed RGBA8 to grayscale.
///
/// Returns one luma sample per pixel using
/// `(77·R + 150·G + 29·B + 128) >> 8`.
pub fn try_luma_from_rgba(rgba: &[u8], width: usize, height: usize) -> (r: Result<
    Vec<u8>,
    ImageError,
>)
    ensures
        match r {
            Ok(v) => spec_try_luma_from_rgba(rgba@, width as int, height as int) == Ok::<
                Seq<u8>,
                ImageError,
            >(v@),
            Err(e) => spec_try_luma_from_rgba(rgba@, width as int, height as int) == Err::<
                Seq<u8>,
                ImageError,
            >(e),
        },
{
    let pixels = match Size::new(width, height).area() {
        Ok(p) => p,
        Err(e) => return Err(e),
    };
    let expected = match pixels.checked_mul(4) {
        Some(n) => n,
        None => return Err(ImageError::DimensionOverflow),
    };
    if rgba.len() != expected {
        return Err(ImageError::BufferLengthMismatch);
    }
    Ok(rgba_to_luma_vec(rgba))
}

/// Unchecked BT.601 conversion from tightly packed RGBA8: the buffer must
/// hold exactly `width * height` pixels. [`try_luma_from_rgba`] checks the
/// layout instead.
pub fn luma_from_rgba(rgba: &[u8], width: usize, height: usize) -> (r: Vec<u8>)
    requires
        width * height * 4 <= usize::MAX,
        rgba@.len() == width * height * 4,
    ensures
        r@ == luma_of_rgba(rgba@),
        r@.len() == width * height,
{
    rgba_to_luma_vec(rgba)
}

// ---------------------------------------------------------------------------
// RGB8 view
// ---------------------------------------------------------------------------
/// Which rule, if any, an RGB8 layout violates (`stride` in bytes).
pub open spec fn rgb_layout_error(len: int, width: int, height: int, stride: int) -> Option<
    LumaError,
> {
    if width * 3 > usize::MAX {
        Some(LumaError::BufferTooSmall)
    } else {
        layout_error(len, width * 3, height, stride)
    }
}

/// Borrowed, zero-copy view over a packed RGB8 image.
///
/// Pixels are consecutive red, green, and blue bytes. Rows may be padded.
#[derive(Clone, Copy, Debug)]
pub struct Rgb8View<'a> {
    data: &'a [u8],
    width: usize,
    height: usize,
    stride: usize,
}

impl<'a> Rgb8View<'a> {
    /// Backing bytes.
    pub closed spec fn bytes(&self) -> Seq<u8> {
        self.data@
    }

    /// Width in pixels.
    pub closed spec fn w(&self) -> nat {
        self.width as nat
    }

    /// Height in pixels.
    pub closed spec fn h(&self) -> nat {
        self.height as nat
    }

    /// Row pitch in bytes.
    pub closed spec fn s(&self) -> nat {
        self.stride as nat
    }

    /// The layout fits its bytes.
    pub open spec fn wf(&self) -> bool {
        &&& rgb_layout_error(self.bytes().len() as int, self.w() as int, self.h() as int, self.s() as int)
            is None
        &&& self.bytes().len() <= usize::MAX
    }

    /// Channel `c` (0 = red, 1 = green, 2 = blue) of pixel `(x, y)`.
    pub open spec fn channel(&self, x: int, y: int, c: int) -> u8 {
        self.bytes()[pixel_offset(3 * x + c, y, self.s() as int)]
    }

    /// BT.601 luminance of pixel `(x, y)`.
    pub open spec fn luma(&self, x: int, y: int) -> u8 {
        luma_of(self.channel(x, y, 0), self.channel(x, y, 1), self.channel(x, y, 2))
    }

    /// Borrow `data` as RGB8. `stride` is measured in bytes.
    pub fn new(data: &'a [u8], width: usize, height: usize, stride: usize) -> (r: Result<
        Self,
        LumaError,
    >)
        ensures
            match r {
                Ok(v) => {
                    &&& rgb_layout_error(data@.len() as int, width as int, height as int, stride as int)
                        is None
                    &&& v.wf()
                    &&& v.bytes() == data@
                    &&& v.w() == width
                    &&& v.h() == height
                    &&& v.s() == stride
                },
                Err(e) => rgb_layout_error(data@.len() as int, width as int, height as int, stride as int)
                    == Some(e),
            },
    {
        let row_bytes = match width.checked_mul(3) {
            Some(n) => n,
            None => return Err(LumaError::BufferTooSmall),
        };
        match validate_layout(data.len(), row_bytes, height, stride) {
            Ok(_) => Ok(Rgb8View { data, width, height, stride }),
            Err(e) => Err(e),
        }
    }

    /// Image width in pixels.
    pub fn width(&self) -> (r: usize)
        ensures
            r == self.w(),
    {
        self.width
    }

    /// Image height in pixels.
    pub fn height(&self) -> (r: usize)
        ensures
            r == self.h(),
    {
        self.height
    }

    /// Row stride in bytes.
    pub fn stride(&self) -> (r: usize)
        ensures
            r == self.s(),
    {
        self.stride
    }

    /// Image dimensions.
    pub fn size(&self) -> (r: Size)
        ensures
            r.width == self.w(),
            r.height == self.h(),
    {
        Size::new(self.width, self.height)
    }

    /// Borrow one row containing exactly `width * 3` RGB bytes.
    pub fn row(&self, y: usize) -> (r: &'a [u8])
        requires
            self.wf(),
            y < self.h(),
        ensures
            r@ == self.bytes().subrange(
                pixel_offset(0, y as int, self.s() as int),
                pixel_offset(0, y as int, self.s() as int) + 3 * self.w(),
            ),
            r@.len() == 3 * self.w(),
            forall|x: int, c: int|
                0 <= x < self.w() && 0 <= c < 3 ==> #[trigger] r@[3 * x + c] == self.channel(
                    x,
                    y as int,
                    c,
                ),
    {
        proof {
            lemma_pixel_in_span(0, y as int, 3 * self.w() as int, self.h() as int, self.s() as int);
            assert(pixel_offset(0, y as int, self.s() as int) == (y as int) * (self.stride as int));
        }
        let start = y * self.stride;
        let r = &self.data[start..start + self.width * 3];
        assert forall|x: int, c: int| 0 <= x < self.w() && 0 <= c < 3 implies #[trigger] r@[3 * x
            + c] == self.channel(x, y as int, c) by {
            assert(pixel_offset(3 * x + c, y as int, self.s() as int) == start + 3 * x + c);
        }
        r
    }

    /// Convert to tightly packed BT.601 luminance, reusing `output`.
    pub fn write_luma(&self, output: &mut Vec<u8>)
        requires
            self.wf(),
        ensures
            final(output)@.len() == self.w() * self.h(),
            forall|x: int, y: int|
                0 <= x < self.w() && 0 <= y < self.h() ==> #[trigger] final(output)@[y * self.w() + x]
                    == self.luma(x, y),
    {
        let w = self.width;
        let h = self.height;
        proof {
            // w·h ≤ 3w·h = layout_span(3w, h, 3w) ≤ layout_span(3w, h, stride) ≤ len.
            assert(w * h <= self.s() * (h - 1) + 3 * w) by (nonlinear_arith)
                requires
                    3 * w <= self.s(),
                    h >= 1,
            ;
        }
        let pixel_count = w * h;
        output.resize(pixel_count, 0);
        let mut y: usize = 0;
        while y < h
            invariant
                self.wf(),
                w == self.w(),
                h == self.h(),
                pixel_count == w * h,
                y <= h,
                output@.len() == pixel_count,
                forall|xx: int, yy: int|
                    0 <= xx < w && 0 <= yy < y ==> #[trigger] output@[yy * w + xx] == self.luma(
                        xx,
                        yy,
                    ),
            decreases h - y,
        {
            let rgb_row = self.row(y);
            proof {
                assert(y * w + w <= w * h) by (nonlinear_arith)
                    requires
                        y + 1 <= h,
                ;
            }
            let base = y * w;
            let mut x: usize = 0;
            while x < w
                invariant
                    self.wf(),
                    w == self.w(),
                    h == self.h(),
                    pixel_count == w * h,
                    y < h,
                    base == y * w,
                    base + w <= pixel_count,
                    x <= w,
                    rgb_row@.len() == 3 * w,
                    forall|xx: int, c: int|
                        0 <= xx < w && 0 <= c < 3 ==> #[trigger] rgb_row@[3 * xx + c]
                            == self.channel(xx, y as int, c),
                    output@.len() == pixel_count,
                    forall|xx: int, yy: int|
                        0 <= xx < w && 0 <= yy < y ==> #[trigger] output@[yy * w + xx]
                            == self.luma(xx, yy),
                    forall|xx: int| 0 <= xx < x ==> #[trigger] output@[base + xx] == self.luma(
                        xx,
                        y as int,
                    ),
                decreases w - x,
            {
                let v = rgb_to_luma(rgb_row[3 * x], rgb_row[3 * x + 1], rgb_row[3 * x + 2]);
                proof {
                    assert(rgb_row@[3 * x + 0] == self.channel(x as int, y as int, 0));
                    assert(rgb_row@[3 * x + 1] == self.channel(x as int, y as int, 1));
                    assert(rgb_row@[3 * x + 2] == self.channel(x as int, y as int, 2));
                }
                let ghost prev = output@;
                output.set(base + x, v);
                proof {
                    assert forall|xx: int, yy: int|
                        0 <= xx < w && 0 <= yy < y implies #[trigger] output@[yy * w + xx]
                        == self.luma(xx, yy) by {
                        assert(yy * w + xx < y * w) by (nonlinear_arith)
                            requires
                                0 <= xx < w,
                                0 <= yy < y,
                        ;
                        assert(output@[yy * w + xx] == prev[yy * w + xx]);
                    }
                }
                x = x + 1;
            }
            proof {
                assert forall|xx: int, yy: int|
                    0 <= xx < w && 0 <= yy < y + 1 implies #[trigger] output@[yy * w + xx]
                    == self.luma(xx, yy) by {
                    if yy == y {
                        assert(yy * w + xx == base + xx);
                    }
                }
            }
            y = y + 1;
        }
    }
}


// ---------------------------------------------------------------------------
// Mutable grayscale view
// ---------------------------------------------------------------------------
/// Mutable, zero-copy view over an 8-bit grayscale image.
///
/// The fields are public so that contracts can relate what is written
/// through a view to the buffer it borrows; the methods require [`Self::wf`].
#[derive(Debug)]
pub struct Gray8ViewMut<'a> {
    /// Backing bytes, starting at the view's first pixel.
    pub data: &'a mut [u8],
    /// Width in pixels.
    pub width: usize,
    /// Height in pixels.
    pub height: usize,
    /// Row pitch in bytes.
    pub stride: usize,
}

impl<'a> Gray8ViewMut<'a> {
    /// Current backing bytes, from this view's first pixel on.
    pub open spec fn bytes(&self) -> Seq<u8> {
        self.data@
    }

    /// Width in pixels.
    pub open spec fn w(&self) -> nat {
        self.width as nat
    }

    /// Height in pixels.
    pub open spec fn h(&self) -> nat {
        self.height as nat
    }

    /// Row pitch in bytes.
    pub open spec fn s(&self) -> nat {
        self.stride as nat
    }

    /// The layout fits its bytes.
    pub open spec fn wf(&self) -> bool {
        &&& layout_error(self.bytes().len() as int, self.w() as int, self.h() as int, self.s() as int)
            is None
        &&& self.bytes().len() <= usize::MAX
    }

    /// Current sample at `(x, y)`.
    pub open spec fn pixel(&self, x: int, y: int) -> u8 {
        self.bytes()[pixel_offset(x, y, self.s() as int)]
    }

    /// Borrow `data` mutably as a grayscale image of the given layout.
    pub fn new(data: &'a mut [u8], width: usize, height: usize, stride: usize) -> (r: Result<
        Self,
        LumaError,
    >)
        ensures
            match r {
                Ok(v) => {
                    &&& layout_error(old(data)@.len() as int, width as int, height as int, stride as int)
                        is None
                    &&& v.wf()
                    &&& v.bytes() == old(data)@
                    &&& final(v.data)@ == final(data)@
                    &&& v.w() == width
                    &&& v.h() == height
                    &&& v.s() == stride
                },
                Err(e) => {
                    &&& layout_error(old(data)@.len() as int, width as int, height as int, stride as int)
                        == Some(e)
                    &&& final(data)@ == old(data)@
                },
            },
    {
        match validate_layout(data.len(), width, height, stride) {
            Ok(_) => Ok(Gray8ViewMut { data, width, height, stride }),
            Err(e) => Err(e),
        }
    }

    /// Image width in pixels.
    #[inline]
    pub fn width(&self) -> (r: usize)
        ensures
            r == self.w(),
    {
        self.width
    }

    /// Image height in pixels.
    #[inline]
    pub fn height(&self) -> (r: usize)
        ensures
            r == self.h(),
    {
        self.height
    }

    /// Row stride in bytes.
    #[inline]
    pub fn stride(&self) -> (r: usize)
        ensures
            r == self.s(),
    {
        self.stride
    }

    /// Image dimensions as a [`Size`].
    #[inline]
    pub fn size(&self) -> (r: Size)
        ensures
            r.width == self.w(),
            r.height == self.h(),
    {
        Size::new(self.width, self.height)
    }

    /// Read the pixel at `(x, y)`.
    #[inline]
    pub fn get(&self, x: usize, y: usize) -> (r: u8)
        requires
            self.wf(),
            x < self.w(),
            y < self.h(),
        ensures
            r == self.pixel(x as int, y as int),
    {
        proof {
            lemma_pixel_in_span(x as int, y as int, self.w() as int, self.h() as int, self.s() as int);
        }
        self.data[y * self.stride + x]
    }

    /// Write `value` at `(x, y)`.
    #[inline]
    pub fn set(&mut self, x: usize, y: usize, value: u8)
        requires
            old(self).wf(),
            x < old(self).w(),
            y < old(self).h(),
        ensures
            final(self).wf(),
            final(self).w() == old(self).w(),
            final(self).h() == old(self).h(),
            final(self).s() == old(self).s(),
            final(final(self).data)@ == final(old(self).data)@,
            final(self).bytes() == old(self).bytes().update(
                pixel_offset(x as int, y as int, old(self).s() as int),
                value,
            ),
    {
        proof {
            lemma_pixel_in_span(x as int, y as int, self.w() as int, self.h() as int, self.s() as int);
        }
        self.data[y * self.stride + x] = value;
    }

    /// Borrow one tightly packed row of length [`Self::width`].
    #[inline]
    pub fn row(&self, y: usize) -> (r: &[u8])
        requires
            self.wf(),
            y < self.h(),
        ensures
            r@ == self.bytes().subrange(
                pixel_offset(0, y as int, self.s() as int),
                pixel_offset(0, y as int, self.s() as int) + self.w(),
            ),
    {
        proof {
            lemma_pixel_in_span(0, y as int, self.w() as int, self.h() as int, self.s() as int);
            assert(pixel_offset(0, y as int, self.s() as int) == (y as int) * (self.stride as int));
        }
        let start = y * self.stride;
        &self.data[start..start + self.width]
    }

    /// Borrow one tightly packed row mutably.
    #[inline]
    pub fn row_mut(&mut self, y: usize) -> (r: &mut [u8])
        requires
            old(self).wf(),
            y < old(self).h(),
        ensures
            r@ == old(self).bytes().subrange(
                pixel_offset(0, y as int, old(self).s() as int),
                pixel_offset(0, y as int, old(self).s() as int) + old(self).w(),
            ),
            final(self).w() == old(self).w(),
            final(self).h() == old(self).h(),
            final(self).s() == old(self).s(),
            final(final(self).data)@ == final(old(self).data)@,
            final(self).bytes() == old(self).bytes().subrange(
                0,
                pixel_offset(0, y as int, old(self).s() as int),
            ) + final(r)@ + old(self).bytes().subrange(
                pixel_offset(0, y as int, old(self).s() as int) + old(self).w(),
                old(self).bytes().len() as int,
            ),
    {
        proof {
            lemma_pixel_in_span(0, y as int, self.w() as int, self.h() as int, self.s() as int);
            assert(pixel_offset(0, y as int, self.s() as int) == (y as int) * (self.stride as int));
        }
        let start = y * self.stride;
        let width = self.width;
        let (_head, rest) = self.data.split_at_mut(start);
        let (row, _tail) = rest.split_at_mut(width);
        row
    }

    /// Reborrow as an immutable [`Gray8View`].
    pub fn as_view(&self) -> (r: Gray8View<'_>)
        requires
            self.wf(),
        ensures
            r.wf(),
            r.bytes() == self.bytes(),
            r.w() == self.w(),
            r.h() == self.h(),
            r.s() == self.s(),
    {
        match Gray8View::new(&*self.data, self.width, self.height, self.stride) {
            Ok(v) => v,
            Err(_) => {
                assert(false);
                Gray8View { data: &*self.data, width: 0, height: 0, stride: 0 }
            },
        }
    }

    /// Create a checked, zero-copy mutable subview of `rect`.
    pub fn subview(&mut self, rect: Rect) -> (r: Result<Gray8ViewMut<'_>, ImageError>)
        requires
            old(self).wf(),
        ensures
            final(self).w() == old(self).w(),
            final(self).h() == old(self).h(),
            final(self).s() == old(self).s(),
            final(final(self).data)@ == final(old(self).data)@,
            match r {
                Ok(v) => {
                    &&& rect_error(
                        Size { width: old(self).w() as usize, height: old(self).h() as usize },
                        rect,
                    ) is None
                    &&& v.wf()
                    &&& v.w() == rect.width
                    &&& v.h() == rect.height
                    &&& v.s() == old(self).s()
                    &&& v.bytes() == old(self).bytes().subrange(
                        pixel_offset(rect.x as int, rect.y as int, old(self).s() as int),
                        old(self).bytes().len() as int,
                    )
                    &&& final(self).bytes() == old(self).bytes().subrange(
                        0,
                        pixel_offset(rect.x as int, rect.y as int, old(self).s() as int),
                    ) + final(v.data)@
                },
                Err(e) => {
                    &&& rect_error(
                        Size { width: old(self).w() as usize, height: old(self).h() as usize },
                        rect,
                    ) == Some(e)
                    &&& final(self).bytes() == old(self).bytes()
                },
            },
    {
        match validate_rect(self.size(), rect) {
            Ok(_) => {},
            Err(e) => return Err(e),
        }
        proof {
            lemma_subrect_span(
                rect.x as int,
                rect.y as int,
                rect.width as int,
                rect.height as int,
                self.w() as int,
                self.h() as int,
                self.s() as int,
            );
            assert(pixel_offset(rect.x as int, rect.y as int, self.s() as int) == (rect.y as int)
                * (self.stride as int) + rect.x);
        }
        let offset = rect.y * self.stride + rect.x;
        let stride = self.stride;
        let (_head, rest) = self.data.split_at_mut(offset);
        match Gray8ViewMut::new(rest, rect.width, rect.height, stride) {
            Ok(v) => Ok(v),
            Err(_) => {
                assert(false);
                Err(ImageError::DimensionOverflow)
            },
        }
    }
}

// ---------------------------------------------------------------------------
// Owned image
// ---------------------------------------------------------------------------
/// Owned, tightly packed 8-bit grayscale image.
#[derive(Clone, Debug, PartialEq, Eq)]
pub struct Gray8Image {
    data: Vec<u8>,
    size: Size,
}

impl Gray8Image {
    /// Pixels, row-major and tightly packed.
    pub closed spec fn pixels(&self) -> Seq<u8> {
        self.data@
    }

    /// Dimensions.
    pub closed spec fn dims(&self) -> Size {
        self.size
    }

    /// The pixel count matches the non-empty dimensions.
    pub open spec fn wf(&self) -> bool {
        spec_area(self.dims().width as int, self.dims().height as int) == Ok::<usize, ImageError>(
            self.pixels().len() as usize,
        ) && self.pixels().len() <= usize::MAX
    }

    /// Allocate a zero-filled image of the given size.
    pub fn new(size: Size) -> (r: Result<Self, ImageError>)
        ensures
            match r {
                Ok(img) => {
                    &&& img.wf()
                    &&& img.dims() == size
                    &&& img.pixels() == Seq::new(img.pixels().len(), |_i: int| 0u8)
                },
                Err(e) => spec_area(size.width as int, size.height as int) == Err::<usize, ImageError>(
                    e,
                ),
            },
    {
        Self::filled(size, 0)
    }

    /// Allocate an image filled with `value`.
    pub fn filled(size: Size, value: u8) -> (r: Result<Self, ImageError>)
        ensures
            match r {
                Ok(img) => {
                    &&& img.wf()
                    &&& img.dims() == size
                    &&& img.pixels() == Seq::new(img.pixels().len(), |_i: int| value)
                },
                Err(e) => spec_area(size.width as int, size.height as int) == Err::<usize, ImageError>(
                    e,
                ),
            },
    {
        let n = match size.area() {
            Ok(n) => n,
            Err(e) => return Err(e),
        };
        let data = vec![value; n];
        let img = Gray8Image { data, size };
        assert(img.pixels() =~= Seq::new(img.pixels().len(), |_i: int| value));
        Ok(img)
    }

    /// Take ownership of a tightly packed buffer whose length must equal
    /// `size.area()`.
    pub fn from_vec(data: Vec<u8>, size: Size) -> (r: Result<Self, ImageError>)
        ensures
            match r {
                Ok(img) => {
                    &&& img.wf()
                    &&& img.dims() == size
                    &&& img.pixels() == data@
                },
                Err(e) => match spec_area(size.width as int, size.height as int) {
                    Err(a) => e == a,
                    Ok(n) => n != data@.len() && e == ImageError::BufferLengthMismatch,
                },
            },
    {
        let n = match size.area() {
            Ok(n) => n,
            Err(e) => return Err(e),
        };
        if data.len() != n {
            return Err(ImageError::BufferLengthMismatch);
        }
        Ok(Gray8Image { data, size })
    }

    /// Image dimensions.
    pub fn size(&self) -> (r: Size)
        ensures
            r == self.dims(),
    {
        self.size
    }

    /// Borrow the tightly packed pixel buffer.
    pub fn as_slice(&self) -> (r: &[u8])
        ensures
            r@ == self.pixels(),
    {
        self.data.as_slice()
    }

    /// Borrow the tightly packed pixel buffer mutably.
    pub fn as_mut_slice(&mut self) -> (r: &mut [u8])
        ensures
            r@ == old(self).pixels(),
            final(self).pixels() == final(r)@,
            final(self).dims() == old(self).dims(),
    {
        self.data.as_mut_slice()
    }

    /// Consume the image and return its pixel buffer.
    pub fn into_vec(self) -> (r: Vec<u8>)
        ensures
            r@ == self.pixels(),
    {
        self.data
    }

    /// Borrow as an immutable view (stride equals width).
    pub fn view(&self) -> (r: Gray8View<'_>)
        requires
            self.wf(),
        ensures
            r.wf(),
            r.bytes() == self.pixels(),
            r.w() == self.dims().width,
            r.h() == self.dims().height,
            r.s() == self.dims().width,
    {
        proof {
            lemma_tight_layout(self.size.width as int, self.size.height as int);
        }
        match Gray8View::new(self.data.as_slice(), self.size.width, self.size.height, self.size.width) {
            Ok(v) => v,
            Err(_) => {
                assert(false);
                Gray8View { data: self.data.as_slice(), width: 0, height: 0, stride: 0 }
            },
        }
    }

    /// Borrow as a mutable view (stride equals width).
    pub fn view_mut(&mut self) -> (r: Gray8ViewMut<'_>)
        requires
            old(self).wf(),
        ensures
            r.wf(),
            r.bytes() == old(self).pixels(),
            r.w() == old(self).dims().width,
            r.h() == old(self).dims().height,
            r.s() == old(self).dims().width,
            final(self).pixels() == final(r.data)@,
            final(self).dims() == old(self).dims(),
    {
        proof {
            lemma_tight_layout(self.size.width as int, self.size.height as int);
        }
        let (w, h) = (self.size.width, self.size.height);
        Gray8ViewMut { data: self.data.as_mut_slice(), width: w, height: h, stride: w }
    }
}

/// A tightly packed layout spans exactly `width·height` bytes.
pub proof fn lemma_tight_layout(width: int, height: int)
    requires
        width >= 1,
        height >= 1,
    ensures
        layout_span(width, height, width) == width * height,
{
    assert(width * (height - 1) + width == width * height) by (nonlinear_arith);
}


// ---------------------------------------------------------------------------
// Grid indexing and painting helpers
// ---------------------------------------------------------------------------
/// Row-major slot `(c, r)` of a pitch-`pitch` grid: in range, and its row and
/// column are recovered by division and remainder.
pub proof fn lemma_grid_slot(c: int, r: int, pitch: int, rows: int)
    requires
        0 <= c < pitch,
        0 <= r < rows,
    ensures
        0 <= r * pitch + c < rows * pitch,
        (r * pitch + c) % pitch == c,
        (r * pitch + c) / pitch == r,
{
    assert(r * pitch + c < rows * pitch) by (nonlinear_arith)
        requires
            0 <= c < pitch,
            0 <= r < rows,
    ;
    assert(0 <= r * pitch) by (nonlinear_arith)
        requires
            0 <= r,
            0 <= pitch,
    ;
    vstd::arithmetic::div_mod::lemma_fundamental_div_mod_converse(r * pitch + c, pitch, r, c);
}

/// `old` with pixel `(x, y)` of a pitch-`stride` layout replaced by `f(x, y)`
/// for every `x < w` and every pixel before `(cx, cy)` in raster order.
pub open spec fn paint_upto(
    old: Seq<u8>,
    stride: int,
    w: int,
    f: spec_fn(int, int) -> u8,
    cx: int,
    cy: int,
) -> Seq<u8> {
    Seq::new(
        old.len(),
        |k: int|
            if k % stride < w && (k / stride < cy || (k / stride == cy && k % stride < cx)) {
                f(k % stride, k / stride)
            } else {
                old[k]
            },
    )
}

/// `old` with every pixel `(x, y)`, `x < w`, `y < h`, of a pitch-`stride`
/// layout replaced by `f(x, y)`; padding bytes keep their values.
pub open spec fn paint(old: Seq<u8>, stride: int, w: int, h: int, f: spec_fn(int, int) -> u8) -> Seq<
    u8,
> {
    paint_upto(old, stride, w, f, 0, h)
}

/// Painting the next pixel in raster order is one update.
pub proof fn lemma_paint_step(
    old: Seq<u8>,
    stride: int,
    w: int,
    h: int,
    f: spec_fn(int, int) -> u8,
    cx: int,
    cy: int,
)
    requires
        0 <= cx < w <= stride,
        0 <= cy < h,
        layout_span(w, h, stride) <= old.len(),
    ensures
        0 <= pixel_offset(cx, cy, stride) < old.len(),
        paint_upto(old, stride, w, f, cx + 1, cy) == paint_upto(old, stride, w, f, cx, cy).update(
            pixel_offset(cx, cy, stride),
            f(cx, cy),
        ),
{
    lemma_pixel_in_span(cx, cy, w, h, stride);
    let k0 = pixel_offset(cx, cy, stride);
    vstd::arithmetic::div_mod::lemma_fundamental_div_mod_converse(k0, stride, cy, cx);
    let a = paint_upto(old, stride, w, f, cx + 1, cy);
    let b = paint_upto(old, stride, w, f, cx, cy).update(k0, f(cx, cy));
    assert forall|k: int| 0 <= k < a.len() implies a[k] == b[k] by {
        if k != k0 {
            if k / stride == cy && k % stride == cx {
                vstd::arithmetic::div_mod::lemma_fundamental_div_mod(k, stride);
            }
        }
    }
    assert(a =~= b);
}

/// Finishing a row is the same as starting the next one.
pub proof fn lemma_paint_row_done(
    old: Seq<u8>,
    stride: int,
    w: int,
    f: spec_fn(int, int) -> u8,
    cy: int,
)
    requires
        0 < stride,
        0 <= w <= stride,
    ensures
        paint_upto(old, stride, w, f, w, cy) == paint_upto(old, stride, w, f, 0, cy + 1),
{
    assert(paint_upto(old, stride, w, f, w, cy) =~= paint_upto(old, stride, w, f, 0, cy + 1));
}

/// Painted pixels read back as `f`.
pub proof fn lemma_paint_pixel(
    old: Seq<u8>,
    stride: int,
    w: int,
    h: int,
    f: spec_fn(int, int) -> u8,
    x: int,
    y: int,
)
    requires
        0 <= x < w <= stride,
        0 <= y < h,
        layout_span(w, h, stride) <= old.len(),
    ensures
        paint(old, stride, w, h, f)[pixel_offset(x, y, stride)] == f(x, y),
{
    lemma_pixel_in_span(x, y, w, h, stride);
    vstd::arithmetic::div_mod::lemma_fundamental_div_mod_converse(
        pixel_offset(x, y, stride),
        stride,
        y,
        x,
    );
}

/// With a tight pitch, painting every pixel gives exactly the row-major
/// sequence of `f`.
pub proof fn lemma_paint_tight(old: Seq<u8>, w: int, h: int, f: spec_fn(int, int) -> u8)
    requires
        w >= 1,
        h >= 1,
        old.len() == w * h,
    ensures
        paint(old, w, w, h, f) == Seq::new((w * h) as nat, |k: int| f(k % w, k / w)),
{
    let a = paint(old, w, w, h, f);
    let b = Seq::new((w * h) as nat, |k: int| f(k % w, k / w));
    assert forall|k: int| 0 <= k < a.len() implies a[k] == b[k] by {
        vstd::arithmetic::div_mod::lemma_fundamental_div_mod(k, w);
        assert(k / w < h) by {
            vstd::arithmetic::div_mod::lemma_div_is_ordered(k, w * h - 1, w);
            vstd::arithmetic::div_mod::lemma_div_multiples_vanish_fancy(h - 1, w - 1, w);
            assert((h - 1) * w + (w - 1) == w * h - 1) by (nonlinear_arith);
            assert(w * (h - 1) == (h - 1) * w) by (nonlinear_arith);
        }
        vstd::arithmetic::div_mod::lemma_mod_pos_bound(k, w);
    }
    assert(a =~= b);
}

/// Writing a pixel through a mutable view and reading it back gives the
/// written value; only the byte at the pixel's offset changes, so every
/// other pixel, the row padding and the bytes past the view stay as they
/// were.
pub proof fn lemma_write_then_read(before: Gray8ViewMut, after: Gray8ViewMut, x: int, y: int, value: u8)
    requires
        before.wf(),
        0 <= x < before.w(),
        0 <= y < before.h(),
        after.w() == before.w(),
        after.h() == before.h(),
        after.s() == before.s(),
        after.bytes() == before.bytes().update(pixel_offset(x, y, before.s() as int), value),
    ensures
        0 <= pixel_offset(x, y, before.s() as int) < before.bytes().len(),
        after.bytes()[pixel_offset(x, y, before.s() as int)] == value,
        forall|k: int|
            0 <= k < before.bytes().len() && k != pixel_offset(x, y, before.s() as int) ==> #[trigger] after.bytes()[k]
                == before.bytes()[k],
        after.pixel(x, y) == value,
        forall|i: int, j: int|
            0 <= i < before.w() && 0 <= j < before.h() && (i != x || j != y) ==> #[trigger] after.pixel(
                i,
                j,
            ) == before.pixel(i, j),
{
    let s = before.s() as int;
    lemma_pixel_in_span(x, y, before.w() as int, before.h() as int, s);
    assert forall|i: int, j: int|
        0 <= i < before.w() && 0 <= j < before.h() && (i != x || j != y) implies #[trigger] after.pixel(i, j)
        == before.pixel(i, j) by {
        lemma_pixel_in_span(i, j, before.w() as int, before.h() as int, s);
        lemma_grid_slot(i, j, s, before.h() as int);
        lemma_grid_slot(x, y, s, before.h() as int);
    }
}

/// A write through a mutable sub-view lands in the parent at the
/// sub-view's origin plus the written offset: the parent's bytes after the
/// write (its untouched head followed by the sub-view's bytes) are the
/// parent's old bytes with exactly that one byte replaced.
pub proof fn lemma_subview_write_through(
    parent_before: Gray8ViewMut,
    parent_after: Gray8ViewMut,
    child_before: Gray8ViewMut,
    child_after: Gray8ViewMut,
    rect: Rect,
    i: int,
    j: int,
    value: u8,
)
    requires
        parent_before.wf(),
        rect_error(Size { width: parent_before.w() as usize, height: parent_before.h() as usize }, rect)
            is None,
        child_before.s() == parent_before.s(),
        child_before.bytes() == parent_before.bytes().subrange(
            pixel_offset(rect.x as int, rect.y as int, parent_before.s() as int),
            parent_before.bytes().len() as int,
        ),
        0 <= i < rect.width,
        0 <= j < rect.height,
        child_after.bytes() == child_before.bytes().update(
            pixel_offset(i, j, parent_before.s() as int),
            value,
        ),
        parent_after.bytes() == parent_before.bytes().subrange(
            0,
            pixel_offset(rect.x as int, rect.y as int, parent_before.s() as int),
        ) + child_after.bytes(),
    ensures
        parent_after.bytes() == parent_before.bytes().update(
            pixel_offset(rect.x + i, rect.y + j, parent_before.s() as int),
            value,
        ),
        0 <= pixel_offset(rect.x + i, rect.y + j, parent_before.s() as int) < parent_before.bytes().len(),
        parent_after.bytes()[pixel_offset(rect.x + i, rect.y + j, parent_before.s() as int)] == value,
        forall|k: int|
            0 <= k < parent_before.bytes().len() && k != pixel_offset(
                rect.x + i,
                rect.y + j,
                parent_before.s() as int,
            ) ==> #[trigger] parent_after.bytes()[k] == parent_before.bytes()[k],
{
    let s = parent_before.s() as int;
    let o = pixel_offset(rect.x as int, rect.y as int, s);
    let q = pixel_offset(i, j, s);
    let n = parent_before.bytes().len() as int;
    lemma_pixel_in_span(
        rect.x + i,
        rect.y + j,
        parent_before.w() as int,
        parent_before.h() as int,
        s,
    );
    assert((rect.y + j) * s == rect.y * s + j * s) by (nonlinear_arith);
    assert(0 <= j * s) by (nonlinear_arith)
        requires
            0 <= j,
            0 <= s,
    ;
    assert(0 <= rect.y * s) by (nonlinear_arith)
        requires
            0 <= rect.y,
            0 <= s,
    ;
    assert(pixel_offset(rect.x + i, rect.y + j, s) == o + q);
    assert(parent_after.bytes() =~= parent_before.bytes().update(o + q, value));
}

/// `b` is `a` transposed: the same pixels with the axes swapped.
pub open spec fn transposed(a: Gray8View, b: Gray8View) -> bool {
    &&& b.w() == a.h()
    &&& b.h() == a.w()
    &&& forall|x: int, y: int| 0 <= x < a.w() && 0 <= y < a.h() ==> #[trigger] a.pixel(x, y) == b.pixel(y, x)
}

} // verus!

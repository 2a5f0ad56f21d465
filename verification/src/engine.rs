//! The rendering orchestrator.
//!
//! One entry point per fractal kind walks the pixel grid row-major, maps
//! each pixel into parameter space, runs the matching iterator, colors the
//! scalar result and writes it into a fresh pixel buffer.  The contract of
//! each entry point pins every cell of the returned buffer to a spec-level
//! image, so a successful render is complete (no cell left unwritten) and
//! deterministic (equal parameters give equal buffers).  Invalid
//! configurations are rejected before any pixel work begins.

use vstd::prelude::*;
use crate::complex::{Complex, in_range, spec_escape_index, escape_index};
use crate::coords::{spec_julia_coord, julia_coord, spec_lyapunov_coord, lyapunov_coord};
use crate::logistic::{ForcingPattern, LyapunovValue, spec_lyapunov, lyapunov_exponent};
use crate::color::{Rgb, spec_luma, luma_of_index, spec_lyapunov_color, lyapunov_color};

verus! {

/// Why a render invocation was rejected before any pixel work began.
#[derive(Clone, Copy, PartialEq, Eq, Structural, Debug)]
pub enum ConfigError {
    /// The width or the height is zero.
    ZeroResolution,
    /// The iteration budget is zero.
    ZeroIterations,
    /// The forcing pattern is empty or holds a non-binary choice.
    MalformedPattern,
}

/// A finished grayscale raster: one 8-bit luminance per pixel, row-major.
#[derive(Clone, Debug)]
pub struct LumaBuffer {
    pub width: u32,
    pub height: u32,
    pub data: Vec<u8>,
}

/// A finished color raster: one RGB triple per pixel, row-major.
#[derive(Clone, Debug)]
pub struct RgbBuffer {
    pub width: u32,
    pub height: u32,
    pub data: Vec<Rgb>,
}

impl LumaBuffer {
    /// The buffer holds exactly one cell per pixel.
    pub open spec fn wf(&self) -> bool {
        self.data@.len() == self.width as int * self.height as int
    }

    /// Reads the cell of pixel `(x, y)`.
    pub fn get(&self, x: u32, y: u32) -> (v: u8)
        requires
            self.wf(),
            x < self.width,
            y < self.height,
        ensures
            v == self.data@[y as int * self.width as int + x as int],
    {
        let buffer_len: usize = self.data.len();
        proof {
            lemma_row_major_index(x as int, y as int, self.width as int, self.height as int);
        }
        let idx: usize = (y as usize) * (self.width as usize) + (x as usize);
        proof {
            assert(idx < buffer_len);
        }
        self.data[idx]
    }
}

impl RgbBuffer {
    /// The buffer holds exactly one cell per pixel.
    pub open spec fn wf(&self) -> bool {
        self.data@.len() == self.width as int * self.height as int
    }

    /// Reads the cell of pixel `(x, y)`.
    pub fn get(&self, x: u32, y: u32) -> (v: Rgb)
        requires
            self.wf(),
            x < self.width,
            y < self.height,
        ensures
            v == self.data@[y as int * self.width as int + x as int],
    {
        let buffer_len: usize = self.data.len();
        proof {
            lemma_row_major_index(x as int, y as int, self.width as int, self.height as int);
        }
        let idx: usize = (y as usize) * (self.width as usize) + (x as usize);
        proof {
            assert(idx < buffer_len);
        }
        self.data[idx]
    }
}

proof fn lemma_row_major_index(x: int, y: int, width: int, height: int)
    requires
        0 <= x < width,
        0 <= y < height,
    ensures
        0 <= y * width + x < width * height,
{
    assert(0 <= y * width + x < width * height) by (nonlinear_arith)
        requires
            0 <= x < width && 0 <= y < height,
    ;
}

proof fn lemma_row_major_decompose(j: int, width: int, height: int)
    requires
        width >= 1,
        height >= 1,
        0 <= j < width * height,
    ensures
        0 <= j % width < width,
        0 <= j / width < height,
        (j / width) * width + (j % width) == j,
{
    vstd::arithmetic::div_mod::lemma_fundamental_div_mod(j, width);
    assert(0 <= j % width < width) by (nonlinear_arith)
        requires
            width >= 1 && j >= 0,
    ;
    assert(0 <= j / width < height) by (nonlinear_arith)
        requires
            j == width * (j / width) + j % width,
            0 <= j % width < width,
            0 <= j < width * height,
            width >= 1,
            height >= 1,
    ;
}

/// The luminance of pixel `j` (row-major) of an escape-time render.
pub open spec fn spec_julia_pixel(
    j: int,
    width: int,
    height: int,
    max_iterations: nat,
    c: Complex,
) -> u8 {
    let x = j % width;
    let y = j / width;
    let z0 = Complex {
        re: spec_julia_coord(x, width) as i64,
        im: spec_julia_coord(y, height) as i64,
    };
    spec_luma(spec_escape_index(z0, c, max_iterations) as int)
}

/// The whole escape-time image, row-major.
pub open spec fn spec_julia_image(
    width: int,
    height: int,
    max_iterations: nat,
    c: Complex,
) -> Seq<u8> {
    Seq::new((width * height) as nat, |j: int| spec_julia_pixel(j, width, height, max_iterations, c))
}

/// The color of pixel `j` (row-major) of a Lyapunov render.
pub open spec fn spec_lyapunov_pixel(
    j: int,
    width: int,
    height: int,
    max_iterations: int,
    pat: Seq<u8>,
) -> Rgb {
    let a = spec_lyapunov_coord(j % width, width);
    let b = spec_lyapunov_coord(j / width, height);
    spec_lyapunov_color(spec_lyapunov(a, b, pat, max_iterations))
}

/// The whole Lyapunov image, row-major.
pub open spec fn spec_lyapunov_image(
    width: int,
    height: int,
    max_iterations: int,
    pat: Seq<u8>,
) -> Seq<Rgb> {
    Seq::new(
        (width * height) as nat,
        |j: int| spec_lyapunov_pixel(j, width, height, max_iterations, pat),
    )
}

/// Renders the escape-time (Julia) fractal: every pixel `(x, y)` is mapped
/// onto `[-2, 2] x [-2, 2]`, iterated under `z <- z*z + c`, and its escape
/// index is written as a clamped 8-bit luminance at row-major cell
/// `y * width + x`.  A zero dimension or a zero iteration budget is rejected
/// before any pixel work; otherwise every cell of the returned buffer is
/// written, and the buffer is a pure function of the arguments.
pub fn render_julia(width: u32, height: u32, max_iterations: u16, c: Complex) -> (result: Result<
    LumaBuffer,
    ConfigError,
>)
    requires
        in_range(c),
        width as int * height as int <= usize::MAX as int,
    ensures
        match result {
            Ok(buf) => width >= 1 && height >= 1 && max_iterations >= 1 && buf.wf() && buf.width
                == width && buf.height == height && buf.data@ == spec_julia_image(
                width as int,
                height as int,
                max_iterations as nat,
                c,
            ),
            Err(e) => (width == 0 || height == 0 || max_iterations == 0) && ((e
                == ConfigError::ZeroResolution) <==> (width == 0 || height == 0)) && ((e
                == ConfigError::ZeroIterations) <==> (width >= 1 && height >= 1 && max_iterations
                == 0)),
        },
{
    if width == 0 || height == 0 {
        return Err(ConfigError::ZeroResolution);
    }
    if max_iterations == 0 {
        return Err(ConfigError::ZeroIterations);
    }
    let total: usize = (width as usize) * (height as usize);
    let mut data: Vec<u8> = Vec::new();
    let mut j: usize = 0;
    while j < total
        invariant
            width >= 1,
            height >= 1,
            max_iterations >= 1,
            in_range(c),
            total == width as int * height as int,
            j <= total,
            data@.len() == j,
            forall|k: int|
                0 <= k < j ==> data@[k] == spec_julia_pixel(
                    k,
                    width as int,
                    height as int,
                    max_iterations as nat,
                    c,
                ),
        decreases total - j,
    {
        proof {
            lemma_row_major_decompose(j as int, width as int, height as int);
        }
        let x: u32 = (j % (width as usize)) as u32;
        let y: u32 = (j / (width as usize)) as u32;
        let cx: i64 = julia_coord(x, width);
        let cy: i64 = julia_coord(y, height);
        let z0 = Complex { re: cx, im: cy };
        let index: u16 = escape_index(z0, c, max_iterations);
        let l: u8 = luma_of_index(index);
        proof {
            assert(l == spec_julia_pixel(
                j as int,
                width as int,
                height as int,
                max_iterations as nat,
                c,
            ));
        }
        data.push(l);
        j = j + 1;
    }
    proof {
        assert(data@ =~= spec_julia_image(
            width as int,
            height as int,
            max_iterations as nat,
            c,
        ));
    }
    Ok(LumaBuffer { width, height, data })
}

/// Renders the Lyapunov fractal: every pixel `(x, y)` is mapped onto
/// `[2, 4] x [2, 4]`, the forced logistic run's exponent is computed, and
/// its color is written at row-major cell `y * width + x`.  A zero
/// dimension, a zero iteration budget or a malformed pattern is rejected
/// before any pixel work; otherwise every cell of the returned buffer is
/// written, and the buffer is a pure function of the arguments.
pub fn render_lyapunov(width: u32, height: u32, max_iterations: u16, pattern: &ForcingPattern) -> (
    result: Result<RgbBuffer, ConfigError>)
    requires
        width as int * height as int <= usize::MAX as int,
    ensures
        match result {
            Ok(buf) => width >= 1 && height >= 1 && max_iterations >= 1 && pattern.wf() && buf.wf()
                && buf.width == width && buf.height == height && buf.data@ == spec_lyapunov_image(
                width as int,
                height as int,
                max_iterations as int,
                pattern.choices@,
            ),
            Err(e) => (width == 0 || height == 0 || max_iterations == 0 || !pattern.wf()) && ((e
                == ConfigError::ZeroResolution) <==> (width == 0 || height == 0)) && ((e
                == ConfigError::ZeroIterations) <==> (width >= 1 && height >= 1 && max_iterations
                == 0)) && ((e == ConfigError::MalformedPattern) <==> (width >= 1 && height >= 1
                && max_iterations >= 1 && !pattern.wf())),
        },
{
    if width == 0 || height == 0 {
        return Err(ConfigError::ZeroResolution);
    }
    if max_iterations == 0 {
        return Err(ConfigError::ZeroIterations);
    }
    if !pattern.is_well_formed() {
        return Err(ConfigError::MalformedPattern);
    }
    let total: usize = (width as usize) * (height as usize);
    let mut data: Vec<Rgb> = Vec::new();
    let mut j: usize = 0;
    while j < total
        invariant
            width >= 1,
            height >= 1,
            max_iterations >= 1,
            pattern.wf(),
            total == width as int * height as int,
            j <= total,
            data@.len() == j,
            forall|k: int|
                0 <= k < j ==> data@[k] == spec_lyapunov_pixel(
                    k,
                    width as int,
                    height as int,
                    max_iterations as int,
                    pattern.choices@,
                ),
        decreases total - j,
    {
        proof {
            lemma_row_major_decompose(j as int, width as int, height as int);
        }
        let x: u32 = (j % (width as usize)) as u32;
        let y: u32 = (j / (width as usize)) as u32;
        let a: i64 = lyapunov_coord(x, width);
        let b: i64 = lyapunov_coord(y, height);
        let lam: LyapunovValue = lyapunov_exponent(a, b, pattern, max_iterations);
        proof {
            assert(65534int * 279097920 <= 0x2000_0000_0000);
        }
        let px: Rgb = lyapunov_color(lam);
        proof {
            assert(px == spec_lyapunov_pixel(
                j as int,
                width as int,
                height as int,
                max_iterations as int,
                pattern.choices@,
            ));
        }
        data.push(px);
        j = j + 1;
    }
    proof {
        assert(data@ =~= spec_lyapunov_image(
            width as int,
            height as int,
            max_iterations as int,
            pattern.choices@,
        ));
    }
    Ok(RgbBuffer { width, height, data })
}

/// Escape-time rendering is deterministic: two successful renders with equal
/// parameters hold identical cells.
pub proof fn lemma_render_julia_deterministic(
    b1: LumaBuffer,
    b2: LumaBuffer,
    width: u32,
    height: u32,
    max_iterations: u16,
    c: Complex,
)
    requires
        b1.data@ == spec_julia_image(width as int, height as int, max_iterations as nat, c),
        b2.data@ == spec_julia_image(width as int, height as int, max_iterations as nat, c),
    ensures
        b1.data@ == b2.data@,
{
}

/// Lyapunov rendering is deterministic: two successful renders with equal
/// parameters hold identical cells.
pub proof fn lemma_render_lyapunov_deterministic(
    b1: RgbBuffer,
    b2: RgbBuffer,
    width: u32,
    height: u32,
    max_iterations: u16,
    pat: Seq<u8>,
)
    requires
        b1.data@ == spec_lyapunov_image(width as int, height as int, max_iterations as int, pat),
        b2.data@ == spec_lyapunov_image(width as int, height as int, max_iterations as int, pat),
    ensures
        b1.data@ == b2.data@,
{
}

} // verus!

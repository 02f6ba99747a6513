//! What a decoded frame is: how to interpret its samples, and what the camera
//! recorded about it.
//!
//! These describe a frame rather than any one format's idea of one, which is
//! what lets the rest of the library group, calibrate and stack frames without
//! knowing which decoder produced them.
//!
//! Measured quantities the camera records as floating point — black and white
//! levels, colour matrices, exposure, gain — are carried here as their IEEE-754
//! bit patterns. Nothing in this library does arithmetic on them; it carries
//! them from the decoder to whoever measures, unchanged, and a bit pattern is
//! the one representation that cannot round on the way.
use vstd::prelude::*;

use crate::text::{concat, decimal, decimal_of, string_of};

verus! {

/// Returned by a decoder's probe when it cannot read a file.
pub const PROBE_UNSUPPORTED: i32 = -1;
/// Certainty that the file belongs to this decoder, e.g. a magic number matched.
pub const PROBE_CERTAIN: i32 = 100;
/// The extension matches, but the contents were not verified.
pub const PROBE_LIKELY: i32 = 50;

/// How many leading bytes of a file are read before probing.
pub const PROBE_HEADER_BYTES: usize = 4096;

/// Colour-filter indices used in [`ImageLayout::cfa_pattern`].
pub const COLOR_RED: u8 = 0;
pub const COLOR_GREEN: u8 = 1;
pub const COLOR_BLUE: u8 = 2;
/// A fourth filter colour: emerald on some Sony sensors, yellow on others.
pub const COLOR_FOURTH: u8 = 3;

/// Largest CFA repeat described. 2x2 covers Bayer, 6x6 covers X-Trans.
pub const CFA_MAX_DIM: usize = 6;
pub const CFA_MAX_CELLS: usize = 36;

/// The bit pattern of a quiet NaN, which is what a field the camera did not
/// record holds. Never a plausible stand-in such as zero: a fabricated
/// pedestal is subtracted from real data without anything looking wrong.
pub const UNRECORDED_F32: u32 = 0x7fc0_0000;

#[derive(Clone, Copy, PartialEq, Eq, Structural, Debug)]
pub struct SampleFormat(pub u32);

/// The code of 16-bit unsigned integer samples.
pub const SAMPLE_U16: u32 = 0;
/// The code of 32-bit floating point samples.
pub const SAMPLE_F32: u32 = 1;

impl SampleFormat {
    /// 16-bit unsigned integer samples.
    pub fn unsigned16() -> (r: SampleFormat)
        ensures
            r.0 == SAMPLE_U16,
    {
        SampleFormat(SAMPLE_U16)
    }

    /// 32-bit floating point samples.
    pub fn float32() -> (r: SampleFormat)
        ensures
            r.0 == SAMPLE_F32,
    {
        SampleFormat(SAMPLE_F32)
    }

    /// Returns 0 for an unrecognised format, which callers must treat as an
    /// error.
    pub fn bytes_per_sample(self) -> (r: usize)
        ensures
            r == (if self.0 == 0 { 2usize } else if self.0 == 1 { 4usize } else { 0usize }),
    {
        match self.0 {
            0 => 2,
            1 => 4,
            _ => 0,
        }
    }

    pub fn name(self) -> (r: &'static str)
        ensures
            r@ == (if self.0 == 0 { "u16"@ } else if self.0 == 1 { "f32"@ } else { "unknown"@ }),
    {
        match self.0 {
            0 => "u16",
            1 => "f32",
            _ => "unknown",
        }
    }
}

/// Everything needed to interpret the sample buffer, and to calibrate it.
#[derive(Debug, Clone, Copy)]
pub struct ImageLayout {
    /// Full decoded frame, including any masked border.
    pub width: u32,
    pub height: u32,
    /// 1 for a CFA/mosaiced frame, 3 for already-demosaiced RGB.
    pub components: u32,
    pub bits_per_sample: u32,
    pub sample_format: SampleFormat,
    /// CFA repeat size. Both zero means the frame is not mosaiced.
    pub cfa_width: u32,
    pub cfa_height: u32,
    /// Row-major `cfa_height * cfa_width` colour indices; trailing bytes unused.
    pub cfa_pattern: [u8; CFA_MAX_CELLS],
    /// Light-sensitive region. Pixels outside it are optically black.
    pub active_x: u32,
    pub active_y: u32,
    pub active_width: u32,
    pub active_height: u32,
    /// Black level as a repeating grid aligned to the frame origin.
    pub black_level_width: u32,
    pub black_level_height: u32,
    /// `f32` bits per cell of the black-level grid.
    pub black_level_bits: [u32; CFA_MAX_CELLS],
    /// `f32` bits of the saturation point per colour index.
    pub white_level_bits: [u32; 4],
    /// `f32` bits of the as-shot white balance multipliers per colour index.
    pub wb_coeffs_bits: [u32; 4],
    /// `f32` bits of the 4x3 row-major XYZ-to-camera matrix.
    pub xyz_to_cam_bits: [u32; 12],
    /// EXIF orientation (1..=8), or 0 when unknown.
    pub orientation: u32,
}

impl ImageLayout {
    /// An empty layout: nothing recorded, every measured field unrecorded.
    pub fn empty() -> (r: ImageLayout)
        ensures
            is_empty_layout(r),
    {
        ImageLayout {
            width: 0,
            height: 0,
            components: 1,
            bits_per_sample: 16,
            sample_format: SampleFormat(0),
            cfa_width: 0,
            cfa_height: 0,
            cfa_pattern: [0u8; CFA_MAX_CELLS],
            active_x: 0,
            active_y: 0,
            active_width: 0,
            active_height: 0,
            black_level_width: 1,
            black_level_height: 1,
            black_level_bits: [UNRECORDED_F32; CFA_MAX_CELLS],
            white_level_bits: [UNRECORDED_F32; 4],
            wb_coeffs_bits: [UNRECORDED_F32; 4],
            xyz_to_cam_bits: [UNRECORDED_F32; 12],
            orientation: 0,
        }
    }

    /// Bytes to allocate for one frame's samples. `None` on overflow or an
    /// unrecognised sample format.
    pub fn required_bytes(&self) -> (r: Option<usize>)
        ensures
            r == required_bytes_of(*self),
    {
        let bps = self.sample_format.bytes_per_sample();
        if bps == 0 {
            return None;
        }
        let area = match (self.width as usize).checked_mul(self.height as usize) {
            Some(area) => area,
            None => return None,
        };
        let samples = match area.checked_mul(self.components as usize) {
            Some(samples) => samples,
            None => return None,
        };
        samples.checked_mul(bps)
    }
}

impl Default for ImageLayout {
    fn default() -> (r: ImageLayout)
        ensures
            is_empty_layout(r),
    {
        ImageLayout::empty()
    }
}

/// What an empty layout holds: nothing recorded, every measured field
/// unrecorded.
pub open spec fn is_empty_layout(r: ImageLayout) -> bool {
    &&& r.width == 0 && r.height == 0 && r.components == 1 && r.bits_per_sample == 16
    &&& r.sample_format == SampleFormat(SAMPLE_U16)
    &&& r.cfa_width == 0 && r.cfa_height == 0
    &&& forall|i: int| 0 <= i < 36 ==> r.cfa_pattern[i] == 0
    &&& r.active_x == 0 && r.active_y == 0 && r.active_width == 0 && r.active_height == 0
    &&& r.black_level_width == 1 && r.black_level_height == 1
    &&& forall|i: int| 0 <= i < 36 ==> r.black_level_bits[i] == UNRECORDED_F32
    &&& forall|i: int| 0 <= i < 4 ==> r.white_level_bits[i] == UNRECORDED_F32
    &&& forall|i: int| 0 <= i < 4 ==> r.wb_coeffs_bits[i] == UNRECORDED_F32
    &&& forall|i: int| 0 <= i < 12 ==> r.xyz_to_cam_bits[i] == UNRECORDED_F32
    &&& r.orientation == 0
}

/// The bytes one frame of this layout needs: width times height times
/// components times bytes per sample, each step checked against `usize`.
pub open spec fn required_bytes_of(layout: ImageLayout) -> Option<usize> {
    let bps: int = if layout.sample_format.0 == 0 { 2 } else if layout.sample_format.0 == 1 { 4 } else { 0 };
    let area: int = layout.width as int * layout.height as int;
    let samples: int = area * layout.components as int;
    if bps == 0 {
        None
    } else if area > usize::MAX {
        None
    } else if samples > usize::MAX {
        None
    } else if samples * bps > usize::MAX {
        None
    } else {
        Some((samples * bps) as usize)
    }
}

/// Shooting parameters for one frame. `None` means the format did not record
/// it. The measured values are `f64` bit patterns.
#[derive(Debug, Clone, PartialEq)]
pub struct FrameInfo {
    pub camera_make: String,
    pub camera_model: String,
    pub lens_model: String,
    pub exposure_seconds_bits: Option<u64>,
    pub iso_bits: Option<u64>,
    pub aperture_bits: Option<u64>,
    pub focal_length_mm_bits: Option<u64>,
    /// Seconds since the Unix epoch.
    pub capture_time_unix: Option<i64>,
    pub sensor_temperature_c_bits: Option<u64>,
}

impl FrameInfo {
    /// Nothing recorded.
    pub fn empty() -> (r: FrameInfo)
        ensures
            r.camera_make@ == Seq::<char>::empty(),
            r.camera_model@ == Seq::<char>::empty(),
            r.lens_model@ == Seq::<char>::empty(),
            r.exposure_seconds_bits is None,
            r.iso_bits is None,
            r.aperture_bits is None,
            r.focal_length_mm_bits is None,
            r.capture_time_unix is None,
            r.sensor_temperature_c_bits is None,
    {
        FrameInfo {
            camera_make: String::new(),
            camera_model: String::new(),
            lens_model: String::new(),
            exposure_seconds_bits: None,
            iso_bits: None,
            aperture_bits: None,
            focal_length_mm_bits: None,
            capture_time_unix: None,
            sensor_temperature_c_bits: None,
        }
    }
}

/// A decoder's static identity.
#[derive(Debug, Clone, PartialEq, Eq)]
pub struct FormatDescription {
    /// Stable machine-readable id, e.g. `canon-raw`.
    pub id: String,
    pub display_name: String,
    pub version: String,
    pub author: String,
    /// Lowercase, no leading dot.
    pub extensions: Vec<String>,
}

/// The letter a colour index reads as in a pattern name.
pub open spec fn colour_letter(c: u8) -> char {
    if c == COLOR_RED {
        'R'
    } else if c == COLOR_GREEN {
        'G'
    } else if c == COLOR_BLUE {
        'B'
    } else if c == COLOR_FOURTH {
        'E'
    } else {
        '?'
    }
}

/// How a colour-filter pattern reads: its letters when it has at most four
/// cells, `WxH mosaic` when it is larger, and nothing when the frame is not
/// mosaiced or the repeat is larger than any described.
pub open spec fn cfa_name_of(cfa_width: u32, cfa_height: u32, pattern: Seq<u8>) -> Option<Seq<char>> {
    let cells: int = cfa_width as int * cfa_height as int;
    if cfa_width == 0 || cfa_height == 0 {
        None
    } else if cells > usize::MAX {
        None
    } else if cells > 36 {
        None
    } else if cells > 4 {
        Some(decimal(cfa_width as nat) + seq!['x'] + decimal(cfa_height as nat) + " mosaic"@)
    } else {
        Some(pattern.take(cells).map_values(|c: u8| colour_letter(c)))
    }
}

fn letter(c: u8) -> (r: char)
    ensures
        r == colour_letter(c),
{
    if c == COLOR_RED {
        'R'
    } else if c == COLOR_GREEN {
        'G'
    } else if c == COLOR_BLUE {
        'B'
    } else if c == COLOR_FOURTH {
        'E'
    } else {
        '?'
    }
}

/// Names a colour-filter array pattern for display, e.g. `RGGB`.
///
/// `None` for a non-mosaiced frame; a `WxH mosaic` label for patterns too
/// large to spell out (X-Trans).
pub fn cfa_pattern_name(layout: &ImageLayout) -> (r: Option<String>)
    ensures
        r.deep_view() == cfa_name_of(layout.cfa_width, layout.cfa_height, layout.cfa_pattern@),
{
    let w = layout.cfa_width as usize;
    let h = layout.cfa_height as usize;
    if w == 0 || h == 0 {
        return None;
    }
    let cells = match w.checked_mul(h) {
        Some(cells) => cells,
        None => return None,
    };
    if cells > CFA_MAX_CELLS {
        return None;
    }
    if cells > 4 {
        let mut text = decimal_of(w as u64);
        text.push('x');
        let height_digits = decimal_of(h as u64);
        let text = concat(&text, &height_digits);
        let suffix = crate::text::chars_of(" mosaic");
        let text = concat(&text, &suffix);
        return Some(string_of(&text));
    }
    let mut letters: Vec<char> = Vec::new();
    let mut i: usize = 0;
    while i < cells
        invariant
            i <= cells,
            cells <= 4,
            cells as int == layout.cfa_width as int * layout.cfa_height as int,
            letters@ == layout.cfa_pattern@.take(i as int).map_values(|c: u8| colour_letter(c)),
        decreases cells - i,
    {
        letters.push(letter(layout.cfa_pattern[i]));
        proof {
            assert(layout.cfa_pattern@.take(i + 1).map_values(|c: u8| colour_letter(c))
                =~= layout.cfa_pattern@.take(i as int).map_values(|c: u8| colour_letter(c)).push(colour_letter(layout.cfa_pattern@[i as int])));
        }
        i = i + 1;
    }
    Some(string_of(&letters))
}

} // verus!

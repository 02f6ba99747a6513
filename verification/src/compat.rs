//! Whether two frames may be indexed against each other, and what differs
//! between them if they may.
//!
//! The split into two *types* rather than two severities is the point: a caller
//! cannot accidentally treat an [`Incompatibility`] as advisory, and cannot
//! promote a [`Mismatch`] into a refusal. The line between them is drawn where
//! the arithmetic stops being defined: two frames that disagree about which
//! photosite `samples[i]` is cannot be subtracted at all.
use vstd::prelude::*;

use crate::frame::{cfa_name_of, cfa_pattern_name, CFA_MAX_CELLS, ImageLayout};
use crate::kind::FrameKind;
use crate::session::{body_display, body_view, FrameRecord};
use crate::text::{chars_of, concat, decimal, decimal_of, string_of};

verus! {

#[derive(Debug, Clone, Copy, PartialEq, Eq, Structural, Hash)]
pub struct Rect {
    pub x: u32,
    pub y: u32,
    pub width: u32,
    pub height: u32,
}

/// The fields that decide which photosite a sample index refers to.
///
/// Everything else in a layout describes what the numbers *mean* and can
/// differ between frames that still subtract correctly. `cfa_pattern` is
/// normalised on the way in: cells beyond `cfa_width * cfa_height` are zeroed,
/// so two frames with the same mosaic compare alike whatever the decoder left
/// in the tail.
#[derive(Debug, Clone, Copy, PartialEq, Eq, Hash)]
pub struct GeometryKey {
    pub width: u32,
    pub height: u32,
    pub components: u32,
    pub bits_per_sample: u32,
    pub sample_format: u32,
    pub active: Rect,
    pub cfa_width: u32,
    pub cfa_height: u32,
    pub cfa_pattern: [u8; CFA_MAX_CELLS],
}

/// The mosaic cells of a layout that mean anything, the rest zeroed; all
/// zeroed when the repeat is larger than any described.
pub open spec fn normalised_pattern(layout: ImageLayout) -> Seq<u8> {
    let cells = layout.cfa_width as int * layout.cfa_height as int;
    Seq::new(36, |i: int| if cells <= 36 && i < cells { layout.cfa_pattern[i] } else { 0u8 })
}

/// What `GeometryKey::from_layout` keeps of a layout.
pub open spec fn geometry_of(key: GeometryKey, layout: ImageLayout) -> bool {
    &&& key.width == layout.width
    &&& key.height == layout.height
    &&& key.components == layout.components
    &&& key.bits_per_sample == layout.bits_per_sample
    &&& key.sample_format == layout.sample_format.0
    &&& key.active == Rect {
        x: layout.active_x,
        y: layout.active_y,
        width: layout.active_width,
        height: layout.active_height,
    }
    &&& key.cfa_width == layout.cfa_width
    &&& key.cfa_height == layout.cfa_height
    &&& key.cfa_pattern@ == normalised_pattern(layout)
}

/// How a key's mosaic reads, e.g. `RGGB`.
pub open spec fn key_cfa_name(key: GeometryKey) -> Option<Seq<char>> {
    cfa_name_of(key.cfa_width, key.cfa_height, key.cfa_pattern@)
}

impl GeometryKey {
    pub fn from_layout(layout: &ImageLayout) -> (r: GeometryKey)
        ensures
            geometry_of(r, *layout),
    {
        let cells = match (layout.cfa_width as usize).checked_mul(layout.cfa_height as usize) {
            Some(cells) => cells,
            None => usize::MAX,
        };
        let mut cfa_pattern = [0u8; CFA_MAX_CELLS];
        if cells <= CFA_MAX_CELLS {
            let mut i: usize = 0;
            while i < cells
                invariant
                    i <= cells,
                    cells <= 36,
                    cells as int == layout.cfa_width as int * layout.cfa_height as int,
                    forall|k: int| 0 <= k < i ==> cfa_pattern[k] == layout.cfa_pattern[k],
                    forall|k: int| i <= k < 36 ==> cfa_pattern[k] == 0,
                decreases cells - i,
            {
                cfa_pattern[i] = layout.cfa_pattern[i];
                i = i + 1;
            }
        }
        let r = GeometryKey {
            width: layout.width,
            height: layout.height,
            components: layout.components,
            bits_per_sample: layout.bits_per_sample,
            sample_format: layout.sample_format.0,
            active: Rect {
                x: layout.active_x,
                y: layout.active_y,
                width: layout.active_width,
                height: layout.active_height,
            },
            cfa_width: layout.cfa_width,
            cfa_height: layout.cfa_height,
            cfa_pattern,
        };
        proof {
            assert(r.cfa_pattern@ =~= normalised_pattern(*layout));
        }
        r
    }

    /// A display name for the mosaic, e.g. `RGGB`. `None` when not mosaiced.
    pub fn cfa_name(&self) -> (r: Option<String>)
        ensures
            r.deep_view() == key_cfa_name(*self),
    {
        let mut layout = ImageLayout::empty();
        layout.cfa_width = self.cfa_width;
        layout.cfa_height = self.cfa_height;
        layout.cfa_pattern = self.cfa_pattern;
        cfa_pattern_name(&layout)
    }

    /// How the sensor reads in a report: `5344x3516 GBRG 14 bit`.
    pub fn describe(&self) -> (r: String)
        ensures
            r@ == decimal(self.width as nat) + seq!['x'] + decimal(self.height as nat) + seq![' ']
                + (match key_cfa_name(*self) {
                Some(name) => name,
                None => "no mosaic"@,
            }) + seq![' '] + decimal(self.bits_per_sample as nat) + " bit"@,
    {
        let mut text = decimal_of(self.width as u64);
        text.push('x');
        text = concat(&text, &decimal_of(self.height as u64));
        text.push(' ');
        let mosaic = match self.cfa_name() {
            Some(name) => chars_of(name.as_str()),
            None => chars_of("no mosaic"),
        };
        text = concat(&text, &mosaic);
        text.push(' ');
        text = concat(&text, &decimal_of(self.bits_per_sample as u64));
        text = concat(&text, &chars_of(" bit"));
        proof {
            let expected = decimal(self.width as nat) + seq!['x'] + decimal(self.height as nat) + seq![' ']
                + (match key_cfa_name(*self) {
                Some(name) => name,
                None => "no mosaic"@,
            }) + seq![' '] + decimal(self.bits_per_sample as nat) + " bit"@;
            assert(text@ =~= expected);
        }
        string_of(&text)
    }
}

/// A property two frames can be compared on, named so that a finding about it
/// reads the same whether the values differed or were never recorded.
#[derive(Debug, Clone, Copy, PartialEq, Eq, Structural)]
pub enum Property {
    Exposure,
    Gain,
    SensorTemperature,
    FocalLength,
    Aperture,
    LensModel,
}

impl Property {
    /// How the property reads in a sentence.
    pub fn name(self) -> (r: &'static str)
        ensures
            r@ == property_name(self),
    {
        match self {
            Property::Exposure => "exposure",
            Property::Gain => "ISO",
            Property::SensorTemperature => "sensor temperature",
            Property::FocalLength => "focal length",
            Property::Aperture => "aperture",
            Property::LensModel => "lens",
        }
    }
}

pub open spec fn property_name(p: Property) -> Seq<char> {
    match p {
        Property::Exposure => "exposure"@,
        Property::Gain => "ISO"@,
        Property::SensorTemperature => "sensor temperature"@,
        Property::FocalLength => "focal length"@,
        Property::Aperture => "aperture"@,
        Property::LensModel => "lens"@,
    }
}

/// A frame's width and height.
#[derive(Debug, Clone, Copy, PartialEq, Eq, Structural, Hash)]
pub struct Extent {
    pub width: u32,
    pub height: u32,
}

/// A difference that makes the arithmetic undefined. Always a refusal.
///
/// Gains are `f64` bit patterns, as recorded.
#[derive(Debug, Clone, PartialEq)]
pub enum Incompatibility {
    Dimensions { expected: Extent, found: Extent },
    Components { expected: u32, found: u32 },
    SampleFormat { expected: u32, found: u32 },
    BitDepth { expected: u32, found: u32 },
    CfaPattern { expected: Option<String>, found: Option<String> },
    ActiveArea { expected: Rect, found: Rect },
    /// Only ever raised for a calibration pairing, never within a light set.
    CameraModel { expected: String, found: String },
    /// Only ever raised for a dark or a bias against what it calibrates.
    Gain { expected_bits: u64, found_bits: u64 },
    /// A rule that had to run and could not. Distinct from a match: two frames
    /// that both failed to record their gain have not been shown to agree.
    Unrecorded { property: Property },
}

/// What [`admissible`] answers for two frames whose geometries are `ek` and
/// `fk`: the geometry ladder first, then the body where the pairing needs one
/// body, then the gain where the pairing needs one gain.
pub open spec fn admission(
    r: Result<(), Incompatibility>,
    ek: GeometryKey,
    fk: GeometryKey,
    expected: FrameRecord,
    found: FrameRecord,
    pairing: Pairing,
    gains_equal: Option<bool>,
) -> bool {
    if first_difference(ek, fk) is Some {
        r matches Err(reason) && refusal_for(reason, first_difference(ek, fk)->0, ek, fk)
    } else if pairing != Pairing::SameStack && body_view(expected.body) != body_view(found.body) {
        r matches Err(Incompatibility::CameraModel { expected: e, found: f }) && e@ == body_display(
            expected.body.make@,
            expected.body.model@,
        ) && f@ == body_display(found.body.make@, found.body.model@)
    } else if pairing == Pairing::DarkToLight || pairing == Pairing::BiasToLight || pairing == Pairing::DarkFlatToFlat
        || pairing == Pairing::BiasToFlat {
        match gains_equal {
            Some(true) => r is Ok,
            Some(false) => r == Err::<(), Incompatibility>(
                Incompatibility::Gain {
                    expected_bits: expected.info.iso_bits->0,
                    found_bits: found.info.iso_bits->0,
                },
            ),
            None => r == Err::<(), Incompatibility>(Incompatibility::Unrecorded { property: Property::Gain }),
        }
    } else {
        r is Ok
    }
}

/// [`compatible`], plus the hard rules that depend on the pairing rather than
/// on the geometry: the same body for calibration, whose hot pixels belong to
/// one sensor, and the same gain for darks and biases. Two unrecorded gains
/// are not agreement.
///
/// `gains_equal` is whether the two recorded gains agree to within the
/// smallest difference an `f64` can hold, `None` where either frame recorded
/// none: a comparison of measured figures, made by the caller.
pub fn admissible(expected: &FrameRecord, found: &FrameRecord, pairing: Pairing, gains_equal: Option<bool>) -> (r: Result<
    (),
    Incompatibility,
>)
    requires
        gains_equal is None <==> (expected.info.iso_bits is None || found.info.iso_bits is None),
    ensures
        exists|ek: GeometryKey, fk: GeometryKey|
            geometry_of(ek, expected.layout) && geometry_of(fk, found.layout) && admission(
                r,
                ek,
                fk,
                *expected,
                *found,
                pairing,
                gains_equal,
            ),
{
    let ek = GeometryKey::from_layout(&expected.layout);
    let fk = GeometryKey::from_layout(&found.layout);
    let r = admitted(&ek, &fk, expected, found, pairing, gains_equal);
    proof {
        assert(geometry_of(ek, expected.layout) && geometry_of(fk, found.layout) && admission(
            r,
            ek,
            fk,
            *expected,
            *found,
            pairing,
            gains_equal,
        ));
    }
    r
}

fn admitted(
    ek: &GeometryKey,
    fk: &GeometryKey,
    expected: &FrameRecord,
    found: &FrameRecord,
    pairing: Pairing,
    gains_equal: Option<bool>,
) -> (r: Result<(), Incompatibility>)
    requires
        gains_equal is None <==> (expected.info.iso_bits is None || found.info.iso_bits is None),
    ensures
        admission(r, *ek, *fk, *expected, *found, pairing, gains_equal),
{
    match compatible(ek, fk) {
        Err(reason) => {
            return Err(reason);
        },
        Ok(()) => {},
    }
    if pairing.body_must_match() && !expected.body.same_body(&found.body) {
        return Err(Incompatibility::CameraModel { expected: expected.body.display(), found: found.body.display() });
    }
    if pairing.gain_must_match() {
        match gains_equal {
            Some(true) => {},
            Some(false) => {
                match (expected.info.iso_bits, found.info.iso_bits) {
                    (Some(e), Some(f)) => {
                        return Err(Incompatibility::Gain { expected_bits: e, found_bits: f });
                    },
                    _ => {
                        return Err(Incompatibility::Unrecorded { property: Property::Gain });
                    },
                }
            },
            None => {
                return Err(Incompatibility::Unrecorded { property: Property::Gain });
            },
        }
    }
    Ok(())
}

/// `text` after `head`.
pub(crate) fn followed_by(head: Vec<char>, text: &str) -> (r: Vec<char>)
    ensures
        r@ == head@ + text@,
{
    concat(&head, &chars_of(text))
}

/// How a sample format reads in a sentence.
pub open spec fn format_name(format: u32) -> Seq<char> {
    if format == 0 {
        "u16"@
    } else if format == 1 {
        "f32"@
    } else {
        "unknown"@
    }
}

/// A rectangle as a report prints it: its size, then its corner.
pub open spec fn rect_text(r: Rect) -> Seq<char> {
    decimal(r.width as nat) + "x"@ + decimal(r.height as nat) + " at "@ + decimal(r.x as nat) + ","@ + decimal(
        r.y as nat,
    )
}

impl Rect {
    /// The rectangle in words: `WxH at X,Y`.
    pub fn describe(&self) -> (r: String)
        ensures
            r@ == rect_text(*self),
    {
        let mut out = followed_by(decimal_of(self.width as u64), "x");
        out = concat(&out, &decimal_of(self.height as u64));
        out = followed_by(out, " at ");
        out = concat(&out, &decimal_of(self.x as u64));
        out = followed_by(out, ",");
        out = concat(&out, &decimal_of(self.y as u64));
        string_of(&out)
    }
}

/// A mosaic's name, or "no" where there is none.
pub open spec fn name_or_no(name: Option<String>) -> Seq<char> {
    match name {
        Some(n) => n@,
        None => "no"@,
    }
}

/// What a refusal says, found first and expected second. A gain is a measured
/// figure printed to whole units of ISO, which is floating point and left to
/// the caller: `None` there.
pub open spec fn incompatibility_text(i: Incompatibility) -> Option<Seq<char>> {
    match i {
        Incompatibility::Dimensions { expected, found } => Some(
            decimal(found.width as nat) + "x"@ + decimal(found.height as nat) + ", expected "@ + decimal(
                expected.width as nat,
            ) + "x"@ + decimal(expected.height as nat),
        ),
        Incompatibility::Components { expected, found } => Some(
            decimal(found as nat) + " components per pixel, expected "@ + decimal(expected as nat),
        ),
        Incompatibility::SampleFormat { expected, found } => Some(
            format_name(found) + " samples, expected "@ + format_name(expected),
        ),
        Incompatibility::BitDepth { expected, found } => Some(
            decimal(found as nat) + " bit, expected "@ + decimal(expected as nat),
        ),
        Incompatibility::CfaPattern { expected, found } => Some(
            name_or_no(found) + " mosaic, expected "@ + name_or_no(expected),
        ),
        Incompatibility::ActiveArea { expected, found } => Some(
            "active area "@ + rect_text(found) + ", expected "@ + rect_text(expected),
        ),
        Incompatibility::CameraModel { expected, found } => Some("shot on "@ + found@ + ", not "@ + expected@),
        Incompatibility::Gain { .. } => None,
        Incompatibility::Unrecorded { property } => Some(
            property_name(property) + " was not recorded, so it could not be matched"@,
        ),
    }
}

fn format_name_of(format: u32) -> (r: &'static str)
    ensures
        r@ == format_name(format),
{
    crate::frame::SampleFormat(format).name()
}

fn name_or_no_of(name: &Option<String>) -> (r: &str)
    ensures
        r@ == name_or_no(*name),
{
    match name {
        Some(n) => n.as_str(),
        None => "no",
    }
}

impl Incompatibility {
    /// The refusal in words, or `None` for a gain, whose figures are
    /// floating point and printed by the caller.
    pub fn describe(&self) -> (r: Option<String>)
        ensures
            match r {
                Some(t) => incompatibility_text(*self) == Some(t@),
                None => incompatibility_text(*self) is None,
            },
    {
        let out = match self {
            Incompatibility::Dimensions { expected, found } => {
                let mut out = followed_by(decimal_of(found.width as u64), "x");
                out = concat(&out, &decimal_of(found.height as u64));
                out = followed_by(out, ", expected ");
                out = concat(&out, &decimal_of(expected.width as u64));
                out = followed_by(out, "x");
                concat(&out, &decimal_of(expected.height as u64))
            },
            Incompatibility::Components { expected, found } => {
                let out = followed_by(decimal_of(*found as u64), " components per pixel, expected ");
                concat(&out, &decimal_of(*expected as u64))
            },
            Incompatibility::SampleFormat { expected, found } => {
                let out = followed_by(chars_of(format_name_of(*found)), " samples, expected ");
                followed_by(out, format_name_of(*expected))
            },
            Incompatibility::BitDepth { expected, found } => {
                let out = followed_by(decimal_of(*found as u64), " bit, expected ");
                concat(&out, &decimal_of(*expected as u64))
            },
            Incompatibility::CfaPattern { expected, found } => {
                let out = followed_by(chars_of(name_or_no_of(found)), " mosaic, expected ");
                followed_by(out, name_or_no_of(expected))
            },
            Incompatibility::ActiveArea { expected, found } => {
                let out = followed_by(chars_of("active area "), found.describe().as_str());
                let out = followed_by(out, ", expected ");
                followed_by(out, expected.describe().as_str())
            },
            Incompatibility::CameraModel { expected, found } => {
                let out = followed_by(chars_of("shot on "), found.as_str());
                let out = followed_by(out, ", not ");
                followed_by(out, expected.as_str())
            },
            Incompatibility::Gain { .. } => {
                return None;
            },
            Incompatibility::Unrecorded { property } => {
                followed_by(chars_of(property.name()), " was not recorded, so it could not be matched")
            },
        };
        Some(string_of(&out))
    }
}

#[derive(Debug, Clone, Copy, PartialEq, Eq, Structural, PartialOrd, Ord)]
pub enum Severity {
    Note,
    Warning,
}

/// A difference that changes the magnitude of a signal that is still
/// spatially aligned. Always reported, never a refusal.
///
/// Measured values are IEEE-754 bit patterns: `f64` for exposure, gain,
/// temperature and optics, `f32` for black and white levels.
#[derive(Debug, Clone, PartialEq)]
pub enum Mismatch {
    Exposure { expected_bits: u64, found_bits: u64 },
    Gain { expected_bits: u64, found_bits: u64 },
    SensorTemperature { expected_bits: u64, found_bits: u64, severity: Severity },
    BlackLevel { expected_bits: u32, found_bits: u32 },
    WhiteLevel { expected_bits: u32, found_bits: u32 },
    Orientation { expected: u32, found: u32 },
    CameraModel { expected: String, found: String },
    OpticalTrain { property: Property, expected_bits: Option<u64>, found_bits: Option<u64> },
    /// Seconds between the calibration frames and the lights they would
    /// calibrate.
    Elapsed { seconds: i64 },
    /// A rule that could not run because the data is absent. A third state,
    /// not a pass.
    Unrecorded { property: Property },
}

impl Mismatch {
    pub open spec fn severity_of(m: Mismatch) -> Severity {
        match m {
            Mismatch::SensorTemperature { severity, .. } => severity,
            Mismatch::Exposure { .. } | Mismatch::Gain { .. } | Mismatch::Elapsed { .. } => Severity::Warning,
            _ => Severity::Note,
        }
    }

    pub fn severity(&self) -> (r: Severity)
        ensures
            r == Mismatch::severity_of(*self),
    {
        match self {
            Mismatch::SensorTemperature { severity, .. } => *severity,
            Mismatch::Exposure { .. } | Mismatch::Gain { .. } | Mismatch::Elapsed { .. } => Severity::Warning,
            Mismatch::BlackLevel { .. }
            | Mismatch::WhiteLevel { .. }
            | Mismatch::Orientation { .. }
            | Mismatch::CameraModel { .. }
            | Mismatch::OpticalTrain { .. }
            | Mismatch::Unrecorded { .. } => Severity::Note,
        }
    }
}

/// Which optical relationship two frames stand in.
///
/// The rules are asymmetric and the asymmetry is optical: a flat is normalised
/// before it divides anything, so its exposure carries no information; a
/// dark's entire content is a function of exposure and temperature.
#[derive(Debug, Clone, Copy, PartialEq, Eq, Structural)]
pub enum Pairing {
    /// Two frames destined for the same integration.
    SameStack,
    DarkToLight,
    BiasToLight,
    FlatToLight,
    /// A dark flat is compared with the flats, never the lights.
    DarkFlatToFlat,
    BiasToFlat,
}

pub open spec fn pairing_for(kind: FrameKind) -> Option<Pairing> {
    match kind {
        FrameKind::Dark => Some(Pairing::DarkToLight),
        FrameKind::Bias => Some(Pairing::BiasToLight),
        FrameKind::Flat => Some(Pairing::FlatToLight),
        FrameKind::DarkFlat => Some(Pairing::DarkFlatToFlat),
        FrameKind::Light => None,
    }
}

impl Pairing {
    /// The pairing under which `calibration` is judged against what it
    /// calibrates.
    pub fn for_calibration(calibration: FrameKind) -> (r: Option<Pairing>)
        ensures
            r == pairing_for(calibration),
    {
        match calibration {
            FrameKind::Dark => Some(Pairing::DarkToLight),
            FrameKind::Bias => Some(Pairing::BiasToLight),
            FrameKind::Flat => Some(Pairing::FlatToLight),
            FrameKind::DarkFlat => Some(Pairing::DarkFlatToFlat),
            FrameKind::Light => None,
        }
    }

    /// Whether gain must match exactly, rather than merely being reported:
    /// for darks and biases, whose fixed pattern scales with gain.
    pub fn gain_must_match(self) -> (r: bool)
        ensures
            r == (self == Pairing::DarkToLight || self == Pairing::BiasToLight
                || self == Pairing::DarkFlatToFlat || self == Pairing::BiasToFlat),
    {
        matches!(self, Pairing::DarkToLight | Pairing::BiasToLight | Pairing::DarkFlatToFlat | Pairing::BiasToFlat)
    }

    /// Whether exposure is worth reporting on. Never for a flat, whose
    /// absolute level carries no information.
    pub fn exposure_is_meaningful(self) -> (r: bool)
        ensures
            r == (self == Pairing::SameStack || self == Pairing::DarkToLight || self == Pairing::DarkFlatToFlat),
    {
        matches!(self, Pairing::SameStack | Pairing::DarkToLight | Pairing::DarkFlatToFlat)
    }

    /// Whether the two frames must have come off the same camera body.
    pub fn body_must_match(self) -> (r: bool)
        ensures
            r == (self != Pairing::SameStack),
    {
        !matches!(self, Pairing::SameStack)
    }
}

/// The first rung of the reason ladder on which two keys differ, coarsest
/// first: dimensions, components, sample format, bit depth, mosaic, active
/// area.
pub enum Rung {
    Dimensions,
    Components,
    SampleFormat,
    BitDepth,
    CfaPattern,
    ActiveArea,
}

pub open spec fn first_difference(e: GeometryKey, f: GeometryKey) -> Option<Rung> {
    if e.width != f.width || e.height != f.height {
        Some(Rung::Dimensions)
    } else if e.components != f.components {
        Some(Rung::Components)
    } else if e.sample_format != f.sample_format {
        Some(Rung::SampleFormat)
    } else if e.bits_per_sample != f.bits_per_sample {
        Some(Rung::BitDepth)
    } else if e.cfa_width != f.cfa_width || e.cfa_height != f.cfa_height || e.cfa_pattern@ != f.cfa_pattern@ {
        Some(Rung::CfaPattern)
    } else if e.active != f.active {
        Some(Rung::ActiveArea)
    } else {
        None
    }
}

/// The refusal a rung is reported as, with both sides' values.
pub open spec fn refusal_for(r: Incompatibility, rung: Rung, e: GeometryKey, f: GeometryKey) -> bool {
    match rung {
        Rung::Dimensions => r == Incompatibility::Dimensions {
            expected: Extent { width: e.width, height: e.height },
            found: Extent { width: f.width, height: f.height },
        },
        Rung::Components => r == Incompatibility::Components { expected: e.components, found: f.components },
        Rung::SampleFormat => r == Incompatibility::SampleFormat {
            expected: e.sample_format,
            found: f.sample_format,
        },
        Rung::BitDepth => r == Incompatibility::BitDepth {
            expected: e.bits_per_sample,
            found: f.bits_per_sample,
        },
        Rung::CfaPattern => r matches Incompatibility::CfaPattern { expected, found } && expected.deep_view()
            == key_cfa_name(e) && found.deep_view() == key_cfa_name(f),
        Rung::ActiveArea => r == Incompatibility::ActiveArea { expected: e.active, found: f.active },
    }
}

fn same_pattern(a: &[u8; CFA_MAX_CELLS], b: &[u8; CFA_MAX_CELLS]) -> (r: bool)
    ensures
        r == (a@ == b@),
{
    let mut i: usize = 0;
    while i < CFA_MAX_CELLS
        invariant
            i <= 36,
            forall|k: int| 0 <= k < i ==> a[k] == b[k],
        decreases 36 - i,
    {
        if a[i] != b[i] {
            return false;
        }
        i = i + 1;
    }
    proof {
        assert(a@ =~= b@);
    }
    true
}

/// Whether two frames may be indexed against each other at all.
///
/// One reason ladder, in the order a user would want to hear them: the
/// coarsest difference first, so a stray JPEG among raw frames is reported as
/// its dimensions rather than as its mosaic.
pub fn compatible(expected: &GeometryKey, found: &GeometryKey) -> (r: Result<(), Incompatibility>)
    ensures
        r is Ok <==> first_difference(*expected, *found) is None,
        r matches Err(reason) ==> refusal_for(reason, first_difference(*expected, *found)->0, *expected, *found),
{
    if expected.width != found.width || expected.height != found.height {
        return Err(Incompatibility::Dimensions {
            expected: Extent { width: expected.width, height: expected.height },
            found: Extent { width: found.width, height: found.height },
        });
    }
    if expected.components != found.components {
        return Err(Incompatibility::Components { expected: expected.components, found: found.components });
    }
    if expected.sample_format != found.sample_format {
        return Err(Incompatibility::SampleFormat {
            expected: expected.sample_format,
            found: found.sample_format,
        });
    }
    // Same photosites, numbers differing by a factor of four: 14 bit on the
    // mechanical shutter and 12 bit in some electronic modes, at identical
    // geometry.
    if expected.bits_per_sample != found.bits_per_sample {
        return Err(Incompatibility::BitDepth {
            expected: expected.bits_per_sample,
            found: found.bits_per_sample,
        });
    }
    // The mosaic phase, not merely whether there is one.
    if expected.cfa_width != found.cfa_width || expected.cfa_height != found.cfa_height
        || !same_pattern(&expected.cfa_pattern, &found.cfa_pattern) {
        return Err(Incompatibility::CfaPattern { expected: expected.cfa_name(), found: found.cfa_name() });
    }
    if expected.active != found.active {
        return Err(Incompatibility::ActiveArea { expected: expected.active, found: found.active });
    }
    Ok(())
}

/// Every key is compatible with itself, and compatibility does not depend on
/// which of the two is the reference.
pub proof fn law_compatibility_is_an_equivalence(a: GeometryKey, b: GeometryKey, c: GeometryKey)
    ensures
        first_difference(a, a) is None,
        first_difference(a, b) is None <==> first_difference(b, a) is None,
        first_difference(a, b) is None && first_difference(b, c) is None ==> first_difference(a, c) is None,
{
}

} // verus!

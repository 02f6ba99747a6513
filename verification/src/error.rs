//! What can go wrong, and what each failure says.
use vstd::prelude::*;

use crate::text::{chars_of, concat, string_of};

verus! {

/// A failure of the library.
///
/// Paths are held as text. An I/O failure carries what the operating system
/// said as its `reason`, which the message leaves out: it names the file, and
/// the reason is there for whoever wants the cause.
#[derive(Debug, Clone, PartialEq, Eq)]
pub enum Error {
    /// Two decoders were registered under one name. A mistake in how the
    /// program was assembled, not in anything the user did, but refused
    /// rather than ignored, since reports would then name something that
    /// cannot be looked up.
    DuplicateFormatId { id: String },
    UnsupportedFormat { path: String },
    /// A decoder failed on a file. `message` is its own explanation.
    Decode { format: String, action: String, path: String, message: String },
    /// The caller asked the pass to stop.
    Cancelled,
    /// A frame that decoded but cannot be measured, with the reason: not the
    /// plugin's fault and not the file's, so it is named and the rest of the
    /// night carries on.
    Unmeasurable { name: String, reason: String },
    /// A set with no active frames, or a frame whose layout describes nothing.
    NothingToCombine,
    /// A frame read twice in one combination did not read the same both times.
    FrameChanged { path: String },
    /// A flat whose zero point could not be measured. Fatal rather than a
    /// plausible fallback: a normalisation taken on the wrong zero is a
    /// multiplicative error on every light it touches.
    NoPedestal,
    Io { path: String, reason: String },
}

/// What a failure says.
pub open spec fn error_text(e: Error) -> Seq<char> {
    match e {
        Error::DuplicateFormatId { id } => "two decoders claim the id "@ + id@,
        Error::UnsupportedFormat { path } => "no decoder can read "@ + path@,
        Error::Decode { format, action, path, message } => format@ + " failed to "@ + action@ + " "@ + path@ + ": "@
            + message@,
        Error::Cancelled => "cancelled"@,
        Error::Unmeasurable { name, reason } => name@ + ": "@ + reason@,
        Error::NothingToCombine => "there is nothing to combine"@,
        Error::FrameChanged { path } => path@ + " changed while it was being combined: read twice, decoded differently"@,
        Error::NoPedestal => "the flat has no measurable pedestal: no masked border, and no bias at its gain"@,
        Error::Io { path, reason: _ } => "could not read "@ + path@,
    }
}

fn joined(parts: &Vec<&str>) -> (r: String)
    ensures
        r@ == parts@.fold_left(Seq::<char>::empty(), |acc: Seq<char>, p: &str| acc + p@),
{
    let mut out: Vec<char> = Vec::new();
    let mut i: usize = 0;
    while i < parts.len()
        invariant
            i <= parts@.len(),
            out@ == parts@.take(i as int).fold_left(Seq::<char>::empty(), |acc: Seq<char>, p: &str| acc + p@),
        decreases parts@.len() - i,
    {
        out = concat(&out, &chars_of(parts[i]));
        proof {
            assert(parts@.take(i + 1).drop_last() =~= parts@.take(i as int));
        }
        i = i + 1;
    }
    proof {
        assert(parts@.take(parts@.len() as int) =~= parts@);
    }
    string_of(&out)
}

impl Error {
    /// The failure in words.
    pub fn message(&self) -> (r: String)
        ensures
            r@ == error_text(*self),
    {
        let mut parts: Vec<&str> = Vec::new();
        match self {
            Error::DuplicateFormatId { id } => {
                parts.push("two decoders claim the id ");
                parts.push(id.as_str());
            },
            Error::UnsupportedFormat { path } => {
                parts.push("no decoder can read ");
                parts.push(path.as_str());
            },
            Error::Decode { format, action, path, message } => {
                parts.push(format.as_str());
                parts.push(" failed to ");
                parts.push(action.as_str());
                parts.push(" ");
                parts.push(path.as_str());
                parts.push(": ");
                parts.push(message.as_str());
            },
            Error::Cancelled => {
                parts.push("cancelled");
            },
            Error::Unmeasurable { name, reason } => {
                parts.push(name.as_str());
                parts.push(": ");
                parts.push(reason.as_str());
            },
            Error::NothingToCombine => {
                parts.push("there is nothing to combine");
            },
            Error::FrameChanged { path } => {
                parts.push(path.as_str());
                parts.push(" changed while it was being combined: read twice, decoded differently");
            },
            Error::NoPedestal => {
                parts.push("the flat has no measurable pedestal: no masked border, and no bias at its gain");
            },
            Error::Io { path, reason: _ } => {
                parts.push("could not read ");
                parts.push(path.as_str());
            },
        }
        let r = joined(&parts);
        proof {
            reveal_with_fuel(Seq::fold_left, 8);
        }
        r
    }
}

/// Where a flat's zero point came from.
#[derive(Debug, Clone, Copy, PartialEq, Eq)]
pub enum PedestalSource {
    /// The frame's own optically-masked columns: same gain, same exposure,
    /// same body, but a scalar per mosaic cell rather than a pattern.
    MaskedColumns,
    /// A master bias at the same gain: per photosite, and the better answer
    /// where one exists.
    MasterBias,
}

impl PedestalSource {
    pub fn name(self) -> (r: &'static str)
        ensures
            r@ == match self {
                PedestalSource::MaskedColumns => "the frame's own masked columns"@,
                PedestalSource::MasterBias => "a master bias at the same gain"@,
            },
    {
        match self {
            PedestalSource::MaskedColumns => "the frame's own masked columns",
            PedestalSource::MasterBias => "a master bias at the same gain",
        }
    }
}

} // verus!

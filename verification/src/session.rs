//! What was shot: the frames of an imaging session, what each one is, and how
//! they are named.
//!
//! A frame is named by a dense [`FrameId`] rather than by its path. Star
//! lists, transforms and weights arrive later as side tables indexed by the
//! same integer, so none of them has to reshape [`FrameRecord`]. The session is
//! therefore append-only: ids are never reused and never renumbered, and
//! excluding a frame leaves it in place.
use vstd::prelude::*;

use crate::compat::{incompatibility_text, Incompatibility};
use crate::frame::{FrameInfo, ImageLayout};
use crate::kind::{kind_flag, FrameKind, FrameRole, Inference};
use crate::sets::SetId;
use crate::text::{
    ascii_lower, chars_of, concat, decimal, decimal_of, lower_seq, lowered, push_char, string_of, text_is,
};

verus! {

// ---------------------------------------------------------------------------
// Identity
// ---------------------------------------------------------------------------

/// Handle to one frame within one [`Session`]. Dense and never reused.
#[derive(Debug, Clone, Copy, PartialEq, Eq, Structural, PartialOrd, Ord, Hash)]
pub struct FrameId(pub u32);

impl FrameId {
    pub fn index(self) -> (r: usize)
        ensures
            r == self.0,
    {
        self.0 as usize
    }
}

/// A user-declared subdivision of a session. The main group is the exception:
/// calibration in it is offered to every group.
#[derive(Debug, Clone, Copy, PartialEq, Eq, Structural, PartialOrd, Ord, Hash)]
pub struct GroupId(pub u16);

impl GroupId {
    /// The group whose calibration serves every other group.
    pub fn main() -> (r: GroupId)
        ensures
            r.0 == 0,
    {
        GroupId(0)
    }
}

/// The name of the group whose calibration serves every other group.
///
/// Reserved: interning it hands back the main group, so a caller taking a
/// group name from a person must refuse this one.
pub const MAIN_GROUP: &'static str = "main";

/// Whether a group named `target` may draw calibration from one named
/// `source`: from itself, and from the main group.
pub open spec fn draws_from(target: Seq<char>, source: Seq<char>) -> bool {
    source == "main"@ || source == target
}

/// Whether frames in `target` may draw calibration from `source`: from their
/// own group, and from the main group.
///
/// By name rather than by [`GroupId`], because ids are assigned in the order
/// groups were first seen.
pub fn may_draw_from(target: &str, source: &str) -> (r: bool)
    ensures
        r == draws_from(target@, source@),
{
    text_is(source, "main") || text_is(source, target)
}

/// The main group is reachable from every group, every group from itself, and
/// a group other than the main one only from itself.
pub proof fn law_main_group_serves_every_group(target: Seq<char>, other: Seq<char>)
    ensures
        draws_from(target, "main"@),
        draws_from(target, target),
        other != "main"@ && other != target ==> !draws_from(target, other),
{
}

/// Index into the session's directory table.
#[derive(Debug, Clone, Copy, PartialEq, Eq, Structural, Hash)]
pub struct DirId(pub u32);

/// Index into the session's plugin table.
#[derive(Debug, Clone, Copy, PartialEq, Eq, Structural, Hash)]
pub struct PluginId(pub u16);

/// The 64-bit FNV offset basis.
pub const FNV_OFFSET: u64 = 0xcbf2_9ce4_8422_2325;
/// The 64-bit FNV prime, 2^40 + 2^8 + 0xb3.
pub const FNV_PRIME: u64 = 0x0000_0100_0000_01b3;

/// FNV-1a over a byte string: xor in each byte, then multiply by the prime,
/// modulo 2^64.
pub open spec fn fnv1a_of(bytes: Seq<u8>) -> u64
    decreases bytes.len(),
{
    if bytes.len() == 0 {
        FNV_OFFSET
    } else {
        ((fnv1a_of(bytes.drop_last()) ^ (bytes.last() as u64)) as u64).wrapping_mul(FNV_PRIME)
    }
}

/// FNV-1a rather than the standard library's hasher, which is seeded per
/// process. A fingerprint is meant to survive into a saved session.
pub fn fnv1a(bytes: &[u8]) -> (r: u64)
    ensures
        r == fnv1a_of(bytes@),
{
    let mut hash: u64 = FNV_OFFSET;
    let mut i: usize = 0;
    while i < bytes.len()
        invariant
            i <= bytes.len(),
            hash == fnv1a_of(bytes@.take(i as int)),
        decreases bytes.len() - i,
    {
        proof {
            assert(bytes@.take(i + 1).drop_last() =~= bytes@.take(i as int));
        }
        hash = (hash ^ (bytes[i] as u64)).wrapping_mul(FNV_PRIME);
        i = i + 1;
    }
    proof {
        assert(bytes@.take(bytes.len() as int) =~= bytes@);
    }
    hash
}

/// Enough of a file's identity to notice that it changed, without reading it
/// twice: length and modification time catch an edited file, the hash of the
/// leading bytes a rewritten one, and recognises the same frame after a move.
#[derive(Debug, Clone, Copy, PartialEq, Eq, Structural, Hash)]
pub struct FrameFingerprint {
    pub len: u64,
    /// `None` when the filesystem did not report one, never a stand-in value.
    pub modified_unix: Option<i64>,
    pub header_hash: u64,
}

impl FrameFingerprint {
    pub fn new(len: u64, modified_unix: Option<i64>, header: &[u8]) -> (r: FrameFingerprint)
        ensures
            r == (FrameFingerprint { len, modified_unix, header_hash: fnv1a_of(header@) }),
    {
        FrameFingerprint { len, modified_unix, header_hash: fnv1a(header) }
    }

    /// Whether two fingerprints name the same bytes, ignoring the timestamp:
    /// a file copied to another drive loses its modification time and is
    /// still the same frame.
    pub fn same_content(self, other: FrameFingerprint) -> (r: bool)
        ensures
            r == same_content_of(self, other),
    {
        self.len == other.len && self.header_hash == other.header_hash
    }

    pub fn content(self) -> (r: (u64, u64))
        ensures
            r == (self.len, self.header_hash),
    {
        (self.len, self.header_hash)
    }
}

/// Whether two fingerprints name the same bytes.
pub open spec fn same_content_of(a: FrameFingerprint, b: FrameFingerprint) -> bool {
    a.len == b.len && a.header_hash == b.header_hash
}

/// The same bytes fingerprinted twice name the same content whatever the two
/// timestamps were, and naming the same content is an equivalence.
pub proof fn law_same_bytes_same_content(
    len: u64,
    a: Option<i64>,
    b: Option<i64>,
    header: Seq<u8>,
    x: FrameFingerprint,
    y: FrameFingerprint,
    z: FrameFingerprint,
)
    ensures
        same_content_of(
            FrameFingerprint { len, modified_unix: a, header_hash: fnv1a_of(header) },
            FrameFingerprint { len, modified_unix: b, header_hash: fnv1a_of(header) },
        ),
        same_content_of(x, x),
        same_content_of(x, y) == same_content_of(y, x),
        same_content_of(x, y) && same_content_of(y, z) ==> same_content_of(x, z),
{
}

/// Where a frame came from, and enough to recognise it again.
#[derive(Debug, Clone, PartialEq, Eq)]
pub struct FrameSource {
    pub directory: DirId,
    pub file_name: String,
    pub plugin: PluginId,
    pub fingerprint: FrameFingerprint,
}

// ---------------------------------------------------------------------------
// The body
// ---------------------------------------------------------------------------

/// Which physical camera shot a frame. `serial` is `None` today: the make and
/// model are recorded, the body serial number is not.
#[derive(Debug, Clone, PartialEq, Eq, Hash)]
pub struct BodyKey {
    pub make: String,
    pub model: String,
    pub serial: Option<String>,
}

/// Whether a character has the Unicode `White_Space` property, which is what
/// `char::is_whitespace` answers: tab, line feed, vertical tab, form feed,
/// carriage return, space, next line, no-break space, the Ogham space mark,
/// the spaces from en quad to hair space, the line and paragraph separators,
/// the narrow no-break space, the medium mathematical space and the
/// ideographic space.
pub open spec fn white_space(c: char) -> bool {
    let u = c as u32;
    ||| 0x09 <= u && u <= 0x0D
    ||| u == 0x20
    ||| u == 0x85
    ||| u == 0xA0
    ||| u == 0x1680
    ||| 0x2000 <= u && u <= 0x200A
    ||| u == 0x2028
    ||| u == 0x2029
    ||| u == 0x202F
    ||| u == 0x205F
    ||| u == 0x3000
}

/// `char::is_whitespace`: the Unicode `White_Space` property, spelled out.
#[verifier::external_body]
pub(crate) fn is_whitespace(c: char) -> (r: bool)
    ensures
        r == white_space(c),
{
    c.is_whitespace()
}

/// `s` without its leading whitespace.
pub open spec fn trim_start(s: Seq<char>) -> Seq<char>
    decreases s.len(),
{
    if s.len() > 0 && white_space(s[0]) {
        trim_start(s.drop_first())
    } else {
        s
    }
}

/// `s` without its trailing whitespace.
pub open spec fn trim_end(s: Seq<char>) -> Seq<char>
    decreases s.len(),
{
    if s.len() > 0 && white_space(s.last()) {
        trim_end(s.drop_last())
    } else {
        s
    }
}

/// `str::trim`: both ends.
pub open spec fn trimmed(s: Seq<char>) -> Seq<char> {
    trim_end(trim_start(s))
}

proof fn lemma_trim_start_skip(s: Seq<char>, i: int)
    requires
        0 <= i <= s.len(),
        forall|k: int| 0 <= k < i ==> white_space(s[k]),
    ensures
        trim_start(s) == trim_start(s.subrange(i, s.len() as int)),
    decreases i,
{
    if i > 0 {
        assert(s.drop_first() =~= s.subrange(1, s.len() as int));
        lemma_trim_start_skip(s.drop_first(), i - 1);
        assert(s.drop_first().subrange(i - 1, s.drop_first().len() as int) =~= s.subrange(i, s.len() as int));
    } else {
        assert(s =~= s.subrange(0, s.len() as int));
    }
}

proof fn lemma_trim_end_skip(s: Seq<char>, j: int)
    requires
        0 <= j <= s.len(),
        forall|k: int| j <= k < s.len() ==> white_space(s[k]),
    ensures
        trim_end(s) == trim_end(s.subrange(0, j)),
    decreases s.len() - j,
{
    if j < s.len() {
        assert(s.drop_last() =~= s.subrange(0, s.len() - 1));
        lemma_trim_end_skip(s.drop_last(), j);
        assert(s.drop_last().subrange(0, j) =~= s.subrange(0, j));
    } else {
        assert(s =~= s.subrange(0, j));
    }
}

/// `str::trim`, on characters.
pub fn trim(s: &Vec<char>) -> (out: Vec<char>)
    ensures
        out@ == trimmed(s@),
{
    let mut i: usize = 0;
    while i < s.len() && is_whitespace(s[i])
        invariant
            i <= s.len(),
            forall|k: int| 0 <= k < i ==> white_space(s@[k]),
        decreases s.len() - i,
    {
        i = i + 1;
    }
    proof {
        lemma_trim_start_skip(s@, i as int);
    }
    let ghost rest = s@.subrange(i as int, s.len() as int);
    assert(trim_start(rest) == rest);
    let mut j: usize = s.len();
    while j > i && is_whitespace(s[j - 1])
        invariant
            i <= j <= s.len(),
            rest == s@.subrange(i as int, s.len() as int),
            forall|k: int| j <= k < s.len() ==> white_space(s@[k]),
        decreases j,
    {
        j = j - 1;
    }
    proof {
        lemma_trim_end_skip(rest, (j - i) as int);
        assert(rest.subrange(0, (j - i) as int) =~= s@.subrange(i as int, j as int));
    }
    let mut out: Vec<char> = Vec::new();
    let mut k: usize = i;
    while k < j
        invariant
            i <= k <= j,
            j <= s.len(),
            out@ == s@.subrange(i as int, k as int),
        decreases j - k,
    {
        out.push(s[k]);
        proof {
            assert(s@.subrange(i as int, k + 1) =~= s@.subrange(i as int, k as int).push(s@[k as int]));
        }
        k = k + 1;
    }
    proof {
        let t = s@.subrange(i as int, j as int);
        if t.len() > 0 {
            assert(!white_space(t.last()));
        }
        assert(trim_end(t) == t);
    }
    out
}

/// Whether `prefix` begins `s`.
pub open spec fn starts_with(s: Seq<char>, prefix: Seq<char>) -> bool {
    prefix.len() <= s.len() && s.take(prefix.len() as int) == prefix
}

pub fn begins_with(s: &Vec<char>, prefix: &Vec<char>) -> (r: bool)
    ensures
        r == starts_with(s@, prefix@),
{
    if prefix.len() > s.len() {
        return false;
    }
    let mut i: usize = 0;
    while i < prefix.len()
        invariant
            i <= prefix.len(),
            prefix.len() <= s.len(),
            forall|k: int| 0 <= k < i ==> s@[k] == prefix@[k],
        decreases prefix.len() - i,
    {
        if s[i] != prefix[i] {
            return false;
        }
        i = i + 1;
    }
    proof {
        assert(s@.take(prefix.len() as int) =~= prefix@);
    }
    true
}

/// How a body reads in a report: the trimmed model alone when it already
/// begins with the make (Canon writes the make into the model), the make alone
/// when there is no model, and `make model` otherwise.
pub open spec fn body_display(make: Seq<char>, model: Seq<char>) -> Seq<char> {
    let make = trimmed(make);
    let model = trimmed(model);
    if model.len() == 0 {
        make
    } else if make.len() == 0 || starts_with(lower_seq(model), lower_seq(make)) {
        model
    } else {
        make + seq![' '] + model
    }
}

/// A body as the contracts compare it.
pub open spec fn body_view(b: BodyKey) -> (Seq<char>, Seq<char>, Option<Seq<char>>) {
    (
        b.make@,
        b.model@,
        match b.serial {
            Some(s) => Some(s@),
            None => None,
        },
    )
}

impl BodyKey {
    /// Whether two frames name the same body: make, model and serial alike.
    pub fn same_body(&self, other: &BodyKey) -> (r: bool)
        ensures
            r == (body_view(*self) == body_view(*other)),
    {
        let serial = match (&self.serial, &other.serial) {
            (Some(a), Some(b)) => text_is(a.as_str(), b.as_str()),
            (None, None) => true,
            _ => false,
        };
        text_is(self.make.as_str(), other.make.as_str()) && text_is(self.model.as_str(), other.model.as_str()) && serial
    }

    pub fn from_info(info: &FrameInfo) -> (r: BodyKey)
        ensures
            r.make@ == info.camera_make@,
            r.model@ == info.camera_model@,
            r.serial is None,
    {
        let make = string_of(&chars_of(info.camera_make.as_str()));
        let model = string_of(&chars_of(info.camera_model.as_str()));
        BodyKey { make, model, serial: None }
    }

    /// How the body reads in a report: `Canon Canon EOS R5` is what the file
    /// says and not what anyone wants to read.
    pub fn display(&self) -> (r: String)
        ensures
            r@ == body_display(self.make@, self.model@),
    {
        let make = trim(&chars_of(self.make.as_str()));
        let model = trim(&chars_of(self.model.as_str()));
        if model.len() == 0 {
            return string_of(&make);
        }
        if make.len() == 0 || begins_with(&lowered(&model), &lowered(&make)) {
            string_of(&model)
        } else {
            let mut text = make.clone();
            text.push(' ');
            let text = concat(&text, &model);
            proof {
                assert(text@ =~= make@ + seq![' '] + model@);
            }
            string_of(&text)
        }
    }
}

// ---------------------------------------------------------------------------
// The record
// ---------------------------------------------------------------------------

/// Everything known about one frame without decoding it.
///
/// A field goes here when it is small, always present, and comes from the file
/// or from the user saying so. Anything derived, expensive or usually absent
/// goes in a side table keyed by [`FrameId`].
#[derive(Debug, Clone)]
pub struct FrameRecord {
    pub source: FrameSource,
    pub layout: ImageLayout,
    pub info: FrameInfo,
    pub body: BodyKey,
    pub role: FrameRole,
    pub group: GroupId,
    /// Excluded frames stay in the session so the user can see why and put
    /// them back.
    pub exclusion: Option<Exclusion>,
}

impl FrameRecord {
    /// The kind this frame will actually be treated as, or `None` when nothing
    /// has said. An inferred kind is deliberately not returned here: a
    /// proposal is something to show the user, not something to calibrate
    /// with.
    pub fn kind(&self) -> (r: Option<FrameKind>)
        ensures
            r == (match self.role {
                FrameRole::Assigned(kind) => Some(kind),
                FrameRole::Unassigned { .. } => None,
            }),
    {
        match self.role {
            FrameRole::Assigned(kind) => Some(kind),
            FrameRole::Unassigned { .. } => None,
        }
    }

    /// What the evidence proposed, for a frame nobody has assigned a kind to.
    pub fn inference(&self) -> (r: Option<&Inference>)
        ensures
            match self.role {
                FrameRole::Unassigned { inference } => r == Some(&inference),
                FrameRole::Assigned(_) => r is None,
            },
    {
        match &self.role {
            FrameRole::Unassigned { inference } => Some(inference),
            FrameRole::Assigned(_) => None,
        }
    }

    pub fn is_active(&self) -> (r: bool)
        ensures
            r == self.exclusion is None,
    {
        self.exclusion.is_none()
    }
}

#[derive(Debug, Clone, PartialEq)]
pub struct Exclusion {
    pub reason: Rejection,
    pub by: ExclusionSource,
}

#[derive(Debug, Clone, Copy, PartialEq, Eq, Structural)]
pub enum ExclusionSource {
    /// The scan or the partition decided; re-running either may change it.
    Automatic,
    /// The user decided; nothing may override it.
    User,
}

/// Why a file that was offered to the scan is not in any set: one file's
/// outcome within a scan that succeeded.
#[derive(Debug, Clone, PartialEq)]
pub enum Rejection {
    /// No loaded decoder recognised the file.
    NotAFrame,
    /// A decoder claimed the file and then failed on it, in its own words.
    Unreadable { detail: String },
    /// The same bytes are already in the session under another path.
    Duplicate { of: FrameId },
    /// Geometry that cannot be reconciled with the set the frame would join.
    Incompatible { with: SetId, reason: Incompatibility },
    /// Nothing said what this frame is, and nothing could be inferred.
    Unclassified,
    /// The user named this frame and asked for it to be left out.
    Excluded,
}

/// Why a file was turned away, in words: a refusal reads as its reason, which
/// is `None` where that holds a gain the caller prints.
pub open spec fn rejection_text(r: Rejection) -> Option<Seq<char>> {
    match r {
        Rejection::NotAFrame => Some("not a frame any loaded plugin reads"@),
        Rejection::Unreadable { detail } => Some("unreadable: "@ + detail@),
        Rejection::Duplicate { of } => Some("the same file is already in the session as frame "@ + decimal(of.0 as nat)),
        Rejection::Incompatible { with: _, reason } => incompatibility_text(reason),
        Rejection::Unclassified => Some("nothing says whether this is a light, dark, flat or bias"@),
        Rejection::Excluded => Some("you asked for this one to be left out"@),
    }
}

impl Rejection {
    /// The reason in words, or `None` where it is a gain the caller prints.
    pub fn describe(&self) -> (r: Option<String>)
        ensures
            match r {
                Some(t) => rejection_text(*self) == Some(t@),
                None => rejection_text(*self) is None,
            },
    {
        match self {
            Rejection::NotAFrame => Some(string_of(&chars_of("not a frame any loaded plugin reads"))),
            Rejection::Unreadable { detail } => {
                Some(string_of(&crate::compat::followed_by(chars_of("unreadable: "), detail.as_str())))
            },
            Rejection::Duplicate { of } => {
                let head = chars_of("the same file is already in the session as frame ");
                Some(string_of(&concat(&head, &decimal_of(of.0 as u64))))
            },
            Rejection::Incompatible { with: _, reason } => reason.describe(),
            Rejection::Unclassified => Some(string_of(&chars_of("nothing says whether this is a light, dark, flat or bias"))),
            Rejection::Excluded => Some(string_of(&chars_of("you asked for this one to be left out"))),
        }
    }
}

/// Something the user could do about what the scan found.
#[derive(Debug, Clone, PartialEq)]
pub enum Suggestion {
    /// Unassigned frames that all sit under one directory.
    AssignDirectory { directory: String, frames: usize, proposed: Option<FrameKind> },
    /// Several calibration sets of one role could serve the same lights, and
    /// only one was chosen.
    SeparateGroups { kind: FrameKind, candidates: usize },
}

impl Suggestion {
    /// The command line that would act on this suggestion, where one exists:
    /// the flag for the proposed kind and the directory in double quotes.
    ///
    /// `None` when nothing is known about the frames: filling in `--lights`
    /// there would be a guess wearing the clothes of a suggestion.
    pub fn command_fragment(&self) -> (r: Option<String>)
        ensures
            r.deep_view() == (match self {
                Suggestion::AssignDirectory { directory, proposed, .. } => match proposed {
                    Some(kind) => Some(kind_flag(*kind) + " \""@ + directory@ + "\""@),
                    None => None,
                },
                Suggestion::SeparateGroups { .. } => None,
            }),
    {
        match self {
            Suggestion::AssignDirectory { directory, proposed, .. } => match proposed {
                Some(kind) => {
                    let mut text = String::new();
                    text.append(kind.assign_flag());
                    text.append(" \"");
                    text.append(directory.as_str());
                    text.append("\"");
                    proof {
                        assert(text@ =~= kind_flag(*kind) + " \""@ + directory@ + "\""@);
                    }
                    Some(text)
                },
                None => None,
            },
            Suggestion::SeparateGroups { .. } => None,
        }
    }
}

// ---------------------------------------------------------------------------
// The arena
// ---------------------------------------------------------------------------

/// The first of the first `n` names that equals `name`.
pub open spec fn position(names: Seq<Seq<char>>, name: Seq<char>, n: int) -> Option<int>
    decreases n,
{
    if n <= 0 || n > names.len() {
        None
    } else {
        match position(names, name, n - 1) {
            Some(i) => Some(i),
            None => if names[n - 1] == name {
                Some(n - 1)
            } else {
                None
            },
        }
    }
}

/// A name table after interning `name`, and the index it has there: the first
/// equal name's index when there is one, otherwise a new entry at the end.
pub open spec fn interned(names: Seq<Seq<char>>, name: Seq<char>) -> (Seq<Seq<char>>, int) {
    match position(names, name, names.len() as int) {
        Some(i) => (names, i),
        None => (names.push(name), names.len() as int),
    }
}

/// The group table as interning sees it: the main group is always entry zero.
pub open spec fn with_main(groups: Seq<Seq<char>>) -> Seq<Seq<char>> {
    if groups.len() == 0 {
        seq!["main"@]
    } else {
        groups
    }
}

/// The first of the first `n` records whose content matches `fingerprint`.
pub open spec fn first_with_content(records: Seq<FrameRecord>, fingerprint: FrameFingerprint, n: int) -> Option<int>
    decreases n,
{
    if n <= 0 || n > records.len() {
        None
    } else {
        match first_with_content(records, fingerprint, n - 1) {
            Some(i) => Some(i),
            None => if same_content_of(records[n - 1].source.fingerprint, fingerprint) {
                Some(n - 1)
            } else {
                None
            },
        }
    }
}

/// The active frames among the first `n`, in order.
pub open spec fn active_ids(records: Seq<FrameRecord>, n: int) -> Seq<FrameId>
    decreases n,
{
    if n <= 0 || n > records.len() {
        seq![]
    } else if records[n - 1].exclusion is None {
        active_ids(records, n - 1).push(FrameId((n - 1) as u32))
    } else {
        active_ids(records, n - 1)
    }
}

/// What excluding a frame does to its record: nothing when the user already
/// excluded it, otherwise the new exclusion replaces whatever was there.
pub open spec fn excluded(record: FrameRecord, reason: Rejection, by: ExclusionSource) -> FrameRecord {
    match record.exclusion {
        Some(existing) => if existing.by == ExclusionSource::User {
            record
        } else {
            FrameRecord { exclusion: Some(Exclusion { reason, by }), ..record }
        },
        None => FrameRecord { exclusion: Some(Exclusion { reason, by }), ..record },
    }
}

/// What `Path::join` answers for a directory and a file name.
/// Parsed as on the platform the library is built for, so within one build
/// the answer depends on the text alone.
pub uninterp spec fn joined_path(directory: Seq<char>, file_name: Seq<char>) -> Seq<char>;

/// `Path::join`: the directory and the file name, joined the way the
/// platform joins them. Named rather than spelled out.
#[verifier::external_body]
pub(crate) fn path_join(directory: &str, file_name: &str) -> (r: String)
    ensures
        r@ == joined_path(directory@, file_name@),
{
    std::path::Path::new(directory).join(file_name).to_string_lossy().into_owned()
}

/// Every frame the user has put in front of the stacker, and the tables that
/// name them compactly.
///
/// Append-only: frames are indexed by [`FrameId`] and are never reordered or
/// shortened, because a side table written by a later pass indexes into them
/// by position.
#[derive(Debug)]
pub struct Session {
    frames: Vec<FrameRecord>,
    directories: Vec<String>,
    plugins: Vec<String>,
    groups: Vec<String>,
}

/// The texts of a list of strings.
pub open spec fn names_of(v: Seq<String>) -> Seq<Seq<char>> {
    v.map_values(|t: String| t@)
}

fn position_in(names: &Vec<String>, name: &str) -> (r: Option<usize>)
    ensures
        match r {
            Some(i) => position(names_of(names@), name@, names@.len() as int) == Some(i as int),
            None => position(names_of(names@), name@, names@.len() as int) is None,
        },
{
    let ghost n = names_of(names@);
    let mut i: usize = 0;
    while i < names.len()
        invariant
            i <= names.len(),
            n == names_of(names@),
            position(n, name@, i as int) is None,
        decreases names.len() - i,
    {
        if text_is(names[i].as_str(), name) {
            proof {
                assert(n[i as int] == name@);
            }
            let ghost j = i + 1;
            proof {
                lemma_position_stable(n, name@, j as int, names.len() as int);
            }
            return Some(i);
        }
        i = i + 1;
    }
    None
}

proof fn lemma_position_stable(names: Seq<Seq<char>>, name: Seq<char>, m: int, n: int)
    requires
        0 <= m <= n <= names.len(),
        position(names, name, m) is Some,
    ensures
        position(names, name, n) == position(names, name, m),
    decreases n - m,
{
    if n > m {
        lemma_position_stable(names, name, m, n - 1);
    }
}

proof fn lemma_position_push(names: Seq<Seq<char>>, extra: Seq<char>, name: Seq<char>, n: int)
    requires
        0 <= n <= names.len(),
    ensures
        position(names.push(extra), name, n) == position(names, name, n),
    decreases n,
{
    if n > 0 {
        lemma_position_push(names, extra, name, n - 1);
    }
}

proof fn lemma_position_in_range(names: Seq<Seq<char>>, name: Seq<char>, n: int)
    ensures
        position(names, name, n) matches Some(i) ==> 0 <= i < n && i < names.len() && names[i] == name,
    decreases n,
{
    if n > 0 && n <= names.len() {
        lemma_position_in_range(names, name, n - 1);
    }
}

impl Session {
    /// What every session keeps: the main group, once interned, is entry
    /// zero, and every table fits the ids that index it.
    pub closed spec fn wf(&self) -> bool {
        &&& self.groups@.len() == 0 || self.groups@[0]@ == "main"@
        &&& self.frames@.len() <= u32::MAX
        &&& self.directories@.len() <= u32::MAX
        &&& self.plugins@.len() <= u16::MAX
        &&& self.groups@.len() <= u16::MAX
    }

    /// The frames, in id order.
    pub closed spec fn records(&self) -> Seq<FrameRecord> {
        self.frames@
    }

    /// The directory table.
    pub closed spec fn directory_names(&self) -> Seq<Seq<char>> {
        names_of(self.directories@)
    }

    /// The plugin table.
    pub closed spec fn plugin_names(&self) -> Seq<Seq<char>> {
        names_of(self.plugins@)
    }

    /// The group table. Entry zero, once there is one, is the main group.
    pub closed spec fn group_names(&self) -> Seq<Seq<char>> {
        names_of(self.groups@)
    }

    pub fn new() -> (r: Session)
        ensures
            r.wf(),
            r.records().len() == 0,
            r.directory_names().len() == 0,
            r.plugin_names().len() == 0,
            r.group_names().len() == 0,
    {
        Session { frames: Vec::new(), directories: Vec::new(), plugins: Vec::new(), groups: Vec::new() }
    }

    pub fn frames(&self) -> (r: &[FrameRecord])
        ensures
            r@ == self.records(),
    {
        self.frames.as_slice()
    }

    pub fn frame(&self, id: FrameId) -> (r: Option<&FrameRecord>)
        ensures
            id.0 < self.records().len() ==> r == Some(&self.records()[id.0 as int]),
            id.0 >= self.records().len() ==> r is None,
    {
        let index = id.index();
        if index < self.frames.len() {
            Some(&self.frames[index])
        } else {
            None
        }
    }

    /// The record of a frame this session holds.
    pub fn record(&self, id: FrameId) -> (r: &FrameRecord)
        requires
            id.0 < self.records().len(),
        ensures
            *r == self.records()[id.0 as int],
    {
        &self.frames[id.index()]
    }

    /// Every id, in order.
    pub fn ids(&self) -> (r: Vec<FrameId>)
        requires
            self.wf(),
        ensures
            r@ == Seq::new(self.records().len(), |i: int| FrameId(i as u32)),
    {
        let mut r: Vec<FrameId> = Vec::new();
        let mut i: usize = 0;
        while i < self.frames.len()
            invariant
                i <= self.frames@.len(),
                self.frames@.len() <= u32::MAX,
                r@ == Seq::new(i as nat, |k: int| FrameId(k as u32)),
            decreases self.frames@.len() - i,
        {
            r.push(FrameId(i as u32));
            proof {
                assert(r@ =~= Seq::new((i + 1) as nat, |k: int| FrameId(k as u32)));
            }
            i = i + 1;
        }
        r
    }

    /// Frames that are not excluded, which is what every later pass wants.
    pub fn active(&self) -> (r: Vec<(FrameId, &FrameRecord)>)
        requires
            self.wf(),
        ensures
            r@.map_values(|p: (FrameId, &FrameRecord)| p.0) == active_ids(self.records(), self.records().len() as int),
            forall|k: int| 0 <= k < r@.len() ==> r@[k].0.0 < self.records().len()
                && *r@[k].1 == self.records()[r@[k].0.0 as int],
    {
        let mut r: Vec<(FrameId, &FrameRecord)> = Vec::new();
        let mut i: usize = 0;
        while i < self.frames.len()
            invariant
                i <= self.frames@.len(),
                self.frames@.len() <= u32::MAX,
                r@.map_values(|p: (FrameId, &FrameRecord)| p.0) == active_ids(self.frames@, i as int),
                forall|k: int| 0 <= k < r@.len() ==> r@[k].0.0 < self.frames@.len()
                    && *r@[k].1 == self.frames@[r@[k].0.0 as int],
            decreases self.frames@.len() - i,
        {
            if self.frames[i].is_active() {
                let ghost before = r@;
                r.push((FrameId(i as u32), &self.frames[i]));
                proof {
                    assert(r@.map_values(|p: (FrameId, &FrameRecord)| p.0) =~= before.map_values(
                        |p: (FrameId, &FrameRecord)| p.0,
                    ).push(FrameId(i as u32)));
                }
            }
            i = i + 1;
        }
        r
    }

    pub fn len(&self) -> (r: usize)
        ensures
            r == self.records().len(),
    {
        self.frames.len()
    }

    pub fn is_empty(&self) -> (r: bool)
        ensures
            r == (self.records().len() == 0),
    {
        self.frames.len() == 0
    }

    /// Rebuilds the full path: the frame's directory joined with its file
    /// name.
    pub fn path(&self, id: FrameId) -> (r: Option<String>)
        requires
            id.0 < self.records().len() ==> self.records()[id.0 as int].source.directory.0
                < self.directory_names().len(),
        ensures
            id.0 >= self.records().len() ==> r is None,
            id.0 < self.records().len() ==> r.deep_view() == Some(
                joined_path(
                    self.directory_names()[self.records()[id.0 as int].source.directory.0 as int],
                    self.records()[id.0 as int].source.file_name@,
                ),
            ),
    {
        let index = id.index();
        if index >= self.frames.len() {
            return None;
        }
        let record = &self.frames[index];
        let directory = self.directory(record.source.directory);
        Some(path_join(directory, record.source.file_name.as_str()))
    }

    pub fn directory(&self, dir: DirId) -> (r: &str)
        requires
            dir.0 < self.directory_names().len(),
        ensures
            r@ == self.directory_names()[dir.0 as int],
    {
        self.directories[dir.0 as usize].as_str()
    }

    pub fn plugin(&self, plugin: PluginId) -> (r: &str)
        requires
            plugin.0 < self.plugin_names().len(),
        ensures
            r@ == self.plugin_names()[plugin.0 as int],
    {
        self.plugins[plugin.0 as usize].as_str()
    }

    /// The group's name, or `main` for a group the table does not hold: every
    /// frame is in the main group until someone declares another.
    pub fn group_name(&self, group: GroupId) -> (r: &str)
        ensures
            r@ == (if group.0 < self.group_names().len() {
                self.group_names()[group.0 as int]
            } else {
                "main"@
            }),
    {
        let index = group.0 as usize;
        if index < self.groups.len() {
            self.groups[index].as_str()
        } else {
            "main"
        }
    }

    pub fn intern_directory(&mut self, dir: &str) -> (r: DirId)
        requires
            old(self).wf(),
            old(self).directory_names().len() < u32::MAX,
        ensures
            final(self).wf(),
            (final(self).directory_names(), r.0 as int) == interned(old(self).directory_names(), dir@),
            final(self).records() == old(self).records(),
            final(self).plugin_names() == old(self).plugin_names(),
            final(self).group_names() == old(self).group_names(),
    {
        proof {
            lemma_position_in_range(names_of(self.directories@), dir@, self.directories@.len() as int);
        }
        match position_in(&self.directories, dir) {
            Some(index) => DirId(index as u32),
            None => {
                let ghost before = self.directories@;
                self.directories.push(string_of(&chars_of(dir)));
                proof {
                    assert(names_of(self.directories@) =~= names_of(before).push(dir@));
                }
                DirId((self.directories.len() - 1) as u32)
            },
        }
    }

    pub fn intern_plugin(&mut self, id: &str) -> (r: PluginId)
        requires
            old(self).wf(),
            old(self).plugin_names().len() < u16::MAX,
        ensures
            final(self).wf(),
            (final(self).plugin_names(), r.0 as int) == interned(old(self).plugin_names(), id@),
            final(self).records() == old(self).records(),
            final(self).directory_names() == old(self).directory_names(),
            final(self).group_names() == old(self).group_names(),
    {
        proof {
            lemma_position_in_range(names_of(self.plugins@), id@, self.plugins@.len() as int);
        }
        match position_in(&self.plugins, id) {
            Some(index) => PluginId(index as u16),
            None => {
                let ghost before = self.plugins@;
                self.plugins.push(string_of(&chars_of(id)));
                proof {
                    assert(names_of(self.plugins@) =~= names_of(before).push(id@));
                }
                PluginId((self.plugins.len() - 1) as u16)
            },
        }
    }

    /// The main group is interned on first use, so entry zero is always the
    /// main group whatever the user called it, and asking for `main` by name
    /// hands it back.
    pub fn intern_group(&mut self, name: &str) -> (r: GroupId)
        requires
            old(self).wf(),
            old(self).group_names().len() < u16::MAX - 1,
        ensures
            final(self).wf(),
            (final(self).group_names(), r.0 as int) == interned(with_main(old(self).group_names()), name@),
            final(self).records() == old(self).records(),
            final(self).directory_names() == old(self).directory_names(),
            final(self).plugin_names() == old(self).plugin_names(),
    {
        if self.groups.len() == 0 {
            self.groups.push(string_of(&chars_of("main")));
            proof {
                assert(names_of(self.groups@) =~= seq!["main"@]);
            }
        }
        proof {
            lemma_position_in_range(names_of(self.groups@), name@, self.groups@.len() as int);
        }
        match position_in(&self.groups, name) {
            Some(index) => GroupId(index as u16),
            None => {
                let ghost before = self.groups@;
                self.groups.push(string_of(&chars_of(name)));
                proof {
                    assert(names_of(self.groups@) =~= names_of(before).push(name@));
                    assert(self.groups@[0]@ == "main"@);
                }
                GroupId((self.groups.len() - 1) as u16)
            },
        }
    }

    /// Appends a frame and names it: the id is the frame's position.
    pub fn insert(&mut self, record: FrameRecord) -> (r: FrameId)
        requires
            old(self).wf(),
            old(self).records().len() < u32::MAX,
        ensures
            final(self).wf(),
            r.0 == old(self).records().len(),
            final(self).records() == old(self).records().push(record),
            final(self).directory_names() == old(self).directory_names(),
            final(self).plugin_names() == old(self).plugin_names(),
            final(self).group_names() == old(self).group_names(),
    {
        let id = FrameId(self.frames.len() as u32);
        self.frames.push(record);
        id
    }

    /// Finds the first frame already in the session with the same bytes.
    pub fn find_by_content(&self, fingerprint: FrameFingerprint) -> (r: Option<FrameId>)
        requires
            self.wf(),
        ensures
            match first_with_content(self.records(), fingerprint, self.records().len() as int) {
                Some(i) => r == Some(FrameId(i as u32)),
                None => r is None,
            },
    {
        let ghost recs = self.frames@;
        let mut i: usize = 0;
        while i < self.frames.len()
            invariant
                i <= self.frames@.len(),
                recs == self.frames@,
                recs.len() <= u32::MAX,
                first_with_content(recs, fingerprint, i as int) is None,
            decreases self.frames@.len() - i,
        {
            if self.frames[i].source.fingerprint.same_content(fingerprint) {
                proof {
                    lemma_first_with_content_stable(recs, fingerprint, (i + 1) as int, recs.len() as int);
                }
                return Some(FrameId(i as u32));
            }
            i = i + 1;
        }
        None
    }

    /// Excludes a frame. A frame the user excluded stays excluded: re-running
    /// the scan must not quietly undo a decision the user made.
    pub fn exclude(&mut self, id: FrameId, reason: Rejection, by: ExclusionSource)
        requires
            old(self).wf(),
        ensures
            final(self).wf(),
            final(self).records().len() == old(self).records().len(),
            forall|i: int| 0 <= i < old(self).records().len() && i != id.0 ==> final(self).records()[i]
                == old(self).records()[i],
            id.0 < old(self).records().len() ==> final(self).records()[id.0 as int] == excluded(
                old(self).records()[id.0 as int],
                reason,
                by,
            ),
            final(self).directory_names() == old(self).directory_names(),
            final(self).plugin_names() == old(self).plugin_names(),
            final(self).group_names() == old(self).group_names(),
    {
        let index = id.index();
        if index < self.frames.len() {
            let user_made = match &self.frames[index].exclusion {
                Some(existing) => existing.by == ExclusionSource::User,
                None => false,
            };
            if user_made {
                return;
            }
            self.frames[index].exclusion = Some(Exclusion { reason, by });
        }
    }

    /// Puts an excluded frame back.
    pub fn readmit(&mut self, id: FrameId)
        requires
            old(self).wf(),
        ensures
            final(self).wf(),
            final(self).records().len() == old(self).records().len(),
            forall|i: int| 0 <= i < old(self).records().len() && i != id.0 ==> final(self).records()[i]
                == old(self).records()[i],
            id.0 < old(self).records().len() ==> final(self).records()[id.0 as int] == (FrameRecord {
                exclusion: None,
                ..old(self).records()[id.0 as int]
            }),
            final(self).directory_names() == old(self).directory_names(),
            final(self).plugin_names() == old(self).plugin_names(),
            final(self).group_names() == old(self).group_names(),
    {
        let index = id.index();
        if index < self.frames.len() {
            self.frames[index].exclusion = None;
        }
    }

    /// Assigns a kind: the one place a frame's kind is decided, by the user.
    pub fn assign(&mut self, id: FrameId, kind: FrameKind)
        requires
            old(self).wf(),
        ensures
            final(self).wf(),
            final(self).records().len() == old(self).records().len(),
            forall|i: int| 0 <= i < old(self).records().len() && i != id.0 ==> final(self).records()[i]
                == old(self).records()[i],
            id.0 < old(self).records().len() ==> final(self).records()[id.0 as int] == (FrameRecord {
                role: FrameRole::Assigned(kind),
                ..old(self).records()[id.0 as int]
            }),
            final(self).directory_names() == old(self).directory_names(),
            final(self).plugin_names() == old(self).plugin_names(),
            final(self).group_names() == old(self).group_names(),
    {
        let index = id.index();
        if index < self.frames.len() {
            self.frames[index].role = FrameRole::Assigned(kind);
        }
    }
}

impl Default for Session {
    fn default() -> (r: Session)
        ensures
            r.wf(),
            r.records().len() == 0,
            r.directory_names().len() == 0,
            r.plugin_names().len() == 0,
            r.group_names().len() == 0,
    {
        Session::new()
    }
}

proof fn lemma_first_with_content_stable(records: Seq<FrameRecord>, fingerprint: FrameFingerprint, m: int, n: int)
    requires
        0 <= m <= n <= records.len(),
        first_with_content(records, fingerprint, m) is Some,
    ensures
        first_with_content(records, fingerprint, n) == first_with_content(records, fingerprint, m),
    decreases n - m,
{
    if n > m {
        lemma_first_with_content_stable(records, fingerprint, m, n - 1);
    }
}

proof fn lemma_first_with_content_push(records: Seq<FrameRecord>, extra: FrameRecord, fingerprint: FrameFingerprint, n: int)
    requires
        0 <= n <= records.len(),
    ensures
        first_with_content(records.push(extra), fingerprint, n) == first_with_content(records, fingerprint, n),
    decreases n,
{
    if n > 0 {
        lemma_first_with_content_push(records, extra, fingerprint, n - 1);
    }
}

/// Interning a name twice hands back the same id and leaves the table as the
/// first call left it; the entry at that id is the name; and every entry that
/// was there before keeps its index.
pub proof fn law_interning_is_stable(names: Seq<Seq<char>>, name: Seq<char>, j: int)
    ensures
        interned(interned(names, name).0, name) == interned(names, name),
        0 <= interned(names, name).1 < interned(names, name).0.len(),
        interned(names, name).0[interned(names, name).1] == name,
        0 <= j < names.len() ==> interned(names, name).0[j] == names[j],
{
    let n = names.len() as int;
    lemma_position_in_range(names, name, n);
    match position(names, name, n) {
        Some(i) => {},
        None => {
            lemma_position_push(names, name, name, n);
            assert(names.push(name)[n] == name);
            assert(position(names.push(name), name, n + 1) == Some(n));
        },
    }
}

/// The main group's name is reserved: asking for it by name, on any table
/// that interning has touched, hands back entry zero.
pub proof fn law_main_group_is_entry_zero(groups: Seq<Seq<char>>)
    requires
        groups.len() == 0 || groups[0] == "main"@,
    ensures
        interned(with_main(groups), "main"@).1 == 0,
        interned(with_main(groups), "main"@).0 == with_main(groups),
{
    let g = with_main(groups);
    assert(position(g, "main"@, 1) == Some(0int)) by {
        assert(position(g, "main"@, 0) is None);
    }
    lemma_position_stable(g, "main"@, 1, g.len() as int);
}

/// Inserting a frame never changes which frame an earlier content is found
/// as; a content seen for the first time is found as the new frame.
pub proof fn law_first_copy_stays(records: Seq<FrameRecord>, record: FrameRecord, fingerprint: FrameFingerprint)
    ensures
        first_with_content(records.push(record), fingerprint, records.len() + 1int) == (match first_with_content(
            records,
            fingerprint,
            records.len() as int,
        ) {
            Some(i) => Some(i),
            None => if same_content_of(record.source.fingerprint, fingerprint) {
                Some(records.len() as int)
            } else {
                None
            },
        }),
{
    lemma_first_with_content_push(records, record, fingerprint, records.len() as int);
}

/// Excluding a frame twice, the second time automatically, keeps a user's
/// exclusion as the user made it.
pub proof fn law_user_exclusion_survives(
    record: FrameRecord,
    reason: Rejection,
    later: Rejection,
    by: ExclusionSource,
)
    ensures
        excluded(excluded(record, reason, ExclusionSource::User), later, by) == excluded(
            record,
            reason,
            ExclusionSource::User,
        ),
        excluded(record, reason, ExclusionSource::User).exclusion is Some,
{
}

} // verus!

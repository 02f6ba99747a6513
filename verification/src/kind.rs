//! What a frame is, and — kept strictly apart from it — what the evidence
//! suggests it might be.
//!
//! An assignment comes from the user; evidence may propose and may veto, but
//! may never elect. A dark has only a negative signature, so a classifier that
//! had to label every frame would be forced to guess exactly where a wrong
//! guess does the most damage. Here the path is read for evidence, and what it
//! yields is a proposal to show the user, never an assignment.
use vstd::prelude::*;

use crate::text::{
    ascii_lower, chars_of, is_alphanumeric, push_char, string_of, text_is, to_ascii_lower,
    alnum,
};

verus! {

/// The role a frame plays in calibration.
///
/// `DarkFlat` is a dark by physics and a separate kind by role: a dark flat
/// calibrates the flats and a dark calibrates the lights.
#[derive(Debug, Clone, Copy, PartialEq, Eq, Structural, PartialOrd, Ord, Hash)]
pub enum FrameKind {
    Light,
    Dark,
    Flat,
    Bias,
    DarkFlat,
}

/// How a kind reads in a report.
pub open spec fn kind_name(kind: FrameKind) -> Seq<char> {
    match kind {
        FrameKind::Light => "light"@,
        FrameKind::Dark => "dark"@,
        FrameKind::Flat => "flat"@,
        FrameKind::Bias => "bias"@,
        FrameKind::DarkFlat => "dark flat"@,
    }
}

/// The command-line flag that assigns a kind.
pub open spec fn kind_flag(kind: FrameKind) -> Seq<char> {
    match kind {
        FrameKind::Light => "--lights"@,
        FrameKind::Dark => "--darks"@,
        FrameKind::Flat => "--flats"@,
        FrameKind::Bias => "--biases"@,
        FrameKind::DarkFlat => "--dark-flats"@,
    }
}

/// Which kind a kind calibrates: a dark flat the flats, every other
/// calibration kind the lights, and a light nothing.
pub open spec fn kind_calibrates(kind: FrameKind) -> Option<FrameKind> {
    match kind {
        FrameKind::Light => None,
        FrameKind::Dark | FrameKind::Bias | FrameKind::Flat => Some(FrameKind::Light),
        FrameKind::DarkFlat => Some(FrameKind::Flat),
    }
}

impl FrameKind {
    pub fn name(self) -> (r: &'static str)
        ensures
            r@ == kind_name(self),
    {
        match self {
            FrameKind::Light => "light",
            FrameKind::Dark => "dark",
            FrameKind::Flat => "flat",
            FrameKind::Bias => "bias",
            FrameKind::DarkFlat => "dark flat",
        }
    }

    /// The command-line flag that assigns this kind, for a suggestion the user
    /// can paste.
    pub fn assign_flag(self) -> (r: &'static str)
        ensures
            r@ == kind_flag(self),
    {
        match self {
            FrameKind::Light => "--lights",
            FrameKind::Dark => "--darks",
            FrameKind::Flat => "--flats",
            FrameKind::Bias => "--biases",
            FrameKind::DarkFlat => "--dark-flats",
        }
    }

    pub fn is_calibration(self) -> (r: bool)
        ensures
            r == (self != FrameKind::Light),
    {
        !matches!(self, FrameKind::Light)
    }

    /// Which kind this one calibrates. A dark flat calibrates the flats, never
    /// the lights.
    pub fn calibrates(self) -> (r: Option<FrameKind>)
        ensures
            r == kind_calibrates(self),
    {
        match self {
            FrameKind::Light => None,
            FrameKind::Dark | FrameKind::Bias | FrameKind::Flat => Some(FrameKind::Light),
            FrameKind::DarkFlat => Some(FrameKind::Flat),
        }
    }

    /// Every kind, in the order a report should list them.
    pub fn all() -> (r: [FrameKind; 5])
        ensures
            r@ == seq![
                FrameKind::Light,
                FrameKind::Dark,
                FrameKind::Flat,
                FrameKind::Bias,
                FrameKind::DarkFlat,
            ],
    {
        let r = [FrameKind::Light, FrameKind::Dark, FrameKind::Flat, FrameKind::Bias, FrameKind::DarkFlat];
        proof {
            assert(r@ =~= seq![
                FrameKind::Light,
                FrameKind::Dark,
                FrameKind::Flat,
                FrameKind::Bias,
                FrameKind::DarkFlat,
            ]);
        }
        r
    }
}

// ---------------------------------------------------------------------------
// Reading words
// ---------------------------------------------------------------------------

/// The words finished so far, and the one being read, after scanning `s`.
pub open spec fn token_scan(s: Seq<char>) -> (Seq<Seq<char>>, Seq<char>)
    decreases s.len(),
{
    if s.len() == 0 {
        (seq![], seq![])
    } else {
        let (done, current) = token_scan(s.drop_last());
        let c = s.last();
        if alnum(c) {
            (done, current.push(ascii_lower(c)))
        } else if current.len() > 0 {
            (done.push(current), seq![])
        } else {
            (done, seq![])
        }
    }
}

/// The whole alphanumeric words of `s`, in order, folded to ASCII lower case.
pub open spec fn tokens(s: Seq<char>) -> Seq<Seq<char>> {
    let (done, current) = token_scan(s);
    if current.len() > 0 {
        done.push(current)
    } else {
        done
    }
}

/// The texts of a list of strings.
pub open spec fn texts(v: Seq<String>) -> Seq<Seq<char>> {
    v.map_values(|t: String| t@)
}

/// Splits into whole alphanumeric words, case-folded.
///
/// Whole words matter: an optic named `Flat61` must not read as a flat, and it
/// does not, because `flat61` is one token and is not `flat`.
pub fn tokenise(text: &str) -> (out: Vec<String>)
    ensures
        texts(out@) == tokens(text@),
{
    let chars = chars_of(text);
    let mut done: Vec<String> = Vec::new();
    let mut current: Vec<char> = Vec::new();
    let mut i: usize = 0;
    while i < chars.len()
        invariant
            i <= chars.len(),
            chars@ == text@,
            (texts(done@), current@) == token_scan(chars@.take(i as int)),
        decreases chars.len() - i,
    {
        let c = chars[i];
        proof {
            assert(chars@.take(i + 1).drop_last() =~= chars@.take(i as int));
            assert(chars@.take(i + 1).last() == c);
        }
        if is_alphanumeric(c) {
            current.push(to_ascii_lower(c));
        } else if current.len() > 0 {
            let word = string_of(&current);
            let ghost before = done@;
            done.push(word);
            proof {
                assert(texts(done@) =~= texts(before).push(current@));
            }
            current = Vec::new();
            proof {
                assert(current@ =~= Seq::<char>::empty());
            }
        } else {
            current = Vec::new();
            proof {
                assert(current@ =~= Seq::<char>::empty());
            }
        }
        i = i + 1;
    }
    proof {
        assert(chars@.take(chars.len() as int) =~= chars@);
    }
    if current.len() > 0 {
        let word = string_of(&current);
        let ghost before = done@;
        done.push(word);
        proof {
            assert(texts(done@) =~= texts(before).push(current@));
        }
    }
    done
}

/// The kind one word names, if it names one.
pub open spec fn token_kind(t: Seq<char>) -> Option<FrameKind> {
    if t == "darkflat"@ || t == "darkflats"@ || t == "flatdark"@ || t == "flatdarks"@ {
        Some(FrameKind::DarkFlat)
    } else if t == "light"@ || t == "lights"@ {
        Some(FrameKind::Light)
    } else if t == "dark"@ || t == "darks"@ {
        Some(FrameKind::Dark)
    } else if t == "flat"@ || t == "flats"@ {
        Some(FrameKind::Flat)
    } else if t == "bias"@ || t == "biases"@ || t == "offset"@ || t == "offsets"@ {
        Some(FrameKind::Bias)
    } else {
        None
    }
}

/// The words that name a kind, read as lower-case tokens: `light(s)` a
/// light; `dark(s)` a dark; `flat(s)` a flat; `bias`, `biases`, `offset` and
/// `offsets` a bias; `darkflat(s)` and `flatdark(s)` a dark flat. No other
/// word names anything.
pub proof fn law_the_words_for_each_kind(t: Seq<char>)
    ensures
        token_kind("light"@) == Some(FrameKind::Light),
        token_kind("lights"@) == Some(FrameKind::Light),
        token_kind("dark"@) == Some(FrameKind::Dark),
        token_kind("darks"@) == Some(FrameKind::Dark),
        token_kind("flat"@) == Some(FrameKind::Flat),
        token_kind("flats"@) == Some(FrameKind::Flat),
        token_kind("bias"@) == Some(FrameKind::Bias),
        token_kind("biases"@) == Some(FrameKind::Bias),
        token_kind("offset"@) == Some(FrameKind::Bias),
        token_kind("offsets"@) == Some(FrameKind::Bias),
        token_kind("darkflat"@) == Some(FrameKind::DarkFlat),
        token_kind("darkflats"@) == Some(FrameKind::DarkFlat),
        token_kind("flatdark"@) == Some(FrameKind::DarkFlat),
        token_kind("flatdarks"@) == Some(FrameKind::DarkFlat),
        token_kind(t) is Some ==> t == "light"@ || t == "lights"@ || t == "dark"@ || t == "darks"@ || t == "flat"@
            || t == "flats"@ || t == "bias"@ || t == "biases"@ || t == "offset"@ || t == "offsets"@ || t
            == "darkflat"@ || t == "darkflats"@ || t == "flatdark"@ || t == "flatdarks"@,
{
    reveal_strlit("light");
    reveal_strlit("lights");
    reveal_strlit("dark");
    reveal_strlit("darks");
    reveal_strlit("flat");
    reveal_strlit("flats");
    reveal_strlit("bias");
    reveal_strlit("biases");
    reveal_strlit("offset");
    reveal_strlit("offsets");
    reveal_strlit("darkflat");
    reveal_strlit("darkflats");
    reveal_strlit("flatdark");
    reveal_strlit("flatdarks");
    assert("darkflat"@.len() == 8 && "darkflat"@[0] == 'd' && "darkflat"@[7] == 't');
    assert("darkflats"@.len() == 9 && "darkflats"@[0] == 'd' && "darkflats"@[8] == 's');
    assert("flatdark"@.len() == 8 && "flatdark"@[0] == 'f' && "flatdark"@[7] == 'k');
    assert("flatdarks"@.len() == 9 && "flatdarks"@[0] == 'f' && "flatdarks"@[8] == 's');
    assert("light"@.len() == 5 && "light"@[0] == 'l' && "light"@[4] == 't');
    assert("lights"@.len() == 6 && "lights"@[0] == 'l' && "lights"@[5] == 's');
    assert("dark"@.len() == 4 && "dark"@[0] == 'd' && "dark"@[3] == 'k');
    assert("darks"@.len() == 5 && "darks"@[0] == 'd' && "darks"@[4] == 's');
    assert("flat"@.len() == 4 && "flat"@[0] == 'f' && "flat"@[3] == 't');
    assert("flats"@.len() == 5 && "flats"@[0] == 'f' && "flats"@[4] == 's');
    assert("bias"@.len() == 4 && "bias"@[0] == 'b' && "bias"@[3] == 's');
    assert("biases"@.len() == 6 && "biases"@[0] == 'b' && "biases"@[5] == 's');
    assert("offset"@.len() == 6 && "offset"@[0] == 'o' && "offset"@[5] == 't');
    assert("offsets"@.len() == 7 && "offsets"@[0] == 'o' && "offsets"@[6] == 's');
}

/// The kind two consecutive words name together: `dark flat` in either order.
pub open spec fn pair_kind(first: Seq<char>, second: Seq<char>) -> Option<FrameKind> {
    let dark_first = first == "dark"@ || first == "darks"@;
    let flat_second = second == "flat"@ || second == "flats"@;
    let flat_first = first == "flat"@ || first == "flats"@;
    let dark_second = second == "dark"@ || second == "darks"@;
    if (dark_first && flat_second) || (flat_first && dark_second) {
        Some(FrameKind::DarkFlat)
    } else {
        None
    }
}

/// Whether a string is one of two texts.
fn is_either(s: &String, a: &str, b: &str) -> (r: bool)
    ensures
        r == (s@ == a@ || s@ == b@),
{
    text_is(s.as_str(), a) || text_is(s.as_str(), b)
}

pub fn kind_from_token(token: &String) -> (r: Option<FrameKind>)
    ensures
        r == token_kind(token@),
{
    if is_either(token, "darkflat", "darkflats") || is_either(token, "flatdark", "flatdarks") {
        Some(FrameKind::DarkFlat)
    } else if is_either(token, "light", "lights") {
        Some(FrameKind::Light)
    } else if is_either(token, "dark", "darks") {
        Some(FrameKind::Dark)
    } else if is_either(token, "flat", "flats") {
        Some(FrameKind::Flat)
    } else if is_either(token, "bias", "biases") || is_either(token, "offset", "offsets") {
        Some(FrameKind::Bias)
    } else {
        None
    }
}

pub fn kind_from_pair(first: &String, second: &String) -> (r: Option<FrameKind>)
    ensures
        r == pair_kind(first@, second@),
{
    let dark = is_either(first, "dark", "darks");
    let flat = is_either(second, "flat", "flats");
    if dark && flat {
        return Some(FrameKind::DarkFlat);
    }
    if is_either(first, "flat", "flats") && is_either(second, "dark", "darks") {
        return Some(FrameKind::DarkFlat);
    }
    None
}

/// The first pair of consecutive words, from position `i` on, that names a
/// kind, with the pair as it reads.
pub open spec fn pair_reading(t: Seq<Seq<char>>, i: int) -> Option<(FrameKind, Seq<char>)>
    decreases t.len() - i,
{
    if i < 0 || i + 1 >= t.len() {
        None
    } else {
        match pair_kind(t[i], t[i + 1]) {
            Some(kind) => Some((kind, t[i] + seq![' '] + t[i + 1])),
            None => pair_reading(t, i + 1),
        }
    }
}

/// The first word, from position `i` on, that names a kind.
pub open spec fn single_reading(t: Seq<Seq<char>>, i: int) -> Option<(FrameKind, Seq<char>)>
    decreases t.len() - i,
{
    if i < 0 || i >= t.len() {
        None
    } else {
        match token_kind(t[i]) {
            Some(kind) => Some((kind, t[i])),
            None => single_reading(t, i + 1),
        }
    }
}

/// What a list of words names: a two-word form anywhere wins over a single
/// word, so that `dark flat` is never read as `dark`.
pub open spec fn tokens_reading(t: Seq<Seq<char>>) -> Option<(FrameKind, Seq<char>)> {
    match pair_reading(t, 0) {
        Some(found) => Some(found),
        None => single_reading(t, 0),
    }
}

/// The text of a reading, for comparing an executable answer with the spec.
pub open spec fn reading_view(r: Option<(FrameKind, String)>) -> Option<(FrameKind, Seq<char>)> {
    match r {
        Some((kind, token)) => Some((kind, token@)),
        None => None,
    }
}

/// Two strings joined by one space.
fn joined(a: &String, b: &String) -> (out: String)
    ensures
        out@ == a@ + seq![' '] + b@,
{
    let mut out = String::new();
    out.append(a.as_str());
    push_char(&mut out, ' ');
    out.append(b.as_str());
    proof {
        assert(out@ =~= a@ + seq![' '] + b@);
    }
    out
}

pub fn kind_from_tokens(tokens: &Vec<String>) -> (r: Option<(FrameKind, String)>)
    ensures
        reading_view(r) == tokens_reading(texts(tokens@)),
{
    let ghost t = texts(tokens@);
    let mut i: usize = 0;
    while tokens.len() > 1 && i < tokens.len() - 1
        invariant
            t == texts(tokens@),
            i <= tokens.len(),
            pair_reading(t, 0) == pair_reading(t, i as int),
        decreases tokens.len() - i,
    {
        if let Some(kind) = kind_from_pair(&tokens[i], &tokens[i + 1]) {
            let text = joined(&tokens[i], &tokens[i + 1]);
            return Some((kind, text));
        }
        i = i + 1;
    }
    let mut j: usize = 0;
    while j < tokens.len()
        invariant
            t == texts(tokens@),
            j <= tokens.len(),
            pair_reading(t, 0) is None,
            single_reading(t, 0) == single_reading(t, j as int),
        decreases tokens.len() - j,
    {
        if let Some(kind) = kind_from_token(&tokens[j]) {
            let text = tokens[j].clone();
            return Some((kind, text));
        }
        j = j + 1;
    }
    None
}

// ---------------------------------------------------------------------------
// Evidence
// ---------------------------------------------------------------------------

/// The evidence behind a proposal, named rather than scored: "the folder was
/// called FLAT" is something a user can act on, a confidence of 0.7 is not.
#[derive(Debug, Clone, PartialEq)]
pub enum Basis {
    DirectoryComponent { component: String, token: String },
    FilenameToken { token: String },
    /// The exposure is short enough that little but a bias is ever shot there.
    /// Carried as the IEEE-754 bits of the seconds the camera recorded.
    MinimumShutter { seconds_bits: u64 },
    /// The user named a whole directory when adding it.
    UserRule,
}

/// [`Basis`] with its text as character sequences.
pub enum BasisView {
    DirectoryComponent { component: Seq<char>, token: Seq<char> },
    FilenameToken { token: Seq<char> },
    MinimumShutter { seconds_bits: u64 },
    UserRule,
}

impl View for Basis {
    type V = BasisView;

    open spec fn view(&self) -> BasisView {
        match self {
            Basis::DirectoryComponent { component, token } => BasisView::DirectoryComponent {
                component: component@,
                token: token@,
            },
            Basis::FilenameToken { token } => BasisView::FilenameToken { token: token@ },
            Basis::MinimumShutter { seconds_bits } => BasisView::MinimumShutter {
                seconds_bits: *seconds_bits,
            },
            Basis::UserRule => BasisView::UserRule,
        }
    }
}

/// The evidence in words. A shutter speed is a measured figure printed to
/// five places, which is floating point and left to the caller: `None` there.
pub open spec fn basis_text(b: BasisView) -> Option<Seq<char>> {
    match b {
        BasisView::DirectoryComponent { component, token: _ } => Some("the folder "@ + component),
        BasisView::FilenameToken { token } => Some(token + " in the file name"@),
        BasisView::MinimumShutter { .. } => None,
        BasisView::UserRule => Some("you said so"@),
    }
}

impl Basis {
    /// The evidence in words, or `None` for a shutter speed.
    pub fn describe(&self) -> (r: Option<String>)
        ensures
            match r {
                Some(t) => basis_text(self@) == Some(t@),
                None => basis_text(self@) is None,
            },
    {
        match self {
            Basis::DirectoryComponent { component, token: _ } => {
                let out = crate::compat::followed_by(chars_of("the folder "), component.as_str());
                Some(string_of(&out))
            },
            Basis::FilenameToken { token } => {
                let out = crate::compat::followed_by(chars_of(token.as_str()), " in the file name");
                Some(string_of(&out))
            },
            Basis::MinimumShutter { .. } => None,
            Basis::UserRule => Some(string_of(&chars_of("you said so"))),
        }
    }
}

/// What the evidence says a frame might be.
#[derive(Debug, Clone, PartialEq)]
pub enum Inference {
    Proposed { kind: FrameKind, basis: Basis },
    /// Two readings disagreed, and both are kept: a file at
    /// `.../Darks/Flat_0001.CR3` is a question, not an answer.
    Ambiguous(Vec<(FrameKind, Basis)>),
    /// Nothing in the path or the metadata says.
    NoEvidence,
}

/// [`Inference`] with its text as character sequences.
pub enum InferenceView {
    Proposed { kind: FrameKind, basis: BasisView },
    Ambiguous(Seq<(FrameKind, BasisView)>),
    NoEvidence,
}

impl View for Inference {
    type V = InferenceView;

    open spec fn view(&self) -> InferenceView {
        match self {
            Inference::Proposed { kind, basis } => InferenceView::Proposed {
                kind: *kind,
                basis: basis@,
            },
            Inference::Ambiguous(readings) => InferenceView::Ambiguous(
                readings@.map_values(|r: (FrameKind, Basis)| (r.0, r.1@)),
            ),
            Inference::NoEvidence => InferenceView::NoEvidence,
        }
    }
}

/// The single kind an inference points at.
pub open spec fn proposed_kind(inference: InferenceView) -> Option<FrameKind> {
    match inference {
        InferenceView::Proposed { kind, .. } => Some(kind),
        _ => None,
    }
}

impl Inference {
    /// The single kind this evidence points at, if it points at one.
    pub fn proposed(&self) -> (r: Option<FrameKind>)
        ensures
            r == proposed_kind(self@),
    {
        match self {
            Inference::Proposed { kind, .. } => Some(*kind),
            Inference::Ambiguous(_) => None,
            Inference::NoEvidence => None,
        }
    }
}

/// What a frame is, and separately what it looks like it might be. The two are
/// never collapsed into one field.
#[derive(Debug, Clone, PartialEq)]
pub enum FrameRole {
    Assigned(FrameKind),
    Unassigned { inference: Inference },
}

impl FrameRole {
    pub fn unassigned() -> (r: FrameRole)
        ensures
            r matches FrameRole::Unassigned { inference: Inference::NoEvidence },
    {
        FrameRole::Unassigned { inference: Inference::NoEvidence }
    }
}

// ---------------------------------------------------------------------------
// Reading a path
// ---------------------------------------------------------------------------

/// The parts `Path::components` yields for a path: the text of each ordinary
/// component, and `None` for a root, a prefix, `.` or `..`.
/// Paths are parsed as on the platform the library is built for: `D:/astro`
/// holds a drive prefix on Windows and is plain text elsewhere. Within one
/// build the answer depends on the text alone.
pub uninterp spec fn path_parts_of(path: Seq<char>) -> Seq<Option<Seq<char>>>;

/// What `Path::parent` answers for a path.
/// Parsed as on the platform the library is built for, so within one build
/// the answer depends on the text alone.
pub uninterp spec fn path_parent_of(path: Seq<char>) -> Option<Seq<char>>;

/// What `Path::file_name` answers, as text: empty where a path has none. A
/// name that is there is never empty, since no component of a path is.
/// Parsed as on the platform the library is built for, so within one build
/// the answer depends on the text alone.
pub uninterp spec fn file_name_of(path: Seq<char>) -> Seq<char>;

/// Where the last dot among the first `n` characters of a name is.
pub open spec fn last_dot(name: Seq<char>, n: int) -> Option<int>
    decreases n,
{
    if n <= 0 {
        None
    } else if name[n - 1] == '.' {
        Some(n - 1)
    } else {
        last_dot(name, n - 1)
    }
}

/// Whether a name splits at a dot into a stem and an extension: it has a last
/// dot that is not its first character, and it is not `..`.
pub open spec fn splits_at_dot(name: Seq<char>) -> bool {
    &&& name != ".."@
    &&& last_dot(name, name.len() as int) is Some
    &&& last_dot(name, name.len() as int)->0 > 0
}

/// What `Path::file_stem` answers for a path whose file name is `name`: none
/// without a name; the part before the last dot where the name splits there;
/// otherwise the whole name.
pub open spec fn stem_in(name: Seq<char>) -> Option<Seq<char>> {
    if name.len() == 0 {
        None
    } else if splits_at_dot(name) {
        Some(name.take(last_dot(name, name.len() as int)->0))
    } else {
        Some(name)
    }
}

/// What `Path::extension` answers for a path whose file name is `name`: the
/// part after the last dot where the name splits there, otherwise none.
pub open spec fn extension_in(name: Seq<char>) -> Option<Seq<char>> {
    if name.len() > 0 && splits_at_dot(name) {
        Some(name.skip(last_dot(name, name.len() as int)->0 + 1))
    } else {
        None
    }
}

/// `Path::components`, one entry per component: the text of an ordinary
/// component, `None` for every other kind. Which components a path has is
/// named, not spelled out.
#[verifier::external_body]
pub(crate) fn path_parts(path: &str) -> (r: Vec<Option<String>>)
    ensures
        r.deep_view() == path_parts_of(path@),
{
    let mut parts = Vec::new();
    for component in std::path::Path::new(path).components() {
        parts.push(match component {
            std::path::Component::Normal(text) => Some(text.to_string_lossy().into_owned()),
            std::path::Component::Prefix(_) => None,
            std::path::Component::RootDir => None,
            std::path::Component::CurDir => None,
            std::path::Component::ParentDir => None,
        });
    }
    parts
}

/// `Path::parent`. Which parent a path has is named, not spelled out.
#[verifier::external_body]
pub(crate) fn path_parent(path: &str) -> (r: Option<String>)
    ensures
        r.deep_view() == path_parent_of(path@),
{
    match std::path::Path::new(path).parent() {
        Some(parent) => Some(parent.to_string_lossy().into_owned()),
        None => None,
    }
}

/// `Path::file_stem`: the file name's part before its last dot, as std
/// documents it; which name a path has is named, not spelled out.
#[verifier::external_body]
pub(crate) fn path_file_stem(path: &str) -> (r: Option<String>)
    ensures
        r.deep_view() == stem_in(file_name_of(path@)),
{
    match std::path::Path::new(path).file_stem() {
        Some(stem) => Some(stem.to_string_lossy().into_owned()),
        None => None,
    }
}

/// The nearest of the first `n` components, leaf first, that names a kind:
/// the kind, the component, and the word in it that did.
pub open spec fn directory_reading(parts: Seq<Option<Seq<char>>>, n: int) -> Option<(FrameKind, Seq<char>, Seq<char>)>
    decreases n,
{
    if n <= 0 || n > parts.len() {
        None
    } else {
        match parts[n - 1] {
            Some(text) => match tokens_reading(tokens(text)) {
                Some((kind, token)) => Some((kind, text, token)),
                None => directory_reading(parts, n - 1),
            },
            None => directory_reading(parts, n - 1),
        }
    }
}

/// What a file stem names.
pub open spec fn stem_reading(stem: Option<Seq<char>>) -> Option<(FrameKind, Seq<char>)> {
    match stem {
        Some(text) => tokens_reading(tokens(text)),
        None => None,
    }
}

/// What the folder and the file name say together. A folder and a file name
/// that disagree are ambiguous; otherwise the folder wins when it says
/// anything, and the file name is heard only when the folder is silent.
pub open spec fn path_inference(
    dir: Option<(FrameKind, Seq<char>, Seq<char>)>,
    file: Option<(FrameKind, Seq<char>)>,
) -> InferenceView {
    match (dir, file) {
        (Some((dk, component, dtoken)), Some((fk, ftoken))) => if dk != fk {
            InferenceView::Ambiguous(seq![
                (dk, BasisView::DirectoryComponent { component, token: dtoken }),
                (fk, BasisView::FilenameToken { token: ftoken }),
            ])
        } else {
            InferenceView::Proposed {
                kind: dk,
                basis: BasisView::DirectoryComponent { component, token: dtoken },
            }
        },
        (Some((dk, component, dtoken)), None) => InferenceView::Proposed {
            kind: dk,
            basis: BasisView::DirectoryComponent { component, token: dtoken },
        },
        (None, Some((fk, ftoken))) => InferenceView::Proposed {
            kind: fk,
            basis: BasisView::FilenameToken { token: ftoken },
        },
        (None, None) => InferenceView::NoEvidence,
    }
}

/// The nearest component of a directory, leaf first, that names a kind.
pub fn directory_proposal(parts: &Vec<Option<String>>) -> (r: Option<(FrameKind, String, String)>)
    ensures
        match r {
            Some((kind, component, token)) => directory_reading(parts.deep_view(), parts@.len() as int)
                == Some((kind, component@, token@)),
            None => directory_reading(parts.deep_view(), parts@.len() as int) is None,
        },
{
    let ghost p = parts.deep_view();
    let mut n: usize = parts.len();
    while n > 0
        invariant
            p == parts.deep_view(),
            n <= parts.len(),
            directory_reading(p, parts@.len() as int) == directory_reading(p, n as int),
        decreases n,
    {
        proof {
            assert(p[n - 1] == parts@[n - 1].deep_view());
        }
        match &parts[n - 1] {
            Some(text) => {
                let words = tokenise(text.as_str());
                if let Some((kind, token)) = kind_from_tokens(&words) {
                    return Some((kind, text.clone(), token));
                }
            },
            None => {},
        }
        n = n - 1;
    }
    None
}

/// What a file stem names, with the word that named it.
pub fn filename_proposal(stem: &Option<String>) -> (r: Option<(FrameKind, String)>)
    ensures
        reading_view(r) == stem_reading(stem.deep_view()),
{
    match stem {
        Some(text) => {
            let words = tokenise(text.as_str());
            kind_from_tokens(&words)
        },
        None => None,
    }
}

/// Reads a frame kind out of the parts of a path: the components of the
/// directory holding the file, and the file's stem.
///
/// Directory components are tested from the leaf towards the root and the
/// first match wins, because `.../WO-GT81-Flat61/Lights/IMG_0001.CR3` names an
/// optic in one component and the frame kind in another, and only the nearer
/// one is about this file.
pub fn infer_from_parts(directory: &Vec<Option<String>>, stem: &Option<String>) -> (r: Inference)
    ensures
        r@ == path_inference(
            directory_reading(directory.deep_view(), directory@.len() as int),
            stem_reading(stem.deep_view()),
        ),
{
    let from_directory = directory_proposal(directory);
    let from_filename = filename_proposal(stem);
    match (from_directory, from_filename) {
        (Some((dk, component, dtoken)), Some((fk, ftoken))) => {
            if dk != fk {
                let mut readings: Vec<(FrameKind, Basis)> = Vec::new();
                readings.push((dk, Basis::DirectoryComponent { component, token: dtoken }));
                readings.push((fk, Basis::FilenameToken { token: ftoken }));
                let r = Inference::Ambiguous(readings);
                proof {
                    let expected = path_inference(
                        directory_reading(directory.deep_view(), directory@.len() as int),
                        stem_reading(stem.deep_view()),
                    );
                    assert(expected matches InferenceView::Ambiguous(s) && r@ matches InferenceView::Ambiguous(t) && s =~= t);
                }
                r
            } else {
                Inference::Proposed { kind: dk, basis: Basis::DirectoryComponent { component, token: dtoken } }
            }
        },
        (Some((dk, component, dtoken)), None) => Inference::Proposed {
            kind: dk,
            basis: Basis::DirectoryComponent { component, token: dtoken },
        },
        (None, Some((fk, ftoken))) => Inference::Proposed {
            kind: fk,
            basis: Basis::FilenameToken { token: ftoken },
        },
        (None, None) => Inference::NoEvidence,
    }
}

/// The components of the directory a path's file sits in: none when the path
/// has no parent.
pub open spec fn parent_parts(path: Seq<char>) -> Seq<Option<Seq<char>>> {
    match path_parent_of(path) {
        Some(parent) => path_parts_of(parent),
        None => seq![],
    }
}

/// Reads a frame kind out of a path: the nearest folder that names one, then
/// the file name, and two readings that disagree are kept as a question.
pub fn infer_from_path(path: &str) -> (r: Inference)
    ensures
        r@ == path_inference(
            directory_reading(parent_parts(path@), parent_parts(path@).len() as int),
            stem_reading(stem_in(file_name_of(path@))),
        ),
{
    let directory = match path_parent(path) {
        Some(parent) => path_parts(parent.as_str()),
        None => Vec::new(),
    };
    proof {
        if path_parent_of(path@) is None {
            assert(directory.deep_view() =~= Seq::<Option<Seq<char>>>::empty());
        }
    }
    let stem = path_file_stem(path);
    infer_from_parts(&directory, &stem)
}

/// Path evidence first, then what the shooting parameters said. The metadata
/// is weaker and only speaks when the path said nothing at all.
pub fn prefer_path(from_path: Inference, from_metadata: Inference) -> (r: Inference)
    ensures
        r@ == (if from_path@ is NoEvidence { from_metadata@ } else { from_path@ }),
{
    match from_path {
        Inference::NoEvidence => from_metadata,
        found => found,
    }
}

/// Reads a path for evidence and falls back on what the metadata proposed.
pub fn infer(path: &str, from_metadata: Inference) -> (r: Inference)
    ensures
        r@ == (if infer_path_view(path@) is NoEvidence { from_metadata@ } else { infer_path_view(path@) }),
{
    prefer_path(infer_from_path(path), from_metadata)
}

/// What [`infer_from_path`] answers for a path.
pub open spec fn infer_path_view(path: Seq<char>) -> InferenceView {
    path_inference(
        directory_reading(parent_parts(path), parent_parts(path).len() as int),
        stem_reading(stem_in(file_name_of(path))),
    )
}

} // verus!

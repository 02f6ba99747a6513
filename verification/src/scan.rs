//! The decisions a scan makes about each file: which rule claims it, what it
//! is called in a report, whether a directory walk reads it, in what order the
//! candidates are opened, how many are opened at once, and what record it
//! becomes. Walking directories and opening files is the caller's.
use vstd::prelude::*;

use crate::frame::{FrameInfo, ImageLayout};
use crate::kind::{
    extension_in, file_name_of, infer, infer_path_view, path_parent, path_parent_of, path_parts_of, FrameKind, FrameRole, Inference,
    InferenceView,
};
use crate::session::{
    first_with_content, interned, position, same_content_of, with_main, BodyKey, DirId, Exclusion, ExclusionSource, FrameFingerprint, FrameId, FrameRecord,
    FrameSource, GroupId, PluginId, Rejection, Session,
};
use crate::text::{chars_of, lower_seq, lowered, same_chars, string_of};

verus! {

/// How a directory or file the user named should be treated.
#[derive(Debug, Clone, PartialEq)]
pub struct RoleRule {
    pub root: String,
    /// `None` adds the frames without saying what they are, which is what a
    /// bare path on the command line does.
    pub kind: Option<FrameKind>,
    pub group_name: Option<String>,
}

impl RoleRule {
    pub fn new(root: &str, kind: Option<FrameKind>) -> (r: RoleRule)
        ensures
            r.root@ == root@,
            r.kind == kind,
            r.group_name is None,
    {
        RoleRule { root: string_of(&chars_of(root)), kind, group_name: None }
    }

    pub fn in_group(self, group: Option<String>) -> (r: RoleRule)
        ensures
            r.root == self.root,
            r.kind == self.kind,
            r.group_name == group,
    {
        RoleRule { group_name: group, ..self }
    }
}

/// What `Path::starts_with` answers: whether `base`'s components are the
/// first components of `path`. A path starts with itself.
/// Parsed as on the platform the library is built for, so within one build
/// the answer depends on the text alone.
pub uninterp spec fn path_starts_with_of(path: Seq<char>, base: Seq<char>) -> bool;

/// What `Path::components().count()` answers: how many components
/// `Path::components` yields, one per entry of [`path_parts_of`].
pub open spec fn component_count_of(path: Seq<char>) -> nat {
    path_parts_of(path).len()
}

/// `Path::starts_with`, on whole components.
#[verifier::external_body]
fn path_starts_with(path: &str, base: &str) -> (r: bool)
    ensures
        r == path_starts_with_of(path@, base@),
{
    std::path::Path::new(path).starts_with(base)
}

/// `Path::components().count()`.
#[verifier::external_body]
fn component_count(path: &str) -> (r: usize)
    ensures
        r as nat == component_count_of(path@),
{
    std::path::Path::new(path).components().count()
}

/// The index of the rule, among the first `n`, whose root is the deepest
/// prefix of `path`; of equally deep ones, the last.
pub open spec fn deepest_of(rules: Seq<RoleRule>, path: Seq<char>, n: int) -> Option<int>
    decreases n,
{
    if n <= 0 || n > rules.len() {
        None
    } else {
        let best = deepest_of(rules, path, n - 1);
        if path_starts_with_of(path, rules[n - 1].root@) {
            match best {
                Some(b) => if component_count_of(rules[n - 1].root@) >= component_count_of(rules[b].root@) {
                    Some(n - 1)
                } else {
                    Some(b)
                },
                None => Some(n - 1),
            }
        } else {
            best
        }
    }
}

proof fn lemma_deepest_in_range(rules: Seq<RoleRule>, path: Seq<char>, n: int)
    ensures
        deepest_of(rules, path, n) matches Some(i) ==> 0 <= i < n && i < rules.len(),
    decreases n,
{
    if n > 0 && n <= rules.len() {
        lemma_deepest_in_range(rules, path, n - 1);
    }
}

/// The rule whose root is the longest prefix of `path`.
///
/// Longest wins, so that `--lights session/ --darks session/darks/` does what
/// it reads like rather than depending on the order the flags were given.
pub fn deepest_rule<'a>(rules: &'a Vec<RoleRule>, path: &str) -> (r: Option<&'a RoleRule>)
    ensures
        match deepest_of(rules@, path@, rules@.len() as int) {
            Some(i) => r == Some(&rules@[i]),
            None => r is None,
        },
{
    let mut best: Option<usize> = None;
    let mut depth: usize = 0;
    let mut i: usize = 0;
    while i < rules.len()
        invariant
            i <= rules@.len(),
            match deepest_of(rules@, path@, i as int) {
                Some(b) => best == Some(b as usize) && depth == component_count_of(rules@[b].root@),
                None => best is None,
            },
        decreases rules@.len() - i,
    {
        proof {
            lemma_deepest_in_range(rules@, path@, i as int);
        }
        if path_starts_with(path, rules[i].root.as_str()) {
            let count = component_count(rules[i].root.as_str());
            match best {
                Some(_) => {
                    if count >= depth {
                        best = Some(i);
                        depth = count;
                    }
                },
                None => {
                    best = Some(i);
                    depth = count;
                },
            }
        }
        i = i + 1;
    }
    proof {
        lemma_deepest_in_range(rules@, path@, rules@.len() as int);
    }
    match best {
        Some(b) => Some(&rules[b]),
        None => None,
    }
}

/// The rule chosen for a path claims it, and no claiming rule is deeper;
/// among equally deep ones it is the last, so the order the flags were given
/// in matters only between rules of the same depth.
pub proof fn law_the_deepest_rule_claims(rules: Seq<RoleRule>, path: Seq<char>, n: int)
    requires
        0 <= n <= rules.len(),
    ensures
        deepest_of(rules, path, n) matches Some(i) ==> 0 <= i < n && path_starts_with_of(path, rules[i].root@)
            && forall|j: int|
            0 <= j < n && path_starts_with_of(path, #[trigger] rules[j].root@) ==> component_count_of(rules[j].root@)
                <= component_count_of(rules[i].root@) && (j > i ==> component_count_of(rules[j].root@)
                < component_count_of(rules[i].root@)),
        deepest_of(rules, path, n) is None ==> forall|j: int|
            0 <= j < n ==> !path_starts_with_of(path, #[trigger] rules[j].root@),
    decreases n,
{
    lemma_deepest_in_range(rules, path, n);
    if n > 0 {
        law_the_deepest_rule_claims(rules, path, n - 1);
        lemma_deepest_in_range(rules, path, n - 1);
    }
}

/// The prefix `canonicalize` adds on Windows.
pub open spec fn verbatim_prefix() -> Seq<char> {
    seq!['\\', '\\', '?', '\\']
}

/// A path as a report prints it: without the verbatim prefix, unless the path
/// is a verbatim UNC one, where shortening it would change which share it
/// names.
pub open spec fn presentable_text(path: Seq<char>) -> Seq<char> {
    if path.len() >= 4 && path.take(4) == verbatim_prefix() && !(path.len() >= 8 && path.subrange(4, 8) == seq![
        'U',
        'N',
        'C',
        '\\',
    ]) {
        path.skip(4)
    } else {
        path
    }
}

/// Removes the verbatim prefix that `canonicalize` adds on Windows: the long
/// and the short spelling open the same file, and only one of them belongs in
/// a report.
pub fn presentable(path: &str) -> (r: String)
    ensures
        r@ == presentable_text(path@),
{
    let chars = chars_of(path);
    let n = chars.len();
    let verbatim = n >= 4 && chars[0] == '\\' && chars[1] == '\\' && chars[2] == '?' && chars[3] == '\\';
    let unc = n >= 8 && chars[4] == 'U' && chars[5] == 'N' && chars[6] == 'C' && chars[7] == '\\';
    proof {
        if n >= 4 {
            assert(verbatim == (chars@.take(4) =~= verbatim_prefix()));
        }
        if n >= 8 {
            assert(unc == (chars@.subrange(4, 8) =~= seq!['U', 'N', 'C', '\\']));
        }
    }
    if verbatim && !unc {
        let mut rest: Vec<char> = Vec::new();
        let mut i: usize = 4;
        while i < n
            invariant
                4 <= i <= n,
                n == chars@.len(),
                rest@ == chars@.subrange(4, i as int),
            decreases n - i,
        {
            rest.push(chars[i]);
            proof {
                assert(rest@ =~= chars@.subrange(4, i + 1));
            }
            i = i + 1;
        }
        proof {
            assert(rest@ =~= path@.skip(4));
        }
        string_of(&rest)
    } else {
        string_of(&chars)
    }
}

/// `Path::extension`: the text after the file name's last dot, when there is
/// one that is not the name's first character, as std documents it.
#[verifier::external_body]
fn path_extension(path: &str) -> (r: Option<String>)
    ensures
        r.deep_view() == extension_in(file_name_of(path@)),
{
    match std::path::Path::new(path).extension() {
        Some(extension) => Some(extension.to_string_lossy().into_owned()),
        None => None,
    }
}

/// Two texts equal once ASCII letters are folded to one case, as
/// `eq_ignore_ascii_case` compares them.
pub fn same_ignoring_ascii_case(a: &str, b: &str) -> (r: bool)
    ensures
        r == (lower_seq(a@) == lower_seq(b@)),
{
    same_chars(&lowered(&chars_of(a)), &lowered(&chars_of(b)))
}

/// Whether some text of `names` equals `text` without regard to ASCII case.
pub open spec fn named_among(names: Seq<String>, text: Seq<char>) -> bool {
    exists|i: int| 0 <= i < names.len() && lower_seq(#[trigger] names[i]@) == lower_seq(text)
}

fn any_same_ignoring_case(names: &Vec<String>, text: &str) -> (r: bool)
    ensures
        r == named_among(names@, text@),
{
    let mut i: usize = 0;
    while i < names.len()
        invariant
            i <= names@.len(),
            forall|j: int| 0 <= j < i ==> lower_seq(#[trigger] names@[j]@) != lower_seq(text@),
        decreases names@.len() - i,
    {
        if same_ignoring_ascii_case(names[i].as_str(), text) {
            return true;
        }
        i = i + 1;
    }
    false
}

/// Whether a directory walk reads a file: only when its extension is one a
/// loaded decoder reads, compared without case. A file the user named is
/// opened whatever it is called; the filter only keeps a walk cheap.
pub fn has_supported_extension(path: &str, extensions: &Vec<String>) -> (r: bool)
    ensures
        r == (match extension_in(file_name_of(path@)) {
            Some(extension) => named_among(extensions@, extension),
            None => false,
        }),
{
    match path_extension(path) {
        Some(extension) => any_same_ignoring_case(extensions, extension.as_str()),
        None => false,
    }
}

/// Whether the deepest rule that claims a path also says what it is.
pub open spec fn assigned(rules: Seq<RoleRule>, path: Seq<char>) -> bool {
    match deepest_of(rules, path, rules.len() as int) {
        Some(i) => rules[i].kind is Some,
        None => false,
    }
}

/// The paths whose being assigned is `want`, in order.
pub open spec fn with_assignment(rules: Seq<RoleRule>, paths: Seq<Seq<char>>, want: bool) -> Seq<Seq<char>>
    decreases paths.len(),
{
    if paths.len() == 0 {
        seq![]
    } else {
        let rest = with_assignment(rules, paths.drop_last(), want);
        if assigned(rules, paths.last()) == want {
            rest.push(paths.last())
        } else {
            rest
        }
    }
}

/// The texts of some strings.
pub open spec fn texts_of(v: Seq<String>) -> Seq<Seq<char>> {
    v.map_values(|t: String| t@)
}

fn push_with_assignment(out: &mut Vec<String>, rules: &Vec<RoleRule>, candidates: &Vec<String>, want: bool)
    ensures
        texts_of(final(out)@) == texts_of(old(out)@) + with_assignment(rules@, texts_of(candidates@), want),
{
    let ghost start = texts_of(out@);
    let ghost all = texts_of(candidates@);
    let mut i: usize = 0;
    while i < candidates.len()
        invariant
            i <= candidates@.len(),
            all == texts_of(candidates@),
            texts_of(out@) == start + with_assignment(rules@, all.take(i as int), want),
        decreases candidates@.len() - i,
    {
        let path = candidates[i].as_str();
        let claimed = match deepest_rule(rules, path) {
            Some(rule) => rule.kind.is_some(),
            None => false,
        };
        proof {
            assert(all.take(i + 1).drop_last() =~= all.take(i as int));
            assert(all.take(i + 1).last() == path@);
        }
        if claimed == want {
            let ghost before = out@;
            out.push(string_of(&chars_of(path)));
            proof {
                assert(texts_of(out@) =~= texts_of(before).push(path@));
            }
        }
        i = i + 1;
    }
    proof {
        assert(all.take(all.len() as int) =~= all);
    }
}

/// The order candidates are opened in: those a rule assigned a kind to
/// first, each group in the order given.
///
/// Two copies of one frame are found by content, and the first one inserted
/// is the one that stays. Ordering the assigned copies first means that
/// `--lights D:/lights D:/misc` keeps the light, whichever path sorts earlier.
/// Given candidates sorted by path, this is the order of sorting by
/// (not assigned, path).
pub fn order_candidates(rules: &Vec<RoleRule>, candidates: &Vec<String>) -> (r: Vec<String>)
    ensures
        texts_of(r@) == with_assignment(rules@, texts_of(candidates@), true) + with_assignment(
            rules@,
            texts_of(candidates@),
            false,
        ),
{
    let mut out: Vec<String> = Vec::new();
    proof {
        assert(texts_of(out@) =~= seq![]);
    }
    push_with_assignment(&mut out, rules, candidates, true);
    push_with_assignment(&mut out, rules, candidates, false);
    out
}

/// What opening the first candidate, to size the pool, found.
#[derive(Debug, Clone, Copy, PartialEq, Eq)]
pub enum FirstFrame {
    /// There were no candidates.
    Nothing,
    /// It could not be opened; the main pass will report why.
    Unreadable,
    /// It opened, and holding its samples takes this many bytes, where that
    /// could be counted.
    Opened { required_bytes: Option<usize> },
}

/// How many frames to open at once, sized against a frame actually present
/// rather than a guessed constant, which is wrong in both directions: as many
/// as the memory budget holds, at least one, at most `ceiling`.
pub fn pool_size(first: FirstFrame, budget_bytes: u64, ceiling: usize) -> (r: usize)
    requires
        ceiling >= 1,
    ensures
        r == match first {
            FirstFrame::Nothing => 1,
            FirstFrame::Unreadable => if ceiling < 4 {
                ceiling as int
            } else {
                4
            },
            FirstFrame::Opened { required_bytes } => {
                let per_frame: int = match required_bytes {
                    Some(n) => if n > 0 {
                        n as int
                    } else {
                        1
                    },
                    None => 67_108_864,
                };
                clamped_workers(budget_bytes as int / per_frame, ceiling as int)
            },
        },
{
    match first {
        FirstFrame::Nothing => 1,
        FirstFrame::Unreadable => if ceiling < 4 {
            ceiling
        } else {
            4
        },
        FirstFrame::Opened { required_bytes } => {
            let per_frame: u64 = match required_bytes {
                Some(n) => if n > 0 {
                    n as u64
                } else {
                    1
                },
                None => 67_108_864,
            };
            let wanted = budget_bytes / per_frame;
            if wanted < 1 {
                1
            } else if wanted > ceiling as u64 {
                ceiling
            } else {
                wanted as usize
            }
        },
    }
}

/// A worker count held within one and the ceiling.
pub open spec fn clamped_workers(wanted: int, ceiling: int) -> int {
    if wanted < 1 {
        1
    } else if wanted > ceiling {
        ceiling
    } else {
        wanted
    }
}

/// Cap on transient memory during the metadata pass: opening a frame can
/// allocate a full-frame buffer and free it again, so an unbounded pool turns
/// a metadata scan into gigabytes of transient commit.
pub const DEFAULT_OPEN_BUDGET_BYTES: u64 = 536_870_912;

/// How a scan reads what it was pointed at.
pub struct ScanOptions {
    pub rules: Vec<RoleRule>,
    /// Whether a folder's subfolders are read as well. Off by default: a
    /// subfolder inside a folder of lights is, far more often than not, where
    /// the frames that should not be stacked were put.
    pub recursive: bool,
    pub open_budget_bytes: u64,
    /// Read folder and file names as evidence. Proposals only; nothing is
    /// assigned from them.
    pub infer_from_paths: bool,
    /// File names the user asked to leave out, compared without case. The
    /// frames are still scanned and still appear, marked as excluded by the
    /// user.
    pub excluded: Vec<String>,
}

impl Default for ScanOptions {
    fn default() -> (r: ScanOptions)
        ensures
            r.rules@.len() == 0,
            !r.recursive,
            r.open_budget_bytes == DEFAULT_OPEN_BUDGET_BYTES,
            r.infer_from_paths,
            r.excluded@.len() == 0,
    {
        ScanOptions {
            rules: Vec::new(),
            recursive: false,
            open_budget_bytes: DEFAULT_OPEN_BUDGET_BYTES,
            infer_from_paths: true,
            excluded: Vec::new(),
        }
    }
}

/// What a scan copies out of an open frame before dropping it.
pub struct Scanned {
    pub layout: ImageLayout,
    pub info: FrameInfo,
    pub plugin: String,
    pub fingerprint: FrameFingerprint,
}

/// `Path::file_name`, as text, or the empty text where the path has none.
#[verifier::external_body]
fn path_file_name(path: &str) -> (r: String)
    ensures
        r@ == file_name_of(path@),
{
    match std::path::Path::new(path).file_name() {
        Some(name) => name.to_string_lossy().into_owned(),
        None => String::new(),
    }
}

/// The role a frame starts with: the kind its rule gives it; otherwise, when
/// paths are read as evidence, what they and the metadata propose; otherwise
/// nothing.
pub open spec fn role_is(role: FrameRole, kind: Option<FrameKind>, infer_from_paths: bool, path: Seq<char>, from_metadata: InferenceView) -> bool {
    match kind {
        Some(k) => role == FrameRole::Assigned(k),
        None => match role {
            FrameRole::Assigned(_) => false,
            FrameRole::Unassigned { inference } => inference@ == if infer_from_paths {
                if infer_path_view(path) is NoEvidence {
                    from_metadata
                } else {
                    infer_path_view(path)
                }
            } else {
                InferenceView::NoEvidence
            },
        },
    }
}

/// The role a frame starts with.
pub fn role_for(kind: Option<FrameKind>, infer_from_paths: bool, path: &str, from_metadata: Inference) -> (r: FrameRole)
    ensures
        role_is(r, kind, infer_from_paths, path@, from_metadata@),
{
    match kind {
        Some(kind) => FrameRole::Assigned(kind),
        None => if infer_from_paths {
            FrameRole::Unassigned { inference: infer(path, from_metadata) }
        } else {
            FrameRole::Unassigned { inference: Inference::NoEvidence }
        },
    }
}

/// The directory a path is filed under: its parent, or `.` for one without.
pub open spec fn directory_text(path: Seq<char>) -> Seq<char> {
    match path_parent_of(path) {
        Some(parent) => presentable_text(parent),
        None => presentable_text("."@),
    }
}

/// The deepest claiming rule's group name, where it has one.
pub open spec fn rule_group(rules: Seq<RoleRule>, path: Seq<char>) -> Option<Seq<char>> {
    match deepest_of(rules, path, rules.len() as int) {
        Some(i) => match rules[i].group_name {
            Some(g) => Some(g@),
            None => None,
        },
        None => None,
    }
}

/// The deepest claiming rule's kind, where it gives one.
pub open spec fn rule_kind(rules: Seq<RoleRule>, path: Seq<char>) -> Option<FrameKind> {
    match deepest_of(rules, path, rules.len() as int) {
        Some(i) => rules[i].kind,
        None => None,
    }
}

/// Files a frame found by a scan into the session, as a new record at the
/// end.
///
/// The deepest rule that claims the path decides the group and the kind. The
/// frame is excluded, by the user, when its file name is one the user asked
/// to leave out, compared without case: matched on the name rather than the
/// whole path, because a name is what the report prints and what the user can
/// copy back out of it.
#[verifier::rlimit(40)]
pub fn insert_scanned(session: &mut Session, options: &ScanOptions, path: &str, scanned: Scanned, from_metadata: Inference) -> (r: FrameId)
    requires
        old(session).wf(),
        old(session).records().len() < u32::MAX,
        old(session).directory_names().len() < u32::MAX,
        old(session).plugin_names().len() < u16::MAX,
        old(session).group_names().len() < u16::MAX - 1,
    ensures
        final(session).wf(),
        r.0 == old(session).records().len(),
        final(session).records().len() == old(session).records().len() + 1,
        final(session).records().take(old(session).records().len() as int) == old(session).records(),
        (final(session).directory_names(), final(session).records()[r.0 as int].source.directory.0 as int)
            == interned(old(session).directory_names(), directory_text(path@)),
        (final(session).plugin_names(), final(session).records()[r.0 as int].source.plugin.0 as int) == interned(
            old(session).plugin_names(),
            scanned.plugin@,
        ),
        match rule_group(options.rules@, path@) {
            Some(name) => (final(session).group_names(), final(session).records()[r.0 as int].group.0 as int)
                == interned(with_main(old(session).group_names()), name),
            None => final(session).group_names() == old(session).group_names()
                && final(session).records()[r.0 as int].group.0 == 0,
        },
        ({
            let record = final(session).records()[r.0 as int];
            &&& record.source.file_name@ == file_name_of(path@)
            &&& record.source.fingerprint == scanned.fingerprint
            &&& record.layout == scanned.layout
            &&& record.info == scanned.info
            &&& record.body.make@ == scanned.info.camera_make@
            &&& record.body.model@ == scanned.info.camera_model@
            &&& record.body.serial is None
            &&& role_is(record.role, rule_kind(options.rules@, path@), options.infer_from_paths, path@, from_metadata@)
            &&& record.exclusion == if named_among(options.excluded@, file_name_of(path@)) {
                Some(Exclusion { reason: Rejection::Excluded, by: ExclusionSource::User })
            } else {
                None
            }
        }),
{
    let rule = deepest_rule(&options.rules, path);
    let (group_name, kind) = match rule {
        Some(rule) => (
            match &rule.group_name {
                Some(name) => Some(name.as_str()),
                None => None,
            },
            rule.kind,
        ),
        None => (None, None),
    };
    let group = match group_name {
        Some(name) => session.intern_group(name),
        None => GroupId::main(),
    };
    let role = role_for(kind, options.infer_from_paths, path, from_metadata);
    let parent = match path_parent(path) {
        Some(parent) => presentable(parent.as_str()),
        None => presentable("."),
    };
    let directory = session.intern_directory(parent.as_str());
    let plugin = session.intern_plugin(scanned.plugin.as_str());
    let file_name = path_file_name(path);
    let exclusion = if any_same_ignoring_case(&options.excluded, file_name.as_str()) {
        Some(Exclusion { reason: Rejection::Excluded, by: ExclusionSource::User })
    } else {
        None
    };
    let body = BodyKey::from_info(&scanned.info);
    let ghost before = session.records();
    let id = session.insert(
        FrameRecord {
            source: FrameSource { directory, file_name, plugin, fingerprint: scanned.fingerprint },
            layout: scanned.layout,
            body,
            info: scanned.info,
            role,
            group,
            exclusion,
        },
    );
    proof {
        assert(session.records().take(before.len() as int) =~= before);
    }
    id
}

/// What the user pointed a run at, one list of roots per kind.
pub struct Roots {
    pub lights: Vec<String>,
    pub darks: Vec<String>,
    pub flats: Vec<String>,
    pub biases: Vec<String>,
    pub dark_flats: Vec<String>,
}

/// The rules a list of roots of one kind makes, as (root, kind) pairs.
pub open spec fn rules_for(paths: Seq<String>, kind: FrameKind) -> Seq<(Seq<char>, Option<FrameKind>)> {
    paths.map_values(|p: String| (p@, Some(kind)))
}

/// A rule as the contracts see it: its root and its kind; it has no group.
pub open spec fn rule_view(r: RoleRule) -> (Seq<char>, Option<FrameKind>) {
    (r.root@, r.kind)
}

fn push_rules(rules: &mut Vec<RoleRule>, paths: &Vec<String>, kind: FrameKind)
    ensures
        final(rules)@.map_values(|r: RoleRule| rule_view(r)) == old(rules)@.map_values(|r: RoleRule| rule_view(r))
            + rules_for(paths@, kind),
        forall|i: int| 0 <= i < final(rules)@.len() ==> (i < old(rules)@.len() ==> #[trigger] final(rules)@[i]
            == old(rules)@[i]) && (i >= old(rules)@.len() ==> final(rules)@[i].group_name is None),
{
    let ghost start = rules@;
    let mut i: usize = 0;
    while i < paths.len()
        invariant
            i <= paths@.len(),
            rules@.len() == start.len() + i,
            rules@.map_values(|r: RoleRule| rule_view(r)) == start.map_values(|r: RoleRule| rule_view(r))
                + rules_for(paths@.take(i as int), kind),
            forall|j: int| 0 <= j < rules@.len() ==> (j < start.len() ==> #[trigger] rules@[j] == start[j]) && (j
                >= start.len() ==> rules@[j].group_name is None),
        decreases paths@.len() - i,
    {
        let ghost before = rules@;
        rules.push(RoleRule::new(paths[i].as_str(), Some(kind)));
        proof {
            assert(rules_for(paths@.take(i + 1), kind) =~= rules_for(paths@.take(i as int), kind).push(
                (paths@[i as int]@, Some(kind)),
            ));
            assert(rules@.map_values(|r: RoleRule| rule_view(r)) =~= before.map_values(|r: RoleRule| rule_view(r)).push(
                (paths@[i as int]@, Some(kind)),
            ));
        }
        i = i + 1;
    }
    proof {
        assert(paths@.take(paths@.len() as int) =~= paths@);
    }
}

impl Roots {
    /// The rules the roots make: every root claims its frames as its list's
    /// kind, lights first, then darks, flats, biases and dark flats, each list
    /// in order; none names a group.
    pub fn rules(&self) -> (r: Vec<RoleRule>)
        ensures
            r@.map_values(|r: RoleRule| rule_view(r)) == rules_for(self.lights@, FrameKind::Light) + rules_for(
                self.darks@,
                FrameKind::Dark,
            ) + rules_for(self.flats@, FrameKind::Flat) + rules_for(self.biases@, FrameKind::Bias) + rules_for(
                self.dark_flats@,
                FrameKind::DarkFlat,
            ),
            forall|i: int| 0 <= i < r@.len() ==> (#[trigger] r@[i]).group_name is None,
    {
        let mut rules: Vec<RoleRule> = Vec::new();
        proof {
            assert(rules@.map_values(|r: RoleRule| rule_view(r)) =~= seq![]);
        }
        push_rules(&mut rules, &self.lights, FrameKind::Light);
        push_rules(&mut rules, &self.darks, FrameKind::Dark);
        push_rules(&mut rules, &self.flats, FrameKind::Flat);
        push_rules(&mut rules, &self.biases, FrameKind::Bias);
        push_rules(&mut rules, &self.dark_flats, FrameKind::DarkFlat);
        proof {
            assert(rules@.map_values(|r: RoleRule| rule_view(r)) =~= rules_for(self.lights@, FrameKind::Light)
                + rules_for(self.darks@, FrameKind::Dark) + rules_for(self.flats@, FrameKind::Flat) + rules_for(
                self.biases@,
                FrameKind::Bias,
            ) + rules_for(self.dark_flats@, FrameKind::DarkFlat));
        }
        rules
    }
}


/// What a scan made of one file it offered to the decoders: the frame with
/// what its metadata proposes it is, or why it could not be opened.
pub type Outcome = Result<(Scanned, Inference), Rejection>;

/// The first of the files kept so far whose content matches `fingerprint`,
/// as its position among the kept ones.
pub open spec fn first_kept_with(opened: Seq<(String, Outcome)>, kept: Seq<int>, fingerprint: FrameFingerprint, n: int) -> Option<int>
    decreases n,
{
    if n <= 0 || n > kept.len() {
        None
    } else {
        match first_kept_with(opened, kept, fingerprint, n - 1) {
            Some(p) => Some(p),
            None => if same_content_of(opened[kept[n - 1]].1->Ok_0.0.fingerprint, fingerprint) {
                Some(n - 1)
            } else {
                None
            },
        }
    }
}

/// Which of the first `n` files are filed into the session, in order: those
/// that opened, and whose content no earlier kept file had.
pub open spec fn kept_upto(opened: Seq<(String, Outcome)>, n: int) -> Seq<int>
    decreases n,
{
    if n <= 0 {
        seq![]
    } else {
        let kept = kept_upto(opened, n - 1);
        match opened[n - 1].1 {
            Ok(pair) => if first_kept_with(opened, kept, pair.0.fingerprint, kept.len() as int) is None {
                kept.push(n - 1)
            } else {
                kept
            },
            Err(_) => kept,
        }
    }
}

/// The files among the first `n` that are turned away, each with its shown
/// path and why: the reason it could not be opened, or the frame already in
/// the session with the same bytes.
pub open spec fn turned_away(opened: Seq<(String, Outcome)>, n: int) -> Seq<(Seq<char>, Rejection)>
    decreases n,
{
    if n <= 0 {
        seq![]
    } else {
        let rest = turned_away(opened, n - 1);
        let kept = kept_upto(opened, n - 1);
        let shown = presentable_text(opened[n - 1].0@);
        match opened[n - 1].1 {
            Err(reason) => rest.push((shown, reason)),
            Ok(pair) => match first_kept_with(opened, kept, pair.0.fingerprint, kept.len() as int) {
                Some(p) => rest.push((shown, Rejection::Duplicate { of: FrameId(p as u32) })),
                None => rest,
            },
        }
    }
}

/// What a record filed from a path and a scanned frame holds, whatever the
/// session's tables held before.
pub open spec fn filed_as(record: FrameRecord, options: ScanOptions, path: Seq<char>, scanned: Scanned, from_metadata: InferenceView) -> bool {
    &&& record.source.file_name@ == file_name_of(path)
    &&& record.source.fingerprint == scanned.fingerprint
    &&& record.layout == scanned.layout
    &&& record.info == scanned.info
    &&& role_is(record.role, rule_kind(options.rules@, path), options.infer_from_paths, path, from_metadata)
    &&& record.exclusion == if named_among(options.excluded@, file_name_of(path)) {
        Some(Exclusion { reason: Rejection::Excluded, by: ExclusionSource::User })
    } else {
        None
    }
}

/// Entry `j` of what a scan opened is a frame, and `record` is what filing it
/// holds.
pub open spec fn filed_from(opened: Seq<(String, Outcome)>, j: int, record: FrameRecord, options: ScanOptions) -> bool {
    opened[j].1 matches Ok(pair) && filed_as(record, options, opened[j].0@, pair.0, pair.1@)
}

proof fn lemma_kept_in_range(opened: Seq<(String, Outcome)>, n: int)
    ensures
        kept_upto(opened, n).len() <= if n < 0 { 0 } else { n },
        forall|k: int| 0 <= k < kept_upto(opened, n).len() ==> 0 <= #[trigger] kept_upto(opened, n)[k] < n,
    decreases n,
{
    if n > 0 {
        lemma_kept_in_range(opened, n - 1);
    }
}

proof fn lemma_first_kept(records: Seq<FrameRecord>, opened: Seq<(String, Outcome)>, kept: Seq<int>, fingerprint: FrameFingerprint, n: int)
    requires
        records.len() == kept.len(),
        forall|k: int| 0 <= k < kept.len() ==> 0 <= #[trigger] kept[k] < opened.len() && opened[kept[k]].1 is Ok
            && records[k].source.fingerprint == opened[kept[k]].1->Ok_0.0.fingerprint,
    ensures
        first_with_content(records, fingerprint, n) == first_kept_with(opened, kept, fingerprint, n),
    decreases n,
{
    if n > 0 && n <= kept.len() {
        lemma_first_kept(records, opened, kept, fingerprint, n - 1);
    }
}

/// The decoder names of the files among the first `n` that opened.
pub open spec fn plugin_list(opened: Seq<(String, Outcome)>, n: int) -> Seq<Seq<char>>
    decreases n,
{
    if n <= 0 {
        seq![]
    } else {
        let rest = plugin_list(opened, n - 1);
        match opened[n - 1].1 {
            Ok(pair) => rest.push(pair.0.plugin@),
            Err(_) => rest,
        }
    }
}

/// The group names a session filed by these rules can hold: the main group,
/// and every group a rule names.
pub open spec fn group_list(rules: Seq<RoleRule>, n: int) -> Seq<Seq<char>>
    decreases n,
{
    if n <= 0 {
        seq!["main"@]
    } else {
        let rest = group_list(rules, n - 1);
        match rules[n - 1].group_name {
            Some(g) => rest.push(g@),
            None => rest,
        }
    }
}

proof fn lemma_plugin_listed(opened: Seq<(String, Outcome)>, i: int, n: int)
    requires
        0 <= i < n <= opened.len(),
        opened[i].1 is Ok,
    ensures
        plugin_list(opened, n).contains(opened[i].1->Ok_0.0.plugin@),
    decreases n,
{
    if i < n - 1 {
        lemma_plugin_listed(opened, i, n - 1);
        let rest = plugin_list(opened, n - 1);
        let k = choose|k: int| 0 <= k < rest.len() && rest[k] == opened[i].1->Ok_0.0.plugin@;
        assert(plugin_list(opened, n)[k] == rest[k]);
    } else {
        let all = plugin_list(opened, n);
        assert(all[all.len() - 1] == opened[i].1->Ok_0.0.plugin@);
    }
}

proof fn lemma_group_listed(rules: Seq<RoleRule>, j: int, n: int)
    requires
        0 <= n <= rules.len(),
    ensures
        group_list(rules, n).contains("main"@),
        0 <= j < n && rules[j].group_name is Some ==> group_list(rules, n).contains(rules[j].group_name->0@),
    decreases n,
{
    if n > 0 {
        lemma_group_listed(rules, j, n - 1);
        let rest = group_list(rules, n - 1);
        let all = group_list(rules, n);
        assert forall|x: Seq<char>| rest.contains(x) implies all.contains(x) by {
            let k = choose|k: int| 0 <= k < rest.len() && rest[k] == x;
            assert(all[k] == rest[k]);
        }
        if j == n - 1 && rules[j].group_name is Some {
            assert(all[all.len() - 1] == rules[j].group_name->0@);
        }
    } else {
        assert(group_list(rules, 0)[0] == "main"@);
    }
}

proof fn lemma_position_absent(names: Seq<Seq<char>>, name: Seq<char>, n: int)
    requires
        0 <= n <= names.len(),
        position(names, name, n) is None,
    ensures
        forall|k: int| 0 <= k < n ==> names[k] != name,
    decreases n,
{
    if n > 0 {
        lemma_position_absent(names, name, n - 1);
    }
}

/// Interning keeps a table free of repeats, and adds at most the one name.
proof fn lemma_interned_distinct(names: Seq<Seq<char>>, name: Seq<char>)
    requires
        names.no_duplicates(),
    ensures
        interned(names, name).0.no_duplicates(),
        interned(names, name).0 == names || interned(names, name).0 == names.push(name),
{
    if position(names, name, names.len() as int) is None {
        lemma_position_absent(names, name, names.len() as int);
        let grown = names.push(name);
        assert forall|a: int, b: int| 0 <= a < b < grown.len() implies grown[a] != grown[b] by {
            if b == names.len() {
                assert(names[a] != name);
            }
        }
    }
}

/// A table without repeats whose names all come from `pool` is no longer than
/// the number of distinct names in it.
proof fn lemma_distinct_within(table: Seq<Seq<char>>, pool: Seq<Seq<char>>)
    requires
        table.no_duplicates(),
        forall|k: int| 0 <= k < table.len() ==> pool.contains(#[trigger] table[k]),
    ensures
        table.len() <= pool.to_set().len(),
{
    table.unique_seq_to_set();
    assert(table.to_set().subset_of(pool.to_set()));
    pool.lemma_cardinality_of_set();
    vstd::set_lib::lemma_len_subset(table.to_set(), pool.to_set());
}

/// Files what a scan opened into a new session, in the order given: a file
/// that could not be opened is turned away with its reason, a file whose
/// bytes a kept file already had is turned away as a duplicate of that frame,
/// and every other file is filed as a new frame by [`insert_scanned`]. Of
/// several copies of the same bytes, the first in the order given is the one
/// kept. A session numbers its frames and directories in `u32`, its decoders
/// and groups in `u16`: the files, the distinct decoder names and the distinct
/// group names the rules give must fit.
pub fn gather(options: &ScanOptions, opened: Vec<(String, Outcome)>) -> (r: (Session, Vec<(String, Rejection)>))
    requires
        opened@.len() < u32::MAX,
        plugin_list(opened@, opened@.len() as int).to_set().len() < u16::MAX,
        group_list(options.rules@, options.rules@.len() as int).to_set().len() < u16::MAX - 1,
    ensures
        r.0.wf(),
        r.0.records().len() == kept_upto(opened@, opened@.len() as int).len(),
        forall|k: int|
            0 <= k < r.0.records().len() ==> {
                let i = kept_upto(opened@, opened@.len() as int)[k];
                &&& 0 <= i < opened@.len()
                &&& filed_from(opened@, i, #[trigger] r.0.records()[k], *options)
            },
        r.1@.len() == turned_away(opened@, opened@.len() as int).len(),
        forall|k: int|
            0 <= k < r.1@.len() ==> (#[trigger] r.1@[k]).0@ == turned_away(opened@, opened@.len() as int)[k].0
                && r.1@[k].1 == turned_away(opened@, opened@.len() as int)[k].1,
{
    let ghost given = opened@;
    let mut opened = opened;
    let mut session = Session::new();
    let mut rejected: Vec<(String, Rejection)> = Vec::new();
    let mut i: usize = 0;
    let ghost mut kept_now: Seq<int> = seq![];
    while opened.len() > 0
        invariant
            i <= given.len(),
            given.len() < u32::MAX,
            plugin_list(given, given.len() as int).to_set().len() < u16::MAX,
            group_list(options.rules@, options.rules@.len() as int).to_set().len() < u16::MAX - 1,
            opened@ == given.skip(i as int),
            session.wf(),
            session.plugin_names().no_duplicates(),
            forall|q: int|
                0 <= q < session.plugin_names().len() ==> plugin_list(given, given.len() as int).contains(
                    #[trigger] session.plugin_names()[q],
                ),
            session.group_names().no_duplicates(),
            forall|q: int|
                0 <= q < session.group_names().len() ==> group_list(options.rules@, options.rules@.len() as int).contains(
                    #[trigger] session.group_names()[q],
                ),
            session.records().len() == kept_upto(given, i as int).len(),
            session.records().len() <= i,
            session.directory_names().len() <= i,
            kept_now == kept_upto(given, i as int),
            forall|k: int|
                0 <= k < session.records().len() ==> filed_from(given, kept_now[k], #[trigger] session.records()[k], *options),
            rejected@.len() == turned_away(given, i as int).len(),
            forall|k: int|
                0 <= k < rejected@.len() ==> (#[trigger] rejected@[k]).0@ == turned_away(given, i as int)[k].0
                    && rejected@[k].1 == turned_away(given, i as int)[k].1,
        decreases opened@.len(),
    {
        proof {
            assert(given.skip(i as int)[0] == given[i as int]);
        }
        let ghost entry = given[i as int];
        let (path, outcome) = opened.remove(0);
        proof {
            assert(opened@ =~= given.skip(i + 1));
            assert(path == entry.0 && outcome == entry.1);
        }
        let ghost kept = kept_upto(given, i as int);
        let ghost next = kept_upto(given, i + 1);
        let ghost before = rejected@;
        let ghost records = session.records();
        proof {
            lemma_kept_in_range(given, i as int);
            lemma_kept_in_range(given, i + 1);
        }
        match outcome {
            Err(reason) => {
                let shown = presentable(path.as_str());
                rejected.push((shown, reason));
                proof {
                    assert(kept_upto(given, i + 1) == kept);
                }
            },
            Ok((scanned, from_metadata)) => {
                proof {
                    lemma_first_kept(records, given, kept, scanned.fingerprint, kept.len() as int);
                }
                match session.find_by_content(scanned.fingerprint) {
                    Some(existing) => {
                        let shown = presentable(path.as_str());
                        rejected.push((shown, Rejection::Duplicate { of: existing }));
                        proof {
                            assert(kept_upto(given, i + 1) == kept);
                        }
                    },
                    None => {
                        let ghost s = scanned;
                        let ghost m = from_metadata;
                        let ghost plugins_before = session.plugin_names();
                        let ghost groups_before = session.group_names();
                        let ghost all_plugins = plugin_list(given, given.len() as int);
                        let ghost all_groups = group_list(options.rules@, options.rules@.len() as int);
                        proof {
                            lemma_distinct_within(plugins_before, all_plugins);
                            lemma_distinct_within(groups_before, all_groups);
                        }
                        let id = insert_scanned(&mut session, options, path.as_str(), scanned, from_metadata);
                        proof {
                            lemma_interned_distinct(plugins_before, s.plugin@);
                            lemma_plugin_listed(given, i as int, given.len() as int);
                            assert forall|q: int| 0 <= q < session.plugin_names().len() implies all_plugins.contains(
                                #[trigger] session.plugin_names()[q],
                            ) by {
                                if q < plugins_before.len() {
                                    assert(session.plugin_names()[q] == plugins_before[q]);
                                }
                            }
                            let rules = options.rules@;
                            lemma_deepest_in_range(rules, path@, rules.len() as int);
                            match deepest_of(rules, path@, rules.len() as int) {
                                Some(j) => lemma_group_listed(rules, j, rules.len() as int),
                                None => lemma_group_listed(rules, 0, rules.len() as int),
                            }
                            match rule_group(rules, path@) {
                                Some(name) => {
                                    let base = with_main(groups_before);
                                    assert(base.no_duplicates());
                                    assert(forall|q: int| 0 <= q < base.len() ==> all_groups.contains(#[trigger] base[q]));
                                    lemma_interned_distinct(base, name);
                                    assert forall|q: int| 0 <= q < session.group_names().len() implies all_groups.contains(
                                        #[trigger] session.group_names()[q],
                                    ) by {
                                        if q < base.len() {
                                            assert(session.group_names()[q] == base[q]);
                                        }
                                    }
                                },
                                None => {},
                            }
                            assert(filed_as(session.records()[id.0 as int], *options, path@, s, m@));
                            assert(entry.1 == Ok::<(Scanned, Inference), Rejection>((s, m)));
                            assert(kept_upto(given, i + 1) == kept.push(i as int));
                            assert forall|k: int| 0 <= k < session.records().len() implies {
                                let j = kept_upto(given, i + 1)[k];
                                &&& 0 <= j < i + 1
                                &&& filed_from(given, j, #[trigger] session.records()[k], *options)
                            } by {
                                if k < records.len() {
                                    assert(session.records()[k] == records[k]);
                                } else {
                                    assert(k == id.0);
                                    assert(kept_upto(given, i + 1)[k] == i);
                                }
                            }
                        }
                    },
                }
            },
        }
        proof {
            assert(next == kept || next == kept.push(i as int));
            assert forall|k: int| 0 <= k < session.records().len() implies {
                let j = next[k];
                &&& 0 <= j < i + 1
                &&& filed_from(given, j, #[trigger] session.records()[k], *options)
            } by {
                if k < records.len() {
                    assert(session.records()[k] == records[k]);
                    assert(next[k] == kept[k]);
                }
            }
            assert forall|k: int| 0 <= k < rejected@.len() implies (#[trigger] rejected@[k]).0@ == turned_away(
                given,
                i + 1,
            )[k].0 && rejected@[k].1 == turned_away(given, i + 1)[k].1 by {
                if k < before.len() {
                    assert(rejected@[k] == before[k]);
                }
            }
        }
        i = i + 1;
        proof {
            assert(kept_upto(given, i as int) == next);
            kept_now = next;
        }
    }
    proof {
        assert(given.skip(i as int).len() == 0);
        assert(i == given.len());
        lemma_kept_in_range(given, given.len() as int);
    }
    (session, rejected)
}

} // verus!

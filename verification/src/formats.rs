//! The decisions the format registry makes: which decoder a file goes to,
//! which layouts are refused before anything is allocated, which decoder ids
//! clash, and which files in a plugin directory are plugins.
use vstd::prelude::*;

use crate::error::Error;
use crate::frame::{required_bytes_of, ImageLayout, PROBE_CERTAIN};
use crate::session::{begins_with, starts_with};
use crate::text::{chars_of, string_of};

verus! {

/// The index, among the first `n` bids, of the winning one: a negative bid is
/// no bid, a bid above certain counts as certain, and of equal bids the first
/// wins.
pub open spec fn winning_bid(scores: Seq<i32>, n: int) -> Option<int>
    decreases n,
{
    if n <= 0 || n > scores.len() {
        None
    } else {
        let best = winning_bid(scores, n - 1);
        if scores[n - 1] < 0 {
            best
        } else {
            match best {
                Some(b) => if capped(scores[n - 1]) > capped(scores[b]) {
                    Some(n - 1)
                } else {
                    Some(b)
                },
                None => Some(n - 1),
            }
        }
    }
}

/// A bid, capped at certain.
pub open spec fn capped(score: i32) -> i32 {
    if score < PROBE_CERTAIN {
        score
    } else {
        PROBE_CERTAIN
    }
}

proof fn lemma_winning_bid_in_range(scores: Seq<i32>, n: int)
    ensures
        winning_bid(scores, n) matches Some(i) ==> 0 <= i < n && i < scores.len() && scores[i] >= 0,
    decreases n,
{
    if n > 0 && n <= scores.len() {
        lemma_winning_bid_in_range(scores, n - 1);
    }
}

/// Which decoder a file goes to, given what each one bid for it in
/// registration order; `None` when none bid.
pub fn best_bid(scores: &Vec<i32>) -> (r: Option<usize>)
    ensures
        match winning_bid(scores@, scores@.len() as int) {
            Some(i) => r == Some(i as usize),
            None => r is None,
        },
{
    let mut best: Option<usize> = None;
    let mut best_score: i32 = 0;
    let mut i: usize = 0;
    while i < scores.len()
        invariant
            i <= scores@.len(),
            match winning_bid(scores@, i as int) {
                Some(b) => best == Some(b as usize) && best_score == capped(scores@[b]),
                None => best is None,
            },
        decreases scores@.len() - i,
    {
        proof {
            lemma_winning_bid_in_range(scores@, i as int);
        }
        let score = scores[i];
        if score >= 0 {
            let score = if score < PROBE_CERTAIN {
                score
            } else {
                PROBE_CERTAIN
            };
            match best {
                Some(_) => if score > best_score {
                    best = Some(i);
                    best_score = score;
                },
                None => {
                    best = Some(i);
                    best_score = score;
                },
            }
        }
        i = i + 1;
    }
    proof {
        lemma_winning_bid_in_range(scores@, scores@.len() as int);
    }
    best
}

/// The winning bid is a bid, and no bid beats it: every other bid, capped, is
/// no higher, and every earlier one is lower.
pub proof fn law_the_highest_bid_wins(scores: Seq<i32>, n: int)
    requires
        0 <= n <= scores.len(),
    ensures
        winning_bid(scores, n) matches Some(w) ==> 0 <= w < n && scores[w] >= 0 && forall|j: int|
            0 <= j < n && scores[j] >= 0 ==> capped(#[trigger] scores[j]) <= capped(scores[w]) && (j < w
                ==> capped(scores[j]) < capped(scores[w])),
        winning_bid(scores, n) is None ==> forall|j: int| 0 <= j < n ==> #[trigger] scores[j] < 0,
    decreases n,
{
    lemma_winning_bid_in_range(scores, n);
    if n > 0 {
        law_the_highest_bid_wins(scores, n - 1);
        lemma_winning_bid_in_range(scores, n - 1);
    }
}

/// Why a layout is refused before anything is allocated against it, or
/// `None` when the buffer it describes is meaningful.
pub open spec fn layout_problem_of(layout: ImageLayout) -> Option<Seq<char>> {
    if layout.width == 0 || layout.height == 0 {
        Some("frame has zero width or height"@)
    } else if layout.components == 0 {
        Some("frame has no components"@)
    } else if !(layout.sample_format.0 == 0 || layout.sample_format.0 == 1) {
        Some("frame uses an unknown sample format"@)
    } else if required_bytes_of(layout) is None {
        Some("frame dimensions overflow a buffer size"@)
    } else {
        None
    }
}

/// Refuses a layout that would make the buffer meaningless, so that later
/// code can treat the dimensions as trustworthy.
pub fn layout_problem(layout: &ImageLayout) -> (r: Option<&'static str>)
    ensures
        match layout_problem_of(*layout) {
            Some(reason) => r matches Some(text) && text@ == reason,
            None => r is None,
        },
{
    if layout.width == 0 || layout.height == 0 {
        Some("frame has zero width or height")
    } else if layout.components == 0 {
        Some("frame has no components")
    } else if layout.sample_format.bytes_per_sample() == 0 {
        Some("frame uses an unknown sample format")
    } else if layout.required_bytes().is_none() {
        Some("frame dimensions overflow a buffer size")
    } else {
        None
    }
}

/// Refuses a decoder whose id one already registered holds: two decoders
/// under one name means reports that name something that cannot be looked
/// up.
pub fn refuse_duplicate_id(held: &Vec<String>, id: &str) -> (r: Result<(), Error>)
    ensures
        r is Ok <==> forall|i: int| 0 <= i < held@.len() ==> #[trigger] held@[i]@ != id@,
        r matches Err(e) ==> e matches Error::DuplicateFormatId { id: taken } && taken@ == id@,
{
    let wanted = chars_of(id);
    let mut i: usize = 0;
    while i < held.len()
        invariant
            i <= held@.len(),
            wanted@ == id@,
            forall|j: int| 0 <= j < i ==> #[trigger] held@[j]@ != id@,
        decreases held@.len() - i,
    {
        if crate::text::same_chars(&chars_of(held[i].as_str()), &wanted) {
            return Err(Error::DuplicateFormatId { id: string_of(&wanted) });
        }
        i = i + 1;
    }
    Ok(())
}

/// File names that make a file in a plugin directory a plugin: the
/// platform's library extension, compared without case, and a stem that,
/// once the platform's library prefix is taken off where it is there, starts
/// with `astro_format_`.
pub const PLUGIN_FILE_PREFIX: &'static str = "astro_format_";

/// Whether a file is a plugin, given its extension and stem and the
/// platform's library extension and prefix (`dll` and nothing on Windows,
/// `so` and `lib` on Linux).
pub fn is_plugin_file_name(
    extension: Option<&str>,
    stem: Option<&str>,
    library_extension: &str,
    library_prefix: &str,
) -> (r: bool)
    ensures
        r == (match (extension, stem) {
            (Some(e), Some(s)) => crate::text::lower_seq(e@) == crate::text::lower_seq(library_extension@)
                && starts_with(
                if starts_with(s@, library_prefix@) {
                    s@.skip(library_prefix@.len() as int)
                } else {
                    s@
                },
                PLUGIN_FILE_PREFIX@,
            ),
            _ => false,
        }),
{
    let extension = match extension {
        Some(e) => e,
        None => return false,
    };
    if !crate::scan::same_ignoring_ascii_case(extension, library_extension) {
        return false;
    }
    let stem = match stem {
        Some(s) => s,
        None => return false,
    };
    let chars = chars_of(stem);
    let prefix = chars_of(library_prefix);
    let rest = if begins_with(&chars, &prefix) {
        let mut rest: Vec<char> = Vec::new();
        let mut i: usize = prefix.len();
        while i < chars.len()
            invariant
                prefix@.len() <= i <= chars@.len(),
                rest@ == chars@.subrange(prefix@.len() as int, i as int),
            decreases chars@.len() - i,
        {
            rest.push(chars[i]);
            proof {
                assert(rest@ =~= chars@.subrange(prefix@.len() as int, i + 1));
            }
            i = i + 1;
        }
        proof {
            assert(rest@ =~= chars@.skip(prefix@.len() as int));
        }
        rest
    } else {
        chars
    };
    begins_with(&rest, &chars_of(PLUGIN_FILE_PREFIX))
}

/// Whether `a` sorts before `b` the way strings do: by code point, a prefix
/// first.
pub open spec fn text_less(a: Seq<char>, b: Seq<char>) -> bool
    decreases a.len(),
{
    if a.len() == 0 {
        b.len() > 0
    } else if b.len() == 0 {
        false
    } else if a[0] != b[0] {
        a[0] < b[0]
    } else {
        text_less(a.skip(1), b.skip(1))
    }
}

proof fn lemma_text_less_irreflexive(a: Seq<char>)
    ensures
        !text_less(a, a),
    decreases a.len(),
{
    if a.len() > 0 {
        lemma_text_less_irreflexive(a.skip(1));
    }
}

proof fn lemma_text_less_transitive(a: Seq<char>, b: Seq<char>, c: Seq<char>)
    requires
        text_less(a, b),
        text_less(b, c),
    ensures
        text_less(a, c),
    decreases a.len(),
{
    if a.len() > 0 && b.len() > 0 && c.len() > 0 && a[0] == b[0] && b[0] == c[0] {
        lemma_text_less_transitive(a.skip(1), b.skip(1), c.skip(1));
    }
}

proof fn lemma_text_less_total(a: Seq<char>, b: Seq<char>)
    ensures
        a == b || text_less(a, b) || text_less(b, a),
    decreases a.len(),
{
    if a.len() > 0 && b.len() > 0 {
        if a[0] == b[0] {
            lemma_text_less_total(a.skip(1), b.skip(1));
            if a.skip(1) == b.skip(1) {
                assert(a =~= seq![a[0]] + a.skip(1));
                assert(b =~= seq![b[0]] + b.skip(1));
            }
        }
    } else if a.len() == 0 && b.len() == 0 {
        assert(a =~= b);
    }
}

/// Whether `a` sorts before `b`, as strings compare.
fn is_less(a: &Vec<char>, b: &Vec<char>) -> (r: bool)
    ensures
        r == text_less(a@, b@),
{
    let mut i: usize = 0;
    proof {
        assert(a@.skip(0) =~= a@);
        assert(b@.skip(0) =~= b@);
    }
    while i < a.len() && i < b.len()
        invariant
            i <= a@.len(),
            i <= b@.len(),
            a@.take(i as int) == b@.take(i as int),
            text_less(a@, b@) == text_less(a@.skip(i as int), b@.skip(i as int)),
        decreases a@.len() - i,
    {
        if a[i] != b[i] {
            proof {
                assert(a@.skip(i as int)[0] == a@[i as int]);
                assert(b@.skip(i as int)[0] == b@[i as int]);
            }
            return a[i] < b[i];
        }
        proof {
            assert(a@.skip(i as int).skip(1) =~= a@.skip(i + 1));
            assert(b@.skip(i as int).skip(1) =~= b@.skip(i + 1));
            assert(a@.take(i + 1) =~= a@.take(i as int).push(a@[i as int]));
            assert(b@.take(i + 1) =~= b@.take(i as int).push(b@[i as int]));
        }
        i = i + 1;
    }
    i < b.len()
}

/// Strictly ascending, so without repeats.
pub open spec fn strictly_sorted(v: Seq<Seq<char>>) -> bool {
    forall|i: int, j: int| 0 <= i < j < v.len() ==> text_less(#[trigger] v[i], #[trigger] v[j])
}

/// The texts among the first `i` lists, and the first `j` of list `i`.
pub open spec fn texts_before(lists: Seq<Vec<String>>, i: int, j: int) -> Set<Seq<char>> {
    Set::new(
        |t: Seq<char>|
            exists|a: int, b: int|
                0 <= a < lists.len() && 0 <= b < lists[a]@.len() && (a < i || (a == i && b < j))
                    && #[trigger] lists[a]@[b]@ == t,
    )
}

/// Every text of some lists of strings.
pub open spec fn all_texts(lists: Seq<Vec<String>>) -> Set<Seq<char>> {
    texts_before(lists, lists.len() as int, 0)
}

/// Inserts a text into a strictly sorted list of texts, unless it is already
/// there.
fn insert_sorted(sorted: &mut Vec<Vec<char>>, text: Vec<char>)
    requires
        strictly_sorted(old(sorted)@.map_values(|t: Vec<char>| t@)),
    ensures
        strictly_sorted(final(sorted)@.map_values(|t: Vec<char>| t@)),
        final(sorted)@.map_values(|t: Vec<char>| t@).to_set() == old(sorted)@.map_values(|t: Vec<char>| t@).to_set().insert(text@),
{
    let ghost before = sorted@.map_values(|t: Vec<char>| t@);
    let mut i: usize = 0;
    let mut searching = true;
    while searching && i < sorted.len()
        invariant
            i <= sorted@.len(),
            before == sorted@.map_values(|t: Vec<char>| t@),
            strictly_sorted(before),
            forall|k: int| 0 <= k < i ==> text_less(#[trigger] before[k], text@),
            !searching ==> i < sorted@.len() && !text_less(before[i as int], text@),
        decreases sorted@.len() - i + (if searching { 1int } else { 0int }),
    {
        if is_less(&sorted[i], &text) {
            i = i + 1;
        } else {
            searching = false;
        }
    }
    if i < sorted.len() && !is_less(&text, &sorted[i]) {
        // Neither sorts before the other: the text is already there.
        proof {
            lemma_text_less_total(text@, before[i as int]);
            assert(before[i as int] == text@);
            assert(before.to_set().insert(text@) =~= before.to_set()) by {
                assert(before.contains(text@));
            }
        }
        return;
    }
    sorted.insert(i, text);
    proof {
        let after = sorted@.map_values(|t: Vec<char>| t@);
        assert(after =~= before.insert(i as int, text@));
        assert forall|a: int, b: int| 0 <= a < b < after.len() implies text_less(#[trigger] after[a], #[trigger] after[b]) by {
            if b < i {
            } else if a < i && b == i {
            } else if a < i && b > i {
                assert(after[b] == before[b - 1]);
                if i < before.len() {
                    lemma_text_less_total(text@, before[i as int]);
                    lemma_text_less_transitive(after[a], text@, before[i as int]);
                    if b - 1 > i {
                        lemma_text_less_transitive(after[a], before[i as int], before[b - 1]);
                    }
                }
            } else if a == i {
                assert(after[b] == before[b - 1]);
                lemma_text_less_total(text@, before[i as int]);
                if b - 1 > i {
                    lemma_text_less_transitive(text@, before[i as int], before[b - 1]);
                }
            } else {
                assert(after[a] == before[a - 1]);
                assert(after[b] == before[b - 1]);
            }
        }
        assert(after.to_set() =~= before.to_set().insert(text@)) by {
            assert forall|t: Seq<char>| after.to_set().contains(t) <==> before.to_set().insert(text@).contains(t) by {
                if after.contains(t) {
                    let k = choose|k: int| 0 <= k < after.len() && after[k] == t;
                    if k < i {
                        assert(before[k] == t);
                    } else if k > i {
                        assert(before[k - 1] == t);
                    }
                }
                if before.contains(t) {
                    let k = choose|k: int| 0 <= k < before.len() && before[k] == t;
                    if k < i {
                        assert(after[k] == t);
                    } else {
                        assert(after[k + 1] == t);
                    }
                }
                if t == text@ {
                    assert(after[i as int] == t);
                }
            }
        }
    }
}

/// Every extension any decoder claims, each once, in ascending order: the
/// lists are what each registered decoder says it reads. Only a directory
/// walk is narrowed by them; a file the user names is opened whatever it is
/// called.
pub fn supported_extensions(lists: &Vec<Vec<String>>) -> (r: Vec<String>)
    ensures
        strictly_sorted(r@.map_values(|t: String| t@)),
        r@.map_values(|t: String| t@).to_set() == all_texts(lists@),
{
    let mut sorted: Vec<Vec<char>> = Vec::new();
    proof {
        assert(sorted@.map_values(|t: Vec<char>| t@).to_set() =~= texts_before(lists@, 0, 0));
    }
    let mut i: usize = 0;
    while i < lists.len()
        invariant
            i <= lists@.len(),
            strictly_sorted(sorted@.map_values(|t: Vec<char>| t@)),
            sorted@.map_values(|t: Vec<char>| t@).to_set() == texts_before(lists@, i as int, 0),
        decreases lists@.len() - i,
    {
        let list = &lists[i];
        let mut j: usize = 0;
        while j < list.len()
            invariant
                i < lists@.len(),
                list == lists@[i as int],
                j <= list@.len(),
                strictly_sorted(sorted@.map_values(|t: Vec<char>| t@)),
                sorted@.map_values(|t: Vec<char>| t@).to_set() == texts_before(lists@, i as int, j as int),
            decreases list@.len() - j,
        {
            insert_sorted(&mut sorted, chars_of(list[j].as_str()));
            proof {
                let next = list@[j as int]@;
                assert(texts_before(lists@, i as int, j + 1) =~= texts_before(lists@, i as int, j as int).insert(next)) by {
                    assert(lists@[i as int]@[j as int]@ == next);
                }
            }
            j = j + 1;
        }
        proof {
            assert(texts_before(lists@, i + 1, 0) =~= texts_before(lists@, i as int, list@.len() as int));
        }
        i = i + 1;
    }
    let mut out: Vec<String> = Vec::new();
    let mut k: usize = 0;
    while k < sorted.len()
        invariant
            k <= sorted@.len(),
            out@.map_values(|t: String| t@) == sorted@.take(k as int).map_values(|t: Vec<char>| t@),
        decreases sorted@.len() - k,
    {
        out.push(string_of(&sorted[k]));
        proof {
            assert(sorted@.take(k + 1).map_values(|t: Vec<char>| t@) =~= sorted@.take(k as int).map_values(
                |t: Vec<char>| t@,
            ).push(sorted@[k as int]@));
            assert(out@.map_values(|t: String| t@) =~= sorted@.take(k + 1).map_values(|t: Vec<char>| t@));
        }
        k = k + 1;
    }
    proof {
        assert(sorted@.take(sorted@.len() as int) =~= sorted@);
    }
    out
}

} // verus!

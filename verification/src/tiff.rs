//! The layout of a 16-bit TIFF, for programs that do not read FITS.
//!
//! The part of TIFF needed here is a header, one image file directory of
//! fifteen tags, and uncompressed samples. This module decides where every
//! byte goes and renders all of them except the samples, which are mapped
//! from floating point by the caller.
//!
//! The samples go first and the directory after them, which is legal (the
//! header points at the directory explicitly) and removes a circularity: the
//! strip offsets would otherwise depend on the size of the directory that
//! holds them.
use vstd::prelude::*;

use crate::fits::CREATOR;
use crate::text::{chars_of, concat, decimal, decimal_of, string_of};

verus! {

/// Bytes before the first sample.
pub const HEADER: usize = 8;

/// Rows are grouped so a strip lands near this size, which keeps a reader
/// from having to hold the whole image to decode one band of it.
pub const STRIP_TARGET: usize = 8_388_608;

/// A 16-bit value, little-endian.
pub open spec fn le16(x: u16) -> Seq<u8> {
    seq![(x % 256) as u8, (x / 256) as u8]
}

/// A 32-bit value, little-endian.
pub open spec fn le32(x: u32) -> Seq<u8> {
    seq![(x % 256) as u8, (x / 256 % 256) as u8, (x / 65536 % 256) as u8, (x / 16777216) as u8]
}

/// 16-bit values one after another, little-endian.
pub open spec fn le16s(values: Seq<u16>) -> Seq<u8>
    decreases values.len(),
{
    if values.len() == 0 {
        seq![]
    } else {
        le16s(values.drop_last()) + le16(values.last())
    }
}

/// 32-bit values one after another, little-endian.
pub open spec fn le32s(values: Seq<u32>) -> Seq<u8>
    decreases values.len(),
{
    if values.len() == 0 {
        seq![]
    } else {
        le32s(values.drop_last()) + le32(values.last())
    }
}

/// The UTF-8 bytes of one character.
pub open spec fn utf8_char(c: char) -> Seq<u8> {
    let v = c as u32;
    if v < 0x80 {
        seq![v as u8]
    } else if v < 0x800 {
        seq![(0xC0 + v / 64) as u8, (0x80 + v % 64) as u8]
    } else if v < 0x10000 {
        seq![(0xE0 + v / 4096) as u8, (0x80 + v / 64 % 64) as u8, (0x80 + v % 64) as u8]
    } else {
        seq![(0xF0 + v / 262144) as u8, (0x80 + v / 4096 % 64) as u8, (0x80 + v / 64 % 64) as u8, (0x80 + v % 64) as u8]
    }
}

/// The UTF-8 bytes of a text, which is what `str::as_bytes` hands out.
pub open spec fn utf8(s: Seq<char>) -> Seq<u8>
    decreases s.len(),
{
    if s.len() == 0 {
        seq![]
    } else {
        utf8(s.drop_last()) + utf8_char(s.last())
    }
}

pub fn le16_of(x: u16) -> (r: Vec<u8>)
    ensures
        r@ == le16(x),
{
    let mut r: Vec<u8> = Vec::new();
    r.push((x % 256) as u8);
    r.push((x / 256) as u8);
    proof {
        assert(r@ =~= le16(x));
    }
    r
}

pub fn le32_of(x: u32) -> (r: Vec<u8>)
    ensures
        r@ == le32(x),
{
    let mut r: Vec<u8> = Vec::new();
    r.push((x % 256) as u8);
    r.push((x / 256 % 256) as u8);
    r.push((x / 65536 % 256) as u8);
    r.push((x / 16777216) as u8);
    proof {
        assert(r@ =~= le32(x));
    }
    r
}

/// Appends `more` to `out`.
pub fn append(out: &mut Vec<u8>, more: &Vec<u8>)
    ensures
        final(out)@ == old(out)@ + more@,
{
    let ghost start = out@;
    let mut i: usize = 0;
    while i < more.len()
        invariant
            i <= more@.len(),
            out@ == start + more@.take(i as int),
        decreases more@.len() - i,
    {
        out.push(more[i]);
        proof {
            assert(more@.take(i + 1) =~= more@.take(i as int).push(more@[i as int]));
            assert(start + more@.take(i + 1) =~= (start + more@.take(i as int)).push(more@[i as int]));
        }
        i = i + 1;
    }
    proof {
        assert(more@.take(more@.len() as int) =~= more@);
    }
}

fn utf8_char_of(c: char) -> (r: Vec<u8>)
    ensures
        r@ == utf8_char(c),
{
    let v: u32 = c as u32;
    let mut r: Vec<u8> = Vec::new();
    if v < 0x80 {
        r.push(v as u8);
    } else if v < 0x800 {
        r.push((0xC0 + v / 64) as u8);
        r.push((0x80 + v % 64) as u8);
    } else if v < 0x10000 {
        r.push((0xE0 + v / 4096) as u8);
        r.push((0x80 + v / 64 % 64) as u8);
        r.push((0x80 + v % 64) as u8);
    } else {
        proof {
            assert(v <= 0x10FFFF);
        }
        r.push((0xF0 + v / 262144) as u8);
        r.push((0x80 + v / 4096 % 64) as u8);
        r.push((0x80 + v / 64 % 64) as u8);
        r.push((0x80 + v % 64) as u8);
    }
    proof {
        assert(r@ =~= utf8_char(c));
    }
    r
}

/// The UTF-8 bytes of a text.
pub fn utf8_of(text: &str) -> (r: Vec<u8>)
    ensures
        r@ == utf8(text@),
{
    let chars = chars_of(text);
    let mut r: Vec<u8> = Vec::new();
    let mut i: usize = 0;
    while i < chars.len()
        invariant
            i <= chars@.len(),
            chars@ == text@,
            r@ == utf8(chars@.take(i as int)),
        decreases chars@.len() - i,
    {
        append(&mut r, &utf8_char_of(chars[i]));
        proof {
            assert(chars@.take(i + 1).drop_last() =~= chars@.take(i as int));
        }
        i = i + 1;
    }
    proof {
        assert(chars@.take(chars@.len() as int) =~= chars@);
    }
    r
}

/// One directory entry, with its value already rendered.
pub struct Entry {
    pub tag: u16,
    /// The TIFF field type: 2 text, 3 short, 4 long, 5 rational.
    pub kind: u16,
    /// How many values, which for text counts its terminator.
    pub count: u32,
    pub payload: Vec<u8>,
    /// Where the payload was put, for one that does not fit in the four bytes
    /// the entry itself holds.
    pub offset: Option<u32>,
}

/// The twelve bytes of a directory entry: tag, type, count, and either the
/// payload's offset or the payload itself, padded to four bytes.
pub open spec fn entry_bytes(tag: u16, kind: u16, count: u32, payload: Seq<u8>, offset: Option<u32>) -> Seq<u8> {
    le16(tag) + le16(kind) + le32(count) + match offset {
        Some(at) => le32(at),
        None => payload + Seq::new((4 - payload.len()) as nat, |_i: int| 0u8),
    }
}

impl Entry {
    /// 16-bit values.
    pub fn short(tag: u16, values: &[u16]) -> (r: Entry)
        requires
            values@.len() <= u32::MAX,
        ensures
            r.tag == tag && r.kind == 3 && r.count == values@.len(),
            r.payload@ == le16s(values@),
            r.offset is None,
    {
        let mut payload: Vec<u8> = Vec::new();
        let mut i: usize = 0;
        while i < values.len()
            invariant
                i <= values@.len(),
                payload@ == le16s(values@.take(i as int)),
            decreases values@.len() - i,
        {
            append(&mut payload, &le16_of(values[i]));
            proof {
                assert(values@.take(i + 1).drop_last() =~= values@.take(i as int));
            }
            i = i + 1;
        }
        proof {
            assert(values@.take(values@.len() as int) =~= values@);
        }
        Entry { tag, kind: 3, count: values.len() as u32, payload, offset: None }
    }

    /// 32-bit values.
    pub fn long(tag: u16, values: &[u32]) -> (r: Entry)
        requires
            values@.len() <= u32::MAX,
        ensures
            r.tag == tag && r.kind == 4 && r.count == values@.len(),
            r.payload@ == le32s(values@),
            r.offset is None,
    {
        let mut payload: Vec<u8> = Vec::new();
        let mut i: usize = 0;
        while i < values.len()
            invariant
                i <= values@.len(),
                payload@ == le32s(values@.take(i as int)),
            decreases values@.len() - i,
        {
            append(&mut payload, &le32_of(values[i]));
            proof {
                assert(values@.take(i + 1).drop_last() =~= values@.take(i as int));
            }
            i = i + 1;
        }
        proof {
            assert(values@.take(values@.len() as int) =~= values@);
        }
        Entry { tag, kind: 4, count: values.len() as u32, payload, offset: None }
    }

    /// One fraction.
    pub fn rational(tag: u16, numerator: u32, denominator: u32) -> (r: Entry)
        ensures
            r.tag == tag && r.kind == 5 && r.count == 1,
            r.payload@ == le32(numerator) + le32(denominator),
            r.offset is None,
    {
        let mut payload = le32_of(numerator);
        append(&mut payload, &le32_of(denominator));
        Entry { tag, kind: 5, count: 1, payload, offset: None }
    }

    /// Text. TIFF strings are NUL-terminated and the terminator is counted.
    pub fn ascii(tag: u16, text: &str) -> (r: Entry)
        requires
            utf8(text@).len() < u32::MAX,
        ensures
            r.tag == tag && r.kind == 2,
            r.payload@ == utf8(text@).push(0u8),
            r.count == r.payload@.len(),
            r.offset is None,
    {
        let mut payload = utf8_of(text);
        payload.push(0);
        let count = payload.len() as u32;
        Entry { tag, kind: 2, count, payload, offset: None }
    }

    /// The entry's twelve bytes in the directory.
    pub fn write(&self) -> (r: Vec<u8>)
        requires
            self.offset is Some || self.payload@.len() <= 4,
        ensures
            r@ == entry_bytes(self.tag, self.kind, self.count, self.payload@, self.offset),
    {
        let mut out = le16_of(self.tag);
        append(&mut out, &le16_of(self.kind));
        append(&mut out, &le32_of(self.count));
        match self.offset {
            Some(offset) => append(&mut out, &le32_of(offset)),
            None => {
                append(&mut out, &self.payload);
                let mut i: usize = self.payload.len();
                let ghost head = out@;
                while i < 4
                    invariant
                        self.payload@.len() <= i <= 4,
                        out@ == head + Seq::new((i - self.payload@.len()) as nat, |_i: int| 0u8),
                    decreases 4 - i,
                {
                    out.push(0);
                    proof {
                        assert(out@ =~= head + Seq::new((i + 1 - self.payload@.len()) as nat, |_i: int| 0u8));
                    }
                    i = i + 1;
                }
            },
        }
        proof {
            assert(out@ =~= entry_bytes(self.tag, self.kind, self.count, self.payload@, self.offset));
        }
        out
    }
}

/// How the samples are cut into strips.
#[derive(Clone, Copy)]
pub struct StripLayout {
    pub width: usize,
    pub height: usize,
    /// Samples per pixel: one for greyscale, three for RGB.
    pub samples: usize,
    pub row_bytes: usize,
    pub rows_per_strip: usize,
    pub strips: usize,
    pub data_bytes: usize,
}

/// `x` held within `lo..=hi`.
pub open spec fn clamped(x: int, lo: int, hi: int) -> int {
    if x < lo {
        lo
    } else if x > hi {
        hi
    } else {
        x
    }
}

/// The strip layout of an image: rows of two bytes per sample, as many rows
/// to a strip as bring it near the target (at least one, at most all), and as
/// many strips as cover the rows.
pub open spec fn is_strip_layout(l: StripLayout, width: nat, height: nat, samples: nat) -> bool {
    let row_bytes = width * samples * 2;
    let rows = clamped(STRIP_TARGET as int / (if row_bytes > 0 { row_bytes as int } else { 1 }), 1, height as int);
    &&& l.width == width && l.height == height && l.samples == samples
    &&& l.row_bytes == row_bytes
    &&& l.rows_per_strip == rows
    &&& l.strips == (height + rows - 1) / rows
    &&& l.data_bytes == row_bytes * height
}

/// What an image of this shape needs to be described in memory at all.
pub open spec fn fits_in_memory(width: nat, height: nat, samples: nat) -> bool {
    width * samples * 2 * height + 8 * height + 4096 <= usize::MAX
}

/// Cuts an image into strips.
pub fn strip_layout(width: usize, height: usize, samples: usize) -> (r: StripLayout)
    requires
        width >= 1,
        height >= 1,
        samples >= 1,
        fits_in_memory(width as nat, height as nat, samples as nat),
    ensures
        is_strip_layout(r, width as nat, height as nat, samples as nat),
{
    assert(width * samples * 2 * height >= width * samples * 2) by (nonlinear_arith)
        requires
            height >= 1,
            width >= 1,
            samples >= 1,
    ;
    assert(width * samples >= 1) by (nonlinear_arith)
        requires
            width >= 1,
            samples >= 1,
    ;
    let row_bytes = width * samples * 2;
    let per_row = if row_bytes > 1 {
        row_bytes
    } else {
        1
    };
    let wanted = STRIP_TARGET / per_row;
    let rows_per_strip = if wanted < 1 {
        1
    } else if wanted > height {
        height
    } else {
        wanted
    };
    let strips = (height + rows_per_strip - 1) / rows_per_strip;
    let data_bytes = row_bytes * height;
    StripLayout { width, height, samples, row_bytes, rows_per_strip, strips, data_bytes }
}

/// Where strip `k` starts in the file.
pub open spec fn strip_offset(l: StripLayout, k: int) -> u32 {
    (HEADER + k * l.rows_per_strip * l.row_bytes) as u32
}

/// How many bytes strip `k` holds: a full strip's rows, or what is left.
pub open spec fn strip_count(l: StripLayout, k: int) -> u32 {
    let rows = if l.rows_per_strip <= l.height - k * l.rows_per_strip {
        l.rows_per_strip as int
    } else {
        l.height - k * l.rows_per_strip
    };
    (rows * l.row_bytes) as u32
}

proof fn lemma_strips_cover(l: StripLayout, k: int)
    requires
        is_strip_layout(l, l.width as nat, l.height as nat, l.samples as nat),
        l.height >= 1,
        l.width >= 1,
        l.samples >= 1,
        0 <= k < l.strips,
    ensures
        k * l.rows_per_strip < l.height,
        k * l.rows_per_strip * l.row_bytes < l.data_bytes,
        l.row_bytes >= 1,
{
    assert(l.width * l.samples * 2 >= 1) by (nonlinear_arith)
        requires
            l.width >= 1,
            l.samples >= 1,
    ;
    let (r, h) = (l.rows_per_strip as int, l.height as int);
    assert(k * r < h) by (nonlinear_arith)
        requires
            r >= 1,
            0 <= k < (h + r - 1) / r,
    ;
    assert(k * r * l.row_bytes < h * l.row_bytes) by (nonlinear_arith)
        requires
            k * r < h,
            l.row_bytes >= 1,
            k >= 0,
            r >= 1,
    ;
    assert(l.data_bytes == h * l.row_bytes) by (nonlinear_arith)
        requires
            l.data_bytes == l.row_bytes * h,
    ;
}

/// Where each strip starts.
pub fn strip_offsets(l: &StripLayout) -> (r: Vec<u32>)
    requires
        is_strip_layout(*l, l.width as nat, l.height as nat, l.samples as nat),
        l.width >= 1,
        l.height >= 1,
        l.samples >= 1,
        fits_in_memory(l.width as nat, l.height as nat, l.samples as nat),
    ensures
        r@ == Seq::new(l.strips as nat, |k: int| strip_offset(*l, k)),
{
    let mut r: Vec<u32> = Vec::new();
    let mut k: usize = 0;
    assert(l.row_bytes * l.height >= l.row_bytes) by (nonlinear_arith)
        requires
            l.height >= 1,
    ;
    assert(l.strips <= l.height) by (nonlinear_arith)
        requires
            l.rows_per_strip >= 1,
            l.strips == (l.height + l.rows_per_strip - 1) / (l.rows_per_strip as int),
    ;
    while k < l.strips
        invariant
            k <= l.strips,
            is_strip_layout(*l, l.width as nat, l.height as nat, l.samples as nat),
            l.height >= 1,
            l.width >= 1,
            l.samples >= 1,
            l.data_bytes + 4096 <= usize::MAX,
            r@ == Seq::new(k as nat, |j: int| strip_offset(*l, j)),
        decreases l.strips - k,
    {
        proof {
            lemma_strips_cover(*l, k as int);
            assert(k * l.rows_per_strip <= k * l.rows_per_strip * l.row_bytes) by (nonlinear_arith)
                requires
                    l.row_bytes >= 1,
                    k >= 0,
                    l.rows_per_strip >= 1,
            ;
        }
        let start = HEADER + k * l.rows_per_strip * l.row_bytes;
        r.push(start as u32);
        proof {
            assert(r@ =~= Seq::new((k + 1) as nat, |j: int| strip_offset(*l, j)));
        }
        k = k + 1;
    }
    r
}

/// How many bytes each strip holds.
pub fn strip_byte_counts(l: &StripLayout) -> (r: Vec<u32>)
    requires
        is_strip_layout(*l, l.width as nat, l.height as nat, l.samples as nat),
        l.width >= 1,
        l.height >= 1,
        l.samples >= 1,
        fits_in_memory(l.width as nat, l.height as nat, l.samples as nat),
    ensures
        r@ == Seq::new(l.strips as nat, |k: int| strip_count(*l, k)),
{
    let mut r: Vec<u32> = Vec::new();
    let mut k: usize = 0;
    while k < l.strips
        invariant
            k <= l.strips,
            is_strip_layout(*l, l.width as nat, l.height as nat, l.samples as nat),
            l.height >= 1,
            l.width >= 1,
            l.samples >= 1,
            l.data_bytes + 4096 <= usize::MAX,
            r@ == Seq::new(k as nat, |j: int| strip_count(*l, j)),
        decreases l.strips - k,
    {
        proof {
            lemma_strips_cover(*l, k as int);
        }
        let done = k * l.rows_per_strip;
        let left = l.height - done;
        let rows = if l.rows_per_strip <= left {
            l.rows_per_strip
        } else {
            left
        };
        proof {
            assert(rows * l.row_bytes <= l.height * l.row_bytes) by (nonlinear_arith)
                requires
                    rows <= l.height,
                    l.row_bytes >= 0,
            ;
            assert(l.data_bytes == l.height * l.row_bytes) by (nonlinear_arith)
                requires
                    l.data_bytes == l.row_bytes * l.height,
            ;
        }
        r.push((rows * l.row_bytes) as u32);
        proof {
            assert(r@ =~= Seq::new((k + 1) as nat, |j: int| strip_count(*l, j)));
        }
        k = k + 1;
    }
    r
}

/// An entry as the contracts see it: tag, type, count, payload, offset.
pub open spec fn entry_view(e: Entry) -> (u16, u16, u32, Seq<u8>, Option<u32>) {
    (e.tag, e.kind, e.count, e.payload@, e.offset)
}

/// The entries of some list, as the contracts see them.
pub open spec fn entry_views(es: Seq<Entry>) -> Seq<(u16, u16, u32, Seq<u8>, Option<u32>)> {
    es.map_values(|e: Entry| entry_view(e))
}

/// A text entry's view.
pub open spec fn text_entry(tag: u16, text: Seq<char>) -> (u16, u16, u32, Seq<u8>, Option<u32>) {
    (tag, 2, (utf8(text).len() + 1) as u32, utf8(text).push(0u8), None)
}

/// The fifteen entries of the directory before their payloads are placed, in
/// ascending tag order, which a reader is entitled to binary search.
pub open spec fn directory_entries_of(l: StripLayout, description: Seq<char>, software: Seq<char>) -> Seq<
    (u16, u16, u32, Seq<u8>, Option<u32>),
> {
    let s = l.samples;
    seq![
        (256u16, 4u16, 1u32, le32(l.width as u32), None),
        (257u16, 4u16, 1u32, le32(l.height as u32), None),
        (258u16, 3u16, s as u32, le16s(Seq::new(s as nat, |_i: int| 16u16)), None),
        (259u16, 3u16, 1u32, le16(1), None),
        (262u16, 3u16, 1u32, le16(if s == 3 { 2u16 } else { 1u16 }), None),
        text_entry(270, description),
        (273u16, 4u16, l.strips as u32, le32s(Seq::new(l.strips as nat, |k: int| strip_offset(l, k))), None),
        (277u16, 3u16, 1u32, le16(s as u16), None),
        (278u16, 4u16, 1u32, le32(l.rows_per_strip as u32), None),
        (279u16, 4u16, l.strips as u32, le32s(Seq::new(l.strips as nat, |k: int| strip_count(l, k))), None),
        (282u16, 5u16, 1u32, le32(72) + le32(1), None),
        (283u16, 5u16, 1u32, le32(72) + le32(1), None),
        (296u16, 3u16, 1u32, le16(2), None),
        text_entry(305, software),
        (339u16, 3u16, s as u32, le16s(Seq::new(s as nat, |_i: int| 1u16)), None),
    ]
}

fn repeated(value: u16, n: usize) -> (r: Vec<u16>)
    ensures
        r@ == Seq::new(n as nat, |_i: int| value),
{
    let mut r: Vec<u16> = Vec::new();
    let mut i: usize = 0;
    while i < n
        invariant
            i <= n,
            r@ == Seq::new(i as nat, |_i: int| value),
        decreases n - i,
    {
        r.push(value);
        proof {
            assert(r@ =~= Seq::new((i + 1) as nat, |_i: int| value));
        }
        i = i + 1;
    }
    r
}

fn push_entry(entries: &mut Vec<Entry>, entry: Entry)
    ensures
        entry_views(final(entries)@) == entry_views(old(entries)@).push(entry_view(entry)),
{
    let ghost before = entries@;
    entries.push(entry);
    proof {
        assert(entry_views(entries@) =~= entry_views(before).push(entry_view(entry)));
    }
}

/// What an image needs so that every size and offset in its file can be
/// counted in memory.
pub open spec fn file_fits(width: nat, height: nat, samples: nat, description: Seq<char>, software: Seq<char>) -> bool {
    &&& fits_in_memory(width, height, samples)
    &&& height <= u32::MAX
    &&& width * samples * 2 * height + 8 * height + 4096 + utf8(description).len() + utf8(software).len()
        <= usize::MAX
    &&& utf8(description).len() < u32::MAX
    &&& utf8(software).len() < u32::MAX
}

fn shape_entries(entries: &mut Vec<Entry>, l: &StripLayout)
    requires
        l.samples == 1 || l.samples == 3,
    ensures
        entry_views(final(entries)@) == entry_views(old(entries)@) + directory_entries_of(*l, seq![], seq![]).take(5),
{
    let ghost start = entry_views(entries@);
    let mut one: Vec<u32> = Vec::new();
    one.push(l.width as u32);
    push_entry(entries, Entry::long(256, one.as_slice()));
    let mut one: Vec<u32> = Vec::new();
    one.push(l.height as u32);
    push_entry(entries, Entry::long(257, one.as_slice()));
    push_entry(entries, Entry::short(258, repeated(16, l.samples).as_slice()));
    let mut one: Vec<u16> = Vec::new();
    one.push(1);
    // Uncompressed.
    push_entry(entries, Entry::short(259, one.as_slice()));
    let mut one: Vec<u16> = Vec::new();
    one.push(if l.samples == 3 { 2 } else { 1 });
    push_entry(entries, Entry::short(262, one.as_slice()));
    proof {
        assert(seq![l.width as u32] =~= seq![l.width as u32]);
        reveal_with_fuel(le32s, 2);
        reveal_with_fuel(le16s, 2);
        assert(entry_views(entries@) =~= start + directory_entries_of(*l, seq![], seq![]).take(5));
    }
}

fn strip_entries(entries: &mut Vec<Entry>, l: &StripLayout, description: &str)
    requires
        l.samples == 1 || l.samples == 3,
        l.width >= 1,
        l.height >= 1,
        is_strip_layout(*l, l.width as nat, l.height as nat, l.samples as nat),
        fits_in_memory(l.width as nat, l.height as nat, l.samples as nat),
        l.height <= u32::MAX,
        utf8(description@).len() < u32::MAX,
    ensures
        entry_views(final(entries)@) == entry_views(old(entries)@) + directory_entries_of(
            *l,
            description@,
            seq![],
        ).subrange(5, 10),
{
    let ghost start = entry_views(entries@);
    proof {
        assert(l.strips <= l.height) by (nonlinear_arith)
            requires
                l.rows_per_strip >= 1,
                l.strips == (l.height + l.rows_per_strip - 1) / (l.rows_per_strip as int),
        ;
    }
    push_entry(entries, Entry::ascii(270, description));
    push_entry(entries, Entry::long(273, strip_offsets(l).as_slice()));
    let mut one: Vec<u16> = Vec::new();
    one.push(l.samples as u16);
    push_entry(entries, Entry::short(277, one.as_slice()));
    let mut one: Vec<u32> = Vec::new();
    one.push(l.rows_per_strip as u32);
    push_entry(entries, Entry::long(278, one.as_slice()));
    push_entry(entries, Entry::long(279, strip_byte_counts(l).as_slice()));
    proof {
        reveal_with_fuel(le32s, 2);
        reveal_with_fuel(le16s, 2);
        assert(entry_views(entries@) =~= start + directory_entries_of(*l, description@, seq![]).subrange(5, 10));
    }
}

fn closing_entries(entries: &mut Vec<Entry>, l: &StripLayout, software: &str)
    requires
        l.samples == 1 || l.samples == 3,
        utf8(software@).len() < u32::MAX,
    ensures
        entry_views(final(entries)@) == entry_views(old(entries)@) + directory_entries_of(
            *l,
            seq![],
            software@,
        ).subrange(10, 15),
{
    let ghost start = entry_views(entries@);
    push_entry(entries, Entry::rational(282, 72, 1));
    push_entry(entries, Entry::rational(283, 72, 1));
    let mut one: Vec<u16> = Vec::new();
    // Inches.
    one.push(2);
    push_entry(entries, Entry::short(296, one.as_slice()));
    push_entry(entries, Entry::ascii(305, software));
    // Unsigned integer samples.
    push_entry(entries, Entry::short(339, repeated(1, l.samples).as_slice()));
    proof {
        reveal_with_fuel(le16s, 2);
        assert(entry_views(entries@) =~= start + directory_entries_of(*l, seq![], software@).subrange(10, 15));
    }
}

/// The directory's entries, in ascending tag order, before their payloads are
/// placed.
pub fn directory_entries(l: &StripLayout, description: &str, software: &str) -> (r: Vec<Entry>)
    requires
        l.samples == 1 || l.samples == 3,
        l.width >= 1,
        l.height >= 1,
        is_strip_layout(*l, l.width as nat, l.height as nat, l.samples as nat),
        fits_in_memory(l.width as nat, l.height as nat, l.samples as nat),
        l.height <= u32::MAX,
        utf8(description@).len() < u32::MAX,
        utf8(software@).len() < u32::MAX,
    ensures
        entry_views(r@) == directory_entries_of(*l, description@, software@),
{
    let mut entries: Vec<Entry> = Vec::new();
    proof {
        assert(entry_views(entries@) =~= seq![]);
    }
    shape_entries(&mut entries, l);
    strip_entries(&mut entries, l, description);
    closing_entries(&mut entries, l, software);
    proof {
        let all = directory_entries_of(*l, description@, software@);
        assert(directory_entries_of(*l, seq![], seq![]).take(5) =~= all.take(5));
        assert(directory_entries_of(*l, description@, seq![]).subrange(5, 10) =~= all.subrange(5, 10));
        assert(directory_entries_of(*l, seq![], software@).subrange(10, 15) =~= all.subrange(10, 15));
        assert(entry_views(entries@) =~= all);
    }
    entries
}

/// `n` rounded up to an even number: payloads start on word boundaries.
pub open spec fn round_even(n: nat) -> nat {
    if n % 2 == 1 {
        n + 1
    } else {
        n
    }
}

/// How much room the payloads that do not fit in their entries take, each
/// rounded up to an even length.
pub open spec fn overflow_size(es: Seq<(u16, u16, u32, Seq<u8>, Option<u32>)>) -> nat
    decreases es.len(),
{
    if es.len() == 0 {
        0
    } else if es.last().3.len() > 4 {
        overflow_size(es.drop_last()) + round_even(es.last().3.len())
    } else {
        overflow_size(es.drop_last())
    }
}

/// The entries with every payload longer than four bytes given an offset, in
/// order, starting at `start`.
pub open spec fn placed(es: Seq<(u16, u16, u32, Seq<u8>, Option<u32>)>, start: int) -> Seq<
    (u16, u16, u32, Seq<u8>, Option<u32>),
>
    decreases es.len(),
{
    if es.len() == 0 {
        seq![]
    } else {
        let e = es.last();
        let at = start + overflow_size(es.drop_last());
        placed(es.drop_last(), start).push(
            if e.3.len() > 4 {
                (e.0, e.1, e.2, e.3, Some(at as u32))
            } else {
                e
            },
        )
    }
}

proof fn lemma_overflow_size_grows(es: Seq<(u16, u16, u32, Seq<u8>, Option<u32>)>, m: int, n: int)
    requires
        0 <= m <= n <= es.len(),
    ensures
        overflow_size(es.take(m)) <= overflow_size(es.take(n)),
    decreases n - m,
{
    if m < n {
        assert(es.take(n).drop_last() =~= es.take(n - 1));
        lemma_overflow_size_grows(es, m, n - 1);
    }
}

/// Gives each payload that does not fit in its entry an offset, packing them
/// one after another from `start`.
pub fn place_payloads(entries: &mut Vec<Entry>, start: usize)
    requires
        start + overflow_size(entry_views(old(entries)@)) <= usize::MAX,
    ensures
        entry_views(final(entries)@) == placed(entry_views(old(entries)@), start as int),
{
    let ghost given = entry_views(entries@);
    let mut overflow: usize = start;
    let mut i: usize = 0;
    while i < entries.len()
        invariant
            i <= entries@.len(),
            given.len() == entries@.len(),
            start + overflow_size(given) <= usize::MAX,
            overflow == start + overflow_size(given.take(i as int)),
            entry_views(entries@).take(i as int) == placed(given.take(i as int), start as int),
            entry_views(entries@).skip(i as int) == given.skip(i as int),
        decreases entries@.len() - i,
    {
        let ghost before = entry_views(entries@);
        proof {
            assert(given.take(i + 1).drop_last() =~= given.take(i as int));
            assert(before[i as int] == given[i as int]) by {
                assert(before.skip(i as int)[0] == given.skip(i as int)[0]);
            }
            lemma_overflow_size_grows(given, i + 1, given.len() as int);
            assert(given.take(given.len() as int) =~= given);
        }
        let length = entries[i].payload.len();
        if length > 4 {
            entries[i].offset = Some(overflow as u32);
            overflow = overflow + length + length % 2;
        }
        proof {
            let after = entry_views(entries@);
            assert(after.take(i + 1) =~= before.take(i as int).push(after[i as int]));
            assert(after.skip(i + 1) =~= given.skip(i + 1)) by {
                assert forall|j: int| 0 <= j < after.skip(i + 1).len() implies #[trigger] after.skip(i + 1)[j]
                    == given.skip(i + 1)[j] by {
                    assert(before.skip(i as int)[j + 1] == given.skip(i as int)[j + 1]);
                }
            }
        }
        i = i + 1;
    }
    proof {
        assert(entry_views(entries@).take(entries@.len() as int) =~= entry_views(entries@));
        assert(given.take(given.len() as int) =~= given);
    }
}

/// The entries' twelve-byte records, one after another.
pub open spec fn entries_bytes(es: Seq<(u16, u16, u32, Seq<u8>, Option<u32>)>) -> Seq<u8>
    decreases es.len(),
{
    if es.len() == 0 {
        seq![]
    } else {
        let e = es.last();
        entries_bytes(es.drop_last()) + entry_bytes(e.0, e.1, e.2, e.3, e.4)
    }
}

/// The payloads that were placed out of line, in order, each padded to an
/// even length.
pub open spec fn overflow_bytes(es: Seq<(u16, u16, u32, Seq<u8>, Option<u32>)>) -> Seq<u8>
    decreases es.len(),
{
    if es.len() == 0 {
        seq![]
    } else {
        let e = es.last();
        overflow_bytes(es.drop_last()) + match e.4 {
            Some(_) => e.3 + (if e.3.len() % 2 == 1 { seq![0u8] } else { seq![] }),
            None => seq![],
        }
    }
}

/// The directory as written: the entry count, the entries, a zero saying no
/// directory follows, and the payloads that did not fit in their entries.
pub open spec fn directory_block(es: Seq<(u16, u16, u32, Seq<u8>, Option<u32>)>) -> Seq<u8> {
    le16(es.len() as u16) + entries_bytes(es) + le32(0) + overflow_bytes(es)
}

/// The first eight bytes: little-endian, classic TIFF, and where the directory
/// is.
pub open spec fn file_header(directory: int) -> Seq<u8> {
    seq![0x49u8, 0x49u8] + le16(42) + le32(directory as u32)
}

/// The text the description tag carries: the caller's note, a space when
/// there is one, then what the mapping says about itself.
pub open spec fn description_of(note: Seq<char>, mapping: Seq<char>) -> Seq<char> {
    if note.len() == 0 {
        mapping
    } else {
        note + seq![' '] + mapping
    }
}

/// Whether every entry's payload either fits in the entry or has been placed.
pub open spec fn all_placed(es: Seq<(u16, u16, u32, Seq<u8>, Option<u32>)>) -> bool {
    forall|i: int| 0 <= i < es.len() ==> (#[trigger] es[i]).4 is Some || es[i].3.len() <= 4
}

/// The directory's bytes.
pub fn directory_bytes(entries: &Vec<Entry>) -> (r: Vec<u8>)
    requires
        all_placed(entry_views(entries@)),
        entries@.len() <= u16::MAX,
    ensures
        r@ == directory_block(entry_views(entries@)),
{
    let ghost es = entry_views(entries@);
    let mut records = le16_of(entries.len() as u16);
    let mut overflow: Vec<u8> = Vec::new();
    let mut i: usize = 0;
    while i < entries.len()
        invariant
            i <= entries@.len(),
            es == entry_views(entries@),
            all_placed(es),
            records@ == le16(es.len() as u16) + entries_bytes(es.take(i as int)),
            overflow@ == overflow_bytes(es.take(i as int)),
        decreases entries@.len() - i,
    {
        proof {
            assert(es.take(i + 1).drop_last() =~= es.take(i as int));
            assert(es[i as int].4 is Some || es[i as int].3.len() <= 4);
        }
        let entry = &entries[i];
        append(&mut records, &entry.write());
        if entry.offset.is_some() {
            append(&mut overflow, &entry.payload);
            if entry.payload.len() % 2 == 1 {
                overflow.push(0);
            }
        }
        proof {
            let e = es[i as int];
            assert(es.take(i + 1).last() == e);
            if e.4 is Some {
                assert(overflow@ =~= overflow_bytes(es.take(i as int)) + (e.3 + (if e.3.len() % 2 == 1 {
                    seq![0u8]
                } else {
                    seq![]
                })));
            } else {
                assert(overflow@ =~= overflow_bytes(es.take(i as int)) + seq![]);
            }
        }
        i = i + 1;
    }
    append(&mut records, &le32_of(0));
    append(&mut records, &overflow);
    proof {
        assert(es.take(es.len() as int) =~= es);
        assert(records@ =~= directory_block(es));
    }
    records
}

/// The header, the sizes, and the directory of a file; the samples, rows of
/// interleaved little-endian 16-bit values, go between the header and the
/// directory, with a zero byte after them when they are an odd number of
/// bytes.
pub struct TiffLayout {
    pub strips: StripLayout,
    /// The first eight bytes of the file.
    pub header: Vec<u8>,
    /// Where the directory starts.
    pub directory_at: usize,
    /// Everything from the directory to the end of the file.
    pub directory: Vec<u8>,
}

proof fn lemma_le16s_len(v: Seq<u16>)
    ensures
        le16s(v).len() == 2 * v.len(),
    decreases v.len(),
{
    if v.len() > 0 {
        lemma_le16s_len(v.drop_last());
    }
}

proof fn lemma_le32s_len(v: Seq<u32>)
    ensures
        le32s(v).len() == 4 * v.len(),
    decreases v.len(),
{
    if v.len() > 0 {
        lemma_le32s_len(v.drop_last());
    }
}

/// Every payload's length plus one, summed: a bound on the room the
/// out-of-line ones take.
pub open spec fn payload_room(es: Seq<(u16, u16, u32, Seq<u8>, Option<u32>)>) -> nat
    decreases es.len(),
{
    if es.len() == 0 {
        0
    } else {
        payload_room(es.drop_last()) + es.last().3.len() + 1
    }
}

proof fn lemma_overflow_within_room(es: Seq<(u16, u16, u32, Seq<u8>, Option<u32>)>)
    ensures
        overflow_size(es) <= payload_room(es),
    decreases es.len(),
{
    if es.len() > 0 {
        lemma_overflow_within_room(es.drop_last());
    }
}

proof fn lemma_placed_keeps(es: Seq<(u16, u16, u32, Seq<u8>, Option<u32>)>, start: int)
    ensures
        placed(es, start).len() == es.len(),
        forall|i: int| 0 <= i < es.len() ==> (#[trigger] placed(es, start)[i]).3 == es[i].3,
        forall|i: int|
            0 <= i < es.len() && es[i].3.len() > 4 ==> (#[trigger] placed(es, start)[i]).4 is Some,
    decreases es.len(),
{
    if es.len() > 0 {
        lemma_placed_keeps(es.drop_last(), start);
        let p = placed(es, start);
        assert forall|i: int| 0 <= i < es.len() implies (#[trigger] p[i]).3 == es[i].3 && (es[i].3.len() > 4
            ==> p[i].4 is Some) by {
            if i < es.len() - 1 {
                assert(p[i] == placed(es.drop_last(), start)[i]);
                assert(es.drop_last()[i] == es[i]);
            }
        }
    }
}

/// The samples of pixel `i`, one from each plane, in the planes' order.
pub open spec fn pixel_samples(planes: Seq<Seq<u16>>, i: int) -> Seq<u16> {
    Seq::new(planes.len(), |p: int| planes[p][i])
}

/// Pixels `start` up to `start + count`, each as its samples one after
/// another, little-endian: the planes interleaved, which is what
/// `PlanarConfiguration` 1 means.
pub open spec fn interleaved(planes: Seq<Seq<u16>>, start: int, count: nat) -> Seq<u8>
    decreases count,
{
    if count == 0 {
        seq![]
    } else {
        interleaved(planes, start, (count - 1) as nat) + le16s(pixel_samples(planes, start + count - 1))
    }
}

/// The strip bytes of `count` pixels from `start`: for each pixel its sample
/// from every plane in turn, little-endian.
pub fn interleave(planes: &Vec<Vec<u16>>, start: usize, count: usize) -> (r: Vec<u8>)
    requires
        forall|p: int| 0 <= p < planes@.len() ==> start + count <= (#[trigger] planes@[p])@.len(),
    ensures
        r@ == interleaved(planes.deep_view(), start as int, count as nat),
{
    let ghost view = planes.deep_view();
    let mut out: Vec<u8> = Vec::new();
    let mut i: usize = 0;
    while i < count
        invariant
            i <= count,
            view == planes.deep_view(),
            forall|p: int| 0 <= p < planes@.len() ==> start + count <= (#[trigger] planes@[p])@.len(),
            out@ == interleaved(view, start as int, i as nat),
        decreases count - i,
    {
        let ghost base = out@;
        let ghost samples = pixel_samples(view, start + i);
        let mut p: usize = 0;
        while p < planes.len()
            invariant
                p <= planes@.len(),
                i < count,
                view == planes.deep_view(),
                samples == pixel_samples(view, start + i),
                forall|q: int| 0 <= q < planes@.len() ==> start + count <= (#[trigger] planes@[q])@.len(),
                out@ == base + le16s(samples.take(p as int)),
            decreases planes@.len() - p,
        {
            let plane = &planes[p];
            let length = plane.len();
            proof {
                assert(start + count <= length);
            }
            let value = plane[start + i];
            proof {
                assert(samples[p as int] == value);
                assert(samples.take(p + 1).drop_last() =~= samples.take(p as int));
            }
            append(&mut out, &le16_of(value));
            proof {
                assert(out@ =~= base + le16s(samples.take(p + 1)));
            }
            p = p + 1;
        }
        proof {
            assert(samples.take(planes@.len() as int) =~= samples);
        }
        i = i + 1;
    }
    out
}

/// Refuses an image that cannot be written: one plane is greyscale and three
/// are RGB, and any other count is an error rather than a guess; an image
/// with no pixels; and a plane whose length is not the image's.
pub fn check_image(plane_lengths: &Vec<usize>, width: usize, height: usize) -> (r: Result<(), String>)
    requires
        width * height <= usize::MAX,
    ensures
        r is Ok <==> (plane_lengths@.len() == 1 || plane_lengths@.len() == 3) && width * height > 0 && forall|
            i: int,
        | 0 <= i < plane_lengths@.len() ==> #[trigger] plane_lengths@[i] == width * height,
        r matches Err(message) ==> message@ == image_refusal(plane_lengths@, width as nat, height as nat),
{
    let planes = plane_lengths.len();
    if planes != 1 && planes != 3 {
        let mut text = decimal_of(planes as u64);
        text = concat(&text, &chars_of(" planes is neither greyscale nor RGB"));
        return Err(string_of(&text));
    }
    let pixels = width * height;
    if pixels == 0 {
        return Err(string_of(&shape_text(chars_of("a "), width, height, chars_of(" image"))));
    }
    let mut i: usize = 0;
    while i < planes
        invariant
            i <= planes,
            planes == plane_lengths@.len(),
            planes == 1 || planes == 3,
            pixels == width * height,
            pixels > 0,
            forall|j: int| 0 <= j < i ==> #[trigger] plane_lengths@[j] == pixels,
        decreases planes - i,
    {
        if plane_lengths[i] != pixels {
            let mut text = decimal_of(plane_lengths[i] as u64);
            text = concat(&text, &shape_text(chars_of(" samples for a "), width, height, chars_of(" plane")));
            proof {
                assert(first_wrong_plane(plane_lengths@, pixels as nat, plane_lengths@.len() as int) == Some(i as int))
                    by {
                    lemma_first_wrong_plane(plane_lengths@, pixels as nat, i as int);
                }
                assert(text@ == decimal(plane_lengths@[i as int] as nat) + shape(" samples for a "@, width as nat, height as nat, " plane"@));
                assert(text@ == image_refusal(plane_lengths@, width as nat, height as nat));
            }
            return Err(string_of(&text));
        }
        i = i + 1;
    }
    Ok(())
}

/// The first of the first `n` plane lengths that is not `pixels`.
pub open spec fn first_wrong_plane(lengths: Seq<usize>, pixels: nat, n: int) -> Option<int>
    decreases n,
{
    if n <= 0 || n > lengths.len() {
        None
    } else {
        match first_wrong_plane(lengths, pixels, n - 1) {
            Some(i) => Some(i),
            None => if lengths[n - 1] != pixels {
                Some(n - 1)
            } else {
                None
            },
        }
    }
}

proof fn lemma_first_wrong_plane(lengths: Seq<usize>, pixels: nat, i: int)
    requires
        0 <= i < lengths.len(),
        lengths[i] != pixels,
        forall|j: int| 0 <= j < i ==> #[trigger] lengths[j] == pixels,
    ensures
        first_wrong_plane(lengths, pixels, lengths.len() as int) == Some(i),
{
    lemma_no_wrong_plane(lengths, pixels, i, i);
    assert(first_wrong_plane(lengths, pixels, i + 1) == Some(i));
    lemma_first_wrong_plane_stable(lengths, pixels, i + 1, lengths.len() as int);
}

proof fn lemma_no_wrong_plane(lengths: Seq<usize>, pixels: nat, n: int, i: int)
    requires
        0 <= n <= i < lengths.len(),
        forall|j: int| 0 <= j < i ==> #[trigger] lengths[j] == pixels,
    ensures
        first_wrong_plane(lengths, pixels, n) is None,
    decreases n,
{
    if n > 0 {
        lemma_no_wrong_plane(lengths, pixels, n - 1, i);
    }
}

proof fn lemma_first_wrong_plane_stable(lengths: Seq<usize>, pixels: nat, m: int, n: int)
    requires
        1 <= m <= n <= lengths.len(),
        first_wrong_plane(lengths, pixels, m) is Some,
    ensures
        first_wrong_plane(lengths, pixels, n) == first_wrong_plane(lengths, pixels, m),
    decreases n - m,
{
    if n > m {
        lemma_first_wrong_plane_stable(lengths, pixels, m, n - 1);
    }
}

/// `before`, the width, `x`, the height, `after`.
pub open spec fn shape(before: Seq<char>, width: nat, height: nat, after: Seq<char>) -> Seq<char> {
    before + decimal(width) + seq!['x'] + decimal(height) + after
}

/// Why an image was refused, in the words the writer uses.
pub open spec fn image_refusal(lengths: Seq<usize>, width: nat, height: nat) -> Seq<char> {
    if lengths.len() != 1 && lengths.len() != 3 {
        decimal(lengths.len()) + " planes is neither greyscale nor RGB"@
    } else if width * height == 0 {
        shape("a "@, width, height, " image"@)
    } else {
        match first_wrong_plane(lengths, width * height, lengths.len() as int) {
            Some(i) => decimal(lengths[i] as nat) + shape(" samples for a "@, width, height, " plane"@),
            None => seq![],
        }
    }
}

fn shape_text(before: Vec<char>, width: usize, height: usize, after: Vec<char>) -> (r: Vec<char>)
    ensures
        r@ == shape(before@, width as nat, height as nat, after@),
{
    let mut text = concat(&before, &decimal_of(width as u64));
    let mut x: Vec<char> = Vec::new();
    x.push('x');
    text = concat(&text, &x);
    text = concat(&text, &decimal_of(height as u64));
    text = concat(&text, &after);
    proof {
        assert(text@ =~= shape(before@, width as nat, height as nat, after@));
    }
    text
}

proof fn lemma_utf8_append(a: Seq<char>, b: Seq<char>)
    ensures
        utf8(a + b) == utf8(a) + utf8(b),
    decreases b.len(),
{
    if b.len() == 0 {
        assert(a + b =~= a);
        assert(utf8(b) =~= seq![]);
        assert(utf8(a) + utf8(b) =~= utf8(a));
    } else {
        lemma_utf8_append(a, b.drop_last());
        assert((a + b).drop_last() =~= a + b.drop_last());
        assert((a + b).last() == b.last());
    }
}

/// Whether every size and offset of a file for this image can be counted in
/// memory: what [`layout`] needs of its arguments.
pub fn file_fits_text(width: usize, height: usize, samples: usize, note: &str, mapping: &str, software: &str) -> (r: bool)
    ensures
        r == file_fits(width as nat, height as nat, samples as nat, description_of(note@, mapping@), software@),
{
    let note_bytes = utf8_of(note).len();
    let mapping_bytes = utf8_of(mapping).len();
    let software_bytes = utf8_of(software).len();
    proof {
        if note@.len() > 0 {
            lemma_utf8_append(note@, seq![' ']);
            lemma_utf8_append(note@ + seq![' '], mapping@);
            assert(utf8(seq![' ']) =~= seq![32u8]) by {
                assert(seq![' '].drop_last() =~= Seq::<char>::empty());
                assert((' ' as u32) == 32);
                assert(utf8(Seq::<char>::empty()) =~= Seq::<u8>::empty());
            }
        }
    }
    let description_bytes: usize = if note_bytes > 0 {
        match note_bytes.checked_add(1) {
            Some(n) => match n.checked_add(mapping_bytes) {
                Some(total) => total,
                None => return false,
            },
            None => return false,
        }
    } else {
        mapping_bytes
    };
    proof {
        assert(note_bytes > 0 <==> note@.len() > 0) by {
            if note@.len() > 0 {
                assert(utf8(note@).len() > 0) by {
                    assert(note@ =~= note@.drop_last().push(note@.last()));
                    lemma_utf8_append(note@.drop_last(), seq![note@.last()]);
                    assert(seq![note@.last()].drop_last() =~= Seq::<char>::empty());
                }
            } else {
                assert(note@ =~= Seq::<char>::empty());
            }
        }
        assert(description_bytes == utf8(description_of(note@, mapping@)).len());
    }
    if height > 4_294_967_295 || description_bytes >= 4_294_967_295 || software_bytes >= 4_294_967_295 {
        return false;
    }
    let data: usize = if width == 0 || samples == 0 || height == 0 {
        proof {
            assert(width * samples * 2 * height == 0) by (nonlinear_arith)
                requires
                    width == 0 || samples == 0 || height == 0,
            ;
        }
        0
    } else {
        // Every factor is at least one, so a partial product that does not
        // fit means the whole does not either.
        let a = match width.checked_mul(samples) {
            Some(a) => a,
            None => {
                proof {
                    assert(width * samples * 2 * height >= width * samples) by (nonlinear_arith)
                        requires
                            height >= 1,
                            width >= 1,
                            samples >= 1,
                    ;
                }
                return false;
            },
        };
        let b = match a.checked_mul(2) {
            Some(b) => b,
            None => {
                proof {
                    assert(a * 2 * height >= a * 2) by (nonlinear_arith)
                        requires
                            height >= 1,
                            a >= 1,
                    ;
                }
                return false;
            },
        };
        match b.checked_mul(height) {
            Some(c) => c,
            None => return false,
        }
    };
    let strips_room = match height.checked_mul(8) {
        Some(n) => n,
        None => return false,
    };
    let total = match data.checked_add(strips_room) {
        Some(a) => match a.checked_add(4096) {
            Some(b) => match b.checked_add(description_bytes) {
                Some(c) => c.checked_add(software_bytes),
                None => None,
            },
            None => None,
        },
        None => None,
    };
    total.is_some()
}

/// Where a directory of `n` entries ends, and the out-of-line payloads begin.
pub open spec fn payloads_start(directory_at: int, n: int) -> int {
    directory_at + 2 + n * 12 + 4
}

/// Lays out a 16-bit TIFF of an image already checked by [`check_image`].
#[verifier::rlimit(40)]
///
/// The description is the caller's note followed by what the sample mapping
/// says about itself; the software tag names this program.
pub fn layout(width: usize, height: usize, samples: usize, note: &str, mapping: &str) -> (r: TiffLayout)
    requires
        samples == 1 || samples == 3,
        width >= 1,
        height >= 1,
        file_fits(width as nat, height as nat, samples as nat, description_of(note@, mapping@), CREATOR@),
    ensures
        is_strip_layout(r.strips, width as nat, height as nat, samples as nat),
        r.directory_at == HEADER + round_even(r.strips.data_bytes as nat),
        r.header@ == file_header(r.directory_at as int),
        r.directory@ == directory_block(
            placed(
                directory_entries_of(r.strips, description_of(note@, mapping@), CREATOR@),
                payloads_start(r.directory_at as int, 15),
            ),
        ),
{
    let mut text: Vec<char> = chars_of(note);
    if text.len() > 0 {
        text.push(' ');
    }
    let text = concat(&text, &chars_of(mapping));
    let description = string_of(&text);
    proof {
        if note@.len() == 0 {
            assert(text@ =~= mapping@);
        } else {
            assert(text@ =~= note@ + seq![' '] + mapping@);
        }
    }
    let strips = strip_layout(width, height, samples);
    let mut entries = directory_entries(&strips, description.as_str(), CREATOR);
    let directory_at = HEADER + strips.data_bytes + strips.data_bytes % 2;
    proof {
        let es = directory_entries_of(strips, description@, CREATOR@);
        assert(entry_views(entries@).len() == 15);
        lemma_overflow_within_room(es);
        reveal_with_fuel(payload_room, 16);
        lemma_le16s_len(Seq::new(samples as nat, |_i: int| 16u16));
        lemma_le16s_len(Seq::new(samples as nat, |_i: int| 1u16));
        lemma_le32s_len(Seq::new(strips.strips as nat, |k: int| strip_offset(strips, k)));
        lemma_le32s_len(Seq::new(strips.strips as nat, |k: int| strip_count(strips, k)));
        assert(strips.strips <= height) by (nonlinear_arith)
            requires
                strips.rows_per_strip >= 1,
                strips.strips == (height + strips.rows_per_strip - 1) / (strips.rows_per_strip as int),
        ;
        assert(strips.data_bytes == width * samples * 2 * height) by (nonlinear_arith)
            requires
                strips.data_bytes == strips.row_bytes * height,
                strips.row_bytes == width * samples * 2,
        ;
        assert(payload_room(es) <= 8 * height + 12 + utf8(description@).len() + utf8(CREATOR@).len() + 68);
    }
    let start = directory_at + 2 + entries.len() * 12 + 4;
    place_payloads(&mut entries, start);
    proof {
        lemma_placed_keeps(directory_entries_of(strips, description@, CREATOR@), start as int);
    }
    let directory = directory_bytes(&entries);
    let mut header: Vec<u8> = Vec::new();
    header.push(0x49);
    header.push(0x49);
    append(&mut header, &le16_of(42));
    append(&mut header, &le32_of(directory_at as u32));
    proof {
        assert(header@ =~= file_header(directory_at as int));
    }
    TiffLayout { strips, header, directory_at, directory }
}

/// Rows in strip `k`: a full strip's, or what is left.
pub open spec fn strip_rows(l: StripLayout, k: int) -> int {
    if l.rows_per_strip <= l.height - k * l.rows_per_strip {
        l.rows_per_strip as int
    } else {
        l.height - k * l.rows_per_strip
    }
}

/// The directory's tags ascend, so a reader may binary search them.
pub proof fn law_tags_ascend(l: StripLayout, description: Seq<char>, software: Seq<char>)
    ensures
        forall|i: int, j: int|
            0 <= i < j < 15 ==> (#[trigger] directory_entries_of(l, description, software)[i]).0
                < (#[trigger] directory_entries_of(l, description, software)[j]).0,
        directory_entries_of(l, description, software).len() == 15,
{
}

/// The strips tile the samples exactly: each holds at least one row, each
/// starts where the one before it ends, the first starts right after the
/// header, and the last ends where the samples do.
pub proof fn law_strips_cover_the_image(l: StripLayout, k: int)
    requires
        is_strip_layout(l, l.width as nat, l.height as nat, l.samples as nat),
        l.height >= 1,
        0 <= k < l.strips,
    ensures
        strip_rows(l, k) >= 1,
        k + 1 < l.strips ==> k * l.rows_per_strip + strip_rows(l, k) == (k + 1) * l.rows_per_strip,
        k + 1 == l.strips ==> k * l.rows_per_strip + strip_rows(l, k) == l.height,
        HEADER + k * l.rows_per_strip * l.row_bytes + strip_rows(l, k) * l.row_bytes == if k + 1 < l.strips {
            HEADER + (k + 1) * l.rows_per_strip * l.row_bytes
        } else {
            HEADER + l.data_bytes
        },
{
    let (r, h) = (l.rows_per_strip as int, l.height as int);
    assert(k * r < h && (k + 1 < l.strips ==> (k + 1) * r <= h) && (k + 1 == l.strips ==> h <= (k + 1) * r))
        by (nonlinear_arith)
        requires
            r >= 1,
            h >= 1,
            0 <= k < l.strips,
            l.strips == (h + r - 1) / r,
    ;
    assert((k + 1) * r == k * r + r) by (nonlinear_arith);
    let rows = strip_rows(l, k);
    assert(k + 1 < l.strips ==> rows == r);
    assert(k + 1 == l.strips ==> k * r + rows == h);
    assert((k * r + rows) * l.row_bytes == k * r * l.row_bytes + rows * l.row_bytes) by (nonlinear_arith);
    assert((k + 1) * r * l.row_bytes == (k * r + r) * l.row_bytes) by (nonlinear_arith);
    assert(l.data_bytes == h * l.row_bytes) by (nonlinear_arith)
        requires
            l.data_bytes == l.row_bytes * h,
    ;
}

} // verus!

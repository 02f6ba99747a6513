//! The header of a master written as 32-bit floating point FITS.
//!
//! The part of FITS a master frame needs is small: 80-character cards in
//! 2880-byte blocks, then big-endian samples. This module renders the cards
//! and the padding; the samples themselves are floating point and are written
//! by the caller.
//!
//! Values are in ADU, exactly as the sensor read them, and rows go out in
//! sensor readout order, top first, with `ROWORDER` saying so: the samples are
//! indexed against a mosaic anchored to the sensor's own origin.
use vstd::prelude::*;

use crate::text::{chars_of, concat, decimal, decimal_of, pad_left, pad_right, padded_left, padded_right, signed_decimal, signed_decimal_of, string_of};

verus! {

/// Bytes in a FITS block.
pub const BLOCK: usize = 2880;

/// Characters in a card.
pub const CARD: usize = 80;

/// What wrote the file.
pub const CREATOR: &'static str = "astro-stacker 0.1.0";

/// A keyword and its value, already rendered.
pub struct Card(pub String);

/// `s` with every single quote doubled, as FITS strings escape them.
pub open spec fn doubled_quotes(s: Seq<char>) -> Seq<char>
    decreases s.len(),
{
    if s.len() == 0 {
        seq![]
    } else if s.last() == '\'' {
        doubled_quotes(s.drop_last()) + seq!['\'', '\'']
    } else {
        doubled_quotes(s.drop_last()).push(s.last())
    }
}

/// A quoted value read back: every doubled quote collapsed to one.
pub open spec fn undoubled(t: Seq<char>) -> Seq<char>
    decreases t.len(),
{
    if t.len() == 0 {
        seq![]
    } else if t[0] == '\'' && t.len() >= 2 && t[1] == '\'' {
        seq!['\''] + undoubled(t.skip(2))
    } else {
        seq![t[0]] + undoubled(t.skip(1))
    }
}

proof fn lemma_doubled_quotes_prepend(c: char, s: Seq<char>)
    ensures
        doubled_quotes(seq![c] + s) == (if c == '\'' { seq!['\'', '\''] } else { seq![c] }) + doubled_quotes(s),
    decreases s.len(),
{
    let head = if c == '\'' { seq!['\'', '\''] } else { seq![c] };
    if s.len() == 0 {
        assert((seq![c] + s).drop_last() =~= Seq::<char>::empty());
        assert(seq![c] + s =~= seq![c]);
        assert(doubled_quotes(Seq::<char>::empty()) =~= Seq::<char>::empty());
        assert(head + doubled_quotes(s) =~= head);
        assert(doubled_quotes(seq![c]) =~= head) by {
            assert(seq![c].drop_last() =~= Seq::<char>::empty());
        }
    } else {
        lemma_doubled_quotes_prepend(c, s.drop_last());
        assert((seq![c] + s).drop_last() =~= seq![c] + s.drop_last());
        assert((seq![c] + s).last() == s.last());
        if s.last() == '\'' {
            assert(head + doubled_quotes(s) =~= (head + doubled_quotes(s.drop_last())) + seq!['\'', '\'']);
        } else {
            assert(head + doubled_quotes(s) =~= (head + doubled_quotes(s.drop_last())).push(s.last()));
        }
    }
}

/// A quote in a value never breaks a card: escaping doubles every quote, so
/// a reader that collapses each doubled quote gets the value back, and the
/// escaped text holds no quote that is not one of a pair.
pub proof fn law_quoting_can_be_undone(s: Seq<char>)
    ensures
        undoubled(doubled_quotes(s)) == s,
    decreases s.len(),
{
    if s.len() > 0 {
        let rest = s.skip(1);
        assert(s =~= seq![s[0]] + rest);
        lemma_doubled_quotes_prepend(s[0], rest);
        law_quoting_can_be_undone(rest);
        let d = doubled_quotes(rest);
        if s[0] == '\'' {
            assert((seq!['\'', '\''] + d).skip(2) =~= d);
        } else {
            assert((seq![s[0]] + d).skip(1) =~= d);
        }
    }
}

/// A fixed-format card: the keyword in eight columns, `= `, and the value
/// right-justified into the next twenty, which is where every reader expects
/// a number.
pub open spec fn fixed_card(key: Seq<char>, value: Seq<char>) -> Seq<char> {
    pad_right(key, 8, ' ') + seq!['=', ' '] + pad_left(value, 20, ' ')
}

/// A string card: the value single-quoted with quotes doubled, padded to at
/// least eight characters inside the quotes.
pub open spec fn text_card(key: Seq<char>, value: Seq<char>) -> Seq<char> {
    pad_right(key, 8, ' ') + seq!['=', ' ', '\''] + pad_right(doubled_quotes(value), 8, ' ') + seq!['\'']
}

/// How many bytes UTF-8 spends on a character.
pub open spec fn utf8_width(c: char) -> nat {
    if (c as u32) < 0x80 {
        1
    } else if (c as u32) < 0x800 {
        2
    } else if (c as u32) < 0x10000 {
        3
    } else {
        4
    }
}

/// How many bytes UTF-8 spends on a text.
pub open spec fn utf8_length(s: Seq<char>) -> nat
    decreases s.len(),
{
    if s.len() == 0 {
        0
    } else {
        utf8_length(s.drop_last()) + utf8_width(s.last())
    }
}

/// A text that can be cut to a card's length: it is no longer than a card in
/// bytes, or a character ends exactly at the card's last byte.
pub open spec fn cuttable(s: Seq<char>) -> bool {
    utf8_length(s) <= 80 || exists|k: int| 0 <= k <= s.len() && #[trigger] utf8_length(s.take(k)) == 80
}

/// The card image: the text cut to eighty bytes and padded with spaces to
/// eighty characters.
pub open spec fn card_image(s: Seq<char>, k: int) -> Seq<char> {
    if utf8_length(s) <= 80 {
        pad_right(s, 80, ' ')
    } else {
        pad_right(s.take(k), 80, ' ')
    }
}

/// What a master needs to carry so that it can be trusted a month later.
///
/// Exposure and gain are floating point in the frames they come from, so they
/// arrive here already rendered, to six decimals, as the value column of their
/// cards.
pub struct Header {
    pub image_type: String,
    pub instrument: String,
    /// Seconds, rendered. `None` where it does not apply or was not recorded.
    pub exposure: Option<String>,
    /// The ISO speed, rendered.
    pub iso: Option<String>,
    /// How many frames went into it.
    pub frames: usize,
    pub combination: String,
    /// `RGGB` and the like, or `None` for a frame that is not mosaiced.
    pub bayer_pattern: Option<String>,
    /// Free text: what was subtracted, how much was rejected, what was odd.
    pub notes: Vec<String>,
}

/// One card when `present`, none otherwise.
pub open spec fn card_if(present: bool, card: Seq<char>) -> Seq<Seq<char>> {
    if present {
        seq![card]
    } else {
        seq![]
    }
}

/// The cards every file starts with, in the order the standard requires.
pub open spec fn required_cards(width: int, height: int) -> Seq<Seq<char>> {
    seq![
        fixed_card("SIMPLE"@, seq!['T']),
        fixed_card("BITPIX"@, signed_decimal(-32)),
        fixed_card("NAXIS"@, signed_decimal(2)),
        fixed_card("NAXIS1"@, signed_decimal(width)),
        fixed_card("NAXIS2"@, signed_decimal(height)),
        fixed_card("BZERO"@, "0.000000"@),
        fixed_card("BSCALE"@, "1.000000"@),
        text_card("ROWORDER"@, "TOP-DOWN"@),
    ]
}

/// What was imaged and how: each card present only where the header holds
/// something for it.
pub open spec fn subject_cards(h: Header) -> Seq<Seq<char>> {
    card_if(h.image_type@.len() > 0, text_card("IMAGETYP"@, h.image_type@)) + card_if(
        h.instrument@.len() > 0,
        text_card("INSTRUME"@, h.instrument@),
    ) + card_if(h.exposure is Some, fixed_card("EXPTIME"@, h.exposure->0@)) + card_if(
        h.iso is Some,
        fixed_card("ISOSPEED"@, h.iso->0@),
    )
}

/// How the master was combined, and its mosaic where it has one.
pub open spec fn stacking_cards(h: Header) -> Seq<Seq<char>> {
    seq![fixed_card("STACKCNT"@, signed_decimal(h.frames as int))] + card_if(
        h.combination@.len() > 0,
        text_card("COMBINE"@, h.combination@),
    ) + (if h.bayer_pattern is Some {
        seq![
            text_card("BAYERPAT"@, h.bayer_pattern->0@),
            fixed_card("XBAYROFF"@, signed_decimal(0)),
            fixed_card("YBAYROFF"@, signed_decimal(0)),
        ]
    } else {
        seq![]
    })
}

/// The cards that describe the master.
pub open spec fn described_cards(h: Header) -> Seq<Seq<char>> {
    subject_cards(h) + stacking_cards(h)
}

/// What wrote the file, the units, the notes as comments, and `END`.
pub open spec fn closing_cards(h: Header) -> Seq<Seq<char>> {
    seq![text_card("CREATOR"@, CREATOR@), "COMMENT "@ + "Values are in ADU as the sensor read them, not normalised."@]
        + h.notes@.map_values(|n: String| "COMMENT "@ + n@) + seq!["END"@]
}

/// The texts of the cards a header is written as, in order.
pub open spec fn header_card_texts(h: Header, width: int, height: int) -> Seq<Seq<char>> {
    required_cards(width, height) + described_cards(h) + closing_cards(h)
}

/// A header opens with `SIMPLE`, 32-bit float samples, two axes, then the
/// width as `NAXIS1` (the samples along a row, which vary fastest) and the
/// height as `NAXIS2` (the rows), no offset or scale, rows top-down; and it
/// closes with `END`, whatever else the header says.
pub proof fn law_the_axes_are_width_then_height(h: Header, width: int, height: int)
    ensures
        header_card_texts(h, width, height).len() > 8,
        header_card_texts(h, width, height)[0] == fixed_card("SIMPLE"@, seq!['T']),
        header_card_texts(h, width, height)[1] == fixed_card("BITPIX"@, signed_decimal(-32)),
        header_card_texts(h, width, height)[2] == fixed_card("NAXIS"@, signed_decimal(2)),
        header_card_texts(h, width, height)[3] == fixed_card("NAXIS1"@, signed_decimal(width)),
        header_card_texts(h, width, height)[4] == fixed_card("NAXIS2"@, signed_decimal(height)),
        header_card_texts(h, width, height)[5] == fixed_card("BZERO"@, "0.000000"@),
        header_card_texts(h, width, height)[6] == fixed_card("BSCALE"@, "1.000000"@),
        header_card_texts(h, width, height)[7] == text_card("ROWORDER"@, "TOP-DOWN"@),
        header_card_texts(h, width, height).last() == "END"@,
{
    let all = header_card_texts(h, width, height);
    let required = required_cards(width, height);
    assert(all == required + (described_cards(h) + closing_cards(h)));
    assert(closing_cards(h).len() >= 1);
}

/// The texts of some cards.
pub open spec fn card_texts(cards: Seq<Card>) -> Seq<Seq<char>> {
    cards.map_values(|c: Card| c.0@)
}

fn push_card(cards: &mut Vec<Card>, card: Card)
    ensures
        card_texts(final(cards)@) == card_texts(old(cards)@).push(card.0@),
{
    let ghost before = cards@;
    cards.push(card);
    proof {
        assert(card_texts(cards@) =~= card_texts(before).push(card.0@));
    }
}

fn push_required(cards: &mut Vec<Card>, width: usize, height: usize)
    requires
        width <= i64::MAX,
        height <= i64::MAX,
    ensures
        card_texts(final(cards)@) == card_texts(old(cards)@) + required_cards(width as int, height as int),
{
    let ghost before = card_texts(cards@);
    push_card(cards, Card::logical("SIMPLE", true));
    push_card(cards, Card::integer("BITPIX", -32));
    push_card(cards, Card::integer("NAXIS", 2));
    push_card(cards, Card::integer("NAXIS1", width as i64));
    push_card(cards, Card::integer("NAXIS2", height as i64));
    push_card(cards, Card::fixed("BZERO", "0.000000"));
    push_card(cards, Card::fixed("BSCALE", "1.000000"));
    // Sensor readout order, not the FITS display convention: the mosaic is
    // anchored to the sensor origin.
    push_card(cards, Card::text("ROWORDER", "TOP-DOWN"));
    proof {
        assert(card_texts(cards@) =~= before + required_cards(width as int, height as int));
    }
}

fn push_subject(cards: &mut Vec<Card>, header: &Header)
    ensures
        card_texts(final(cards)@) == card_texts(old(cards)@) + subject_cards(*header),
{
    let ghost start = card_texts(cards@);
    if header.image_type.as_str().unicode_len() > 0 {
        push_card(cards, Card::text("IMAGETYP", header.image_type.as_str()));
    }
    let ghost s1 = card_texts(cards@);
    proof {
        assert(s1 =~= start + card_if(header.image_type@.len() > 0, text_card("IMAGETYP"@, header.image_type@)));
    }
    if header.instrument.as_str().unicode_len() > 0 {
        push_card(cards, Card::text("INSTRUME", header.instrument.as_str()));
    }
    let ghost s2 = card_texts(cards@);
    proof {
        assert(s2 =~= s1 + card_if(header.instrument@.len() > 0, text_card("INSTRUME"@, header.instrument@)));
    }
    if let Some(exposure) = &header.exposure {
        push_card(cards, Card::fixed("EXPTIME", exposure.as_str()));
    }
    let ghost s3 = card_texts(cards@);
    proof {
        assert(s3 =~= s2 + card_if(header.exposure is Some, fixed_card("EXPTIME"@, header.exposure->0@)));
    }
    if let Some(iso) = &header.iso {
        push_card(cards, Card::fixed("ISOSPEED", iso.as_str()));
    }
    proof {
        assert(card_texts(cards@) =~= s3 + card_if(header.iso is Some, fixed_card("ISOSPEED"@, header.iso->0@)));
        assert(card_texts(cards@) =~= start + subject_cards(*header));
    }
}

fn push_stacking(cards: &mut Vec<Card>, header: &Header)
    requires
        header.frames <= i64::MAX,
    ensures
        card_texts(final(cards)@) == card_texts(old(cards)@) + stacking_cards(*header),
{
    let ghost start = card_texts(cards@);
    push_card(cards, Card::integer("STACKCNT", header.frames as i64));
    let ghost s5 = card_texts(cards@);
    if header.combination.as_str().unicode_len() > 0 {
        push_card(cards, Card::text("COMBINE", header.combination.as_str()));
    }
    let ghost s6 = card_texts(cards@);
    proof {
        assert(s6 =~= s5 + card_if(header.combination@.len() > 0, text_card("COMBINE"@, header.combination@)));
    }
    if let Some(pattern) = &header.bayer_pattern {
        push_card(cards, Card::text("BAYERPAT", pattern.as_str()));
        push_card(cards, Card::integer("XBAYROFF", 0));
        push_card(cards, Card::integer("YBAYROFF", 0));
    }
    proof {
        assert(card_texts(cards@) =~= start + stacking_cards(*header));
    }
}

fn push_closing(cards: &mut Vec<Card>, header: &Header)
    ensures
        card_texts(final(cards)@) == card_texts(old(cards)@) + closing_cards(*header),
{
    let ghost start = card_texts(cards@);
    push_card(cards, Card::text("CREATOR", CREATOR));
    push_card(cards, Card::comment("Values are in ADU as the sensor read them, not normalised."));
    let ghost before_notes = card_texts(cards@);
    let mut i: usize = 0;
    while i < header.notes.len()
        invariant
            i <= header.notes@.len(),
            card_texts(cards@) == before_notes + header.notes@.take(i as int).map_values(
                |n: String| "COMMENT "@ + n@,
            ),
        decreases header.notes@.len() - i,
    {
        // A note longer than a card is cut rather than wrapped: a header is
        // not the place for prose.
        push_card(cards, Card::comment(header.notes[i].as_str()));
        proof {
            assert(header.notes@.take(i + 1).map_values(|n: String| "COMMENT "@ + n@) =~= header.notes@.take(
                i as int,
            ).map_values(|n: String| "COMMENT "@ + n@).push("COMMENT "@ + header.notes@[i as int]@));
        }
        i = i + 1;
    }
    push_card(cards, Card(string_of(&literal("END"))));
    proof {
        assert(header.notes@.take(header.notes@.len() as int) =~= header.notes@);
        assert(card_texts(cards@) =~= start + closing_cards(*header));
    }
}

/// The cards a master's header is written as, in order.
pub fn header_cards(header: &Header, width: usize, height: usize) -> (r: Vec<Card>)
    requires
        width <= i64::MAX,
        height <= i64::MAX,
        header.frames <= i64::MAX,
    ensures
        card_texts(r@) == header_card_texts(*header, width as int, height as int),
{
    let mut cards: Vec<Card> = Vec::new();
    proof {
        assert(card_texts(cards@) =~= Seq::<Seq<char>>::empty());
    }
    push_required(&mut cards, width, height);
    push_subject(&mut cards, header);
    push_stacking(&mut cards, header);
    push_closing(&mut cards, header);
    proof {
        assert(card_texts(cards@) =~= header_card_texts(*header, width as int, height as int));
    }
    cards
}

/// Padding after `written` bytes up to the next block boundary.
pub open spec fn block_padding(written: nat) -> nat {
    if written % 2880 == 0 {
        0
    } else {
        (2880 - written % 2880) as nat
    }
}

fn doubled_quotes_of(s: &str) -> (out: Vec<char>)
    ensures
        out@ == doubled_quotes(s@),
{
    let chars = chars_of(s);
    let mut out: Vec<char> = Vec::new();
    let mut i: usize = 0;
    while i < chars.len()
        invariant
            i <= chars.len(),
            chars@ == s@,
            out@ == doubled_quotes(chars@.take(i as int)),
        decreases chars.len() - i,
    {
        let c = chars[i];
        proof {
            assert(chars@.take(i + 1).drop_last() =~= chars@.take(i as int));
        }
        out.push(c);
        if c == '\'' {
            out.push('\'');
        }
        proof {
            if c == '\'' {
                assert(out@ =~= doubled_quotes(chars@.take(i as int)) + seq!['\'', '\'']);
            }
        }
        i = i + 1;
    }
    proof {
        assert(chars@.take(chars.len() as int) =~= chars@);
    }
    out
}

fn literal(s: &str) -> (out: Vec<char>)
    ensures
        out@ == s@,
{
    chars_of(s)
}

impl Card {
    /// `T` or `F`, in the fixed-format column.
    pub fn logical(key: &str, value: bool) -> (r: Card)
        ensures
            r.0@ == fixed_card(key@, if value { seq!['T'] } else { seq!['F'] }),
    {
        let r = Card::fixed(key, if value { "T" } else { "F" });
        proof {
            reveal_strlit("T");
            reveal_strlit("F");
        }
        r
    }

    /// A whole number, in the fixed-format column.
    pub fn integer(key: &str, value: i64) -> (r: Card)
        ensures
            r.0@ == fixed_card(key@, signed_decimal(value as int)),
    {
        let digits = string_of(&signed_decimal_of(value));
        Card::fixed(key, digits.as_str())
    }

    /// A string, quoted as FITS quotes it.
    pub fn text(key: &str, value: &str) -> (r: Card)
        ensures
            r.0@ == text_card(key@, value@),
    {
        let mut out = padded_right(&chars_of(key), 8, ' ');
        out = concat(&out, &literal("= '"));
        out = concat(&out, &padded_right(&doubled_quotes_of(value), 8, ' '));
        out = concat(&out, &literal("'"));
        proof {
            reveal_strlit("= '");
            reveal_strlit("'");
        }
        Card(string_of(&out))
    }

    /// A `COMMENT` card.
    pub fn comment(text: &str) -> (r: Card)
        ensures
            r.0@ == "COMMENT "@ + text@,
    {
        Card(string_of(&concat(&literal("COMMENT "), &chars_of(text))))
    }

    /// A value right-justified into columns 11 to 30.
    pub fn fixed(key: &str, value: &str) -> (r: Card)
        ensures
            r.0@ == fixed_card(key@, value@),
    {
        let mut out = padded_right(&chars_of(key), 8, ' ');
        out = concat(&out, &literal("= "));
        out = concat(&out, &padded_left(&chars_of(value), 20, ' '));
        proof {
            reveal_strlit("= ");
        }
        Card(string_of(&out))
    }

    /// The card as it goes into the file: cut to eighty bytes, padded with
    /// spaces to eighty characters.
    pub fn write(&self) -> (r: String)
        requires
            cuttable(self.0@),
        ensures
            forall|k: int| 0 <= k <= self.0@.len() && #[trigger] utf8_length(self.0@.take(k)) == 80
                ==> r@ == card_image(self.0@, k),
            utf8_length(self.0@) <= 80 ==> r@ == pad_right(self.0@, 80, ' '),
    {
        let chars = chars_of(self.0.as_str());
        let mut kept: Vec<char> = Vec::new();
        let mut bytes: usize = 0;
        let mut i: usize = 0;
        while i < chars.len() && bytes < 80
            invariant
                i <= chars.len(),
                chars@ == self.0@,
                kept@ == chars@.take(i as int),
                bytes == utf8_length(chars@.take(i as int)),
                bytes <= 80,
                cuttable(self.0@),
            decreases chars.len() - i,
        {
            let c = chars[i];
            let code: u32 = c as u32;
            let width: usize = if code < 0x80 {
                1
            } else if code < 0x800 {
                2
            } else if code < 0x10000 {
                3
            } else {
                4
            };
            proof {
                assert(chars@.take(i + 1).drop_last() =~= chars@.take(i as int));
                lemma_utf8_length_prefixes(chars@, i + 1);
            }
            kept.push(c);
            bytes = bytes + width;
            i = i + 1;
            proof {
                assert(kept@ =~= chars@.take(i as int));
                if bytes > 80 {
                    // No character ends at byte eighty: the text is not
                    // cuttable after all.
                    assert(utf8_length(self.0@) > 80) by {
                        lemma_utf8_length_monotone(chars@, i as int, chars@.len() as int);
                        assert(chars@.take(chars@.len() as int) =~= chars@);
                    }
                    let k = choose|k: int| 0 <= k <= self.0@.len() && #[trigger] utf8_length(self.0@.take(k)) == 80;
                    if k < i {
                        lemma_utf8_length_monotone(chars@, k, i - 1);
                    } else {
                        lemma_utf8_length_monotone(chars@, i as int, k);
                    }
                    assert(false);
                }
            }
        }
        proof {
            assert forall|k: int| 0 <= k <= self.0@.len() && #[trigger] utf8_length(self.0@.take(k)) == 80 implies kept@
                == self.0@.take(k) by {
                if k < i {
                    lemma_utf8_length_strict(chars@, k, i as int);
                } else if k > i {
                    lemma_utf8_length_strict(chars@, i as int, k);
                    if i < chars.len() {
                    } else {
                    }
                }
            }
            if utf8_length(self.0@) <= 80 {
                if i < chars.len() {
                    lemma_utf8_length_strict(chars@, i as int, chars@.len() as int);
                    assert(chars@.take(chars@.len() as int) =~= chars@);
                }
                assert(kept@ =~= self.0@);
            }
        }
        string_of(&padded_right(&kept, 80, ' '))
    }
}

proof fn lemma_utf8_length_prefixes(s: Seq<char>, n: int)
    requires
        0 < n <= s.len(),
    ensures
        utf8_length(s.take(n)) == utf8_length(s.take(n - 1)) + utf8_width(s[n - 1]),
{
    assert(s.take(n).drop_last() =~= s.take(n - 1));
}

proof fn lemma_utf8_length_monotone(s: Seq<char>, m: int, n: int)
    requires
        0 <= m <= n <= s.len(),
    ensures
        utf8_length(s.take(m)) <= utf8_length(s.take(n)),
    decreases n - m,
{
    if m < n {
        lemma_utf8_length_prefixes(s, n);
        lemma_utf8_length_monotone(s, m, n - 1);
    }
}

proof fn lemma_utf8_length_strict(s: Seq<char>, m: int, n: int)
    requires
        0 <= m < n <= s.len(),
    ensures
        utf8_length(s.take(m)) < utf8_length(s.take(n)),
    decreases n - m,
{
    lemma_utf8_length_prefixes(s, n);
    if m < n - 1 {
        lemma_utf8_length_strict(s, m, n - 1);
    }
}

/// Whether a card's text can be cut to eighty bytes without splitting a
/// character: what [`Card::write`] needs of it.
pub fn cuttable_text(s: &str) -> (r: bool)
    ensures
        r == cuttable(s@),
{
    let chars = chars_of(s);
    let mut bytes: usize = 0;
    let mut i: usize = 0;
    while i < chars.len()
        invariant
            i <= chars@.len(),
            chars@ == s@,
            bytes == utf8_length(chars@.take(i as int)),
            bytes < 80,
            forall|k: int| 0 <= k <= i ==> utf8_length(#[trigger] chars@.take(k)) < 80,
        decreases chars@.len() - i,
    {
        let code: u32 = chars[i] as u32;
        let width: usize = if code < 0x80 {
            1
        } else if code < 0x800 {
            2
        } else if code < 0x10000 {
            3
        } else {
            4
        };
        proof {
            lemma_utf8_length_prefixes(chars@, i + 1);
        }
        if bytes + width == 80 {
            return true;
        }
        if bytes + width > 80 {
            // The byte count jumps over eighty here, so no prefix ends at
            // eighty, and the whole is longer.
            proof {
                assert(utf8_length(s@) > 80) by {
                    lemma_utf8_length_monotone(chars@, i + 1, chars@.len() as int);
                    assert(chars@.take(chars@.len() as int) =~= chars@);
                }
                assert forall|k: int| 0 <= k <= s@.len() implies utf8_length(#[trigger] s@.take(k)) != 80 by {
                    if k > i + 1 {
                        lemma_utf8_length_monotone(chars@, i + 1, k);
                    }
                }
            }
            return false;
        }
        bytes = bytes + width;
        i = i + 1;
    }
    proof {
        assert(chars@.take(chars@.len() as int) =~= chars@);
    }
    true
}

/// Why a buffer of `samples` values cannot be written as a `width` by
/// `height` image: it does not hold exactly one value per pixel.
pub open spec fn sample_count_text(samples: nat, width: nat, height: nat) -> Option<Seq<char>> {
    if samples == width * height {
        None
    } else {
        Some(decimal(samples) + " samples for a "@ + decimal(width) + "x"@ + decimal(height) + " image"@)
    }
}

/// `None` when the buffer holds one value per pixel, else the refusal in
/// words.
pub fn sample_count_problem(samples: usize, width: usize, height: usize) -> (r: Option<String>)
    ensures
        match r {
            Some(t) => sample_count_text(samples as nat, width as nat, height as nat) == Some(t@),
            None => sample_count_text(samples as nat, width as nat, height as nat) is None,
        },
{
    let fits = match width.checked_mul(height) {
        Some(n) => n == samples,
        None => false,
    };
    if fits {
        return None;
    }
    let mut out = concat(&decimal_of(samples as u64), &chars_of(" samples for a "));
    out = concat(&out, &decimal_of(width as u64));
    out = concat(&out, &chars_of("x"));
    out = concat(&out, &decimal_of(height as u64));
    out = concat(&out, &chars_of(" image"));
    Some(string_of(&out))
}

/// The bytes that carry a section of `written` bytes to the next block
/// boundary: none when it already ends on one.
pub fn pad_to_block(written: usize, fill: u8) -> (r: Vec<u8>)
    ensures
        r@ == Seq::new(block_padding(written as nat), |_i: int| fill),
{
    let remainder = written % BLOCK;
    let mut out: Vec<u8> = Vec::new();
    if remainder == 0 {
        proof {
            assert(out@ =~= Seq::new(block_padding(written as nat), |_i: int| fill));
        }
        return out;
    }
    let count = BLOCK - remainder;
    let mut i: usize = 0;
    while i < count
        invariant
            i <= count,
            out@ == Seq::new(i as nat, |_i: int| fill),
        decreases count - i,
    {
        out.push(fill);
        proof {
            assert(out@ =~= Seq::new((i + 1) as nat, |_i: int| fill));
        }
        i = i + 1;
    }
    out
}

/// A card's text as it goes into the file.
pub open spec fn cut_card(s: Seq<char>) -> Seq<char> {
    card_image(s, choose|k: int| 0 <= k <= s.len() && #[trigger] utf8_length(s.take(k)) == 80)
}

/// Card images, one after another.
pub open spec fn card_images(texts: Seq<Seq<char>>) -> Seq<char>
    decreases texts.len(),
{
    if texts.len() == 0 {
        seq![]
    } else {
        card_images(texts.drop_last()) + cut_card(texts.last())
    }
}

/// The header section: the card images, then spaces to the end of the block
/// (counted as eighty bytes a card).
pub open spec fn header_section(texts: Seq<Seq<char>>) -> Seq<char> {
    card_images(texts) + Seq::new(block_padding(texts.len() * 80), |_i: int| ' ')
}

/// The header section of a file: every card cut and padded to eighty
/// characters, then spaces to the end of the block.
pub fn header_text(cards: &Vec<Card>) -> (r: String)
    requires
        forall|i: int| 0 <= i < cards@.len() ==> cuttable(#[trigger] cards@[i].0@),
        cards@.len() * 80 <= usize::MAX,
    ensures
        r@ == header_section(card_texts(cards@)),
{
    let ghost texts = card_texts(cards@);
    let mut out: Vec<char> = Vec::new();
    let mut i: usize = 0;
    while i < cards.len()
        invariant
            i <= cards@.len(),
            texts == card_texts(cards@),
            forall|j: int| 0 <= j < cards@.len() ==> cuttable(#[trigger] cards@[j].0@),
            out@ == card_images(texts.take(i as int)),
        decreases cards@.len() - i,
    {
        let image = cards[i].write();
        proof {
            let t = cards@[i as int].0@;
            assert(texts[i as int] == t);
            if utf8_length(t) > 80 {
                let k = choose|k: int| 0 <= k <= t.len() && #[trigger] utf8_length(t.take(k)) == 80;
                assert(image@ == card_image(t, k));
            }
            assert(texts.take(i + 1).drop_last() =~= texts.take(i as int));
            assert(image@ == cut_card(t));
        }
        out = concat(&out, &chars_of(image.as_str()));
        i = i + 1;
    }
    let padding = block_padding_text(cards.len() * CARD);
    out = concat(&out, &padding);
    proof {
        assert(texts.take(cards@.len() as int) =~= texts);
    }
    string_of(&out)
}

fn block_padding_text(written: usize) -> (r: Vec<char>)
    ensures
        r@ == Seq::new(block_padding(written as nat), |_i: int| ' '),
{
    let remainder = written % BLOCK;
    let count: usize = if remainder == 0 {
        0
    } else {
        BLOCK - remainder
    };
    let mut out: Vec<char> = Vec::new();
    let mut i: usize = 0;
    while i < count
        invariant
            i <= count,
            out@ == Seq::new(i as nat, |_i: int| ' '),
        decreases count - i,
    {
        out.push(' ');
        proof {
            assert(out@ =~= Seq::new((i + 1) as nat, |_i: int| ' '));
        }
        i = i + 1;
    }
    out
}

proof fn lemma_utf8_length_at_least_len(s: Seq<char>)
    ensures
        utf8_length(s) >= s.len(),
    decreases s.len(),
{
    if s.len() > 0 {
        lemma_utf8_length_at_least_len(s.drop_last());
    }
}

proof fn lemma_card_image_is_a_card(s: Seq<char>)
    requires
        cuttable(s),
    ensures
        cut_card(s).len() == 80,
{
    lemma_utf8_length_at_least_len(s);
    if utf8_length(s) > 80 {
        let k = choose|k: int| 0 <= k <= s.len() && #[trigger] utf8_length(s.take(k)) == 80;
        lemma_utf8_length_at_least_len(s.take(k));
    }
}

proof fn lemma_card_images_length(texts: Seq<Seq<char>>)
    requires
        forall|i: int| 0 <= i < texts.len() ==> cuttable(#[trigger] texts[i]),
    ensures
        card_images(texts).len() == texts.len() * 80,
    decreases texts.len(),
{
    if texts.len() > 0 {
        let rest = texts.drop_last();
        assert forall|i: int| 0 <= i < rest.len() implies cuttable(#[trigger] rest[i]) by {
            assert(rest[i] == texts[i]);
        }
        lemma_card_images_length(rest);
        lemma_card_image_is_a_card(texts.last());
    }
}

/// A header section is a whole number of blocks, in characters: every card is
/// eighty of them and the padding runs to the block's end.
pub proof fn law_header_fills_whole_blocks(texts: Seq<Seq<char>>)
    requires
        forall|i: int| 0 <= i < texts.len() ==> cuttable(#[trigger] texts[i]),
    ensures
        header_section(texts).len() % 2880 == 0,
        header_section(texts).len() >= texts.len() * 80,
{
    lemma_card_images_length(texts);
    let n = texts.len() * 80;
    assert((n + block_padding(n)) % 2880 == 0) by (nonlinear_arith)
        requires
            n >= 0,
            block_padding(n) == (if n % 2880 == 0 { 0 } else { 2880 - n % 2880 }),
    ;
}

} // verus!

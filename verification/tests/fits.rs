use astro_core::fits::{header_cards, header_text, pad_to_block, sample_count_problem, Card, Header, BLOCK, CARD};

fn header() -> Header {
    Header {
        image_type: "Dark".to_owned(),
        instrument: "Canon EOS 60D".to_owned(),
        exposure: Some("30.000000".to_owned()),
        iso: Some("6400.000000".to_owned()),
        frames: 11,
        combination: "median".to_owned(),
        bayer_pattern: Some("GBRG".to_owned()),
        notes: vec!["nothing rejected".to_owned()],
    }
}

#[test]
fn a_quote_in_a_value_does_not_break_the_card() {
    let card = Card::text("OBJECT", "Barnard's Loop");
    assert!(card.0.contains("'Barnard''s Loop'"), "{}", card.0);
}

#[test]
fn the_header_is_a_whole_number_of_blocks() {
    let text = header_text(&header_cards(&header(), 17, 13));
    assert_eq!(text.len() % BLOCK, 0);
    assert!(text.len() >= BLOCK);
}

#[test]
fn the_required_cards_come_first_and_in_order() {
    let text = header_text(&header_cards(&header(), 2, 2));
    let cards: Vec<&str> = text.as_bytes().chunks(CARD).map(|c| std::str::from_utf8(c).unwrap()).collect();
    assert!(cards[0].starts_with("SIMPLE  =                    T"));
    assert!(cards[1].starts_with("BITPIX  =                  -32"));
    assert!(cards[2].starts_with("NAXIS   =                    2"));
    assert!(cards[3].starts_with("NAXIS1  =                    2"));
    assert!(cards[4].starts_with("NAXIS2  =                    2"));
    assert!(cards.iter().any(|card| card.trim_end() == "END"));
}

#[test]
fn what_the_header_holds_is_written_after_the_required_cards() {
    let cards = header_cards(&header(), 4, 3);
    let texts: Vec<&str> = cards.iter().map(|c| c.0.as_str()).collect();
    assert_eq!(texts[7], "ROWORDER= 'TOP-DOWN'");
    assert_eq!(texts[8], "IMAGETYP= 'Dark    '");
    assert_eq!(texts[9], "INSTRUME= 'Canon EOS 60D'");
    assert_eq!(texts[10], "EXPTIME =            30.000000");
    assert_eq!(texts[11], "ISOSPEED=          6400.000000");
    assert_eq!(texts[12], "STACKCNT=                   11");
    assert_eq!(texts[13], "COMBINE = 'median  '");
    assert_eq!(texts[14], "BAYERPAT= 'GBRG    '");
    assert_eq!(texts[15], "XBAYROFF=                    0");
    assert_eq!(texts[16], "YBAYROFF=                    0");
    assert_eq!(texts[17], "CREATOR = 'astro-stacker 0.1.0'");
    assert_eq!(texts[18], "COMMENT Values are in ADU as the sensor read them, not normalised.");
    assert_eq!(texts[19], "COMMENT nothing rejected");
    assert_eq!(texts[20], "END");
    assert_eq!(texts.len(), 21);
}

#[test]
fn an_empty_header_writes_only_what_is_required() {
    let empty = Header {
        image_type: String::new(),
        instrument: String::new(),
        exposure: None,
        iso: None,
        frames: 0,
        combination: String::new(),
        bayer_pattern: None,
        notes: Vec::new(),
    };
    let texts: Vec<String> = header_cards(&empty, 1, 1).into_iter().map(|c| c.0).collect();
    assert_eq!(texts.len(), 12);
    assert_eq!(texts[8], "STACKCNT=                    0");
}

#[test]
fn a_long_card_is_cut_at_eighty_characters() {
    let note = "x".repeat(200);
    let card = Card::comment(&note);
    let written = card.write();
    assert_eq!(written.len(), 80);
    assert!(written.starts_with("COMMENT xxxx"));
    let short = Card::logical("SIMPLE", false).write();
    assert_eq!(short.len(), 80);
    assert!(short.starts_with("SIMPLE  =                    F"));
}

#[test]
fn numbers_are_right_justified_into_the_value_column() {
    assert_eq!(Card::integer("BITPIX", -32).0, "BITPIX  =                  -32");
    assert_eq!(Card::fixed("BZERO", "0.000000").0, "BZERO   =             0.000000");
}

#[test]
fn padding_reaches_the_next_block_and_no_further() {
    assert_eq!(pad_to_block(0, 0).len(), 0);
    assert_eq!(pad_to_block(2880, 0).len(), 0);
    assert_eq!(pad_to_block(16, 0).len(), 2864);
    assert!(pad_to_block(80, b' ').iter().all(|b| *b == b' '));
    assert_eq!(pad_to_block(2881, 7).len(), 2879);
}

#[test]
fn a_card_that_would_be_cut_inside_a_character_is_recognised() {
    assert!(astro_core::fits::cuttable_text("short"));
    assert!(astro_core::fits::cuttable_text(&"x".repeat(200)));
    // Seventy-nine ASCII bytes and then a two-byte character straddle byte
    // eighty.
    let straddling = format!("{}é", "x".repeat(79));
    assert!(!astro_core::fits::cuttable_text(&straddling));
    let ending_on_eighty = format!("{}éx", "x".repeat(78));
    assert!(astro_core::fits::cuttable_text(&ending_on_eighty));
    assert_eq!(Card(ending_on_eighty).write().chars().count(), 80);
}

#[test]
fn the_file_is_a_whole_number_of_blocks() {
    // A 17 by 13 image of 32-bit samples: the header, the samples, then the
    // padding that completes the last block.
    let cards = header_cards(&header(), 17, 13);
    let head = header_text(&cards).into_bytes();
    let samples: Vec<u8> = std::iter::repeat(2048.0f32.to_be_bytes()).take(17 * 13).flatten().collect();
    let padding = pad_to_block(samples.len(), 0);
    let total = head.len() + samples.len() + padding.len();
    assert_eq!(total % BLOCK, 0);
    assert!(total >= 2 * BLOCK, "a header block and a data block at least");
}

#[test]
fn a_buffer_that_is_not_one_value_per_pixel_is_refused() {
    assert_eq!(sample_count_problem(17 * 13, 17, 13), None);
    assert_eq!(sample_count_problem(220, 17, 13).as_deref(), Some("220 samples for a 17x13 image"));
    assert_eq!(sample_count_problem(0, usize::MAX, 2).as_deref(), Some(format!("0 samples for a {}x2 image", usize::MAX).as_str()));
}

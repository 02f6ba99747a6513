use astro_core::error::{Error, PedestalSource};
use astro_core::formats::{best_bid, is_plugin_file_name, layout_problem, refuse_duplicate_id};
use astro_core::frame::{ImageLayout, SampleFormat};

#[test]
fn recognises_plugin_libraries_by_name() {
    // Linux's conventions, and then Windows': the platform's library
    // extension, and a stem that is the prefix once the platform's library
    // prefix is taken off.
    assert!(is_plugin_file_name(Some("so"), Some("libastro_format_canon"), "so", "lib"));
    assert!(is_plugin_file_name(Some("DLL"), Some("astro_format_canon"), "dll", ""));
    assert!(!is_plugin_file_name(Some("exe"), Some("astro-stacker"), "dll", ""));
    assert!(!is_plugin_file_name(Some("dll"), Some("vcruntime140"), "dll", ""));
    assert!(!is_plugin_file_name(Some("pdb"), Some("astro_format_canon"), "dll", ""));
    assert!(!is_plugin_file_name(None, Some("astro_format_canon"), "dll", ""));
    // Without its prefix a Linux library still qualifies: the prefix is taken
    // off only where it is there.
    assert!(is_plugin_file_name(Some("so"), Some("astro_format_canon"), "so", "lib"));
}

#[test]
fn the_highest_bid_wins_and_the_first_of_equals() {
    assert_eq!(best_bid(&vec![]), None);
    assert_eq!(best_bid(&vec![-1, -5]), None);
    assert_eq!(best_bid(&vec![10, 50, 20]), Some(1));
    assert_eq!(best_bid(&vec![50, 50]), Some(0));
    // Anything above certain counts as certain, so it cannot outbid one.
    assert_eq!(best_bid(&vec![100, 400]), Some(0));
    assert_eq!(best_bid(&vec![-1, 0]), Some(1));
}

fn sane_layout() -> ImageLayout {
    let mut layout = ImageLayout::empty();
    layout.width = 10;
    layout.height = 10;
    layout.components = 1;
    layout.sample_format = SampleFormat(0);
    layout
}

#[test]
fn a_layout_that_describes_nothing_is_refused() {
    assert_eq!(layout_problem(&sane_layout()), None);
    let mut empty = sane_layout();
    empty.width = 0;
    assert_eq!(layout_problem(&empty), Some("frame has zero width or height"));
    let mut no_components = sane_layout();
    no_components.components = 0;
    assert_eq!(layout_problem(&no_components), Some("frame has no components"));
    let mut unknown = sane_layout();
    unknown.sample_format = SampleFormat(7);
    assert_eq!(layout_problem(&unknown), Some("frame uses an unknown sample format"));
}

#[test]
fn a_second_decoder_under_a_taken_id_is_refused() {
    let held = vec!["canon".to_owned(), "nikon".to_owned()];
    assert_eq!(refuse_duplicate_id(&held, "fuji"), Ok(()));
    assert_eq!(refuse_duplicate_id(&held, "nikon"), Err(Error::DuplicateFormatId { id: "nikon".to_owned() }));
}

#[test]
fn every_failure_says_what_went_wrong() {
    assert_eq!(Error::DuplicateFormatId { id: "canon".into() }.message(), "two decoders claim the id canon");
    assert_eq!(Error::UnsupportedFormat { path: "a.xyz".into() }.message(), "no decoder can read a.xyz");
    assert_eq!(
        Error::Decode { format: "canon".into(), action: "open".into(), path: "a.cr3".into(), message: "bad".into() }
            .message(),
        "canon failed to open a.cr3: bad"
    );
    assert_eq!(Error::Cancelled.message(), "cancelled");
    assert_eq!(Error::Unmeasurable { name: "a.cr3".into(), reason: "flat".into() }.message(), "a.cr3: flat");
    assert_eq!(Error::NothingToCombine.message(), "there is nothing to combine");
    assert_eq!(
        Error::FrameChanged { path: "a.cr3".into() }.message(),
        "a.cr3 changed while it was being combined: read twice, decoded differently"
    );
    assert_eq!(
        Error::NoPedestal.message(),
        "the flat has no measurable pedestal: no masked border, and no bias at its gain"
    );
    assert_eq!(Error::Io { path: "a.cr3".into(), reason: "gone".into() }.message(), "could not read a.cr3");
}

#[test]
fn a_pedestal_says_where_it_came_from() {
    assert_eq!(PedestalSource::MaskedColumns.name(), "the frame's own masked columns");
    assert_eq!(PedestalSource::MasterBias.name(), "a master bias at the same gain");
}

#[test]
fn the_extensions_decoders_claim_are_listed_once_in_order() {
    let lists = vec![
        vec!["cr3".to_owned(), "cr2".to_owned()],
        vec!["nef".to_owned(), "cr2".to_owned()],
        vec![],
    ];
    assert_eq!(
        astro_core::formats::supported_extensions(&lists),
        vec!["cr2".to_owned(), "cr3".to_owned(), "nef".to_owned()]
    );
    assert_eq!(astro_core::formats::supported_extensions(&vec![]), Vec::<String>::new());
    // A prefix sorts first, as strings do.
    let lists = vec![vec!["tiff".to_owned(), "tif".to_owned(), "Tif".to_owned()]];
    assert_eq!(
        astro_core::formats::supported_extensions(&lists),
        vec!["Tif".to_owned(), "tif".to_owned(), "tiff".to_owned()]
    );
}

use astro_core::tiff::{check_image, file_fits_text, interleave, layout, strip_layout, Entry, TiffLayout};

fn u16_at(bytes: &[u8], offset: usize) -> u16 {
    u16::from_le_bytes([bytes[offset], bytes[offset + 1]])
}

fn u32_at(bytes: &[u8], offset: usize) -> u32 {
    u32::from_le_bytes([bytes[offset], bytes[offset + 1], bytes[offset + 2], bytes[offset + 3]])
}

/// The whole file, with every sample zero.
fn file(l: &TiffLayout) -> Vec<u8> {
    let mut bytes = l.header.clone();
    bytes.extend(std::iter::repeat(0u8).take(l.strips.data_bytes));
    if l.strips.data_bytes % 2 == 1 {
        bytes.push(0);
    }
    assert_eq!(bytes.len(), l.directory_at);
    bytes.extend_from_slice(&l.directory);
    bytes
}

/// Walks the directory the way a reader would, and returns every tag with
/// its value bytes resolved.
fn tags(bytes: &[u8]) -> Vec<(u16, u16, u32, Vec<u8>)> {
    assert_eq!(&bytes[..2], b"II", "little-endian");
    assert_eq!(u16_at(bytes, 2), 42, "classic TIFF");
    let directory = u32_at(bytes, 4) as usize;
    let count = u16_at(bytes, directory) as usize;
    (0..count)
        .map(|i| {
            let at = directory + 2 + i * 12;
            let (tag, kind, values) = (u16_at(bytes, at), u16_at(bytes, at + 2), u32_at(bytes, at + 4));
            let width = match kind {
                1 | 2 => 1,
                3 => 2,
                4 => 4,
                5 => 8,
                other => panic!("unexpected field type {other}"),
            };
            let size = width * values as usize;
            let payload = if size <= 4 {
                bytes[at + 8..at + 8 + size].to_vec()
            } else {
                let offset = u32_at(bytes, at + 8) as usize;
                bytes[offset..offset + size].to_vec()
            };
            (tag, kind, values, payload)
        })
        .collect()
}

fn value(found: &[(u16, u16, u32, Vec<u8>)], tag: u16) -> (u16, u16, u32, Vec<u8>) {
    found.iter().find(|(t, ..)| *t == tag).expect("tag present").clone()
}

#[test]
fn a_reader_can_walk_the_directory_and_find_the_samples() {
    let l = layout(4, 3, 1, "test", "linear: ADU = sample / 65535 * 1100. Uncovered pixels are written as zero.");
    let bytes = file(&l);
    let found = tags(&bytes);

    let order: Vec<u16> = found.iter().map(|(tag, ..)| *tag).collect();
    let mut sorted = order.clone();
    sorted.sort_unstable();
    assert_eq!(order, sorted, "tags must ascend");
    assert_eq!(order.len(), 15);

    assert_eq!(u32_at(&value(&found, 256).3, 0), 4, "width");
    assert_eq!(u32_at(&value(&found, 257).3, 0), 3, "height");
    assert_eq!(u16_at(&value(&found, 258).3, 0), 16, "bits per sample");
    assert_eq!(u16_at(&value(&found, 259).3, 0), 1, "uncompressed");
    assert_eq!(u16_at(&value(&found, 262).3, 0), 1, "black is zero");
    assert_eq!(u16_at(&value(&found, 277).3, 0), 1, "one sample per pixel");
    assert_eq!(u16_at(&value(&found, 339).3, 0), 1, "unsigned integer");

    let offset = u32_at(&value(&found, 273).3, 0) as usize;
    let counts = u32_at(&value(&found, 279).3, 0) as usize;
    assert_eq!(offset, 8, "the samples start right after the header");
    assert_eq!(counts, 4 * 3 * 2, "one strip of the whole image");
}

#[test]
fn the_description_carries_the_note_and_the_scale() {
    let l = layout(2, 2, 1, "test", "linear: ADU = sample / 65535 * 1000. Uncovered pixels are written as zero.");
    let found = tags(&file(&l));
    let description = value(&found, 270).3;
    assert_eq!(description.last(), Some(&0), "NUL-terminated");
    let text = String::from_utf8_lossy(&description[..description.len() - 1]).into_owned();
    assert_eq!(text, "test linear: ADU = sample / 65535 * 1000. Uncovered pixels are written as zero.");
    let software = value(&found, 305).3;
    assert_eq!(&software[..software.len() - 1], b"astro-stacker 0.1.0");
}

#[test]
fn without_a_note_the_description_is_the_mapping_alone() {
    let l = layout(2, 2, 1, "", "asinh stretch");
    let found = tags(&file(&l));
    assert_eq!(value(&found, 270).3, b"asinh stretch\0".to_vec());
}

#[test]
fn three_planes_are_described_as_rgb() {
    let l = layout(2, 1, 3, "", "linear");
    let found = tags(&file(&l));
    assert_eq!(u16_at(&value(&found, 262).3, 0), 2, "RGB");
    assert_eq!(u16_at(&value(&found, 277).3, 0), 3, "three samples per pixel");
    assert_eq!(value(&found, 258).2, 3, "three bits-per-sample entries");
    assert_eq!(value(&found, 258).3, vec![16, 0, 16, 0, 16, 0]);
    assert_eq!(l.strips.row_bytes, 12);
}

#[test]
fn a_tall_image_is_written_in_several_strips() {
    let height = 9000;
    let l = layout(1024, height, 1, "", "linear");
    let found = tags(&file(&l));
    let rows_per_strip = u32_at(&value(&found, 278).3, 0) as usize;
    let (_, _, strips, offsets) = value(&found, 273);
    let counts = value(&found, 279).3;
    assert!(strips > 1, "a 8 MB image should not be one strip");
    assert_eq!(strips as usize, height.div_ceil(rows_per_strip));
    assert_eq!(rows_per_strip, (1 << 23) / (1024 * 2));

    let mut expected = 8usize;
    for strip in 0..strips as usize {
        assert_eq!(u32_at(&offsets, strip * 4) as usize, expected, "strip {strip} starts here");
        let rows = rows_per_strip.min(height - strip * rows_per_strip);
        assert_eq!(u32_at(&counts, strip * 4) as usize, rows * 1024 * 2);
        expected += rows * 1024 * 2;
    }
    assert_eq!(expected, 8 + 1024 * height * 2, "the strips must cover the image exactly");
}

#[test]
fn the_directory_follows_the_samples() {
    let l = layout(1, 1, 1, "", "x");
    assert_eq!(l.strips.data_bytes, 2);
    let odd = strip_layout(3, 1, 1);
    assert_eq!(odd.data_bytes, 6);
    let l = layout(3, 3, 3, "", "x");
    assert_eq!(l.directory_at, 8 + 54);
    let bytes = file(&l);
    assert_eq!(u32_at(&bytes, 4) as usize, l.directory_at);
}

#[test]
fn images_that_cannot_be_written_are_refused_with_a_reason() {
    assert_eq!(check_image(&vec![4, 4], 2, 2), Err("2 planes is neither greyscale nor RGB".to_owned()));
    assert_eq!(check_image(&vec![0], 0, 5), Err("a 0x5 image".to_owned()));
    assert_eq!(check_image(&vec![4, 3, 4], 2, 2), Err("3 samples for a 2x2 plane".to_owned()));
    assert_eq!(check_image(&vec![4], 2, 2), Ok(()));
    assert_eq!(check_image(&vec![6, 6, 6], 3, 2), Ok(()));
}

#[test]
fn entries_render_their_values_little_endian() {
    let short = Entry::short(262, &[2]);
    assert_eq!(short.write(), vec![6, 1, 3, 0, 1, 0, 0, 0, 2, 0, 0, 0]);
    let long = Entry::long(256, &[0x0102_0304]);
    assert_eq!(long.write(), vec![0, 1, 4, 0, 1, 0, 0, 0, 4, 3, 2, 1]);
    let rational = Entry::rational(282, 72, 1);
    assert_eq!(rational.payload, vec![72, 0, 0, 0, 1, 0, 0, 0]);
    let text = Entry::ascii(305, "é");
    assert_eq!(text.payload, vec![0xC3, 0xA9, 0]);
    assert_eq!(text.count, 3);
}

#[test]
fn a_file_too_large_to_count_is_recognised() {
    assert!(file_fits_text(4, 3, 1, "note", "linear", "astro-stacker 0.1.0"));
    assert!(!file_fits_text(usize::MAX / 2, 3, 3, "", "linear", "x"));
    assert!(!file_fits_text(1, 5_000_000_000, 1, "", "linear", "x"));
}

#[test]
fn three_planes_are_interleaved_pixel_by_pixel_little_endian() {
    let planes = vec![vec![0x0102u16, 0x0304, 0x0506], vec![0x1112, 0x1314, 0x1516], vec![0x2122, 0x2324, 0x2526]];
    assert_eq!(
        interleave(&planes, 1, 2),
        vec![0x04, 0x03, 0x14, 0x13, 0x24, 0x23, 0x06, 0x05, 0x16, 0x15, 0x26, 0x25]
    );
    assert_eq!(interleave(&planes, 0, 0), Vec::<u8>::new());
    let grey = vec![vec![65535u16, 1]];
    assert_eq!(interleave(&grey, 0, 2), vec![0xFF, 0xFF, 0x01, 0x00]);
}

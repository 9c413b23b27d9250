//! ZIP archives.
use rasc::error::Error;
use rasc::zip::{self, parse_zip_entries, BytesSource, ZipEntry};

/// Raw deflate of `payload`, the way a ZIP writer stores a DEX entry.
fn deflate(payload: &[u8]) -> Vec<u8> {
    let mut compressor = flate2::Compress::new(flate2::Compression::default(), false);
    // Stored deflate blocks cost 5 bytes per 64 KiB plus the payload, so doubling
    // is comfortably above the worst case for any input these tests build.
    let mut out = vec![0u8; payload.len() * 2 + 1024];
    compressor
        .compress(payload, &mut out, flate2::FlushCompress::Finish)
        .expect("deflate");
    out.truncate(compressor.total_out() as usize);
    out
}

/// Builds a ZIP archive in memory. The third tuple field selects deflate
/// (8) over stored (0); CRC fields are left zero because the parser never
/// reads them.
fn build_zip(entries: &[(&str, &[u8], bool)]) -> Vec<u8> {
    let mut local = Vec::new();
    let mut central = Vec::new();
    for (name, payload, deflated) in entries {
        let stored = if *deflated {
            deflate(payload)
        } else {
            payload.to_vec()
        };
        let offset = local.len() as u32;
        local.extend_from_slice(b"PK\x03\x04");
        local.extend_from_slice(&20u16.to_le_bytes());
        local.extend_from_slice(&0u16.to_le_bytes());
        local.extend_from_slice(&if *deflated { 8u16 } else { 0u16 }.to_le_bytes());
        local.extend_from_slice(&[0; 4]);
        local.extend_from_slice(&0u32.to_le_bytes());
        local.extend_from_slice(&(stored.len() as u32).to_le_bytes());
        local.extend_from_slice(&(payload.len() as u32).to_le_bytes());
        local.extend_from_slice(&(name.len() as u16).to_le_bytes());
        local.extend_from_slice(&0u16.to_le_bytes());
        local.extend_from_slice(name.as_bytes());
        local.extend_from_slice(&stored);

        central.extend_from_slice(b"PK\x01\x02");
        central.extend_from_slice(&20u16.to_le_bytes());
        central.extend_from_slice(&20u16.to_le_bytes());
        central.extend_from_slice(&0u16.to_le_bytes());
        central.extend_from_slice(&if *deflated { 8u16 } else { 0u16 }.to_le_bytes());
        central.extend_from_slice(&[0; 4]);
        central.extend_from_slice(&0u32.to_le_bytes());
        central.extend_from_slice(&(stored.len() as u32).to_le_bytes());
        central.extend_from_slice(&(payload.len() as u32).to_le_bytes());
        central.extend_from_slice(&(name.len() as u16).to_le_bytes());
        central.extend_from_slice(&0u16.to_le_bytes());
        central.extend_from_slice(&0u16.to_le_bytes());
        central.extend_from_slice(&0u16.to_le_bytes());
        central.extend_from_slice(&0u16.to_le_bytes());
        central.extend_from_slice(&0u32.to_le_bytes());
        central.extend_from_slice(&offset.to_le_bytes());
        central.extend_from_slice(name.as_bytes());
    }
    let mut data = local;
    let central_offset = data.len() as u32;
    let central_size = central.len() as u32;
    data.extend_from_slice(&central);
    data.extend_from_slice(b"PK\x05\x06");
    data.extend_from_slice(&0u16.to_le_bytes());
    data.extend_from_slice(&0u16.to_le_bytes());
    data.extend_from_slice(&(entries.len() as u16).to_le_bytes());
    data.extend_from_slice(&(entries.len() as u16).to_le_bytes());
    data.extend_from_slice(&central_size.to_le_bytes());
    data.extend_from_slice(&central_offset.to_le_bytes());
    data.extend_from_slice(&0u16.to_le_bytes());
    data
}

/// The fixtures inflate freely; the ceiling has its own test below, and passing it
/// explicitly is what keeps the limit out of process-global state in tests.
fn inflate_entry<S: BytesSource + ?Sized>(source: &S, entry: &ZipEntry) -> Result<Vec<u8>, Error> {
    zip::inflate_entry(source, entry, usize::MAX)
}

#[test]
fn an_entry_past_the_inflated_limit_is_rejected() {
    let payload = vec![7u8; 128 * 1024];
    let zip = build_zip(&[("classes.dex", &payload, true)]);
    let entry = &parse_zip_entries(&zip, |_| true).unwrap()[0];
    let error = zip::inflate_entry(&zip, entry, 1024)
        .unwrap_err()
        .message();
    assert!(error.contains("entry limit"), "unexpected error: {error}");
    // The same entry under a ceiling above it still inflates, so the limit is a
    // policy, not a size check on the archive.
    assert_eq!(
        zip::inflate_entry(&zip, entry, usize::MAX).unwrap(),
        payload
    );
}

fn write_u32(data: &mut [u8], offset: usize, value: u32) {
    data[offset..offset + 4].copy_from_slice(&value.to_le_bytes());
}

/// Offsets inside a central-directory entry, as read by the parser.
const CENTRAL_COMPRESSED_SIZE: usize = 20;
const CENTRAL_UNCOMPRESSED_SIZE: usize = 24;
const CENTRAL_NAME_LENGTH: usize = 28;
const CENTRAL_LOCAL_OFFSET: usize = 42;

/// Corrupts `field` of the first central-directory entry.
fn patch_central_entry(zip: &mut [u8], field: usize, value: u32) {
    let start = zip
        .windows(4)
        .position(|window| window == b"PK\x01\x02")
        .expect("archive has a central directory");
    write_u32(zip, start + field, value);
}

#[test]
fn parser_filters_entries_by_name_and_inflates_both_methods() {
    let first = vec![7u8; 4096];
    let second = b"second payload".to_vec();
    let zip = build_zip(&[
        ("classes.dex", &first, true),
        ("classes2.dex", &second, false),
        ("AndroidManifest.xml", b"<manifest/>", false),
    ]);
    let entries = parse_zip_entries(&zip, |name| name.starts_with(b"classes")).unwrap();
    let names: Vec<&str> = entries.iter().map(|entry| entry.name.as_str()).collect();
    assert_eq!(names, ["classes.dex", "classes2.dex"]);
    assert_eq!(entries[0].uncompressed_size, first.len());
    assert_eq!(entries[0].compression, 8);
    assert_eq!(inflate_entry(&zip, &entries[0]).unwrap(), first);
    assert_eq!(entries[1].compression, 0);
    assert_eq!(inflate_entry(&zip, &entries[1]).unwrap(), second);
}

#[test]
fn stored_entry_size_mismatch_is_rejected() {
    // A stored entry whose compressed size disagrees with its declared
    // uncompressed size.
    let mut zip = build_zip(&[("classes.dex", b"payload", false)]);
    patch_central_entry(&mut zip, CENTRAL_COMPRESSED_SIZE, 3);
    let entry = &parse_zip_entries(&zip, |_| true).unwrap()[0];
    let error = inflate_entry(&zip, entry).unwrap_err().message();
    assert!(error.contains("size mismatch"), "unexpected error: {error}");
}

#[test]
fn deflate_size_mismatch_is_rejected() {
    let payload = vec![1u8; 2048];
    let mut zip = build_zip(&[("classes.dex", &payload, true)]);
    patch_central_entry(&mut zip, CENTRAL_UNCOMPRESSED_SIZE, 2048 + 64);
    let entry = &parse_zip_entries(&zip, |_| true).unwrap()[0];
    let error = inflate_entry(&zip, entry).unwrap_err().message();
    assert!(error.contains("size mismatch"), "unexpected error: {error}");
}

#[test]
fn deflate_grows_the_buffer_for_a_high_ratio_entry() {
    // An all-zero payload compresses far below a quarter of its size, so the
    // first capacity is not enough and the grow path has to run.
    let payload = vec![0u8; 128 * 1024];
    let zip = build_zip(&[("classes.dex", &payload, true)]);
    let entry = &parse_zip_entries(&zip, |_| true).unwrap()[0];
    let compressed = zip.len();
    assert!(
        entry.uncompressed_size > compressed * 4,
        "fixture is not high-ratio enough"
    );
    assert_eq!(inflate_entry(&zip, entry).unwrap(), payload);
}

#[test]
fn zip64_placeholder_uncompressed_size_is_rejected() {
    // 0xFFFFFFF0 is what a ZIP64 archive writes when the real 64-bit size
    // lives in the extra field. It must fail without reserving the declared
    // size first.
    let payload = vec![3u8; 4096];
    let mut zip = build_zip(&[("classes.dex", &payload, true)]);
    patch_central_entry(&mut zip, CENTRAL_UNCOMPRESSED_SIZE, 0xFFFFFFF0);
    let entry = &parse_zip_entries(&zip, |_| true).unwrap()[0];
    let error = inflate_entry(&zip, entry).unwrap_err().message();
    assert!(error.contains("classes.dex"), "unexpected error: {error}");
}

#[test]
fn deflate_into_an_undersized_buffer_is_rejected() {
    let payload = vec![2u8; 2048];
    let mut zip = build_zip(&[("classes.dex", &payload, true)]);
    patch_central_entry(&mut zip, CENTRAL_UNCOMPRESSED_SIZE, 1024);
    let entry = &parse_zip_entries(&zip, |_| true).unwrap()[0];
    assert!(inflate_entry(&zip, entry).is_err());
}

#[test]
fn archive_without_end_of_central_directory_is_rejected() {
    let zip = build_zip(&[("classes.dex", b"payload", false)]);
    let truncated = &zip[..zip.len() - 30];
    let error = parse_zip_entries(truncated, |_| true)
        .unwrap_err()
        .message();
    assert!(
        error.contains("EOCD not found"),
        "unexpected error: {error}"
    );
}

#[test]
fn bad_central_directory_signature_is_rejected() {
    let mut zip = build_zip(&[("classes.dex", b"payload", false)]);
    let start = zip
        .windows(4)
        .position(|window| window == b"PK\x01\x02")
        .unwrap();
    zip[start + 3] = b'X';
    let error = parse_zip_entries(&zip, |_| true).unwrap_err().message();
    assert!(
        error.contains("central directory signature"),
        "unexpected error: {error}"
    );
}

#[test]
fn zip64_end_of_central_directory_placeholders_are_rejected() {
    // ZIP64 archives carry 0xFFFF/0xFFFFFFFF placeholders in the plain EOCD
    // and put the real values in a ZIP64 record. APKs cannot be ZIP64, so
    // those values must be reported rather than used to scan a 4 GiB range.
    let mut zip = build_zip(&[("classes.dex", b"payload", false)]);
    let eocd = zip
        .windows(4)
        .rposition(|window| window == b"PK\x05\x06")
        .expect("archive has an EOCD");
    zip[eocd + 8..eocd + 12].copy_from_slice(&[0xFF; 4]);
    write_u32(&mut zip, eocd + 12, u32::MAX);
    write_u32(&mut zip, eocd + 16, u32::MAX);
    let error = parse_zip_entries(&zip, |_| true).unwrap_err().message();
    assert!(
        error.contains("bad central directory range"),
        "unexpected error: {error}"
    );
}

#[test]
fn concatenated_archives_use_the_last_end_of_central_directory() {
    // Two archives appended to each other: the EOCD is found by searching backwards, so
    // the trailing record wins. Offsets inside a concatenated archive stay relative to its
    // own start, so this only works when the prefix has the same layout; that is what the
    // two identical halves below exercise.
    let archive = build_zip(&[("classes.dex", b"payload", false)]);
    let mut both = archive.clone();
    both.extend_from_slice(&archive);
    let entries = parse_zip_entries(&both, |_| true).unwrap();
    assert_eq!(entries.len(), 1);
    assert_eq!(inflate_entry(&both, &entries[0]).unwrap(), b"payload");
}

#[test]
fn data_descriptor_flag_uses_the_central_directory_sizes() {
    // Local-header flag bit 3 means sizes and CRC live in a trailing data
    // descriptor; the central directory still carries them, and that is what
    // the parser reads.
    let payload = b"streamed payload".to_vec();
    let mut zip = build_zip(&[("classes.dex", &payload, false)]);
    let local = zip
        .windows(4)
        .position(|window| window == b"PK\x03\x04")
        .unwrap();
    zip[local + 6..local + 8].copy_from_slice(&0x0008u16.to_le_bytes());
    write_u32(&mut zip, local + 18, 0);
    write_u32(&mut zip, local + 22, 0);
    let entries = parse_zip_entries(&zip, |_| true).unwrap();
    assert_eq!(inflate_entry(&zip, &entries[0]).unwrap(), payload);
}

#[test]
fn central_name_length_past_the_directory_is_rejected() {
    let mut zip = build_zip(&[("classes.dex", b"payload", false)]);
    patch_central_entry(&mut zip, CENTRAL_NAME_LENGTH, 0xFFFF);
    let error = parse_zip_entries(&zip, |_| true).unwrap_err().message();
    assert!(
        error.contains("bad ZIP name range"),
        "unexpected error: {error}"
    );
}

#[test]
fn central_local_header_offset_past_the_end_is_rejected() {
    let mut zip = build_zip(&[("classes.dex", b"payload", false)]);
    patch_central_entry(&mut zip, CENTRAL_LOCAL_OFFSET, u32::MAX);
    let entry = &parse_zip_entries(&zip, |_| true).unwrap()[0];
    assert!(inflate_entry(&zip, entry).is_err());
}

/// A prefix read is a prefix of the whole read, and reaches as far as it was asked to.
#[test]
fn a_prefix_read_agrees_with_the_whole() {
    let mut payload = Vec::new();
    for i in 0..60_000u32 {
        payload.extend_from_slice(&(i * i).to_le_bytes());
    }
    let zip = build_zip(&[("a", &payload, true), ("b", &payload, false)]);
    for entry in &parse_zip_entries(&zip, |_| true).unwrap() {
        let whole = inflate_entry(&zip, entry).unwrap();
        assert_eq!(whole, payload);
        for aim in [0usize, 1, 4096, 100_000, whole.len(), 2 * whole.len()] {
            let prefix = zip::inflate_prefix(&zip, entry, usize::MAX, aim).unwrap();
            assert!(whole.starts_with(&prefix));
            assert!(prefix.len() >= aim.min(whole.len()));
        }
    }
}

/// A deflated entry without a payload is no stream, and both reads say so.
#[test]
fn an_empty_deflated_payload_is_incomplete() {
    let mut zip = build_zip(&[("a", b"", false)]);
    let at = zip.windows(4).position(|part| part == b"PK\x01\x02").unwrap();
    zip[at + 10] = 8;
    let entry = &parse_zip_entries(&zip, |_| true).unwrap()[0];
    assert!(matches!(
        inflate_entry(&zip, entry),
        Err(Error::IncompleteStream { .. })
    ));
    assert!(zip::inflate_prefix(&zip, entry, usize::MAX, 16).is_err());
}

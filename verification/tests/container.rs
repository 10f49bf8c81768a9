use appender::container::{
    add_resource, append_bytes, append_entry, check_size, effective_level, export_resource,
    finish_export, locate, remove_resource,
};
use appender::entry::{confirm_end, plan, read_size, Extent, END_IDENTIFIER, END_LEN};
use appender::error::{Damage, Error};
use appender::gzip::{compression_file, decompress_file};
use appender::header::{CompressMode, ResourceHead};
use appender::scan::find_resources_config;
use appender::{MAGIC_LEN, RESOURCE_MAGIC};

fn wire(version: &str, id: &str, name: &str, length: &str, size: &str, mode: u32) -> Vec<u8> {
    let mut out = Vec::new();
    for text in [version, id, name, length, size] {
        out.extend_from_slice(&(text.len() as u64).to_le_bytes());
        out.extend_from_slice(text.as_bytes());
    }
    out.extend_from_slice(&mode.to_le_bytes());
    out
}

/// An entry with a header of any content.
fn raw_entry(header: &[u8], payload: &[u8]) -> Vec<u8> {
    let mut out = RESOURCE_MAGIC.to_vec();
    out.extend_from_slice(header);
    out.extend_from_slice(payload);
    out.extend_from_slice(&END_IDENTIFIER);
    out
}

#[test]
fn diagnostic_test() {
    let target = b"Hello, this is a test file!".to_vec();
    let host_size = target.len();
    assert_eq!(host_size, 27);

    let resource_data = b"This is the resource data!";
    let resource_id = "test001";
    let mut container = target.clone();
    add_resource(&mut container, resource_data, "resource.bin", resource_id, None).unwrap();
    let size_after_add = container.len();
    assert!(size_after_add > host_size);

    let configs = find_resources_config(&container);
    assert!(!configs.is_empty());

    let exported_data = export_resource(&container, resource_id).unwrap();
    assert_eq!(exported_data, resource_data.to_vec());

    let size_before_remove = container.len();
    let container = remove_resource(&container, resource_id).unwrap();
    let size_after_remove = container.len();
    let configs_after_remove = find_resources_config(&container);
    assert_eq!(configs_after_remove.len(), 0);
    assert!(size_after_remove < size_before_remove);
    assert_eq!(container, target);
}

#[test]
fn append_then_find() {
    let mut container = b"Hello, this is a test file!".to_vec();
    let payload = b"This is the resource data!";
    add_resource(&mut container, payload, "resource.bin", "test001", None).unwrap();
    let found = find_resources_config(&container);
    assert_eq!(found.len(), 1);
    assert_eq!(found[0].offset, 27);
    assert_eq!(found[0].head.id(), "test001");
    assert_eq!(found[0].head.name(), "resource.bin");
    assert_eq!(found[0].head.size().trim().parse::<usize>(), Ok(payload.len()));
    assert_eq!(found[0].head.size(), "0000000000026");
    assert_eq!(found[0].head.length(), "0000000000026");
    assert_eq!(found[0].head.version(), "1.0.0");
    assert_eq!(found[0].head.compress(), CompressMode::Plain);
}

#[test]
fn append_then_find_reports_the_size() {
    let mut container = b"Hello, this is a test file!".to_vec();
    let payload = b"This is the resource data!!";
    assert_eq!(payload.len(), 27);
    add_resource(&mut container, payload, "resource.bin", "test001", None).unwrap();
    let found = find_resources_config(&container);
    assert_eq!(found.len(), 1);
    assert_eq!(found[0].head.id(), "test001");
    assert_eq!(found[0].head.size().trim().parse::<u64>(), Ok(27));
}

#[test]
fn add_writes_sentinel_header_payload_sentinel() {
    let mut container = b"host".to_vec();
    add_resource(&mut container, b"payload", "name.bin", "id", None).unwrap();
    let head = ResourceHead::new("id", 7, 7, "name.bin", CompressMode::Plain).unwrap();
    let mut expected = b"host".to_vec();
    expected.extend_from_slice(&RESOURCE_MAGIC);
    expected.extend_from_slice(&head.to_bytes().unwrap());
    expected.extend_from_slice(b"payload");
    expected.extend_from_slice(b"ODEND");
    assert_eq!(container, expected);
    assert_eq!(END_IDENTIFIER, *b"ODEND");
    assert_eq!(END_LEN, 5);
}

#[test]
fn add_leaves_what_the_container_holds() {
    let host: Vec<u8> = (0..=255u8).cycle().take(3000).collect();
    let mut container = host.clone();
    add_resource(&mut container, b"one", "a", "1", None).unwrap();
    let after_one = container.clone();
    add_resource(&mut container, b"two", "b", "2", Some(3)).unwrap();
    assert_eq!(&container[..host.len()], &host[..]);
    assert_eq!(&container[..after_one.len()], &after_one[..]);
}

#[test]
fn append_then_export_uncompressed() {
    let payloads: [&[u8]; 4] = [b"", b"x", b"This is the resource data!", &[0u8; 70_000]];
    for payload in payloads {
        let mut container = b"Hello, this is a test file!".to_vec();
        add_resource(&mut container, payload, "resource.bin", "test001", None).unwrap();
        assert_eq!(export_resource(&container, "test001"), Ok(payload.to_vec()));
        assert_eq!(export_resource(&container, "  test001 "), Ok(payload.to_vec()));
    }
}

#[test]
fn append_then_export_compressed() {
    let payloads: [Vec<u8>; 4] = [
        Vec::new(),
        b"x".to_vec(),
        b"This is the resource data!".to_vec(),
        b"This is the resource data!".iter().cycle().take(4000).cloned().collect(),
    ];
    for payload in payloads.iter() {
        for level in [1u32, 9] {
            let mut container = b"Hello, this is a test file!".to_vec();
            add_resource(&mut container, payload, "resource.bin", "test001", Some(level))
                .unwrap();
            let found = find_resources_config(&container);
            assert_eq!(found.len(), 1);
            assert_eq!(found[0].head.compress(), CompressMode::Compress);
            assert_eq!(found[0].head.size(), found[0].head.length());

            let entry = locate(&container, "test001").unwrap();
            let stream = &container[entry.extent.payload_start..][..entry.extent.payload_len];
            assert_eq!(found[0].head.length().parse::<usize>(), Ok(stream.len()));
            assert_ne!(stream.to_vec(), *payload);
            assert_eq!(decompress_file(stream), Ok(payload.clone()));

            assert_eq!(export_resource(&container, "test001"), Ok(payload.clone()));
            let removed = remove_resource(&container, "test001").unwrap();
            assert_eq!(removed, b"Hello, this is a test file!".to_vec());
        }
    }
}

#[test]
fn every_level_from_one_to_nine_comes_out() {
    let payload: Vec<u8> = (0..5000u32).map(|i| (i * i % 251) as u8).collect();
    for level in 1..=9u32 {
        let mut container = Vec::new();
        add_resource(&mut container, &payload, "n", "id", Some(level)).unwrap();
        assert_eq!(find_resources_config(&container)[0].head.compress(), CompressMode::Compress);
        assert_eq!(export_resource(&container, "id"), Ok(payload.clone()));
    }
}

#[test]
fn level_zero_stores_the_payload_as_it_is() {
    let payload = b"This is the resource data!";
    let mut plain = b"host".to_vec();
    add_resource(&mut plain, payload, "resource.bin", "test001", None).unwrap();
    let mut zero = b"host".to_vec();
    add_resource(&mut zero, payload, "resource.bin", "test001", Some(0)).unwrap();
    assert_eq!(zero, plain);
    let found = find_resources_config(&zero);
    assert_eq!(found[0].head.compress(), CompressMode::Plain);
    assert_eq!(found[0].head.length(), "0000000000026");
    let entry = locate(&zero, "test001").unwrap();
    assert_eq!(&zero[entry.extent.payload_start..][..entry.extent.payload_len], &payload[..]);
    assert_eq!(export_resource(&zero, "test001"), Ok(payload.to_vec()));
    assert_eq!(effective_level(Some(0)), None);
    assert_eq!(effective_level(None), None);
    assert_eq!(effective_level(Some(1)), Some(1));
    assert_eq!(effective_level(Some(9)), Some(9));
}

#[test]
fn the_size_names_the_stored_bytes() {
    // The size that a header records is the number of bytes stored, also
    // for a gzip stream.
    let payload = b"expanded payload expanded payload expanded payload".to_vec();
    let stream = compression_file(&payload, 6).unwrap();
    assert_ne!(stream.len(), payload.len());
    let length = format!("{:013}", stream.len());
    let by_stored = raw_entry(&wire("1.0.0", "id", "n", &length, &length, 1), &stream);
    assert_eq!(export_resource(&by_stored, "id"), Ok(payload.clone()));
    let expanded = format!("{:013}", payload.len());
    let by_expanded = raw_entry(&wire("1.0.0", "id", "n", &length, &expanded, 1), &stream);
    assert_eq!(export_resource(&by_expanded, "id"), Err(Error::SizeMismatch));
}

#[test]
fn gzip_round_trip() {
    let payloads: [&[u8]; 3] = [b"", b"hello hello hello hello", &[7u8; 100_000]];
    for payload in payloads {
        for level in 0..=9u32 {
            let stream = compression_file(payload, level).unwrap();
            assert_eq!(&stream[..3], &[0x1f, 0x8b, 8][..]);
            assert_ne!(stream, payload.to_vec());
            assert_eq!(decompress_file(&stream), Ok(payload.to_vec()));
        }
    }
    let big = compression_file(&[7u8; 100_000], 9).unwrap();
    assert!(big.len() < 1000);
}

#[test]
fn gzip_stream_depends_on_payload_and_level_alone() {
    let payload = b"the same bytes in, the same bytes out";
    for level in [0u32, 1, 6, 9] {
        assert_eq!(compression_file(payload, level), compression_file(payload, level));
    }
}

#[test]
fn decompress_refuses_what_is_no_stream() {
    assert_eq!(decompress_file(b"this is no gzip stream"), Err(Error::Decompress));
    let stream = compression_file(b"some payload to cut short", 6).unwrap();
    assert_eq!(decompress_file(&stream[..stream.len() - 4]), Err(Error::Decompress));
    let mut wrong = stream.clone();
    let last = wrong.len() - 8;
    wrong[last] ^= 0xFF;
    assert_eq!(decompress_file(&wrong), Err(Error::Decompress));
}

#[test]
fn append_then_remove() {
    let host = b"Hello, this is a test file!".to_vec();
    let payload = b"This is the resource data!";
    let mut container = host.clone();
    add_resource(&mut container, payload, "resource.bin", "test001", None).unwrap();
    let head = ResourceHead::new("test001", 26, 26, "resource.bin", CompressMode::Plain).unwrap();
    let entry_len = MAGIC_LEN + head.get_len() + payload.len() + END_LEN;
    assert_eq!(container.len(), host.len() + entry_len);

    let removed = remove_resource(&container, "test001").unwrap();
    assert_eq!(removed.len(), container.len() - entry_len);
    assert_eq!(removed, host);
    assert!(find_resources_config(&removed).is_empty());
    assert_eq!(remove_resource(&removed, "test001"), Err(Error::NotFound));
}

#[test]
fn remove_keeps_what_stands_before_and_behind() {
    let host: Vec<u8> = (0..200u8).collect();
    let mut container = host.clone();
    add_resource(&mut container, b"first payload", "a.bin", "a", None).unwrap();
    let after_a = container.len();
    add_resource(&mut container, b"second payload", "b.bin", "b", Some(9)).unwrap();
    let after_b = container.len();
    add_resource(&mut container, b"third payload", "c.bin", "c", None).unwrap();
    container.extend_from_slice(b"trailing bytes");

    let removed = remove_resource(&container, "b").unwrap();
    assert_eq!(removed.len(), container.len() - (after_b - after_a));
    assert_eq!(&removed[..after_a], &container[..after_a]);
    assert_eq!(&removed[after_a..], &container[after_b..]);
    let left: Vec<String> = find_resources_config(&removed)
        .iter()
        .map(|l| l.head.id().to_string())
        .collect();
    assert_eq!(left, vec!["a", "c"]);
    assert_eq!(export_resource(&removed, "a"), Ok(b"first payload".to_vec()));
    assert_eq!(export_resource(&removed, "c"), Ok(b"third payload".to_vec()));
}

#[test]
fn duplicate_ids_resolve_to_the_first() {
    let mut container = b"host".to_vec();
    add_resource(&mut container, b"first", "one.bin", "dup", None).unwrap();
    let after_first = container.len();
    assert_eq!(add_resource(&mut container, b"second", "two.bin", "dup", None), Ok(()));
    assert_eq!(find_resources_config(&container).len(), 2);

    assert_eq!(export_resource(&container, "dup"), Ok(b"first".to_vec()));
    let entry = locate(&container, "dup").unwrap();
    assert_eq!(entry.extent.start, 4);
    assert_eq!(entry.head.name(), "one.bin");

    let removed = remove_resource(&container, "dup").unwrap();
    let mut expected = b"host".to_vec();
    expected.extend_from_slice(&container[after_first..]);
    assert_eq!(removed, expected);
    assert_eq!(export_resource(&removed, "dup"), Ok(b"second".to_vec()));
    let removed = remove_resource(&removed, "dup").unwrap();
    assert_eq!(removed, b"host".to_vec());
}

#[test]
fn the_first_entry_decides_even_where_it_is_damaged() {
    let mut container = raw_entry(&wire("1.0.0", "dup", "n", "x", "0000000000001", 0), b"1");
    add_resource(&mut container, b"sound", "n", "dup", None).unwrap();
    assert_eq!(export_resource(&container, "dup"), Err(Error::Integrity(Damage::Length)));
    assert_eq!(remove_resource(&container, "dup"), Err(Error::Integrity(Damage::Length)));
}

#[test]
fn locate_gives_the_extent() {
    let mut container = vec![0u8; 100];
    add_resource(&mut container, b"payload", "n", "id", None).unwrap();
    container.extend_from_slice(b"behind");
    let entry = locate(&container, "id").unwrap();
    let header_len = entry.head.get_len();
    assert_eq!(
        entry.extent,
        Extent {
            start: 100,
            payload_start: 100 + 16 + header_len,
            payload_len: 7,
            end: 100 + 16 + header_len + 7 + 5,
        }
    );
    assert_eq!(entry.extent.end, container.len() - 6);
    assert_eq!(locate(&container, "other").err(), Some(Error::NotFound));
    assert_eq!(locate(&[], "id").err(), Some(Error::NotFound));
}

#[test]
fn truncation_before_the_end_sentinel_is_an_integrity_error() {
    let mut container = b"Hello, this is a test file!".to_vec();
    add_resource(&mut container, b"This is the resource data!", "resource.bin", "test001", None)
        .unwrap();
    let cut = container[..container.len() - END_LEN].to_vec();
    let before = cut.clone();
    assert_eq!(export_resource(&cut, "test001"), Err(Error::Integrity(Damage::Bounds)));
    assert_eq!(remove_resource(&cut, "test001"), Err(Error::Integrity(Damage::Bounds)));
    assert_eq!(cut, before);
    for less in 1..END_LEN {
        let cut = &container[..container.len() - less];
        assert_eq!(export_resource(cut, "test001"), Err(Error::Integrity(Damage::Bounds)));
    }
    // Cut inside the payload, and just behind the header.
    let cut = &container[..container.len() - END_LEN - 10];
    assert_eq!(remove_resource(cut, "test001"), Err(Error::Integrity(Damage::Bounds)));
    let cut = &container[..container.len() - END_LEN - 26];
    assert_eq!(export_resource(cut, "test001"), Err(Error::Integrity(Damage::Bounds)));
}

#[test]
fn a_wrong_end_sentinel_is_an_integrity_error() {
    let mut container = b"host".to_vec();
    add_resource(&mut container, b"payload", "n", "id", None).unwrap();
    for i in 1..=END_LEN {
        let mut wrong = container.clone();
        let at = wrong.len() - i;
        wrong[at] ^= 1;
        assert_eq!(export_resource(&wrong, "id"), Err(Error::Integrity(Damage::EndMarker)));
        assert_eq!(remove_resource(&wrong, "id"), Err(Error::Integrity(Damage::EndMarker)));
    }
    // A length that is too short puts the sentinel in the wrong place.
    let short = raw_entry(&wire("1.0.0", "id", "n", "3", "3", 0), b"payload");
    assert_eq!(export_resource(&short, "id"), Err(Error::Integrity(Damage::EndMarker)));
    // One that is too long reaches past the end.
    let long = raw_entry(&wire("1.0.0", "id", "n", "8", "8", 0), b"payload");
    assert_eq!(export_resource(&long, "id"), Err(Error::Integrity(Damage::Bounds)));
    let huge = raw_entry(&wire("1.0.0", "id", "n", "99999999999999999999999999", "7", 0), b"payload");
    assert_eq!(export_resource(&huge, "id"), Err(Error::Integrity(Damage::Bounds)));
    let max = raw_entry(&wire("1.0.0", "id", "n", "18446744073709551615", "7", 0), b"payload");
    assert_eq!(remove_resource(&max, "id"), Err(Error::Integrity(Damage::Bounds)));
}

#[test]
fn a_length_that_is_no_number_is_an_integrity_error() {
    for length in ["", "seven", "-7", "7.0", "0x7", "7 7"] {
        let container = raw_entry(&wire("1.0.0", "id", "n", length, "7", 0), b"payload");
        assert_eq!(
            export_resource(&container, "id"),
            Err(Error::Integrity(Damage::Length)),
            "{:?}",
            length
        );
    }
    for length in ["7", " 7 ", "+7", "007", "\t0000000000007\n"] {
        let container = raw_entry(&wire("1.0.0", "id", "n", length, "7", 0), b"payload");
        assert_eq!(export_resource(&container, "id"), Ok(b"payload".to_vec()), "{:?}", length);
    }
}

#[test]
fn another_version_is_refused() {
    for version in ["2.0.0", "1.0.1", "0.9", "1.1", "1.0.0.1", "", "one", "1.0.x", "v1.0.0"] {
        let container = raw_entry(
            &wire(version, "id", "n", "0000000000007", "0000000000007", 0),
            b"payload",
        );
        assert_eq!(find_resources_config(&container).len(), 1);
        assert_eq!(export_resource(&container, "id"), Err(Error::VersionMismatch), "{:?}", version);
        assert_eq!(remove_resource(&container, "id"), Err(Error::VersionMismatch), "{:?}", version);
        assert_eq!(export_resource(&container, "other"), Err(Error::NotFound));
    }
    for version in ["1.0.0", "1.0", "1", "1.0.0.0", "01.00.000", "+1.0.0"] {
        let container = raw_entry(
            &wire(version, "id", "n", "0000000000007", "0000000000007", 0),
            b"payload",
        );
        assert_eq!(export_resource(&container, "id"), Ok(b"payload".to_vec()), "{:?}", version);
    }
}

#[test]
fn the_version_is_checked_before_the_extent() {
    let container = raw_entry(&wire("2.0.0", "id", "n", "x", "y", 0), b"");
    assert_eq!(export_resource(&container, "id"), Err(Error::VersionMismatch));
    let cut = &container[..container.len() - END_LEN];
    assert_eq!(export_resource(cut, "id"), Err(Error::VersionMismatch));
}

#[test]
fn the_size_is_checked_at_the_end() {
    let container = raw_entry(&wire("1.0.0", "id", "n", "7", "8", 0), b"payload");
    assert_eq!(export_resource(&container, "id"), Err(Error::SizeMismatch));
    let container = raw_entry(&wire("1.0.0", "id", "n", "7", "seven", 0), b"payload");
    assert_eq!(export_resource(&container, "id"), Err(Error::InvalidSize));
    let container = raw_entry(&wire("1.0.0", "id", "n", "7", "18446744073709551616", 0), b"payload");
    assert_eq!(export_resource(&container, "id"), Err(Error::InvalidSize));
    let container = raw_entry(&wire("1.0.0", "id", "n", "7", " +7 ", 0), b"payload");
    assert_eq!(export_resource(&container, "id"), Ok(b"payload".to_vec()));
    // Removing does not look at the size.
    let container = raw_entry(&wire("1.0.0", "id", "n", "7", "seven", 0), b"payload");
    assert_eq!(remove_resource(&container, "id"), Ok(Vec::new()));
    // A stream that does not expand is reported before the size.
    let container = raw_entry(&wire("1.0.0", "id", "n", "7", "seven", 1), b"payload");
    assert_eq!(export_resource(&container, "id"), Err(Error::Decompress));
}

#[test]
fn check_size_and_finish_export() {
    let head = ResourceHead::new("id", 3, 27, "n", CompressMode::Plain).unwrap();
    assert_eq!(read_size(&head), Some(27));
    assert_eq!(read_size(&ResourceHead::from(&wire("1", "i", "n", "1", "x", 0)).unwrap()), None);
    assert_eq!(check_size(&head, 27), Ok(()));
    assert_eq!(check_size(&head, 26), Err(Error::SizeMismatch));
    assert_eq!(check_size(&head, 0), Err(Error::SizeMismatch));
    assert_eq!(finish_export(&head, 27, Some(vec![1u8; 27])), Ok(vec![1u8; 27]));
    assert_eq!(finish_export(&head, 27, Some(vec![1u8; 90])), Ok(vec![1u8; 90]));
    assert_eq!(finish_export(&head, 3, Some(vec![1u8; 27])), Err(Error::SizeMismatch));
    assert_eq!(finish_export(&head, 27, None), Err(Error::Decompress));
    assert_eq!(finish_export(&head, 3, None), Err(Error::Decompress));
}

#[test]
fn plan_and_confirm_end() {
    let head = ResourceHead::new("id", 10, 10, "n", CompressMode::Plain).unwrap();
    let header_len = head.get_len();
    let need = 7 + 16 + header_len + 10 + 5;
    assert_eq!(
        plan(need, 7, &head),
        Ok(Extent {
            start: 7,
            payload_start: 7 + 16 + header_len,
            payload_len: 10,
            end: need,
        })
    );
    assert_eq!(plan(need - 1, 7, &head), Err(Error::Integrity(Damage::Bounds)));
    assert_eq!(plan(0, 7, &head), Err(Error::Integrity(Damage::Bounds)));
    assert_eq!(plan(usize::MAX, usize::MAX - 3, &head), Err(Error::Integrity(Damage::Bounds)));
    assert!(plan(usize::MAX, 7, &head).is_ok());

    assert_eq!(confirm_end(b"ODEND"), Ok(()));
    assert_eq!(confirm_end(b"ODENX"), Err(Error::Integrity(Damage::EndMarker)));
    assert_eq!(confirm_end(b"ODEN"), Err(Error::Integrity(Damage::EndMarker)));
    assert_eq!(confirm_end(b"ODENDD"), Err(Error::Integrity(Damage::EndMarker)));
    assert_eq!(confirm_end(b""), Err(Error::Integrity(Damage::EndMarker)));
}

#[test]
fn an_id_or_name_over_the_limit_is_refused() {
    let id65 = "i".repeat(65);
    let name256 = "n".repeat(256);
    let mut container = b"host".to_vec();
    assert_eq!(add_resource(&mut container, b"p", "n", &id65, None), Err(Error::Validation));
    assert_eq!(container, b"host".to_vec());
    assert_eq!(add_resource(&mut container, b"p", &name256, "i", Some(5)), Err(Error::Validation));
    assert_eq!(container, b"host".to_vec());
    assert_eq!(add_resource(&mut container, b"p", "n", &id65, Some(0)), Err(Error::Validation));
    assert_eq!(add_resource(&mut container, b"p", "n", &id65, Some(9)), Err(Error::Validation));
    assert_eq!(container, b"host".to_vec());
    assert_eq!(
        append_entry(&mut container, b"p", &name256, &id65, CompressMode::Compress),
        Err(Error::Validation)
    );
    assert_eq!(container, b"host".to_vec());
    assert_eq!(add_resource(&mut container, b"p", &"n".repeat(255), &"i".repeat(64), None), Ok(()));
    assert_eq!(export_resource(&container, &"i".repeat(64)), Ok(b"p".to_vec()));
}

#[test]
fn append_entry_stores_the_bytes_as_they_are() {
    let stream = compression_file(b"payload payload payload", 9).unwrap();
    let mut by_add = b"host".to_vec();
    add_resource(&mut by_add, b"payload payload payload", "n", "id", Some(9)).unwrap();
    let mut by_hand = b"host".to_vec();
    append_entry(&mut by_hand, &stream, "n", "id", CompressMode::Compress).unwrap();
    assert_eq!(by_add, by_hand);
}

#[test]
fn append_bytes_appends() {
    let mut out = vec![1u8, 2];
    append_bytes(&mut out, &[3, 4, 5]);
    append_bytes(&mut out, &[]);
    assert_eq!(out, vec![1, 2, 3, 4, 5]);
}

#[test]
fn not_found_where_no_entry_carries_the_id() {
    assert_eq!(export_resource(b"", "id"), Err(Error::NotFound));
    assert_eq!(export_resource(b"no entries here", "id"), Err(Error::NotFound));
    let mut container = Vec::new();
    add_resource(&mut container, b"p", "n", "one", None).unwrap();
    assert_eq!(export_resource(&container, "two"), Err(Error::NotFound));
    assert_eq!(remove_resource(&container, "on"), Err(Error::NotFound));
    assert_eq!(remove_resource(&container, "one "), Ok(Vec::new()));
}

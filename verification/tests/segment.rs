use algos::error::StorageError;
use algos::storage::codec::{decode_chunk, decoded, encode_chunk, encoded};
use algos::storage::engine::ChunkRead;
use algos::storage::naming::{join_path, segment_name};
use algos::storage::segment::{build_segment, search_chunk};

fn records(pairs: &[(u64, &str)]) -> Vec<(u64, String)> {
    pairs.iter().map(|(k, v)| (*k, v.to_string())).collect()
}

#[test]
fn a_chunk_is_encoded_as_an_array_of_pairs() {
    let chunk = records(&[(1, "a"), (2, "b")]);
    let bytes = encode_chunk(&chunk).unwrap();
    assert_eq!(bytes, vec![0x82, 0x82, 0x01, 0x61, 0x61, 0x82, 0x02, 0x61, 0x62]);
    let wide = records(&[(1000, "")]);
    assert_eq!(encode_chunk(&wide).unwrap(), vec![0x81, 0x82, 0x19, 0x03, 0xe8, 0x60]);
    let empty: Vec<(u64, String)> = Vec::new();
    assert_eq!(encode_chunk(&empty).unwrap(), vec![0x80]);
}

#[test]
fn the_encoding_is_what_the_codec_writes() {
    let chunk = records(&[(7, "seven"), (8, "eight"), (u64::MAX, "most")]);
    let mut direct: Vec<u8> = Vec::new();
    ciborium::ser::into_writer(&chunk, &mut direct).unwrap();
    assert_eq!(encode_chunk(&chunk).unwrap(), direct);
}

#[test]
fn a_chunk_is_decoded_from_its_encoding() {
    let bytes = vec![0x82, 0x82, 0x01, 0x61, 0x61, 0x82, 0x02, 0x61, 0x62];
    assert_eq!(decode_chunk(&bytes), Ok(records(&[(1, "a"), (2, "b")])));
    assert_eq!(decode_chunk(&[0x80]), Ok(Vec::new()));
}

#[test]
fn decoding_reads_the_first_chunk_and_ignores_what_follows() {
    let mut bytes = encode_chunk(&records(&[(1, "a"), (2, "b")])).unwrap();
    bytes.extend(encode_chunk(&records(&[(3, "c")])).unwrap());
    assert_eq!(decode_chunk(&bytes), Ok(records(&[(1, "a"), (2, "b")])));
}

#[test]
fn truncated_or_malformed_bytes_are_a_decode_error() {
    let bytes = encode_chunk(&records(&[(1, "a"), (2, "b")])).unwrap();
    assert_eq!(decode_chunk(&bytes[..bytes.len() - 1]), Err(StorageError::Decode));
    assert_eq!(decode_chunk(&[]), Err(StorageError::Decode));
    assert_eq!(decode_chunk(&[0x01]), Err(StorageError::Decode));
    assert_eq!(decode_chunk(&[0x81, 0x82, 0x61, 0x61, 0x01]), Err(StorageError::Decode));
}

#[test]
fn codec_failures_become_storage_errors() {
    let failure: Result<Vec<u8>, ciborium::ser::Error<std::io::Error>> =
        Err(ciborium::ser::Error::Value("no".to_string()));
    assert_eq!(encoded(failure), Err(StorageError::Encode));
    assert_eq!(encoded(Ok(vec![1, 2, 3])), Ok(vec![1, 2, 3]));
    let failure: Result<Vec<(u64, String)>, ciborium::de::Error<std::io::Error>> =
        Err(ciborium::de::Error::Syntax(3));
    assert_eq!(decoded(failure), Err(StorageError::Decode));
    assert_eq!(decoded(Ok(records(&[(1, "a")]))), Ok(records(&[(1, "a")])));
}

#[test]
fn errors_describe_their_kind() {
    assert_eq!(StorageError::Encode.describe(), "encode error");
    assert_eq!(StorageError::Decode.describe(), "decode error");
}

#[test]
fn a_segment_is_its_chunks_laid_end_to_end() {
    let all = records(&[(1, "a"), (2, "b"), (3, "c"), (4, "d"), (5, "e")]);
    let (image, index) = build_segment(&all, 2, 6).unwrap();
    let expected: Vec<u8> = vec![
        0x82, 0x82, 0x01, 0x61, 0x61, 0x82, 0x02, 0x61, 0x62, // records 1 and 2
        0x82, 0x82, 0x03, 0x61, 0x63, 0x82, 0x04, 0x61, 0x64, // records 3 and 4
        0x81, 0x82, 0x05, 0x61, 0x65, // record 5
    ];
    assert_eq!(image, expected);
    assert_eq!(index, vec![(1, (6, 0)), (3, (6, 9)), (5, (6, 18))]);
}

#[test]
fn the_index_has_one_entry_per_chunk() {
    for (n, r, chunks) in [(0u64, 3usize, 0usize), (1, 3, 1), (3, 3, 1), (4, 3, 2), (102, 29, 4), (7, 1, 7), (5, 100, 1)] {
        let all: Vec<(u64, String)> = (0..n).map(|k| (10 * k + 5, format!("v{}", k))).collect();
        let (image, index) = build_segment(&all, r, 0).unwrap();
        assert_eq!(index.len(), chunks);
        let mut offset: u64 = 0;
        for (j, entry) in index.iter().enumerate() {
            let chunk = &all[j * r..std::cmp::min((j + 1) * r, all.len())];
            // The key of the entry is the smallest key of its chunk.
            assert_eq!(entry.0, chunk.iter().map(|record| record.0).min().unwrap());
            assert_eq!(entry.1, (0, offset));
            offset += encode_chunk(chunk).unwrap().len() as u64;
        }
        assert_eq!(offset, image.len() as u64);
    }
}

#[test]
fn each_chunk_can_be_decoded_from_its_offset() {
    let all: Vec<(u64, String)> = (1..=10u64).map(|k| (k, format!("value {}", k))).collect();
    let (image, index) = build_segment(&all, 4, 2).unwrap();
    assert_eq!(index.len(), 3);
    for (j, entry) in index.iter().enumerate() {
        let chunk = decode_chunk(&image[entry.1 .1 as usize..]).unwrap();
        assert_eq!(chunk.as_slice(), &all[j * 4..std::cmp::min(j * 4 + 4, 10)]);
    }
}

#[test]
fn searching_a_chunk_finds_the_first_match() {
    let chunk = records(&[(1, "a"), (2, "b"), (2, "again"), (3, "c")]);
    assert_eq!(search_chunk(chunk.clone(), &1), Some("a".to_string()));
    assert_eq!(search_chunk(chunk.clone(), &2), Some("b".to_string()));
    assert_eq!(search_chunk(chunk.clone(), &3), Some("c".to_string()));
    assert_eq!(search_chunk(chunk, &4), None);
    assert_eq!(search_chunk(Vec::new(), &1), None);
}

#[test]
fn segments_are_named_by_their_number_in_decimal() {
    assert_eq!(segment_name(0), "0");
    assert_eq!(segment_name(7), "7");
    assert_eq!(segment_name(10), "10");
    assert_eq!(segment_name(905), "905");
    assert_eq!(segment_name(u32::MAX), "4294967295");
    for n in [1u32, 42, 99, 100, 12345, 1000000] {
        assert_eq!(segment_name(n), format!("{}", n));
    }
}

#[test]
fn segment_files_lie_directly_in_the_storage_directory() {
    assert_eq!(join_path("/var/data", "12"), "/var/data/12");
    assert_eq!(join_path("/var/data/", "12"), "/var/data/12");
    assert_eq!(join_path("", "12"), "12");
    assert_eq!(join_path("/", "0"), "/0");
    assert_eq!(join_path("données", "3"), "données/3");
    for dir in ["/tmp/x", "/tmp/x/", "", "relative/dir"] {
        let expected = std::path::Path::new(dir).join("5");
        assert_eq!(join_path(dir, "5"), expected.to_str().unwrap());
    }
}

#[test]
fn a_read_request_selects_its_byte_range() {
    let file: Vec<u8> = (0..10u8).collect();
    let bounded = ChunkRead { segment_num: 0, offset: 2, limit: Some(3) };
    assert_eq!(bounded.slice(&file), &[2u8, 3, 4]);
    let open = ChunkRead { segment_num: 0, offset: 7, limit: None };
    assert_eq!(open.slice(&file), &[7u8, 8, 9]);
    let long = ChunkRead { segment_num: 0, offset: 8, limit: Some(5) };
    assert_eq!(long.slice(&file), &[8u8, 9]);
    let beyond = ChunkRead { segment_num: 0, offset: 11, limit: Some(1) };
    assert_eq!(beyond.slice(&file), &[] as &[u8]);
    let huge = ChunkRead { segment_num: 0, offset: u64::MAX, limit: Some(u64::MAX) };
    assert_eq!(huge.slice(&file), &[] as &[u8]);
    let whole = ChunkRead { segment_num: 0, offset: 0, limit: None };
    assert_eq!(whole.slice(&file), file.as_slice());
}

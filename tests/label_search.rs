use memmap2::MmapMut;
use rsonpath_memmem::in_slice::{is_member_match, seek_backward};
use rsonpath_memmem::input::{padded_length, InputError, MmapInput, MAX_BLOCK_SIZE};
use rsonpath_memmem::label::JsonString;
use rsonpath_memmem::mask::find_in_mask;
use rsonpath_memmem::memmem::{find_label_in_first_block, SequentialMemmemClassifier};

fn mapped(data: &[u8], len: usize) -> memmap2::Mmap {
    let mut m = MmapMut::map_anon(len).unwrap();
    m[..data.len()].copy_from_slice(data);
    m.make_read_only().unwrap()
}

fn input_of(data: &[u8]) -> MmapInput {
    let len = padded_length(data.len()).unwrap();
    MmapInput::from_mmap(mapped(data, len)).unwrap()
}

fn search<const N: usize>(input: &MmapInput, label: &[u8]) -> (Option<(usize, Vec<u8>)>, usize) {
    let label = JsonString::new(label);
    let mut c = SequentialMemmemClassifier::<N>::new(input, input.iter_blocks::<N>());
    let found = c.find_label(None, 0, &label).unwrap().map(|(p, b)| (p, b.to_vec()));
    (found, c.into_iter().get_offset())
}

#[test]
fn key_straddling_two_blocks_of_eight() {
    let data = b"{ab:X\"key\":1}";
    let input = input_of(data);
    let (found, pos) = search::<8>(&input, b"key");
    let (p, block) = found.unwrap();
    assert_eq!(p, 5);
    assert_eq!(&block[..], &data[..8]);
    assert_eq!(pos, 8);
}

#[test]
fn opening_quote_last_byte_of_block() {
    let data = b"{\"a\":1,\"key\":3}";
    let input = input_of(data);
    let (found, pos) = search::<8>(&input, b"key");
    let (p, block) = found.unwrap();
    assert_eq!(p, 7);
    assert_eq!(&block[..], &input.as_bytes()[8..16]);
    assert_eq!(&block[..7], &data[8..15]);
    assert_eq!(pos, 16);
}

#[test]
fn first_of_two_keys_is_reported() {
    let data = b"{\"x\":{\"key\":1},\"key\":2}";
    let input = input_of(data);
    let (found, _) = search::<64>(&input, b"key");
    assert_eq!(found.unwrap().0, 6);
}

#[test]
fn escaped_label_in_value_is_not_reported() {
    let data = b"{\"a\":\"\\\"key\\\"\",\"key\":1}";
    let input = input_of(data);
    let (found, _) = search::<8>(&input, b"key");
    assert_eq!(found.unwrap().0, 15);
}

#[test]
fn longer_label_is_not_a_match() {
    let data = b"{\"keys\":1,\"ke\":2}";
    let input = input_of(data);
    let (found, pos) = search::<16>(&input, b"key");
    assert!(found.is_none());
    assert_eq!(pos, 256);
}

#[test]
fn no_occurrence_gives_no_match() {
    let data = b"{\"a\":1,\"b\":[1,2,3]}";
    let input = input_of(data);
    let label = JsonString::new(b"key");
    let mut c = SequentialMemmemClassifier::<64>::new(&input, input.iter_blocks::<64>());
    let r = c.find_label(None, 0, &label);
    assert!(matches!(r, Ok(None)));
    assert_eq!(c.into_iter().get_offset(), MAX_BLOCK_SIZE);
}

#[test]
fn repeated_search_gives_same_result() {
    let data = b"[{\"q\":0},{\"key\":\"key\"}]";
    let input = input_of(data);
    let first = search::<8>(&input, b"key");
    let second = search::<8>(&input, b"key");
    assert_eq!(first, second);
    assert_eq!(first.0.unwrap().0, 10);
}

#[test]
fn search_resumes_from_first_block() {
    let data = b"{\"key\":1,\"key\":2}";
    let input = input_of(data);
    let label = JsonString::new(b"key");
    let bytes = input.as_bytes();
    let mut iter = input.iter_blocks::<16>();
    let block = iter.next().unwrap().unwrap();
    let mut c = SequentialMemmemClassifier::<16>::new(&input, iter);
    let (p, b) = c.find_label(Some(block), 2, &label).unwrap().unwrap();
    assert_eq!(p, 9);
    assert_eq!(b, &bytes[..16]);
    let direct = find_label_in_first_block::<16>(&input, block, 0, &label).unwrap().unwrap();
    assert_eq!(direct.0, 1);
}

#[test]
fn search_continues_past_first_block() {
    let data = b"{\"key\":1,\"a\":{\"key\":2}}";
    let input = input_of(data);
    let label = JsonString::new(b"key");
    let mut iter = input.iter_blocks::<8>();
    let block = iter.next().unwrap().unwrap();
    let mut c = SequentialMemmemClassifier::<8>::new(&input, iter);
    let (p, _) = c.find_label(Some(block), 3, &label).unwrap().unwrap();
    assert_eq!(p, 14);
    assert_eq!(c.into_iter().get_offset(), 16);
}

#[test]
fn mask_candidate_inside_window() {
    let data = b"{\"key\":1}";
    let input = input_of(data);
    let label = JsonString::new(b"key");
    assert_eq!(find_in_mask(&input, &label, 0, 1 << 2, 1 << 3, 0), Some(1));
    assert_eq!(find_in_mask(&input, &label, 0, 1 << 3, 1 << 4, 0), None);
    assert_eq!(find_in_mask(&input, &label, 0, 0, 0, 0), None);
}

#[test]
fn mask_skips_rejected_candidates() {
    let data = b"{\"a\":\"kez\",\"key\":1}";
    let input = input_of(data);
    let label = JsonString::new(b"key");
    let first = (1u64 << 6) | (1u64 << 12);
    let second = (1u64 << 7) | (1u64 << 13);
    assert_eq!(find_in_mask(&input, &label, 0, first, second, 0), Some(11));
}

#[test]
fn mask_straddling_key_matches_linear() {
    let mut data = vec![b' '; 63];
    data[0] = b'{';
    data.extend_from_slice(b"\"key\":1}");
    let input = input_of(&data);
    let label = JsonString::new(b"key");
    assert_eq!(find_in_mask(&input, &label, 0, 1, 1 << 1, 64), Some(63));
    let (found, _) = search::<64>(&input, b"key");
    assert_eq!(found.unwrap().0, 63);
}

#[test]
fn mask_carry_bit_checks_previous_window() {
    let mut data = vec![b' '; 62];
    data[0] = b'{';
    data.extend_from_slice(b"\"key\":1}");
    let input = input_of(&data);
    let label = JsonString::new(b"key");
    assert_eq!(find_in_mask(&input, &label, 1, 0, 1, 64), Some(62));
    assert_eq!(find_in_mask(&input, &label, 0, 0, 1, 64), None);
}

#[test]
fn mask_candidate_before_input_start_is_skipped() {
    let data = b"\"key\":1";
    let input = input_of(data);
    let label = JsonString::new(b"key");
    assert_eq!(find_in_mask(&input, &label, 1, 1, 3, 0), None);
}

#[test]
fn unpadded_file_gives_whole_blocks() {
    let data = b"{\"a\":\"ke";
    let input = input_of(data);
    let mut iter = input.iter_blocks::<8>();
    let mut count = 0;
    while let Some(block) = iter.next().unwrap() {
        assert_eq!(block.len(), 8);
        count += 1;
    }
    assert_eq!(count, 32);
    assert_eq!(input.as_bytes().len(), 256);
    assert_eq!(&input.as_bytes()[..8], &data[..]);
    let (found, _) = search::<8>(&input, b"ke");
    assert!(found.is_none());
}

#[test]
fn padded_length_rounds_up() {
    assert_eq!(padded_length(0), Ok(0));
    assert_eq!(padded_length(1), Ok(256));
    assert_eq!(padded_length(256), Ok(256));
    assert_eq!(padded_length(257), Ok(512));
    assert_eq!(padded_length(usize::MAX), Err(InputError::LengthOverflow { len: usize::MAX }));
}

#[test]
fn unpadded_map_is_refused() {
    let m = mapped(b"{}", 13);
    assert!(matches!(MmapInput::from_mmap(m), Err(InputError::UnpaddedLength { len: 13 })));
}

#[test]
fn iterator_skips_whole_blocks() {
    let input = input_of(b"[1,2,3]");
    let mut iter = input.iter_blocks::<64>();
    assert_eq!(iter.get_offset(), 0);
    iter.offset(2);
    assert_eq!(iter.get_offset(), 128);
    assert!(iter.next().unwrap().is_some());
    iter.offset(1);
    assert_eq!(iter.get_offset(), 256);
    assert!(iter.next().unwrap().is_none());
}

#[test]
fn member_match_checks_span_and_escape() {
    let label = JsonString::new(b"key");
    let bytes = b"{\"key\":\\\"key\"}";
    assert!(is_member_match(bytes, 1, 5, &label));
    assert!(!is_member_match(bytes, 1, 4, &label));
    assert!(!is_member_match(bytes, 8, 12, &label));
    assert!(!is_member_match(bytes, 12, 16, &label));
    let input = input_of(bytes);
    assert!(input.is_member_match(1, 5, &label));
    assert!(!input.is_member_match(8, 12, &label));
}

#[test]
fn label_forms() {
    let label = JsonString::new(b"a\\\"b");
    assert_eq!(label.bytes(), b"a\\\"b");
    assert_eq!(label.bytes_with_quotes(), b"\"a\\\"b\"");
}

#[test]
fn seeking_helpers() {
    let input = input_of(b"{ \"a\" :  1 }");
    assert_eq!(input.seek_backward(5, b'{'), Some(0));
    assert_eq!(input.seek_backward(5, b'x'), None);
    assert_eq!(seek_backward(b"abc", 2, b'c'), Some(2));
    assert_eq!(input.seek_non_whitespace_forward(5).unwrap(), Some((6, b':')));
    assert_eq!(input.seek_non_whitespace_forward(7).unwrap(), Some((9, b'1')));
    assert_eq!(input.seek_non_whitespace_backward(8), Some((6, b':')));
    assert_eq!(input.seek_non_whitespace_backward(1), Some((0, b'{')));
    assert_eq!(input.seek_non_whitespace_backward(300), None);
    assert_eq!(input.seek_non_whitespace_forward(300).unwrap(), None);
}

use rsy::checksum::{rolling_sum, strong_sum};
use rsy::delta::{
    basis_sums, diff, diff_stream, patch, token_stats, BlockSum, PatchWriter, Token,
};

fn round_trip(src: &[u8], basis: &[u8], blen: usize) {
    let sums = basis_sums(basis, blen);
    let tokens = diff(src, &sums, blen);
    let got = patch(basis, &tokens);
    assert_eq!(got, src, "round-trip mismatch");
}

#[test]
fn identical_files_are_all_copy() {
    let blen = 64usize;
    let data = vec![0xABu8; blen * 20];
    let sums = basis_sums(&data, blen);
    let tokens = diff(&data, &sums, blen);
    let (lit, matched) = token_stats(&tokens);
    assert_eq!(lit, 0);
    assert!(matched > 0);
    round_trip(&data, &data, blen);
}

#[test]
fn new_file_is_all_data() {
    let src = b"brand new content";
    let sums = basis_sums(&[], 700);
    let tokens = diff(src, &sums, 700);
    assert!(matches!(tokens.as_slice(), [Token::Data(_)]));
    round_trip(src, &[], 700);
}

#[test]
fn append_to_file() {
    let basis = b"original content here".repeat(50);
    let mut src = basis.clone();
    src.extend_from_slice(b"appended stuff");
    round_trip(&src, &basis, 700);
}

#[test]
fn small_edit_in_middle() {
    let mut basis = vec![0u8; 8000];
    basis[4000] = 1;
    let mut src = basis.clone();
    src[4000] = 2;
    let sums = basis_sums(&basis, 700);
    let tokens = diff(&src, &sums, 700);
    let (_, matched) = token_stats(&tokens);
    let got = patch(&basis, &tokens);
    assert_eq!(got, src);
    assert!(matched > 0);
}

#[test]
fn empty_src_empty_basis() {
    round_trip(&[], &[], 700);
}

#[test]
fn empty_src_nonempty_basis() {
    round_trip(&[], b"some existing data", 700);
}

#[test]
fn prepend_to_file() {
    let basis = b"original content here".repeat(50);
    let mut src = b"PREPENDED HEADER\n".to_vec();
    src.extend_from_slice(&basis);
    round_trip(&src, &basis, 700);
}

#[test]
fn delete_bytes_from_middle() {
    let basis: Vec<u8> = (0u8..=255).cycle().take(8000).collect();
    let src: Vec<u8> = basis[..3000].iter().chain(basis[3500..].iter()).copied().collect();
    round_trip(&src, &basis, 700);
}

#[test]
fn all_changed_is_all_literal() {
    let blen = 64usize;
    let basis = vec![0u8; blen * 10];
    let src = vec![0xFFu8; blen * 10];
    let sums = basis_sums(&basis, blen);
    let tokens = diff(&src, &sums, blen);
    let (lit, matched) = token_stats(&tokens);
    assert_eq!(matched, 0);
    assert_eq!(lit, src.len());
    round_trip(&src, &basis, blen);
}

#[test]
fn single_byte_file() {
    round_trip(b"A", b"B", 700);
    round_trip(b"A", b"A", 700);
    round_trip(b"A", &[], 700);
}

#[test]
fn repeated_pattern_reuses_blocks() {
    let blen = 64usize;
    let block = vec![0x42u8; blen];
    let basis: Vec<u8> = block.repeat(4);
    let src: Vec<u8> = block.repeat(8);
    let sums = basis_sums(&basis, blen);
    let tokens = diff(&src, &sums, blen);
    let (lit, _) = token_stats(&tokens);
    assert_eq!(lit, 0);
    round_trip(&src, &basis, blen);
}

#[test]
fn basis_sums_rejects_zero_block_size() {
    assert!(basis_sums(b"data", 0).is_empty());
}

#[test]
fn basis_sums_keeps_final_partial_block_offset() {
    let sums = basis_sums(b"abcdefghi", 4);

    assert_eq!(sums.len(), 3);
    assert_eq!(sums[0].offset, 0);
    assert_eq!(sums[1].offset, 4);
    assert_eq!(sums[2].offset, 8);
}

#[test]
fn exact_block_sized_file_round_trips() {
    let basis = b"abcdefgh".repeat(8);
    let mut src = basis.clone();
    src.extend_from_slice(&basis);

    round_trip(&src, &basis, 8);
}

#[test]
fn large_file_parallel_sums_match_serial() {
    let data: Vec<u8> = (0u8..=255).cycle().take(4 * 1024 * 1024 + 1).collect();
    let blen = 700;
    let par = basis_sums(&data, blen);
    let serial: Vec<_> = data
        .chunks(blen)
        .enumerate()
        .map(|(i, chunk)| BlockSum {
            rolling: rolling_sum(chunk),
            strong: strong_sum(chunk),
            offset: (i * blen) as u64,
        })
        .collect();
    assert_eq!(par.len(), serial.len());
    for (p, s) in par.iter().zip(serial.iter()) {
        assert_eq!(p.rolling, s.rolling);
        assert_eq!(p.strong, s.strong);
        assert_eq!(p.offset, s.offset);
    }
}

#[test]
fn patch_writer_streams() {
    let basis = b"hello world repeated content".repeat(50);
    let mut src = basis.clone();
    src[10] = b'X';
    let sums = basis_sums(&basis, 64);

    let mut pw = PatchWriter::new(&basis, Vec::new());
    diff_stream(&src, &sums, 64, &mut pw).unwrap();
    let (buf, hash) = pw.finalize();

    assert_eq!(buf, src);
    assert_eq!(hash, *blake3::hash(&src).as_bytes());
}

#[test]
fn tokens_are_exact() {
    // Blocks of four: "abcd", "efgh", "ij". The source moves them about.
    let basis = b"abcdefghij";
    let sums = basis_sums(basis, 4);
    let tokens = diff(b"XXefghYabcdij", &sums, 4);
    assert_eq!(tokens.len(), 5);
    assert!(matches!(&tokens[0], Token::Data(d) if d == b"XX"));
    assert!(matches!(tokens[1], Token::Copy { offset: 4, len: 4 }));
    assert!(matches!(&tokens[2], Token::Data(d) if d == b"Y"));
    assert!(matches!(tokens[3], Token::Copy { offset: 0, len: 4 }));
    assert!(matches!(&tokens[4], Token::Data(d) if d == b"ij"));
    assert_eq!(token_stats(&tokens), (5, 8));
    assert_eq!(patch(basis, &tokens), b"XXefghYabcdij");
}

#[test]
fn the_first_of_equal_blocks_is_copied() {
    let basis = b"sameSAMEsame";
    let sums = basis_sums(basis, 4);
    let tokens = diff(b"same", &sums, 4);
    assert_eq!(tokens.len(), 1);
    assert!(matches!(tokens[0], Token::Copy { offset: 0, len: 4 }));
}

#[test]
fn copies_are_cut_off_at_the_end_of_the_basis() {
    let tokens = vec![
        Token::Copy { offset: 2, len: 10 },
        Token::Copy { offset: 7, len: 1 },
        Token::Copy { offset: u64::MAX, len: u32::MAX },
        Token::Data(b"!".to_vec()),
    ];
    assert_eq!(patch(b"basis", &tokens), b"sis!");
}

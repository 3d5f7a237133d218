use bgzf_reader::reader::begin_block;
use bgzf_reader::{block_size, is_bam_eof, is_bgzf_eof, is_valid_bgzf_header, Error, BGZIP_EOF_BLOCK};

fn sentinel_header() -> [u8; 18] {
    let mut h = [0u8; 18];
    h.copy_from_slice(&BGZIP_EOF_BLOCK[..18]);
    h
}

#[test]
fn valid_header_is_accepted() {
    assert!(is_valid_bgzf_header(&sentinel_header()));
}

#[test]
fn header_of_wrong_length_is_rejected() {
    assert!(!is_valid_bgzf_header(&BGZIP_EOF_BLOCK[..17]));
    assert!(!is_valid_bgzf_header(&BGZIP_EOF_BLOCK[..19]));
    assert!(!is_valid_bgzf_header(&[]));
}

#[test]
fn altered_fixed_bytes_are_rejected() {
    for i in [0usize, 1, 2, 10, 11, 12, 13, 14, 15] {
        let mut h = sentinel_header();
        h[i] ^= 0x01;
        assert!(!is_valid_bgzf_header(&h), "byte {} altered", i);
    }
}

#[test]
fn unconstrained_bytes_do_not_matter() {
    for i in 3usize..10 {
        let mut h = sentinel_header();
        h[i] = 0xaa;
        assert!(is_valid_bgzf_header(&h), "byte {} altered", i);
    }
}

#[test]
fn bsize_lower_bound() {
    let mut h = sentinel_header();
    h[16] = 17;
    h[17] = 0;
    assert!(!is_valid_bgzf_header(&h));
    h[16] = 18;
    assert!(is_valid_bgzf_header(&h));
    h[16] = 0x00;
    h[17] = 0x01;
    assert!(is_valid_bgzf_header(&h));
}

#[test]
fn block_size_is_bsize_plus_one() {
    let mut h = sentinel_header();
    assert_eq!(block_size(&h), 28);
    h[16] = 0xff;
    h[17] = 0xff;
    assert_eq!(block_size(&h), 65536);
    h[16] = 0x34;
    h[17] = 0x12;
    assert_eq!(block_size(&h), 0x1235);
}

#[test]
fn begin_block_copies_header_and_sizes_buffer() {
    let mut h = sentinel_header();
    h[16] = 99;
    let buf = begin_block(h).unwrap();
    assert_eq!(buf.len(), 100);
    assert_eq!(&buf[..18], &h[..]);
    assert!(buf[18..].iter().all(|b| *b == 0));
}

#[test]
fn begin_block_rejects_invalid_header() {
    let mut h = sentinel_header();
    h[12] = b'X';
    match begin_block(h) {
        Err(Error::BGZInvalidHeader(raw)) => assert_eq!(raw, h),
        other => panic!("unexpected {:?}", other),
    }
}

#[test]
fn generic_eof_matches_sentinel_only() {
    assert!(is_bgzf_eof(28, &BGZIP_EOF_BLOCK));
    assert!(!is_bgzf_eof(27, &BGZIP_EOF_BLOCK));
    let mut b = BGZIP_EOF_BLOCK;
    b[20] = 1;
    assert!(!is_bgzf_eof(28, &b));
    assert!(!is_bgzf_eof(28, &BGZIP_EOF_BLOCK[..27]));
}

#[test]
fn bam_eof_checks_tail_only() {
    let mut b = BGZIP_EOF_BLOCK;
    b[3] = 0x00;
    b[5] = 0x77;
    assert!(is_bam_eof(28, &b));
    b[27] = 1;
    assert!(!is_bam_eof(28, &b));
    assert!(!is_bam_eof(29, &BGZIP_EOF_BLOCK));
}

#[test]
fn bam_eof_on_short_input_does_not_panic() {
    assert!(!is_bam_eof(28, &BGZIP_EOF_BLOCK[..20]));
    assert!(!is_bam_eof(28, &[]));
}

#[test]
fn both_detectors_agree_on_sentinel() {
    assert!(is_bgzf_eof(28, &BGZIP_EOF_BLOCK));
    assert!(is_bam_eof(28, &BGZIP_EOF_BLOCK));
}

#[test]
fn bam_eof_on_example_header() {
    let mut block = vec![
        0x1f, 0x8b, 0x08, 0x00, 0x00, 0x00, 0x00, 0x00, 0x00, 0xff, 0x06, 0x00, 0x42, 0x43, 0x02, 0x00, 0x1b,
        0x00,
    ];
    assert!(is_valid_bgzf_header(&block));
    assert_eq!(block_size(&block), 28);
    block.extend_from_slice(&[0x03, 0, 0, 0, 0, 0, 0, 0, 0, 0]);
    assert!(is_bam_eof(28, &block));
}

#[test]
fn error_messages() {
    assert_eq!(Error::BGZRead.message(), "Unable to read BGZ block");
    assert_eq!(Error::BGZDecompress.message(), "Unable to decompress BGZ block");
    assert_eq!(Error::BGZInvalidHeader([0; 18]).message(), "Invalid BGZ header");
}

use rsy::checksum::{
    block_size, file_hash, first_half, leading_array, rolling_sum, same_bytes, strong_sum,
    RollingSum,
};

#[test]
fn rolling_sum_matches_init_on_same_data() {
    let data = b"hello world test data here";
    assert_eq!(rolling_sum(data), RollingSum::init(data).digest());
}

#[test]
fn rolling_slide_matches_fresh_init() {
    let data = b"abcdefghijklmnop";
    let blen = 8;
    // init on first window
    let mut rs = RollingSum::init(&data[..blen]);
    let d0 = rs.digest();
    assert_eq!(d0, rolling_sum(&data[..blen]));
    // slide one byte
    rs.roll(data[0], data[blen]);
    let d1 = rs.digest();
    assert_eq!(d1, rolling_sum(&data[1..blen + 1]));
    // slide again
    rs.roll(data[1], data[blen + 1]);
    assert_eq!(rs.digest(), rolling_sum(&data[2..blen + 2]));
}

#[test]
fn rolling_different_data_different_digest() {
    assert_ne!(rolling_sum(b"aaaa"), rolling_sum(b"bbbb"));
}

#[test]
fn rolling_sum_by_hand() {
    // low half: 1 + 2 + 3 = 6; high half: 1 + (1 + 2) + (1 + 2 + 3) = 10
    assert_eq!(rolling_sum(&[1, 2, 3]), (10 << 16) | 6);
    assert_eq!(rolling_sum(&[]), 0);
    assert_eq!(RollingSum::default().digest(), 0);
}

#[test]
fn rolling_sum_halves_wrap() {
    let data = vec![0xFFu8; 70_000];
    let low = (255u64 * 70_000) % 65_536;
    let high = (255u64 * (70_000 * 70_001 / 2)) % 65_536;
    assert_eq!(rolling_sum(&data) as u64, (high << 16) | low);
    let mut rs = RollingSum::init(&data);
    assert_eq!(rs.window, 70_000);
    rs.roll(0xFF, 7);
    let mut slid = data[1..].to_vec();
    slid.push(7);
    assert_eq!(rs.digest(), rolling_sum(&slid));
}

#[test]
fn strong_sum_deterministic() {
    let a = strong_sum(b"foo");
    let b = strong_sum(b"foo");
    assert_eq!(a, b);
    assert_ne!(strong_sum(b"foo"), strong_sum(b"bar"));
}

#[test]
fn file_hash_deterministic() {
    assert_eq!(file_hash(b"x"), file_hash(b"x"));
    assert_ne!(file_hash(b"x"), file_hash(b"y"));
}

#[test]
fn file_hash_of_nothing_is_known() {
    let expected: [u8; 32] = [
        0xaf, 0x13, 0x49, 0xb9, 0xf5, 0xf9, 0xa1, 0xa6, 0xa0, 0x40, 0x4d, 0xea, 0x36, 0xdc, 0xc9,
        0x49, 0x9b, 0xcb, 0x25, 0xc9, 0xad, 0xc1, 0x12, 0xb7, 0xcc, 0x9a, 0x93, 0xca, 0xe4, 0x1f,
        0x32, 0x62,
    ];
    assert_eq!(file_hash(b""), expected);
    assert_eq!(strong_sum(b""), first_half(&expected));
}

#[test]
fn block_size_clamps() {
    assert_eq!(block_size(0), 700);
    assert_eq!(block_size(1023), 700);
    // sqrt(1MB) ~ 1024, clamped to 1024
    assert_eq!(block_size(1024 * 1024), 1024);
    // very large file — clamps to max
    assert_eq!(block_size(u64::MAX), 131_072);
}

#[test]
fn block_size_is_the_root_in_between() {
    assert_eq!(block_size(1024), 700);
    assert_eq!(block_size(490_000), 700);
    assert_eq!(block_size(1_000_000), 1000);
    assert_eq!(block_size(1_002_000), 1000);
    assert_eq!(block_size(1_002_001), 1001);
    assert_eq!(block_size(131_072 * 131_072), 131_072);
}

#[test]
fn bytes_are_compared_and_taken() {
    assert!(same_bytes(b"", b""));
    assert!(same_bytes(b"abc", b"abc"));
    assert!(!same_bytes(b"abc", b"abd"));
    assert!(!same_bytes(b"abc", b"ab"));
    let head: [u8; 2] = leading_array(b"abc");
    assert_eq!(head, *b"ab");
}

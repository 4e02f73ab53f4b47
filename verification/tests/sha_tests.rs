use torrent::utils::sha::nb_utils::constants_k_sha1;
use torrent::utils::sha::Sha1;

fn hex_of(data: &[u8]) -> String {
    let mut h = Sha1::new();
    h.update(data);
    h.digest();
    h.digest_string()
}

#[test]
fn sha1_of_abc() {
    assert_eq!(hex_of(b"abc"), "a9993e364706816aba3e25717850c26c9cd0d89d");
}

#[test]
fn sha1_of_empty_message() {
    assert_eq!(hex_of(b""), "da39a3ee5e6b4b0d3255bfef95601890afd80709");
}

#[test]
fn sha1_of_two_block_message() {
    assert_eq!(
        hex_of(b"abcdbcdecdefdefgefghfghighijhijkijkljklmklmnlmnomnopnopq"),
        "84983e441c3bd26ebaae4aa1f95129e5e54670f1"
    );
}

#[test]
fn sha1_of_exactly_one_block() {
    let data = vec![b'a'; 64];
    assert_eq!(hex_of(&data), "0098ba824b5c16427bd7a1122a5a442a25ec644d");
}

#[test]
fn sha1_of_a_million_a() {
    let data = vec![b'a'; 1_000_000];
    assert_eq!(hex_of(&data), "34aa973cd4c4daa4f61eeb2bdbad27316534016f");
}

#[test]
fn updates_in_pieces_give_the_same_digest() {
    let msg = b"The quick brown fox jumps over the lazy dog, then again and again and again.";
    let mut h = Sha1::new();
    h.update(&msg[..10]);
    h.update(&msg[10..70]);
    h.update(&msg[70..]);
    h.digest();
    assert_eq!(h.digest_string(), hex_of(msg));
    assert_eq!(h.size, msg.len());
}

#[test]
fn fox_digest() {
    assert_eq!(
        hex_of(b"The quick brown fox jumps over the lazy dog"),
        "2fd4e1c67a2d28fced849ee1bb76e7391b93eb12"
    );
}

#[test]
fn clear_starts_over() {
    let mut h = Sha1::new();
    h.update(b"something else");
    h.clear();
    assert_eq!(h.size, 0);
    h.update(b"abc");
    h.digest();
    assert_eq!(h.digest_string(), "a9993e364706816aba3e25717850c26c9cd0d89d");
}

#[test]
fn digest_string_of_a_new_hasher_is_the_initial_state() {
    let h = Sha1::new();
    assert_eq!(h.digest_string(), "67452301efcdab8998badcfe10325476c3d2e1f0");
}

#[test]
fn digest_raw_gives_the_bytes_as_chars() {
    let mut h = Sha1::new();
    h.update(b"abc");
    h.digest();
    let raw = h.digest_raw();
    let codes: Vec<u32> = raw.chars().map(|c| c as u32).collect();
    assert_eq!(
        codes,
        vec![
            0xa9, 0x99, 0x3e, 0x36, 0x47, 0x06, 0x81, 0x6a, 0xba, 0x3e, 0x25, 0x71, 0x78, 0x50,
            0xc2, 0x6c, 0x9c, 0xd0, 0xd8, 0x9d
        ]
    );
}

#[test]
fn round_constants() {
    assert_eq!(constants_k_sha1(0), 0x5a827999);
    assert_eq!(constants_k_sha1(19), 0x5a827999);
    assert_eq!(constants_k_sha1(20), 0x6ed9eba1);
    assert_eq!(constants_k_sha1(39), 0x6ed9eba1);
    assert_eq!(constants_k_sha1(40), 0x8f1bbcdc);
    assert_eq!(constants_k_sha1(59), 0x8f1bbcdc);
    assert_eq!(constants_k_sha1(60), 0xca62c1d6);
    assert_eq!(constants_k_sha1(79), 0xca62c1d6);
}

#[test]
fn split_updates_leave_the_same_hasher() {
    let data: Vec<u8> = (0..200u32).map(|i| (i * 7 % 251) as u8).collect();
    for cut in [0usize, 1, 63, 64, 65, 128, 199, 200] {
        let mut split = Sha1::new();
        split.update(&data[..cut]);
        split.update(&data[cut..]);
        let mut whole = Sha1::new();
        whole.update(&data);
        assert_eq!(format!("{:?}", split), format!("{:?}", whole));
    }
}

#[test]
fn hasher_holds_the_last_chunk() {
    let mut h = Sha1::new();
    h.update(&[1u8; 128]);
    let shown = format!("{:?}", h);
    let mut expected = Sha1::new();
    expected.update(&[1u8; 64]);
    expected.update(&[1u8; 64]);
    assert_eq!(shown, format!("{:?}", expected));
    assert_eq!(h.size(), 128);
}

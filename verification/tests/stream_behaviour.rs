use hc256::word::{f1, f2, from_le_bytes, rotate_right, to_le_bytes};
use hc256::BufHc256;

const FIRST_BYTES: [u8; 32] = [
    0x5b, 0x07, 0x89, 0x85, 0xd8, 0xf6, 0xf3, 0x0d, 0x42, 0xc5, 0xc0, 0x2f, 0xa6, 0xb6, 0x79, 0x51,
    0x53, 0xf0, 0x65, 0x34, 0x80, 0x1f, 0x89, 0xf2, 0x4e, 0x74, 0x24, 0x8b, 0x72, 0x0b, 0x48, 0x18,
];

fn sample_key() -> [u8; 32] {
    let mut key = [0u8; 32];
    for (n, byte) in key.iter_mut().enumerate() {
        *byte = (n as u8).wrapping_mul(7).wrapping_add(3);
    }
    key
}

fn sample_iv() -> [u8; 32] {
    let mut iv = [0u8; 32];
    for (n, byte) in iv.iter_mut().enumerate() {
        *byte = (n as u8).wrapping_mul(13).wrapping_add(101);
    }
    iv
}

fn keystream(key: &[u8; 32], iv: &[u8; 32], len: usize) -> Vec<u8> {
    let mut cipher = BufHc256::new(key, iv);
    let mut out = vec![0u8; len];
    cipher.apply_stream(&mut out);
    out
}

#[test]
fn rotate_right_moves_low_bits_to_the_top() {
    assert_eq!(rotate_right(1, 7), 0x0200_0000);
    assert_eq!(rotate_right(0x8000_0001, 1), 0xc000_0000);
    assert_eq!(rotate_right(0x1234_5678, 16), 0x5678_1234);
    assert_eq!(rotate_right(0x1234_5678, 31), 0x2468_acf0);
}

#[test]
fn expansion_mixers_have_exact_values() {
    assert_eq!(f1(0), 0);
    assert_eq!(f1(1), 0x0200_4000);
    assert_eq!(f1(0x8000_0000), 0x1100_2000);
    assert_eq!(f2(0), 0);
    assert_eq!(f2(1), 0x0000_a000);
    assert_eq!(f2(0x8000_0000), 0x0020_5000);
}

#[test]
fn words_split_and_join_least_significant_byte_first() {
    assert_eq!(to_le_bytes(0x8589_075b), [0x5b, 0x07, 0x89, 0x85]);
    assert_eq!(to_le_bytes(0), [0, 0, 0, 0]);
    let mut bytes = [0u8; 32];
    bytes[28] = 0x72;
    bytes[29] = 0x0b;
    bytes[30] = 0x48;
    bytes[31] = 0x18;
    assert_eq!(from_le_bytes(&bytes, 28), 0x1848_0b72);
    assert_eq!(from_le_bytes(&bytes, 0), 0);
    assert_eq!(from_le_bytes(&FIRST_BYTES, 4), 0x0df3_f6d8);
}

#[test]
fn same_key_and_iv_give_the_same_output() {
    let key = sample_key();
    let iv = sample_iv();
    let mut first = BufHc256::new(&key, &iv);
    let mut second = BufHc256::new(&key, &iv);
    let mut a: Vec<u8> = (0..200u32).map(|n| (n * 3) as u8).collect();
    let mut b = a.clone();
    first.apply_stream(&mut a);
    second.apply_stream(&mut b);
    assert_eq!(a, b);
    let mut a_next = [0u8; 9];
    let mut b_next = [0u8; 9];
    first.apply_stream(&mut a_next);
    second.apply_stream(&mut b_next);
    assert_eq!(a_next, b_next);
}

#[test]
fn different_keys_give_different_keystreams() {
    let iv = [0u8; 32];
    let mut other = [0u8; 32];
    other[0] = 0x55;
    assert_ne!(keystream(&[0u8; 32], &iv, 32), keystream(&other, &iv, 32));
}

#[test]
fn applying_twice_restores_the_input() {
    let key = sample_key();
    let iv = sample_iv();
    let plain: Vec<u8> = (0..1000u32).map(|n| (n * n + 5) as u8).collect();
    let mut data = plain.clone();
    BufHc256::new(&key, &iv).apply_stream(&mut data);
    assert_ne!(data, plain);
    BufHc256::new(&key, &iv).apply_stream(&mut data);
    assert_eq!(data, plain);
}

#[test]
fn applying_twice_at_an_offset_restores_the_input() {
    let key = sample_key();
    let iv = sample_iv();
    let plain: Vec<u8> = (0..77u32).map(|n| (n + 200) as u8).collect();
    let mut data = plain.clone();
    let mut cipher = BufHc256::new(&key, &iv);
    cipher.set_state(&key, &iv, 4099);
    cipher.apply_stream(&mut data);
    let mut again = BufHc256::new(&key, &iv);
    again.set_state(&key, &iv, 4099);
    again.apply_stream(&mut data);
    assert_eq!(data, plain);
}

#[test]
fn output_is_input_xor_keystream() {
    let key = sample_key();
    let iv = sample_iv();
    let stream = keystream(&key, &iv, 50);
    let plain: Vec<u8> = (0..50u32).map(|n| (n * 5 + 1) as u8).collect();
    let mut data = plain.clone();
    BufHc256::new(&key, &iv).apply_stream(&mut data);
    for n in 0..50 {
        assert_eq!(data[n], plain[n] ^ stream[n]);
    }
}

#[test]
fn empty_buffer_changes_nothing() {
    let key = [0u8; 32];
    let iv = [0u8; 32];
    let mut cipher = BufHc256::new(&key, &iv);
    let mut nothing: [u8; 0] = [];
    cipher.apply_stream(&mut nothing);
    let mut head = [0u8; 5];
    cipher.apply_stream(&mut head);
    cipher.apply_stream(&mut nothing);
    let mut tail = [0u8; 27];
    cipher.apply_stream(&mut tail);
    assert_eq!(head, FIRST_BYTES[..5]);
    assert_eq!(tail, FIRST_BYTES[5..]);
}

#[test]
fn one_byte_at_a_time_gives_the_keystream() {
    let key = [0u8; 32];
    let iv = [0u8; 32];
    let mut cipher = BufHc256::new(&key, &iv);
    for expected in FIRST_BYTES {
        let mut one = [0u8; 1];
        cipher.apply_stream(&mut one);
        assert_eq!(one[0], expected);
    }
}

#[test]
fn every_split_in_two_gives_the_keystream() {
    let key = sample_key();
    let iv = sample_iv();
    let whole = keystream(&key, &iv, 41);
    for cut in 0..=41 {
        let mut cipher = BufHc256::new(&key, &iv);
        let mut head = vec![0u8; cut];
        let mut tail = vec![0u8; 41 - cut];
        cipher.apply_stream(&mut head);
        cipher.apply_stream(&mut tail);
        head.extend_from_slice(&tail);
        assert_eq!(head, whole);
    }
}

#[test]
fn uneven_chunks_agree_with_one_call_over_several_cycles() {
    let key = sample_key();
    let iv = sample_iv();
    let total = 4 * 2048 * 3 + 17;
    let whole = keystream(&key, &iv, total);
    let mut cipher = BufHc256::new(&key, &iv);
    let mut joined: Vec<u8> = Vec::new();
    let sizes = [1usize, 2, 3, 4, 5, 7, 0, 64, 1023, 6, 9, 2050];
    let mut turn = 0;
    while joined.len() < total {
        let size = sizes[turn % sizes.len()].min(total - joined.len());
        let mut chunk = vec![0u8; size];
        cipher.apply_stream(&mut chunk);
        joined.extend_from_slice(&chunk);
        turn += 1;
    }
    assert_eq!(joined, whole);
}

#[test]
fn offset_zero_is_a_fresh_cipher() {
    let key = [0u8; 32];
    let iv = [0u8; 32];
    let mut cipher = BufHc256::new(&sample_key(), &sample_iv());
    cipher.set_state(&key, &iv, 0);
    let mut out = [0u8; 32];
    cipher.apply_stream(&mut out);
    assert_eq!(out, FIRST_BYTES);
}

#[test]
fn offsets_inside_a_word_continue_at_the_exact_byte() {
    let key = [0u8; 32];
    let iv = [0u8; 32];
    let mut cipher = BufHc256::new(&key, &iv);
    cipher.set_state(&key, &iv, 5);
    let mut out = [0u8; 4];
    cipher.apply_stream(&mut out);
    assert_eq!(out, [0xf6, 0xf3, 0x0d, 0x42]);
    cipher.set_state(&key, &iv, 6);
    let mut out = [0u8; 3];
    cipher.apply_stream(&mut out);
    assert_eq!(out, [0xf3, 0x0d, 0x42]);
    cipher.set_state(&key, &iv, 7);
    let mut out = [0u8; 2];
    cipher.apply_stream(&mut out);
    assert_eq!(out, [0x0d, 0x42]);
    cipher.set_state(&key, &iv, 8);
    let mut out = [0u8; 1];
    cipher.apply_stream(&mut out);
    assert_eq!(out, [0x42]);
}

#[test]
fn seeking_equals_skipping() {
    let key = sample_key();
    let iv = sample_iv();
    let whole = keystream(&key, &iv, 8300);
    let mut cipher = BufHc256::new(&key, &iv);
    for offset in [0usize, 1, 2, 3, 4, 5, 31, 32, 33, 4095, 4096, 4097, 8191, 8192, 8194] {
        for len in [0usize, 1, 2, 3, 4, 5, 64, 101] {
            cipher.set_state(&key, &iv, offset);
            let mut out = vec![0u8; len];
            cipher.apply_stream(&mut out);
            assert_eq!(out, whole[offset..offset + len]);
        }
    }
}

#[test]
fn setting_the_state_drops_pending_bytes() {
    let key = [0u8; 32];
    let iv = [0u8; 32];
    let mut cipher = BufHc256::new(&sample_key(), &sample_iv());
    let mut one = [0u8; 1];
    cipher.apply_stream(&mut one);
    cipher.set_state(&key, &iv, 4);
    let mut out = [0u8; 28];
    cipher.apply_stream(&mut out);
    assert_eq!(out, FIRST_BYTES[4..]);
}

#[test]
fn fresh_cipher_is_not_zeroized() {
    let cipher = BufHc256::new(&[0u8; 32], &[0u8; 32]);
    assert!(!cipher.is_zeroized());
}

#[test]
fn zeroize_clears_tables_position_and_pending_bytes() {
    let mut cipher = BufHc256::new(&sample_key(), &sample_iv());
    let mut five = [0u8; 5];
    cipher.apply_stream(&mut five);
    assert!(!cipher.is_zeroized());
    cipher.zeroize();
    assert!(cipher.is_zeroized());
}

#[test]
fn zeroized_cipher_hands_out_zero_bytes() {
    let mut cipher = BufHc256::new(&sample_key(), &sample_iv());
    let mut one = [0u8; 1];
    cipher.apply_stream(&mut one);
    cipher.zeroize();
    let mut out = [0u8; 40];
    cipher.apply_stream(&mut out);
    assert_eq!(out, [0u8; 40]);
}

#[test]
fn a_call_that_ends_on_a_word_leaves_nothing_pending() {
    let key = [0u8; 32];
    let iv = [0u8; 32];
    let mut cipher = BufHc256::new(&key, &iv);
    let mut three = [0u8; 3];
    cipher.apply_stream(&mut three);
    let mut five = [0u8; 5];
    cipher.apply_stream(&mut five);
    let mut rest = [0u8; 24];
    cipher.apply_stream(&mut rest);
    assert_eq!(three, FIRST_BYTES[..3]);
    assert_eq!(five, FIRST_BYTES[3..8]);
    assert_eq!(rest, FIRST_BYTES[8..]);
}

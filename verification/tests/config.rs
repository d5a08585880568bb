use tfhe_aes::config::{generate_counters, increment_counter, parse_hex_16, parse_mode, Mode};

#[test]
fn the_four_modes_are_read_and_nothing_else() {
    assert_eq!(parse_mode("ECB"), Ok(Mode::ECB));
    assert_eq!(parse_mode("CBC"), Ok(Mode::CBC));
    assert_eq!(parse_mode("CTR"), Ok(Mode::CTR));
    assert_eq!(parse_mode("OFB"), Ok(Mode::OFB));
    assert_eq!(parse_mode("GCM"), Err("Invalid mode: GCM".to_string()));
    assert_eq!(parse_mode("ecb"), Err("Invalid mode: ecb".to_string()));
    assert_eq!(parse_mode(""), Err("Invalid mode: ".to_string()));
    assert_eq!(parse_mode("ECBC"), Err("Invalid mode: ECBC".to_string()));
}

#[test]
fn thirty_two_hex_digits_spell_sixteen_bytes() {
    assert_eq!(
        parse_hex_16("2b7e151628aed2a6abf7158809cf4f3c"),
        Ok([0x2b, 0x7e, 0x15, 0x16, 0x28, 0xae, 0xd2, 0xa6, 0xab, 0xf7, 0x15, 0x88, 0x09, 0xcf, 0x4f, 0x3c])
    );
    assert_eq!(
        parse_hex_16("000102030405060708090A0B0C0D0E0F"),
        Ok([0, 1, 2, 3, 4, 5, 6, 7, 8, 9, 10, 11, 12, 13, 14, 15])
    );
    assert_eq!(parse_hex_16("fFfFfFfFfFfFfFfFfFfFfFfFfFfFfFfF"), Ok([0xff; 16]));
}

#[test]
fn other_texts_are_rejected() {
    assert_eq!(
        parse_hex_16("123"),
        Err("Must be 32 hex characters (16 bytes), it is currently 3 characters.".to_string())
    );
    assert_eq!(
        parse_hex_16(""),
        Err("Must be 32 hex characters (16 bytes), it is currently 0 characters.".to_string())
    );
    assert_eq!(
        parse_hex_16("2b7e151628aed2a6abf7158809cf4f3c00"),
        Err("Must be 32 hex characters (16 bytes), it is currently 34 characters.".to_string())
    );
    assert_eq!(parse_hex_16("2b7e151628aed2a6abf7158809cf4f3g"), Err("Failed to decode hex".to_string()));
    assert_eq!(parse_hex_16("zz7e151628aed2a6abf7158809cf4f3c"), Err("Failed to decode hex".to_string()));
}

#[test]
fn the_counter_goes_up_by_one_in_its_last_eight_bytes() {
    let mut counter = [0u8; 16];
    counter[0] = 0xaa;
    counter[7] = 0xff;
    let next = increment_counter(counter);
    let mut expected = counter;
    expected[15] = 1;
    assert_eq!(next, expected);

    counter[15] = 0xff;
    counter[14] = 0xff;
    counter[13] = 0x41;
    let mut expected = counter;
    expected[15] = 0;
    expected[14] = 0;
    expected[13] = 0x42;
    assert_eq!(increment_counter(counter), expected);
}

#[test]
fn the_greatest_count_is_followed_by_zero_and_the_nonce_stays() {
    let mut counter = [0xffu8; 16];
    counter[3] = 0x12;
    let mut expected = counter;
    for i in 8..16 {
        expected[i] = 0;
    }
    assert_eq!(increment_counter(counter), expected);
}

#[test]
fn the_counters_start_at_zero_under_the_nonce_of_the_vector() {
    let iv = [0x32, 0x43, 0xf6, 0xa8, 0x88, 0x5a, 0x30, 0x8d, 0x31, 0x31, 0x98, 0xa2, 0xe0, 0x37, 0x07, 0x34];
    let counters = generate_counters(&iv, 3);
    assert_eq!(counters.len(), 3);
    for (i, counter) in counters.iter().enumerate() {
        assert_eq!(counter[..8], iv[..8]);
        assert_eq!(counter[8..15], [0u8; 7]);
        assert_eq!(counter[15], i as u8);
    }
    assert_eq!(counters[2], [0x32, 0x43, 0xf6, 0xa8, 0x88, 0x5a, 0x30, 0x8d, 0, 0, 0, 0, 0, 0, 0, 2]);
    assert_eq!(generate_counters(&iv, 0).len(), 0);
    let all = generate_counters(&iv, 255);
    assert_eq!(all.len(), 255);
    assert_eq!(all[254][15], 254);
    assert_eq!(all[254][14], 0);
}

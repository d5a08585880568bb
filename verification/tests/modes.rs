use std::time::Instant;
use tfhe::boolean::prelude::{
    BooleanParameters, ClientKey, DecompositionBaseLog, DecompositionLevelCount, DynamicDistribution,
    EncryptionKeyChoice, GlweDimension, LweDimension, PolynomialSize, ServerKey, StandardDev,
};
use tfhe_aes::key_schedule::Key;
use tfhe_aes::modes::cbc::CBC;
use tfhe_aes::modes::ctr::CTR;
use tfhe_aes::modes::ecb::ECB;
use tfhe_aes::modes::ofb::OFB;
use tfhe_aes::state::State;

/// A key pair of a small parameter set. The default parameters of `tfhe` need
/// more time for one gate than a test has for a whole circuit; a set with a
/// short key and little noise runs the same gates on the same code.
fn gen_keys() -> (ClientKey, ServerKey) {
    let parameters = BooleanParameters {
        lwe_dimension: LweDimension(1),
        glwe_dimension: GlweDimension(1),
        polynomial_size: PolynomialSize(32),
        lwe_noise_distribution: DynamicDistribution::new_gaussian_from_std_dev(StandardDev(0.000000001)),
        glwe_noise_distribution: DynamicDistribution::new_gaussian_from_std_dev(StandardDev(0.000000001)),
        pbs_base_log: DecompositionBaseLog(12),
        pbs_level: DecompositionLevelCount(1),
        ks_base_log: DecompositionBaseLog(12),
        ks_level: DecompositionLevelCount(1),
        encryption_key_choice: EncryptionKeyChoice::Small,
    };
    let client_key = ClientKey::new(&parameters);
    let server_key = ServerKey::new(&client_key);
    (client_key, server_key)
}

#[test]
fn test_ecb_once() {
    let (client_key, server_key) = gen_keys();

    let curr_key = Key::from_u128_enc(0x2b7e1516_28aed2a6a_bf71588_09cf4f3c, &client_key);
    let keys: Vec<_> = curr_key.generate_round_keys(&server_key).to_vec();
    let mut state = State::from_u128_enc(0x3243f6a8_885a308d_313198a2_e0370734, &client_key);

    let ecb = ECB::new(&keys);

    let start = Instant::now();
    ecb.encrypt(&mut state, &server_key);
    println!("ENCRYPT TIME TAKEN {:?}", start.elapsed());

    assert_eq!(state.decrypt_to_u128(&client_key), 0x3925841d_02dc09fb_dc118597_196a0b32);

    let start = Instant::now();
    ecb.decrypt(&mut state, &server_key);
    println!("DECRYPT TIME TAKEN {:?}", start.elapsed());

    assert_eq!(state.decrypt_to_u128(&client_key), 0x3243f6a8_885a308d_313198a2_e0370734)
}

#[test]
fn test_ecb_twice() {
    let (client_key, server_key) = gen_keys();

    let curr_key = Key::from_u128_enc(0x2b7e1516_28aed2a6a_bf71588_09cf4f3c, &client_key);
    let keys: Vec<_> = curr_key.generate_round_keys(&server_key).to_vec();
    let mut state = State::from_u128_enc(0x3243f6a8_885a308d_313198a2_e0370734, &client_key);
    let mut state_1 = state.clone();

    let ecb = ECB::new(&keys);

    ecb.encrypt(&mut state, &server_key);

    ecb.encrypt(&mut state_1, &server_key);

    assert_eq!(state.decrypt_to_u128(&client_key), state_1.decrypt_to_u128(&client_key))
}

#[test]
fn test_ecb() {
    const RCON: [u8; 10] = [0x01, 0x02, 0x04, 0x08, 0x10, 0x20, 0x40, 0x80, 0x1B, 0x36];
    let (client_key, server_key) = gen_keys();

    let curr_key = Key::from_u128_enc(0x2b28ab09_7eaef7cf_15d2154f_16a6883c, &client_key);
    let mut keys: Vec<_> = vec![curr_key.clone()];
    let mut state = State::from_u128_enc(0x2b28ab09_7eaef7cf_15d2154f_16a6883c, &client_key);

    let start = Instant::now();
    for i in 0..10 {
        let mut key = keys[i].clone();
        key.generate_next_key_in_place(&RCON[i], &server_key);
        keys.push(key);
    }

    let ecb = ECB::new(&keys);

    println!("Key Expansion Time Taken {:?}", start.elapsed());
    let start = Instant::now();
    ecb.encrypt(&mut state, &server_key);
    println!("ENCRYPT TIME TAKEN {:?}", start.elapsed());

    let start = Instant::now();
    ecb.decrypt(&mut state, &server_key);
    println!("DECRYPT TIME TAKEN {:?}", start.elapsed());

    assert_eq!(state.decrypt_to_u128(&client_key), 0x2b28ab09_7eaef7cf_15d2154f_16a6883c)
}

#[test]
fn test_cbc() {
    let (client_key, server_key) = gen_keys();

    let curr_key = Key::from_u128_enc(0x2b7e1516_28aed2a6a_bf71588_09cf4f3c, &client_key);
    let keys = curr_key.generate_round_keys(&server_key);
    let iv = State::from_u128_enc(0x3243f6a8_885a308d_313198a2_e0312122, &client_key);
    let cbc = CBC::new(&keys, &iv, 2);

    let plaintext_block_0 = State::from_u128_enc(0x3243f6a8_885a308d_313198a2_e0370734, &client_key);
    let plaintext_block_1 = State::from_u128_enc(0x3243f6a8_885a308d_313198a2_e0372324, &client_key);
    let mut plaintext = vec![plaintext_block_0, plaintext_block_1];

    let start = Instant::now();
    cbc.encrypt(&mut plaintext, &server_key);
    println!("ENCRYPT TIME TAKEN {:?}", start.elapsed());

    plaintext.iter().for_each(|x| println!("{:#x?}", x.decrypt_to_u128(&client_key)));

    let start = Instant::now();
    cbc.decrypt(&mut plaintext, &server_key);
    println!("DECRYPT TIME TAKEN {:?}", start.elapsed());

    assert_eq!(plaintext[0].decrypt_to_u128(&client_key), 0x3243f6a8_885a308d_313198a2_e0370734);
    assert_eq!(plaintext[1].decrypt_to_u128(&client_key), 0x3243f6a8_885a308d_313198a2_e0372324);
}

#[test]
fn test_ctr() {
    let (client_key, server_key) = gen_keys();

    let curr_key = Key::from_u128_enc(0x2b7e1516_28aed2a6a_bf71588_09cf4f3c, &client_key);
    let keys = curr_key.generate_round_keys(&server_key);
    let counters = vec![
        State::from_u128_enc(0x3243f6a8_885a308d_00000000_00000000, &client_key),
        State::from_u128_enc(0x3243f6a8_885a308d_00000000_00000001, &client_key),
    ];
    let ctr = CTR::new(&keys, &counters, 2);

    let plaintext_block_0 = State::from_u128_enc(0x3243f6a8_885a308d_313198a2_e0370734, &client_key);
    let plaintext_block_1 = State::from_u128_enc(0x3243f6a8_885a308d_313198a2_e0372324, &client_key);
    let mut plaintext = vec![plaintext_block_0, plaintext_block_1];

    let start = Instant::now();
    ctr.encrypt(&mut plaintext, &server_key);
    println!("ENCRYPT TIME TAKEN {:?}", start.elapsed());

    let start = Instant::now();
    ctr.decrypt(&mut plaintext, &server_key);
    println!("DECRYPT TIME TAKEN {:?}", start.elapsed());

    assert_eq!(plaintext[0].decrypt_to_u128(&client_key), 0x3243f6a8_885a308d_313198a2_e0370734);
    assert_eq!(plaintext[1].decrypt_to_u128(&client_key), 0x3243f6a8_885a308d_313198a2_e0372324);
}

#[test]
fn test_ofb() {
    let (client_key, server_key) = gen_keys();

    let curr_key = Key::from_u128_enc(0x2b7e1516_28aed2a6a_bf71588_09cf4f3c, &client_key);
    let keys = curr_key.generate_round_keys(&server_key);
    let iv = State::from_u128_enc(0x3243f6a8_885a308d_313198a2_e0312122, &client_key);
    let ofb = OFB::new(&keys, &iv, 2);

    let plaintext_block_0 = State::from_u128_enc(0x3243f6a8_885a308d_313198a2_e0370734, &client_key);
    let plaintext_block_1 = State::from_u128_enc(0x3243f6a8_885a308d_313198a2_e0372324, &client_key);
    let mut plaintext = vec![plaintext_block_0, plaintext_block_1];

    let start = Instant::now();

    ofb.encrypt(&mut plaintext, &server_key);
    println!("ENCRYPT TIME TAKEN {:?}", start.elapsed());

    let start = Instant::now();
    ofb.decrypt(&mut plaintext, &server_key);
    println!("DECRYPT TIME TAKEN {:?}", start.elapsed());

    assert_eq!(plaintext[0].decrypt_to_u128(&client_key), 0x3243f6a8_885a308d_313198a2_e0370734);
    assert_eq!(plaintext[1].decrypt_to_u128(&client_key), 0x3243f6a8_885a308d_313198a2_e0372324);
}

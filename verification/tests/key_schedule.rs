use std::time::Instant;
use tfhe::boolean::prelude::{
    BooleanParameters, ClientKey, DecompositionBaseLog, DecompositionLevelCount, DynamicDistribution,
    EncryptionKeyChoice, GlweDimension, LweDimension, PolynomialSize, ServerKey, StandardDev,
};
use tfhe_aes::key_schedule::{key_expansion_clear, Key};

/// A key pair of a small parameter set. The default parameters of `tfhe` need
/// more time for one gate than a test has for a whole circuit; a set with a
/// short key and little noise runs the same gates on the same code.
fn gen_keys() -> (ClientKey, ServerKey) {
    let parameters = BooleanParameters {
        lwe_dimension: LweDimension(1),
        glwe_dimension: GlweDimension(1),
        polynomial_size: PolynomialSize(32),
        lwe_noise_distribution: DynamicDistribution::new_gaussian_from_std_dev(StandardDev(0.000000001)),
        glwe_noise_distribution: DynamicDistribution::new_gaussian_from_std_dev(StandardDev(0.000000001)),
        pbs_base_log: DecompositionBaseLog(12),
        pbs_level: DecompositionLevelCount(1),
        ks_base_log: DecompositionBaseLog(12),
        ks_level: DecompositionLevelCount(1),
        encryption_key_choice: EncryptionKeyChoice::Small,
    };
    let client_key = ClientKey::new(&parameters);
    let server_key = ServerKey::new(&client_key);
    (client_key, server_key)
}

#[test]
fn test_key_schedule() {
    let (client_key, server_key) = gen_keys();
    let key = Key::from_u128_enc(0x2b7e151628aed2a6abf7158809cf4f3c, &client_key);

    let start = Instant::now();

    let keys = key.generate_round_keys(&server_key);
    for key in keys.iter() {
        println!("{:#x?}", key.decrypt_to_u8(&client_key));
    }

    println!("TIME TAKEN {:?}", start.elapsed() / 1);
}

#[test]
fn test_key_expansion() {
    let key = [0x2b, 0x7e, 0x15, 0x16, 0x28, 0xae, 0xd2, 0xa6, 0xab, 0xf7, 0x15, 0x88, 0x09, 0xcf, 0x4f, 0x3c];
    let round_keys = key_expansion_clear(&key);

    for key in round_keys.iter() {
        println!("{:#x?}", key);
    }
}

#[test]
fn key_schedule_test_conversion_u8_u128() {
    let (client_key, _) = gen_keys();
    let key_data = [
        0x04, 0xe0, 0x48, 0x28, 0x66, 0xcb, 0xf8, 0x06, 0x81, 0x19, 0xd3, 0x26, 0xe5, 0x9a, 0x7a, 0x4c,
    ];
    let key = Key::from_u8_enc(&key_data, &client_key);

    assert_eq!(key.decrypt_to_u8(&client_key), key_data, "{:#?}", key.decrypt_to_u8(&client_key));

    let key = Key::from_u128_enc(0x04e04828_66cbf806_8119d326_e59a7a4c, &client_key);

    assert_eq!(key.decrypt_to_u8(&client_key), key_data, "{:#?}", key.decrypt_to_u8(&client_key));
}

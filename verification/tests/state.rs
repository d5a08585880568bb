use rayon::iter::{IntoParallelRefMutIterator, ParallelIterator};
use tfhe::boolean::prelude::{
    BooleanParameters, ClientKey, DecompositionBaseLog, DecompositionLevelCount, DynamicDistribution,
    EncryptionKeyChoice, GlweDimension, LweDimension, PolynomialSize, ServerKey, StandardDev,
};
use tfhe_aes::state::State;

/// A key pair of a small parameter set. The default parameters of `tfhe` need
/// more time for one gate than a test has for a whole circuit; a set with a
/// short key and little noise runs the same gates on the same code.
fn gen_keys() -> (ClientKey, ServerKey) {
    let parameters = BooleanParameters {
        lwe_dimension: LweDimension(1),
        glwe_dimension: GlweDimension(1),
        polynomial_size: PolynomialSize(32),
        lwe_noise_distribution: DynamicDistribution::new_gaussian_from_std_dev(StandardDev(0.000000001)),
        glwe_noise_distribution: DynamicDistribution::new_gaussian_from_std_dev(StandardDev(0.000000001)),
        pbs_base_log: DecompositionBaseLog(12),
        pbs_level: DecompositionLevelCount(1),
        ks_base_log: DecompositionBaseLog(12),
        ks_level: DecompositionLevelCount(1),
        encryption_key_choice: EncryptionKeyChoice::Small,
    };
    let client_key = ClientKey::new(&parameters);
    let server_key = ServerKey::new(&client_key);
    (client_key, server_key)
}

#[test]
fn test_mix_columns() {
    let (client_key, server_key) = gen_keys();
    let state = State::from_u128_enc(0xd4bf5d30_e0b452ae_b84111f1_1e2798e5, &client_key);
    let mut test_data: Vec<_> = (0..1).into_iter().map(|_| state.clone()).collect();

    test_data.par_iter_mut().for_each(|state| state.mix_columns(&server_key));

    assert_eq!(
        test_data[0].decrypt_to_u128(&client_key),
        0x046681e5_e0cb199a_48f8d37a_2806264c,
        "{:#x?}",
        test_data[0].decrypt_to_u128(&client_key)
    );
}

#[test]
fn test_sub_bytes() {
    let (client_key, server_key) = gen_keys();
    let state = State::from_u128_enc(0x193de3be_a0f4e22b_9ac68d2a_e9f84808, &client_key);
    let mut test_data: Vec<_> = (0..1).into_iter().map(|_| state.clone()).collect();

    test_data.par_iter_mut().map(|state| state.sub_bytes(&server_key)).collect::<Vec<_>>();

    assert_eq!(
        test_data[0].decrypt_to_u128(&client_key),
        0xd42711ae_e0bf98f1_b8b45de5_1e415230,
        "{:#x?}",
        test_data[0].decrypt_to_u128(&client_key)
    );
}

#[test]
fn test_inv_sub_bytes() {
    let (client_key, server_key) = gen_keys();
    let state = State::from_u128_enc(0xd42711ae_e0bf98f1_b8b45de5_1e415230, &client_key);
    let mut test_data: Vec<_> = (0..1).into_iter().map(|_| state.clone()).collect();

    test_data.par_iter_mut().map(|state| state.inv_sub_bytes(&server_key)).collect::<Vec<_>>();

    assert_eq!(
        test_data[0].decrypt_to_u128(&client_key),
        0x193de3be_a0f4e22b_9ac68d2a_e9f84808,
        "{:#x?}",
        test_data[0].decrypt_to_u128(&client_key)
    );
}

#[test]
fn test_shift_rows() {
    let (client_key, _) = gen_keys();
    let state = State::from_u128_enc(0xd42711ae_e0bf98f1_b8b45de5_1e415230, &client_key);
    let mut test_data: Vec<_> = (0..1).into_iter().map(|_| state.clone()).collect();

    test_data.par_iter_mut().map(|state| state.shift_rows()).collect::<Vec<_>>();

    assert_eq!(
        test_data[0].decrypt_to_u128(&client_key),
        0xd4bf5d30_e0b452ae_b84111f1_1e2798e5,
        "{:#x?}",
        test_data[0].decrypt_to_u128(&client_key)
    );
}

#[test]
fn test_inv_shift_rows() {
    let (client_key, _) = gen_keys();
    let state = State::from_u128_enc(0xd4bf5d30_e0b452ae_b84111f1_1e2798e5, &client_key);
    let mut test_data: Vec<_> = (0..1).into_iter().map(|_| state.clone()).collect();

    test_data.par_iter_mut().map(|state| state.inv_shift_rows()).collect::<Vec<_>>();

    assert_eq!(
        test_data[0].decrypt_to_u128(&client_key),
        0xd42711ae_e0bf98f1_b8b45de5_1e415230,
        "{:#x?}",
        test_data[0].decrypt_to_u128(&client_key)
    );
}

#[test]
fn test_inv_mix_columns() {
    let (client_key, server_key) = gen_keys();
    let state = State::from_u128_enc(0x046681e5_e0cb199a_48f8d37a_2806264c, &client_key);
    let mut test_data: Vec<_> = (0..1).into_iter().map(|_| state.clone()).collect();

    test_data.par_iter_mut().map(|state| state.inv_mix_columns(&server_key)).collect::<Vec<_>>();

    assert_eq!(
        test_data[0].decrypt_to_u128(&client_key),
        0xd4bf5d30_e0b452ae_b84111f1_1e2798e5,
        "{:#x?}",
        test_data[0].decrypt_to_u128(&client_key)
    );
}

#[test]
fn test_decrypt_u128() {
    let (client_key, _) = gen_keys();
    let state = State::from_u128_enc(0x04e04828_66cbf806_8119d326_e59a7a4c, &client_key);

    assert_eq!(
        state.decrypt_to_u128(&client_key),
        0x04e04828_66cbf806_8119d326_e59a7a4c,
        "{:#x?}",
        state.decrypt_to_u128(&client_key)
    );
}

#[test]
fn state_test_conversion_u8_u128() {
    let (client_key, _) = gen_keys();
    let state_data = [
        0x04, 0xe0, 0x48, 0x28, 0x66, 0xcb, 0xf8, 0x06, 0x81, 0x19, 0xd3, 0x26, 0xe5, 0x9a, 0x7a, 0x4c,
    ];
    let state = State::from_u8_enc(&state_data, &client_key);

    assert_eq!(
        state.decrypt_to_u128(&client_key),
        0x04e04828_66cbf806_8119d326_e59a7a4c,
        "{:#x?}",
        state.decrypt_to_u128(&client_key)
    );

    let state = State::from_u128_enc(0x04e04828_66cbf806_8119d326_e59a7a4c, &client_key);

    assert_eq!(state.decrypt_to_u8(&client_key), state_data, "{:#x?}", state.decrypt_to_u128(&client_key));
}

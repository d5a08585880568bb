use rayon::iter::{IntoParallelIterator, IntoParallelRefMutIterator, ParallelIterator};
use tfhe::boolean::prelude::{
    BooleanParameters, ClientKey, DecompositionBaseLog, DecompositionLevelCount, DynamicDistribution,
    EncryptionKeyChoice, GlweDimension, LweDimension, PolynomialSize, ServerKey, StandardDev,
};
use tfhe_aes::primitive::FHEByte;

/// A key pair of a small parameter set. The default parameters of `tfhe` need
/// more time for one gate than a test has for a whole circuit; a set with a
/// short key and little noise runs the same gates on the same code.
fn gen_keys() -> (ClientKey, ServerKey) {
    let parameters = BooleanParameters {
        lwe_dimension: LweDimension(1),
        glwe_dimension: GlweDimension(1),
        polynomial_size: PolynomialSize(32),
        lwe_noise_distribution: DynamicDistribution::new_gaussian_from_std_dev(StandardDev(0.000000001)),
        glwe_noise_distribution: DynamicDistribution::new_gaussian_from_std_dev(StandardDev(0.000000001)),
        pbs_base_log: DecompositionBaseLog(12),
        pbs_level: DecompositionLevelCount(1),
        ks_base_log: DecompositionBaseLog(12),
        ks_level: DecompositionLevelCount(1),
        encryption_key_choice: EncryptionKeyChoice::Small,
    };
    let client_key = ClientKey::new(&parameters);
    let server_key = ServerKey::new(&client_key);
    (client_key, server_key)
}

#[test]
fn test_xor() {
    let (client_key, server_key) = gen_keys();

    let x = FHEByte::new(&vec![true, true, true, true, true, true, true, true], &client_key);
    let y = FHEByte::new(&vec![true, false, true, false, true, true, true, true], &client_key);

    let mut test_data: Vec<_> = (0..200).into_iter().map(|_| x.clone()).collect();

    test_data
        .par_iter_mut()
        .for_each_with(server_key, |server_key, x| x.xor_in_place(&y, server_key));

    assert!(test_data[0].decrypt(&client_key) == vec![false, true, false, true, false, false, false, false]);
}

#[test]
fn test_and() {
    let (client_key, server_key) = gen_keys();

    let x = FHEByte::new(&vec![true, true, true, true, true, true, true, true], &client_key);

    let y = FHEByte::new(&vec![true, false, true, false, true, true, true, true], &client_key);

    let mut test_data: Vec<_> = (0..200).into_iter().map(|_| x.clone()).collect();

    test_data
        .par_iter_mut()
        .for_each_with(server_key, |server_key, x| x.and_in_place(&y, server_key));

    assert!(test_data[0].decrypt(&client_key) == vec![true, false, true, false, true, true, true, true]);
}

#[test]
fn test_sub_byte() {
    let (client_key, server_key) = gen_keys();

    let x = FHEByte::from_u8_enc(&0x01, &client_key);

    let y = x.sub_byte(&server_key);

    assert_eq!(y.decrypt_to_u8(&client_key), 0x7c, "{:#x?}", y.decrypt_to_u8(&client_key));
}

fn clear_mul_x_gf2(x: &u8) -> u8 {
    let mut res = x.clone();
    res <<= 1;
    if x & 0x80 != 0 {
        res ^= 0x1b;
    }

    res
}

#[test]
fn test_mul_gf_2() {
    let (client_key, server_key) = gen_keys();

    for clear_value in 0..=255 {
        let x = FHEByte::from_u8_enc(&clear_value, &client_key);

        let y: Vec<_> = (0..1).into_par_iter().map(|_| x.mul_x_gf2(&server_key)).collect();

        assert_eq!(y[0].decrypt_to_u8(&client_key), clear_mul_x_gf2(&clear_value))
    }
}

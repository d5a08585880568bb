use tfhe::boolean::prelude::{
    BooleanParameters, ClientKey, DecompositionBaseLog, DecompositionLevelCount, DynamicDistribution,
    EncryptionKeyChoice, GlweDimension, LweDimension, PolynomialSize, ServerKey, StandardDev,
};
use tfhe_aes::boolean_tree::BooleanExpr;
use tfhe_aes::tree::{reduce, reduce_4, Level_0, Level_1};

/// A key pair of a small parameter set. The default parameters of `tfhe` need
/// more time for one gate than a test has for a whole circuit; a set with a
/// short key and little noise runs the same gates on the same code.
fn gen_keys() -> (ClientKey, ServerKey) {
    let parameters = BooleanParameters {
        lwe_dimension: LweDimension(1),
        glwe_dimension: GlweDimension(1),
        polynomial_size: PolynomialSize(32),
        lwe_noise_distribution: DynamicDistribution::new_gaussian_from_std_dev(StandardDev(0.000000001)),
        glwe_noise_distribution: DynamicDistribution::new_gaussian_from_std_dev(StandardDev(0.000000001)),
        pbs_base_log: DecompositionBaseLog(12),
        pbs_level: DecompositionLevelCount(1),
        ks_base_log: DecompositionBaseLog(12),
        ks_level: DecompositionLevelCount(1),
        encryption_key_choice: EncryptionKeyChoice::Small,
    };
    let client_key = ClientKey::new(&parameters);
    let server_key = ServerKey::new(&client_key);
    (client_key, server_key)
}

fn bits_of(value: u8) -> Vec<bool> {
    (0..8).map(|i| value & (0x80 >> i) != 0).collect()
}

fn table_index(bits: &[bool], width: usize) -> usize {
    (0..width).map(|k| if bits[k] { 0 } else { 1 << k }).sum()
}

/// A table whose groups of four entries run through all sixteen patterns.
fn table_of_all_patterns() -> Vec<bool> {
    (0..256usize).map(|i| ((i / 4) % 16) >> (i % 4) & 1 == 1).collect()
}

#[test]
fn four_entries_fold_into_one_function_of_two_bits() {
    assert_eq!(Level_0::apply(true, true), Level_0::True);
    assert_eq!(Level_0::apply(true, false), Level_0::Bit_0);
    assert_eq!(Level_0::apply(false, true), Level_0::Not_Bit_0);
    assert_eq!(Level_0::apply(false, false), Level_0::False);
    assert_eq!(Level_1::apply(Level_0::True, Level_0::False), Level_1::Bit_1);
    assert_eq!(Level_1::apply(Level_0::Bit_0, Level_0::Not_Bit_0), Level_1::Bit_1_XNOR_Bit_0);
    assert_eq!(Level_1::apply(Level_0::Not_Bit_0, Level_0::Bit_0), Level_1::Bit_1_XOR_Bit_0);
    assert_eq!(Level_1::apply(Level_0::False, Level_0::Bit_0), Level_1::Bit_1_NOR_Not_Bit_0);
    assert_eq!(Level_0::try_from(Level_1::Not_Bit_0), Ok(Level_0::Not_Bit_0));
    assert_eq!(Level_0::try_from(Level_1::Bit_1), Err(()));
    let all = Level_1::all();
    assert_eq!(all.len(), 16);
    for (place, kind) in all.iter().enumerate() {
        assert_eq!(kind.index(), place);
    }
    let folded = reduce_4(&table_of_all_patterns());
    assert_eq!(folded.len(), 64);
    for kind in all.iter() {
        assert!(folded.contains(kind));
    }
    assert_eq!(reduce_4(&vec![true, false, false, false]), vec![Level_1::Bit_1_AND_Bit_0]);
}

#[test]
fn the_first_evaluator_decrypts_to_the_selected_entry() {
    let (client_key, server_key) = gen_keys();
    let true_enc = client_key.encrypt(true);
    let mut seed = 0x2545f4914f6cdd1du64;
    let mut tables = vec![table_of_all_patterns()];
    tables.push(
        (0..256)
            .map(|_| {
                seed ^= seed << 13;
                seed ^= seed >> 7;
                seed ^= seed << 17;
                seed & 1 == 1
            })
            .collect(),
    );
    for leaves in tables.iter() {
        let expr = BooleanExpr::from_truth_table(leaves).unwrap();
        for step in 0..64u8 {
            let assignment = step.wrapping_mul(37).wrapping_add(step / 16);
            let bits = bits_of(assignment);
            let encrypted: Vec<_> = bits.iter().map(|&b| client_key.encrypt(b)).collect();
            let result = reduce(leaves, &encrypted, &true_enc, &server_key);
            assert_eq!(client_key.decrypt(&result), leaves[table_index(&bits, 8)]);
            assert_eq!(client_key.decrypt(&result), expr.evaluate_clear(&bits));
        }
    }
}

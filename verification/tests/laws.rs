use tfhe::boolean::prelude::{
    BooleanParameters, ClientKey, DecompositionBaseLog, DecompositionLevelCount, DynamicDistribution,
    EncryptionKeyChoice, GlweDimension, LweDimension, PolynomialSize, ServerKey, StandardDev,
};
use tfhe_aes::boolean_tree::{BooleanExpr, InvalidTable, Operand};
use tfhe_aes::clear::{cbc_encrypt_clear, ctr_encrypt_clear, ofb_encrypt_clear};
use tfhe_aes::evaluator::{ExprSet, StagedEvaluator};
use tfhe_aes::key_schedule::{key_expansion, key_expansion_clear, Key};
use tfhe_aes::modes::cbc::CBC;
use tfhe_aes::modes::ctr::CTR;
use tfhe_aes::modes::ecb::ECB;
use tfhe_aes::modes::ofb::OFB;
use tfhe_aes::primitive::FHEByte;
use tfhe_aes::sbox::{generate_reduced_bool_expr, SBoxTables, INV_S_BOX_DATA, S_BOX_DATA};
use tfhe_aes::state::{decrypt_blocks, encrypt_blocks, State};
use tfhe_aes::config::Mode;
use tfhe_aes::trial::{run, same_blocks, test_cbc, test_ctr, test_ecb, test_ofb, Trial};

/// A key pair of a small parameter set. The default parameters of `tfhe` need
/// more time for one gate than a test has for a whole circuit; a set with a
/// short key and little noise runs the same gates on the same code.
fn gen_keys() -> (ClientKey, ServerKey) {
    let parameters = BooleanParameters {
        lwe_dimension: LweDimension(1),
        glwe_dimension: GlweDimension(1),
        polynomial_size: PolynomialSize(32),
        lwe_noise_distribution: DynamicDistribution::new_gaussian_from_std_dev(StandardDev(0.000000001)),
        glwe_noise_distribution: DynamicDistribution::new_gaussian_from_std_dev(StandardDev(0.000000001)),
        pbs_base_log: DecompositionBaseLog(12),
        pbs_level: DecompositionLevelCount(1),
        ks_base_log: DecompositionBaseLog(12),
        ks_level: DecompositionLevelCount(1),
        encryption_key_choice: EncryptionKeyChoice::Small,
    };
    let client_key = ClientKey::new(&parameters);
    let server_key = ServerKey::new(&client_key);
    (client_key, server_key)
}

fn block(value: u128) -> [u8; 16] {
    value.to_be_bytes()
}

/// A sequence of numbers that looks random and is the same in every run.
fn scramble(seed: &mut u64) -> u64 {
    *seed ^= *seed << 13;
    *seed ^= *seed >> 7;
    *seed ^= *seed << 17;
    *seed
}

fn bits_of(value: u8) -> Vec<bool> {
    (0..8).map(|i| value & (0x80 >> i) != 0).collect()
}

/// The entry of a truth table that an assignment selects: a bit that holds
/// selects the even entry of a pair.
fn table_index(bits: &[bool], width: usize) -> usize {
    (0..width).map(|k| if bits[k] { 0 } else { 1 << k }).sum()
}

fn clear_states(blocks: &[[u8; 16]], server_key: &ServerKey) -> Vec<State> {
    blocks.iter().map(|x| State::from_u8_clear(x, server_key)).collect()
}

fn decrypt_states(states: &[State], client_key: &ClientKey) -> Vec<[u8; 16]> {
    states.iter().map(|x| x.decrypt_to_u8(client_key)).collect()
}

const KEY: u128 = 0x2b7e1516_28aed2a6_abf71588_09cf4f3c;

#[test]
fn decrypting_an_encrypted_block_gives_the_block() {
    let (client_key, server_key) = gen_keys();
    let mut seed = 0x9e3779b97f4a7c15u64;
    for _ in 0..4 {
        let key = ((scramble(&mut seed) as u128) << 64) | scramble(&mut seed) as u128;
        let plain = ((scramble(&mut seed) as u128) << 64) | scramble(&mut seed) as u128;
        let keys = Key::from_u128_clear(key, &server_key).generate_round_keys(&server_key);
        let ecb = ECB::new(&keys);
        let mut state = State::from_u128_clear(plain, &server_key);
        ecb.encrypt(&mut state, &server_key);
        assert_ne!(state.decrypt_to_u128(&client_key), plain);
        ecb.decrypt(&mut state, &server_key);
        assert_eq!(state.decrypt_to_u128(&client_key), plain);
    }
}

#[test]
fn the_cipher_gives_the_blocks_of_the_standard() {
    let (client_key, server_key) = gen_keys();

    let keys = Key::from_u128_clear(KEY, &server_key).generate_round_keys(&server_key);
    let mut state = State::from_u128_clear(0x3243f6a8_885a308d_313198a2_e0370734, &server_key);
    ECB::new(&keys).encrypt(&mut state, &server_key);
    assert_eq!(state.decrypt_to_u128(&client_key), 0x3925841d_02dc09fb_dc118597_196a0b32);

    let keys = Key::from_u128_clear(0x00010203_04050607_08090a0b_0c0d0e0f, &server_key)
        .generate_round_keys(&server_key);
    let mut state = State::from_u128_clear(0x00112233_44556677_8899aabb_ccddeeff, &server_key);
    let ecb = ECB::new(&keys);
    ecb.encrypt(&mut state, &server_key);
    assert_eq!(state.decrypt_to_u128(&client_key), 0x69c4e0d8_6a7b0430_d8cdb780_70b4c55a);
    ecb.decrypt(&mut state, &server_key);
    assert_eq!(state.decrypt_to_u128(&client_key), 0x00112233_44556677_8899aabb_ccddeeff);
}

#[test]
fn the_round_steps_give_the_states_of_the_standard() {
    let (client_key, server_key) = gen_keys();
    let mut state = State::from_u128_clear(0x193de3be_a0f4e22b_9ac68d2a_e9f84808, &server_key);
    state.sub_bytes(&server_key);
    assert_eq!(state.decrypt_to_u128(&client_key), 0xd42711ae_e0bf98f1_b8b45de5_1e415230);
    state.shift_rows();
    assert_eq!(state.decrypt_to_u128(&client_key), 0xd4bf5d30_e0b452ae_b84111f1_1e2798e5);
    state.mix_columns(&server_key);
    assert_eq!(state.decrypt_to_u128(&client_key), 0x046681e5_e0cb199a_48f8d37a_2806264c);
    state.xor_key_clear(&block(0xa0fafe17_88542cb1_23a33939_2a6c7605), &server_key);
    assert_eq!(state.decrypt_to_u128(&client_key), 0xa49c7ff2_689f352b_6b5bea43_026a5049);
    state.xor_key_enc(&Key::from_u128_clear(0xa0fafe17_88542cb1_23a33939_2a6c7605, &server_key), &server_key);
    state.inv_mix_columns(&server_key);
    state.inv_shift_rows();
    state.inv_sub_bytes(&server_key);
    assert_eq!(state.decrypt_to_u128(&client_key), 0x193de3be_a0f4e22b_9ac68d2a_e9f84808);
    let other = State::from_u128_clear(0x193de3be_a0f4e22b_9ac68d2a_e9f84808, &server_key);
    state.xor_state(&other, &server_key);
    assert_eq!(state.decrypt_to_u128(&client_key), 0);
}

#[test]
fn mixing_back_undoes_mixing_on_encrypted_bytes() {
    let (client_key, server_key) = gen_keys();
    let mut seed = 7u64;
    let plain = ((scramble(&mut seed) as u128) << 64) | scramble(&mut seed) as u128;
    let mut state = State::from_u128_enc(plain, &client_key);
    state.mix_columns(&server_key);
    assert_ne!(state.decrypt_to_u128(&client_key), plain);
    state.inv_mix_columns(&server_key);
    assert_eq!(state.decrypt_to_u128(&client_key), plain);
}

#[test]
fn negating_twice_gives_the_expression_back() {
    let mut seed = 11u64;
    for width in 0..=8usize {
        for _ in 0..8 {
            let table: Vec<bool> = (0..1usize << width).map(|_| scramble(&mut seed) & 1 == 1).collect();
            let expr = BooleanExpr::from_truth_table(&table).unwrap();
            assert_eq!(expr.clone().not().not(), expr);
        }
    }
    for expr in generate_reduced_bool_expr(&S_BOX_DATA) {
        assert_eq!(expr.clone().not().not(), expr);
    }
}

#[test]
fn negating_a_xor_of_equal_children_twice_gives_another_xor() {
    let bit = BooleanExpr::Operand(Operand::Bit0);
    let not_bit = BooleanExpr::Operand(Operand::NotBit0);
    let expr = BooleanExpr::Xor(Box::new(bit.clone()), Box::new(bit.clone()));
    assert_eq!(expr.clone().not(), BooleanExpr::Xor(Box::new(bit.clone()), Box::new(not_bit.clone())));
    assert_eq!(
        expr.clone().not().not(),
        BooleanExpr::Xor(Box::new(not_bit.clone()), Box::new(not_bit.clone()))
    );
}

#[test]
fn negation_follows_de_morgan_and_keeps_the_order() {
    let b0 = BooleanExpr::Operand(Operand::Bit0);
    let b1 = BooleanExpr::Operand(Operand::Bit1);
    let n0 = BooleanExpr::Operand(Operand::NotBit0);
    let n1 = BooleanExpr::Operand(Operand::NotBit1);
    let and = BooleanExpr::And(Box::new(b0.clone()), Box::new(b1.clone()));
    let or = BooleanExpr::Or(Box::new(n0.clone()), Box::new(n1.clone()));
    assert_eq!(and.clone().not(), or);
    assert_eq!(or.clone().not(), and);
    let xor = BooleanExpr::Xor(Box::new(b0.clone()), Box::new(b1.clone()));
    assert_eq!(xor.clone().not(), BooleanExpr::Xor(Box::new(n0.clone()), Box::new(b1.clone())));
    let mux = BooleanExpr::Mux(Operand::Bit2, Box::new(b0.clone()), Box::new(and.clone()));
    assert_eq!(mux.clone().not(), BooleanExpr::Mux(Operand::Bit2, Box::new(n0.clone()), Box::new(or.clone())));
    assert!(b0.less_than(&n0) && n0.less_than(&b1) && b1.less_than(&and) && and.less_than(&or));
    assert!(or.less_than(&xor) && xor.less_than(&mux) && !mux.less_than(&mux) && mux.same(&mux.clone()));
    assert!(b0 < n0 && n0 < b1 && b1 < and && and < or && or < xor && xor < mux);
    assert_eq!(!and.clone(), or);
    assert_eq!(!Operand::Bit6, Operand::NotBit6);
    assert_eq!(Operand::True.not(), Operand::False);
    assert_eq!(Operand::NotBit7.not(), Operand::Bit7);
    assert_eq!(Operand::from(true), Operand::True);
    assert_eq!(BooleanExpr::from(false), BooleanExpr::Operand(Operand::False));
    assert_eq!(Operand::Bit3.index(), 8);
    assert_eq!(Operand::bit(5), Operand::Bit5);
}

#[test]
fn the_multiplexer_reduces_as_the_table_says() {
    let s = Operand::Bit3;
    let t = BooleanExpr::Operand(Operand::True);
    let f = BooleanExpr::Operand(Operand::False);
    let x = BooleanExpr::And(
        Box::new(BooleanExpr::Operand(Operand::Bit0)),
        Box::new(BooleanExpr::Operand(Operand::Bit1)),
    );
    let y = BooleanExpr::Operand(Operand::Bit2);
    let ps = BooleanExpr::Operand(Operand::Bit3);
    let ns = BooleanExpr::Operand(Operand::NotBit3);
    assert_eq!(BooleanExpr::mux(&s, &t, &t), t);
    assert_eq!(BooleanExpr::mux(&s, &t, &f), ps);
    assert_eq!(BooleanExpr::mux(&s, &f, &t), ns);
    assert_eq!(BooleanExpr::mux(&s, &f, &f), f);
    assert_eq!(BooleanExpr::mux(&s, &t, &x), BooleanExpr::Or(Box::new(ps.clone()), Box::new(x.clone())));
    assert_eq!(BooleanExpr::mux(&s, &f, &x), BooleanExpr::And(Box::new(ns.clone()), Box::new(x.clone())));
    assert_eq!(BooleanExpr::mux(&s, &x, &t), BooleanExpr::Or(Box::new(ns.clone()), Box::new(x.clone())));
    assert_eq!(BooleanExpr::mux(&s, &x, &f), BooleanExpr::And(Box::new(ps.clone()), Box::new(x.clone())));
    assert_eq!(BooleanExpr::mux(&s, &x, &x), x);
    assert_eq!(
        BooleanExpr::mux(&s, &x, &x.clone().not()),
        BooleanExpr::Xor(Box::new(ns.clone()), Box::new(x.clone()))
    );
    assert_eq!(BooleanExpr::mux(&s, &x, &y), BooleanExpr::Mux(s, Box::new(x.clone()), Box::new(y.clone())));
}

#[test]
fn a_compiled_table_has_the_value_of_its_entry_at_every_assignment() {
    let mut seed = 3u64;
    for width in 0..=8usize {
        for _ in 0..4 {
            let table: Vec<bool> = (0..1usize << width).map(|_| scramble(&mut seed) & 1 == 1).collect();
            let expr = BooleanExpr::from_truth_table(&table).unwrap();
            assert_eq!(expr, BooleanExpr::reduce_mux(&BooleanExpr::from_bool_vec(&table)));
            assert!(expr.stage() as usize <= width);
            for assignment in 0..=255u8 {
                let bits = bits_of(assignment);
                assert_eq!(expr.evaluate_clear(&bits), table[table_index(&bits, width)]);
            }
        }
    }
}

#[test]
fn the_staged_evaluation_decrypts_to_the_clear_value() {
    let (client_key, server_key) = gen_keys();
    let mut seed = 5u64;
    let mut roots = vec![];
    for width in [0usize, 1, 3, 5, 8] {
        let table: Vec<bool> = (0..1usize << width).map(|_| scramble(&mut seed) & 1 == 1).collect();
        roots.push(BooleanExpr::from_truth_table(&table).unwrap());
    }
    let evaluator = StagedEvaluator::new(roots.clone());
    assert_eq!(evaluator.roots(), &roots);
    for assignment in [0x00u8, 0xff, 0x5a, 0x81, 0x3c] {
        let bits = bits_of(assignment);
        let encrypted: Vec<_> = bits.iter().map(|&b| client_key.encrypt(b)).collect();
        let trivial: Vec<_> = bits.iter().map(|&b| server_key.trivial_encrypt(b)).collect();
        let from_encrypted = evaluator.evaluate(&encrypted, &server_key);
        let from_trivial = evaluator.evaluate(&trivial, &server_key);
        assert_eq!(from_encrypted.len(), roots.len());
        for (i, root) in roots.iter().enumerate() {
            let expected = root.evaluate_clear(&bits);
            assert_eq!(client_key.decrypt(&from_encrypted[i]), expected);
            assert_eq!(client_key.decrypt(&from_trivial[i]), expected);
        }
    }
}

#[test]
fn the_empty_table_gives_true_and_other_lengths_are_rejected() {
    assert_eq!(BooleanExpr::from_truth_table(&[]), Ok(BooleanExpr::Operand(Operand::True)));
    assert_eq!(BooleanExpr::reduce_mux(&vec![]), BooleanExpr::Operand(Operand::True));
    assert_eq!(BooleanExpr::from_truth_table(&[true, false, true]), Err(InvalidTable { len: 3 }));
    assert_eq!(BooleanExpr::from_truth_table(&vec![true; 6]), Err(InvalidTable { len: 6 }));
    assert_eq!(BooleanExpr::from_truth_table(&vec![false; 512]), Err(InvalidTable { len: 512 }));
    assert!(BooleanExpr::from_truth_table(&vec![false; 256]).is_ok());
}

#[test]
fn the_s_boxes_undo_each_other_on_every_byte() {
    let (client_key, server_key) = gen_keys();
    let tables = SBoxTables::new();
    for value in 0..=255u8 {
        let byte = FHEByte::from_u8_clear(&value, &server_key);
        let there = byte.sub_byte_with(&tables, &server_key);
        assert_eq!(there.decrypt_to_u8(&client_key), S_BOX_DATA[value as usize]);
        assert_eq!(there.inv_sub_byte_with(&tables, &server_key).decrypt_to_u8(&client_key), value);
        let back = byte.inv_sub_byte_with(&tables, &server_key);
        assert_eq!(back.decrypt_to_u8(&client_key), INV_S_BOX_DATA[value as usize]);
        assert_eq!(back.sub_byte_with(&tables, &server_key).decrypt_to_u8(&client_key), value);
    }
    let byte = FHEByte::from_u8_enc(&0x7c, &client_key);
    assert_eq!(byte.inv_sub_byte(&server_key).decrypt_to_u8(&client_key), 0x01);
}

#[test]
fn the_product_by_x_is_a_shift_and_a_conditional_sum() {
    let (client_key, server_key) = gen_keys();
    for value in 0..=255u8 {
        let expected = (value << 1) ^ if value & 0x80 != 0 { 0x1b } else { 0 };
        let mut byte = FHEByte::trivial_clear(value, &server_key);
        assert_eq!(byte.mul_x_gf2(&server_key).decrypt_to_u8(&client_key), expected);
        byte.mul_x_gf2_in_place(&server_key);
        assert_eq!(byte.decrypt_to_u8(&client_key), expected);
    }
    assert_eq!(FHEByte::trivial_clear(0x80, &server_key).mul_x_gf2(&server_key).decrypt_to_u8(&client_key), 0x1b);
    assert_eq!(FHEByte::trivial_clear(0x57, &server_key).mul_x_gf2(&server_key).decrypt_to_u8(&client_key), 0xae);
}

#[test]
fn the_nodes_of_the_s_boxes_at_each_depth_are_pinned() {
    let forward = StagedEvaluator::new(generate_reduced_bool_expr(&S_BOX_DATA));
    assert_eq!(forward.stage_sizes(), vec![6, 34, 151, 121, 64, 32, 16, 8]);
    let again = StagedEvaluator::new(generate_reduced_bool_expr(&S_BOX_DATA));
    assert_eq!(again.stage_sizes(), forward.stage_sizes());
    let inverse = StagedEvaluator::new(generate_reduced_bool_expr(&INV_S_BOX_DATA));
    assert_eq!(inverse.stage_sizes(), vec![6, 32, 136, 125, 64, 32, 16, 8]);

    let mut set = ExprSet::new();
    for root in generate_reduced_bool_expr(&S_BOX_DATA).iter() {
        assert_eq!(root.stage(), 7);
        root.to_hashset(&mut set);
    }
    assert_eq!(set.len(), 432);
    for i in 1..set.len() {
        let (a, b) = (set.get(i - 1), set.get(i));
        assert_eq!(a.less_than(b), a < b);
        assert_eq!(b.less_than(a), b < a);
        assert_eq!(a.same(b), a == b);
    }
    assert!(set.contains(&BooleanExpr::Operand(Operand::Bit0)));
    assert!(!set.insert(BooleanExpr::Operand(Operand::Bit0)));
    assert_eq!(set.len(), 432);
    assert_eq!(StagedEvaluator::new(vec![]).stage_sizes(), Vec::<usize>::new());
}

#[test]
fn the_gates_act_on_every_bit_of_a_byte() {
    let (client_key, server_key) = gen_keys();
    for (a, b) in [(0x00u8, 0xffu8), (0xa5, 0x3c), (0x0f, 0x55), (0xff, 0xff)] {
        let x = FHEByte::from_u8_enc(&a, &client_key);
        let y = FHEByte::from_u8_clear(&b, &server_key);
        assert_eq!(x.xor(&y, &server_key).decrypt_to_u8(&client_key), a ^ b);
        assert_eq!(x.and(&y, &server_key).decrypt_to_u8(&client_key), a & b);
        assert_eq!(x.or(&y, &server_key).decrypt_to_u8(&client_key), a | b);
        assert_eq!(x.not(&server_key).decrypt_to_u8(&client_key), !a);
        let mut z = x.clone();
        z.or_in_place(&x.not(&server_key), &server_key);
        assert_eq!(z.decrypt_to_u8(&client_key), 0xff);
        z.not_in_place(&server_key);
        assert_eq!(z.decrypt_to_u8(&client_key), 0x00);
        assert_eq!(x.decrypt(&client_key), bits_of(a));
    }
    assert_eq!(FHEByte::trivial_false(&server_key).decrypt_to_u8(&client_key), 0);
}

#[test]
fn shifts_fill_with_zeros_and_rotations_keep_every_bit() {
    let (client_key, server_key) = gen_keys();
    for value in [0xb5u8, 0x01, 0x80, 0xff] {
        let byte = FHEByte::from_u8_enc(&value, &client_key);
        for shift in 0..=10usize {
            let left = if shift >= 8 { 0 } else { value << shift };
            let right = if shift >= 8 { 0 } else { value >> shift };
            assert_eq!(byte.shift_left(shift, &server_key).decrypt_to_u8(&client_key), left);
            assert_eq!(byte.shift_right(shift, &server_key).decrypt_to_u8(&client_key), right);
        }
        for shift in 0..=8usize {
            assert_eq!(byte.rotate_left(shift).decrypt_to_u8(&client_key), value.rotate_left(shift as u32));
            assert_eq!(byte.rotate_right(shift).decrypt_to_u8(&client_key), value.rotate_right(shift as u32));
        }
        let mut moved = byte.clone();
        moved.rotate_left_in_place(3);
        moved.rotate_right_in_place(3);
        assert_eq!(moved.decrypt_to_u8(&client_key), value);
        moved.shift_left_in_place(8, &server_key);
        assert_eq!(moved.decrypt_to_u8(&client_key), 0);
    }
}

#[test]
fn the_key_schedule_gives_the_round_keys_of_the_standard() {
    let round_keys = key_expansion_clear(&block(KEY));
    assert_eq!(round_keys[0], block(KEY));
    assert_eq!(round_keys[1], block(0xa0fafe17_88542cb1_23a33939_2a6c7605));
    assert_eq!(round_keys[2], block(0xf2c295f2_7a96b943_5935807a_7359f67f));
    assert_eq!(round_keys[10], block(0xd014f9a8_c9ee2589_e13f0cc8_b6630ca6));
}

#[test]
fn the_clear_and_the_encrypted_key_schedule_agree() {
    let (client_key, server_key) = gen_keys();
    let clear = key_expansion_clear(&block(KEY));

    let encrypted = Key::from_u128_enc(KEY, &client_key).generate_round_keys(&server_key);
    assert_eq!(encrypted.len(), 11);
    let offline = key_expansion(&block(KEY), true, &server_key, &client_key);
    let online = key_expansion(&block(KEY), false, &server_key, &client_key);
    for round in 0..11 {
        assert_eq!(encrypted[round].decrypt_to_u8(&client_key), clear[round]);
        assert_eq!(offline[round].decrypt_to_u8(&client_key), clear[round]);
        assert_eq!(online[round].decrypt_to_u8(&client_key), clear[round]);
    }

    let mut next = Key::from_u8_clear(&block(KEY), &server_key);
    next.generate_next_key_in_place(&0x01, &server_key);
    assert_eq!(next.decrypt_to_u8(&client_key), clear[1]);
}

#[test]
fn chaining_gives_the_blocks_of_the_clear_modes_and_comes_back() {
    let (client_key, server_key) = gen_keys();
    let key = block(KEY);
    let iv = block(0x00010203_04050607_08090a0b_0c0d0e0f);
    let blocks = vec![
        block(0x6bc1bee2_2e409f96_e93d7e11_7393172a),
        block(0xae2d8a57_1e03ac9c_9eb76fac_45af8e51),
        block(0x30c81c46_a35ce411_e5fbc119_1a0a52ef),
    ];
    let keys = Key::from_u8_clear(&key, &server_key).generate_round_keys(&server_key);
    let cbc = CBC::new(&keys, &State::from_u8_clear(&iv, &server_key), 3);
    let mut states = clear_states(&blocks, &server_key);
    cbc.encrypt(&mut states, &server_key);
    let expected = cbc_encrypt_clear(&blocks, &key, &iv);
    assert_eq!(expected[0], block(0x7649abac_8119b246_cee98e9b_12e9197d));
    assert_eq!(expected[1], block(0x5086cb9b_507219ee_95db113a_917678b2));
    assert_eq!(decrypt_states(&states, &client_key), expected);
    cbc.decrypt(&mut states, &server_key);
    assert_eq!(decrypt_states(&states, &client_key), blocks);

    let first_only = CBC::new(&keys, &State::from_u8_clear(&iv, &server_key), 0);
    first_only.encrypt(&mut states, &server_key);
    let mixed = decrypt_states(&states, &client_key);
    assert_eq!(mixed[0], expected[0]);
    assert_eq!(mixed[1], blocks[1]);
    assert_eq!(mixed[2], blocks[2]);
}

#[test]
fn output_feedback_gives_the_blocks_of_the_clear_mode_and_comes_back() {
    let (client_key, server_key) = gen_keys();
    let key = block(KEY);
    let iv = block(0x00010203_04050607_08090a0b_0c0d0e0f);
    let blocks =
        vec![block(0x6bc1bee2_2e409f96_e93d7e11_7393172a), block(0xae2d8a57_1e03ac9c_9eb76fac_45af8e51)];
    let keys = Key::from_u8_clear(&key, &server_key).generate_round_keys(&server_key);
    let ofb = OFB::new(&keys, &State::from_u8_clear(&iv, &server_key), 2);
    let mut states = clear_states(&blocks, &server_key);
    ofb.encrypt(&mut states, &server_key);
    let expected = ofb_encrypt_clear(&blocks, &key, &iv);
    assert_eq!(expected[0], block(0x3b3fd92e_b72dad20_333449f8_e83cfb4a));
    assert_eq!(expected[1], block(0x7789508d_16918f03_f53c52da_c54ed825));
    assert_eq!(decrypt_states(&states, &client_key), expected);
    ofb.decrypt(&mut states, &server_key);
    assert_eq!(decrypt_states(&states, &client_key), blocks);

    let one = OFB::new(&keys, &State::from_u8_clear(&iv, &server_key), 1);
    one.encrypt(&mut states, &server_key);
    let mixed = decrypt_states(&states, &client_key);
    assert_eq!(mixed[0], expected[0]);
    assert_eq!(mixed[1], blocks[1]);
}

#[test]
fn counter_mode_gives_the_blocks_of_the_clear_mode_and_comes_back() {
    let (client_key, server_key) = gen_keys();
    let key = block(KEY);
    let counters =
        vec![block(0xf0f1f2f3_f4f5f6f7_f8f9fafb_fcfdfeff), block(0xf0f1f2f3_f4f5f6f7_f8f9fafb_fcfdff00)];
    let blocks = vec![
        block(0x6bc1bee2_2e409f96_e93d7e11_7393172a),
        block(0xae2d8a57_1e03ac9c_9eb76fac_45af8e51),
        block(0x30c81c46_a35ce411_e5fbc119_1a0a52ef),
    ];
    let keys = Key::from_u8_clear(&key, &server_key).generate_round_keys(&server_key);
    let ctr = CTR::new(&keys, &clear_states(&counters, &server_key), 2);
    let mut states = clear_states(&blocks, &server_key);
    ctr.encrypt(&mut states, &server_key);
    let expected = ctr_encrypt_clear(&blocks, &key, &counters);
    assert_eq!(expected.len(), 2);
    assert_eq!(expected[0], block(0x874d6191_b620e326_1bef6864_990db6ce));
    assert_eq!(expected[1], block(0x9806f66b_7970fdff_8617187b_b9fffdff));
    let encrypted = decrypt_states(&states, &client_key);
    assert_eq!(encrypted[0], expected[0]);
    assert_eq!(encrypted[1], expected[1]);
    assert_eq!(encrypted[2], blocks[2]);
    ctr.decrypt(&mut states, &server_key);
    assert_eq!(decrypt_states(&states, &client_key), blocks);
}

#[test]
fn counter_mode_on_the_counters_zero_and_one_recovers_the_plaintexts() {
    let (client_key, server_key) = gen_keys();
    let keys = Key::from_u128_clear(KEY, &server_key).generate_round_keys(&server_key);
    let counters = vec![
        State::from_u128_clear(0x3243f6a8_885a308d_00000000_00000000, &server_key),
        State::from_u128_clear(0x3243f6a8_885a308d_00000000_00000001, &server_key),
    ];
    let ctr = CTR::new(&keys, &counters, 2);
    let mut states = vec![
        State::from_u128_clear(0x3243f6a8_885a308d_313198a2_e0370734, &server_key),
        State::from_u128_clear(0x3243f6a8_885a308d_313198a2_e0372324, &server_key),
    ];
    ctr.encrypt(&mut states, &server_key);
    assert_eq!(states[0].decrypt_to_u128(&client_key), 0xfaea2fea_65af03ce_f572d252_55a8bb4d);
    assert_eq!(states[1].decrypt_to_u128(&client_key), 0x5fd86e7b_d487cb5a_b32c231c_435ad2a4);
    ctr.decrypt(&mut states, &server_key);
    assert_eq!(states[0].decrypt_to_u128(&client_key), 0x3243f6a8_885a308d_313198a2_e0370734);
    assert_eq!(states[1].decrypt_to_u128(&client_key), 0x3243f6a8_885a308d_313198a2_e0372324);
}

#[test]
fn blocks_and_keys_keep_their_bytes_through_encryption() {
    let (client_key, server_key) = gen_keys();
    let bytes = block(0x00112233_44556677_8899aabb_ccddeeff);
    assert_eq!(State::from_u8_enc(&bytes, &client_key).decrypt_to_u8(&client_key), bytes);
    assert_eq!(State::from_u8_clear(&bytes, &server_key).decrypt_to_u8(&client_key), bytes);
    assert_eq!(Key::from_u8_clear(&bytes, &server_key).decrypt_to_u8(&client_key), bytes);
    assert_eq!(Key::from_u128_clear(1, &server_key).decrypt_to_u8(&client_key), block(1));
    assert_eq!(State::from_u128_enc(u128::MAX, &client_key).decrypt_to_u128(&client_key), u128::MAX);
    assert_eq!(State::from_u128_clear(0, &server_key).decrypt_to_u128(&client_key), 0);
}

#[test]
fn a_trial_of_the_codebook_passes_on_encrypted_blocks() {
    let (client_key, server_key) = gen_keys();
    let blocks = vec![block(0x6bc1bee2_2e409f96_e93d7e11_7393172a)];
    let trial = test_ecb(&block(KEY), &blocks, true, &server_key, &client_key);
    assert_eq!(trial.encrypted, vec![block(0x3ad77bb4_0d7a3660_a89ecaf3_2466ef97)]);
    assert_eq!(trial.expected, trial.encrypted);
    assert_eq!(trial.decrypted, blocks);
    assert!(trial.passed(&blocks));
}

#[test]
fn a_trial_of_output_feedback_passes_on_encrypted_blocks() {
    let (client_key, server_key) = gen_keys();
    let iv = block(0x00010203_04050607_08090a0b_0c0d0e0f);
    let blocks = vec![block(0x6bc1bee2_2e409f96_e93d7e11_7393172a)];
    let trial = test_ofb(&block(KEY), &iv, &blocks, true, 1, &server_key, &client_key);
    assert_eq!(trial.encrypted, vec![block(0x3b3fd92e_b72dad20_333449f8_e83cfb4a)]);
    assert!(trial.passed(&blocks));
}

#[test]
fn a_trial_of_chaining_passes_on_encrypted_blocks() {
    let (client_key, server_key) = gen_keys();
    let iv = block(0x00010203_04050607_08090a0b_0c0d0e0f);
    let blocks = vec![block(0x6bc1bee2_2e409f96_e93d7e11_7393172a)];
    let trial = test_cbc(&block(KEY), &iv, &blocks, false, 1, &server_key, &client_key);
    assert_eq!(trial.encrypted, vec![block(0x7649abac_8119b246_cee98e9b_12e9197d)]);
    assert!(trial.passed(&blocks));
}

#[test]
fn a_trial_of_counting_passes_on_encrypted_blocks() {
    let (client_key, server_key) = gen_keys();
    let blocks = vec![block(0x6bc1bee2_2e409f96_e93d7e11_7393172a)];
    let counters = vec![block(0xf0f1f2f3_f4f5f6f7_f8f9fafb_fcfdfeff)];
    let trial = test_ctr(&block(KEY), &counters, &blocks, true, 1, &server_key, &client_key);
    assert_eq!(trial.encrypted, vec![block(0x874d6191_b620e326_1bef6864_990db6ce)]);
    assert!(trial.passed(&blocks));
}

#[test]
fn a_trial_fails_where_the_blocks_differ() {
    let a = block(1);
    let b = block(2);
    assert!(same_blocks(&vec![a, b], &[a, b]));
    assert!(!same_blocks(&vec![a, b], &[a, a]));
    assert!(!same_blocks(&vec![a], &[a, b]));
    assert!(same_blocks(&vec![], &[]));
    let trial = Trial { encrypted: vec![a], expected: vec![a], decrypted: vec![b] };
    assert!(trial.passed(&[b]));
    assert!(!trial.passed(&[a]));
    let trial = Trial { encrypted: vec![a], expected: vec![b], decrypted: vec![b] };
    assert!(!trial.passed(&[b]));
}

#[test]
fn rows_of_blocks_keep_their_bytes_through_encryption() {
    let (client_key, _) = gen_keys();
    let blocks = vec![block(1), block(u128::MAX), block(0x00112233_44556677_8899aabb_ccddeeff)];
    let states = encrypt_blocks(&blocks, &client_key);
    assert_eq!(states.len(), 3);
    assert_eq!(decrypt_blocks(&states, &client_key), blocks);
}

#[test]
fn no_trial_is_run_without_a_block_to_chain_or_with_too_many() {
    let key = block(KEY);
    let iv = block(0);
    assert!(run(Mode::CBC, &key, &iv, &[], true).is_none());
    let many = vec![block(0); 256];
    assert!(run(Mode::ECB, &key, &iv, &many, true).is_none());
    assert!(run(Mode::CTR, &key, &iv, &many, false).is_none());
}

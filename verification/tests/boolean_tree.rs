use rayon::iter::{IntoParallelIterator, ParallelIterator};
use std::time::{Duration, Instant};
use tfhe::boolean::prelude::{
    BooleanParameters, Ciphertext, ClientKey, DecompositionBaseLog, DecompositionLevelCount, DynamicDistribution,
    EncryptionKeyChoice, GlweDimension, LweDimension, PolynomialSize, ServerKey, StandardDev,
};
use tfhe_aes::boolean_tree::{BooleanExpr, Operand};
use tfhe_aes::evaluator::{ExprMap, OperandMap, Runnable};

/// A key pair of a small parameter set. The default parameters of `tfhe` need
/// more time for one gate than a test has for a whole circuit; a set with a
/// short key and little noise runs the same gates on the same code.
fn gen_keys() -> (ClientKey, ServerKey) {
    let parameters = BooleanParameters {
        lwe_dimension: LweDimension(1),
        glwe_dimension: GlweDimension(1),
        polynomial_size: PolynomialSize(32),
        lwe_noise_distribution: DynamicDistribution::new_gaussian_from_std_dev(StandardDev(0.000000001)),
        glwe_noise_distribution: DynamicDistribution::new_gaussian_from_std_dev(StandardDev(0.000000001)),
        pbs_base_log: DecompositionBaseLog(12),
        pbs_level: DecompositionLevelCount(1),
        ks_base_log: DecompositionBaseLog(12),
        ks_level: DecompositionLevelCount(1),
        encryption_key_choice: EncryptionKeyChoice::Small,
    };
    let client_key = ClientKey::new(&parameters);
    let server_key = ServerKey::new(&client_key);
    (client_key, server_key)
}

fn bool_to_ciphertext(booleans: &[bool], client_key: &ClientKey) -> Vec<Ciphertext> {
    booleans.iter().map(|&x| client_key.encrypt(x)).collect()
}

fn u128_to_bool(mut x: u128, bits: usize) -> Vec<bool> {
    let mut res = vec![];
    for _ in 0..bits {
        res.push(x & 1 != 0);
        x >>= 1;
    }

    res
}

fn u256_to_bool(x: u128, y: u128, bits: usize) -> Vec<bool> {
    let mut first_half = u128_to_bool(x, bits / 2);
    let second_half = u128_to_bool(y, bits / 2);

    first_half.extend(second_half);

    first_half
}

fn generate_bits(count: u32) -> Vec<Box<Vec<bool>>> {
    let mut res = vec![];
    let base: u128 = 2;
    for x in 0..base.pow(count) {
        let intermediate_res = u128_to_bool(x, count as usize);
        res.push(Box::new(intermediate_res));
    }
    res
}

fn mux(mux: bool, left: bool, right: bool) -> bool {
    if mux {
        left
    } else {
        right
    }
}

fn clear_mux_eval(bool_bits: &[bool], truth_table: &[bool]) -> bool {
    assert!(truth_table.len() & (truth_table.len() - 1) == 0, "Input was not a power of 2!");

    if truth_table.len() == 0 {
        return true;
    }

    if truth_table.len() == 1 {
        return truth_table[0];
    }

    let size_log_2: usize = (usize::BITS as i32 - (truth_table.len().leading_zeros() as i32)) as usize;

    let result = bool_bits[..size_log_2 - 1].iter().fold(truth_table.to_vec(), |acc, &operand| {
        acc.chunks(2).map(|x| mux(operand, x[0], x[1])).collect::<Vec<_>>()
    });

    assert!(result.len() == 1, "Something went wrong with the fold");

    result[0]
}

#[test]
fn test_mux_true_1() {
    let expr = BooleanExpr::from_bool_vec(&vec![true]);
    let result = BooleanExpr::reduce_mux(&expr);
    assert_eq!(result, BooleanExpr::Operand(Operand::True));
}

#[test]
fn test_mux_true_2() {
    let expr = BooleanExpr::from_bool_vec(&vec![true, true]);
    let result = BooleanExpr::reduce_mux(&expr);
    assert_eq!(result, BooleanExpr::Operand(Operand::True));
}

#[test]
fn test_mux_true_4() {
    let expr = BooleanExpr::from_bool_vec(&vec![true, true, true, true]);
    let result = BooleanExpr::reduce_mux(&expr);
    assert_eq!(result, BooleanExpr::Operand(Operand::True));
}

#[test]
fn test_mux_true_false() {
    let expr = BooleanExpr::from_bool_vec(&vec![true, false]);
    let result = BooleanExpr::reduce_mux(&expr);
    assert_eq!(result, BooleanExpr::Operand(Operand::Bit0));
}

#[test]
fn test_mux_true_false_true_false() {
    let expr = BooleanExpr::from_bool_vec(&vec![true, false, true, false]);
    let result = BooleanExpr::reduce_mux(&expr);
    assert_eq!(result, BooleanExpr::Operand(Operand::Bit0));
}

#[test]
fn test_mux_true_false_false_false() {
    let expr = BooleanExpr::from_bool_vec(&vec![true, false, false, false]);
    let result = BooleanExpr::reduce_mux(&expr);
    assert_eq!(
        result,
        BooleanExpr::And(
            Box::new(BooleanExpr::Operand(Operand::Bit0)),
            Box::new(BooleanExpr::Operand(Operand::Bit1))
        )
    );
}

#[test]
fn test_evaluate_true() {
    let (client_key, server_key) = gen_keys();
    let bits = bool_to_ciphertext(&vec![true, true, true, true, true, true, true, true], &client_key);

    let expr = BooleanExpr::from_bool_vec(&vec![true]);
    let result_expr = BooleanExpr::reduce_mux(&expr);
    let enc_result = result_expr.evaluate(&bits, &server_key, &mut ExprMap::new());

    assert_eq!(client_key.decrypt(&enc_result), true);
}

#[test]
fn test_evaluate_false() {
    let (client_key, server_key) = gen_keys();
    let bits = bool_to_ciphertext(&vec![true, true, true, true, true, true, true, true], &client_key);

    let expr = BooleanExpr::from_bool_vec(&vec![false]);
    let result_expr = BooleanExpr::reduce_mux(&expr);
    let enc_result = result_expr.evaluate(&bits, &server_key, &mut ExprMap::new());

    assert_eq!(client_key.decrypt(&enc_result), false);
}

#[test]
fn test_evaluate_level_0_true_false() {
    let (client_key, server_key) = gen_keys();
    let expr = BooleanExpr::from_bool_vec(&vec![true, false]);
    let result_expr = BooleanExpr::reduce_mux(&expr);

    for bool_bits in generate_bits(8).into_iter() {
        let bits = bool_to_ciphertext(&bool_bits, &client_key);
        let enc_result = result_expr.evaluate(&bits, &server_key, &mut ExprMap::new());
        assert_eq!(client_key.decrypt(&enc_result), bool_bits[0]);
    }
}

#[test]
fn test_evaluate_level_0_false_true() {
    let (client_key, server_key) = gen_keys();
    let expr = BooleanExpr::from_bool_vec(&vec![false, true]);
    let result_expr = BooleanExpr::reduce_mux(&expr);

    for bool_bits in generate_bits(8).into_iter() {
        let bits = bool_to_ciphertext(&bool_bits, &client_key);
        let enc_result = result_expr.evaluate(&bits, &server_key, &mut ExprMap::new());
        assert_eq!(client_key.decrypt(&enc_result), !bool_bits[0]);
    }
}

#[test]
fn test_evaluate_level_0_true_true() {
    let (client_key, server_key) = gen_keys();
    let expr = BooleanExpr::from_bool_vec(&vec![true, true]);
    let result_expr = BooleanExpr::reduce_mux(&expr);

    for bool_bits in generate_bits(8).into_iter() {
        let bits = bool_to_ciphertext(&bool_bits, &client_key);
        let enc_result = result_expr.evaluate(&bits, &server_key, &mut ExprMap::new());
        assert_eq!(client_key.decrypt(&enc_result), true);
    }
}

#[test]
fn test_evaluate_level_0_false_false() {
    let (client_key, server_key) = gen_keys();
    let truth_table = vec![false, false];
    let expr = BooleanExpr::from_bool_vec(&truth_table);
    let result_expr = BooleanExpr::reduce_mux(&expr);

    for bool_bits in generate_bits(8).into_iter() {
        let bits = bool_to_ciphertext(&bool_bits, &client_key);
        let enc_result = result_expr.evaluate(&bits, &server_key, &mut ExprMap::new());

        let clear_result = clear_mux_eval(&bool_bits, &truth_table);
        assert_eq!(client_key.decrypt(&enc_result), clear_result);
    }
}

#[test]
fn test_evaluate_level_0() {
    let (client_key, server_key) = gen_keys();

    for truth_table in generate_bits(2) {
        let expr = BooleanExpr::from_bool_vec(&truth_table);
        let result_expr = BooleanExpr::reduce_mux(&expr);

        for bool_bits in generate_bits(8).into_iter() {
            let bits = bool_to_ciphertext(&bool_bits, &client_key);
            let enc_result = result_expr.evaluate(&bits, &server_key, &mut ExprMap::new());

            let clear_result = clear_mux_eval(&bool_bits, &truth_table);
            assert_eq!(
                client_key.decrypt(&enc_result),
                clear_result,
                "BITS: {:?}, TRUTH_TABLE: {:?}",
                bool_bits,
                truth_table
            );
        }
    }
}

#[test]
fn test_evaluate_level_1() {
    let (client_key, server_key) = gen_keys();

    for truth_table in generate_bits(4) {
        let expr = BooleanExpr::from_bool_vec(&truth_table);
        let result_expr = BooleanExpr::reduce_mux(&expr);

        for bool_bits in generate_bits(8).into_iter() {
            let bits = bool_to_ciphertext(&bool_bits, &client_key);
            let enc_result = result_expr.evaluate(&bits, &server_key, &mut ExprMap::new());

            let clear_result = clear_mux_eval(&bool_bits, &truth_table);
            assert_eq!(
                client_key.decrypt(&enc_result),
                clear_result,
                "BITS: {:?}, TRUTH_TABLE: {:?}",
                bool_bits,
                truth_table
            );
        }
    }
}

#[test]
fn test_evaluate_level_2() {
    let (client_key, server_key) = gen_keys();
    let truth_tables = vec![Box::new(vec![true, false, true, true, false, false, false, true])];
    for truth_table in truth_tables {
        let expr = BooleanExpr::from_bool_vec(&truth_table);
        let result_expr = BooleanExpr::reduce_mux(&expr);

        for bool_bits in generate_bits(8)[128..].into_iter() {
            let bits = bool_to_ciphertext(&bool_bits, &client_key);
            let enc_result = result_expr.evaluate(&bits, &server_key, &mut ExprMap::new());

            let clear_result = clear_mux_eval(&bool_bits, &truth_table);
            assert_eq!(
                client_key.decrypt(&enc_result),
                clear_result,
                "BITS: {:?}, TRUTH_TABLE: {:?}",
                bool_bits,
                truth_table
            );
        }
    }
}

#[test]
fn test_evaluate_level_5() {
    let (client_key, server_key) = gen_keys();
    let truth_tables = vec![u128_to_bool(23456789 as u128, 64 as usize)];
    for truth_table in truth_tables {
        let expr = BooleanExpr::from_bool_vec(&truth_table);
        let result_expr = BooleanExpr::reduce_mux(&expr);

        for bool_bits in generate_bits(8)[..1].into_iter() {
            let bits = bool_to_ciphertext(&bool_bits, &client_key);
            let enc_result = result_expr.evaluate(&bits, &server_key, &mut ExprMap::new());

            let clear_result = clear_mux_eval(&bool_bits, &truth_table);
            assert_eq!(
                client_key.decrypt(&enc_result),
                clear_result,
                "BITS: {:?}, TRUTH_TABLE: {:?}",
                bool_bits,
                truth_table
            );
        }
    }
}

#[test]
fn test_evaluate_level_7() {
    let (client_key, server_key) = gen_keys();
    let truth_tables = vec![u256_to_bool(23456789 as u128, 234567 as u128, 256 as usize)];
    for truth_table in truth_tables {
        let expr = BooleanExpr::from_bool_vec(&truth_table);
        let result_expr = BooleanExpr::reduce_mux(&expr);

        let mut total = Duration::new(0, 0);
        for bool_bits in generate_bits(8)[0..100].into_iter() {
            let bits = bool_to_ciphertext(&bool_bits, &client_key);
            let start = Instant::now();
            let enc_result = result_expr.evaluate(&bits, &server_key, &mut ExprMap::new());
            total += start.elapsed();

            let clear_result = clear_mux_eval(&bool_bits, &truth_table);
            assert_eq!(
                client_key.decrypt(&enc_result),
                clear_result,
                "BITS: {:?}, TRUTH_TABLE: {:?}",
                bool_bits,
                truth_table
            );
        }

        println!("TIME TAKEN: {:?}", total / 100);
    }
}

fn run_stage(
    stage: Vec<BooleanExpr>,
    operands: &OperandMap,
    hash_map: &ExprMap,
    server_key: &ServerKey,
) -> ExprMap {
    let results = stage
        .into_iter()
        .map(|expr| (expr.clone(), Runnable::new(operands, hash_map, expr)))
        .collect::<Vec<_>>()
        .into_par_iter()
        .map_with(server_key, |server_key, (expr, runnable)| (expr, runnable.run(server_key)))
        .collect::<Vec<_>>();
    let mut next = ExprMap::new();
    for (expr, value) in results {
        next.insert(expr, value);
    }
    next
}

#[test]
fn test_evaluate_stage() {
    let num_threads = rayon::current_num_threads();
    println!("Rayon is using {} threads", num_threads);
    let (client_key, server_key) = gen_keys();
    let mut operands = OperandMap::new();

    let bit0 = client_key.encrypt(true);
    let bit1 = client_key.encrypt(false);
    let bit2 = client_key.encrypt(true);
    let bit3 = client_key.encrypt(false);

    operands.insert(Operand::Bit0, bit0.clone());
    operands.insert(Operand::Bit1, bit1.clone());
    operands.insert(Operand::Bit2, bit2.clone());
    operands.insert(Operand::Bit3, bit3.clone());

    let expr1 = BooleanExpr::Operand(Operand::Bit1);
    let expr2 = BooleanExpr::Operand(Operand::Bit2);

    let and_expr = BooleanExpr::And(Box::new(expr1.clone()), Box::new(expr2.clone()));
    let or_expr = BooleanExpr::Or(Box::new(expr1.clone()), Box::new(expr2.clone()));
    let xor_expr = BooleanExpr::Xor(Box::new(expr1.clone()), Box::new(expr2.clone()));
    let mux_expr_0 = BooleanExpr::Mux(Operand::Bit0, Box::new(expr1.clone()), Box::new(expr2.clone()));
    let mux_expr_1 = BooleanExpr::Mux(Operand::Bit1, Box::new(expr1.clone()), Box::new(expr2.clone()));
    let mux_expr_2 = BooleanExpr::Mux(Operand::Bit2, Box::new(expr1.clone()), Box::new(expr2.clone()));
    let mux_expr_3 = BooleanExpr::Mux(Operand::Bit3, Box::new(expr1.clone()), Box::new(expr2.clone()));
    let mux_expr_4 = BooleanExpr::Mux(Operand::Bit0, Box::new(expr2.clone()), Box::new(expr1.clone()));
    let mux_expr_5 = BooleanExpr::Mux(Operand::Bit1, Box::new(expr2.clone()), Box::new(expr1.clone()));
    let mux_expr_6 = BooleanExpr::Mux(Operand::Bit2, Box::new(expr2.clone()), Box::new(expr1.clone()));
    let mux_expr_7 = BooleanExpr::Mux(Operand::Bit3, Box::new(expr2.clone()), Box::new(expr1.clone()));

    let test_suite: Vec<BooleanExpr> = vec![expr1.clone(), expr2.clone()];

    let start = Instant::now();
    let mut hash_map = ExprMap::new();
    hash_map = run_stage(test_suite, &operands, &hash_map, &server_key);

    println!("TIME TAKEN: {:?}", start.elapsed());

    let muxes = vec![
        mux_expr_0.clone(),
        mux_expr_1.clone(),
        mux_expr_2.clone(),
        mux_expr_3.clone(),
        mux_expr_4.clone(),
        mux_expr_5.clone(),
        mux_expr_6.clone(),
        mux_expr_7.clone(),
    ];
    let mut group: Vec<BooleanExpr> = vec![];
    group.extend(muxes.clone());
    group.extend(muxes.clone());
    for expr in [&and_expr, &or_expr, &xor_expr, &and_expr] {
        for _ in 0..4 {
            group.push(expr.clone());
        }
    }
    let mut stage_1: Vec<BooleanExpr> = vec![];
    for _ in 0..4 {
        stage_1.extend(group.clone());
    }
    assert_eq!(stage_1.len(), 128);

    let start = Instant::now();
    hash_map = run_stage(stage_1, &operands, &hash_map, &server_key);

    println!("TIME TAKEN: {:?}", start.elapsed());

    let decrypt_0 = client_key.decrypt(&bit0);
    let decrypt_1 = client_key.decrypt(&bit1);
    let decrypt_2 = client_key.decrypt(&bit2);
    let decrypt_3 = client_key.decrypt(&bit3);

    assert!(hash_map.contains_key(&mux_expr_0));
    let result = hash_map.get(&mux_expr_0).unwrap();
    let expected_result = (decrypt_0 & decrypt_1) | ((!decrypt_0) & decrypt_2);
    assert_eq!(client_key.decrypt(result), expected_result);

    assert!(hash_map.contains_key(&mux_expr_1));
    let result = hash_map.get(&mux_expr_1).unwrap();
    let expected_result = (decrypt_1 & decrypt_1) | (!decrypt_1 & decrypt_2);
    assert_eq!(client_key.decrypt(result), expected_result);

    assert!(hash_map.contains_key(&mux_expr_2));
    let result = hash_map.get(&mux_expr_2).unwrap();
    let expected_result = (decrypt_2 & decrypt_1) | (!decrypt_2 & decrypt_2);
    assert_eq!(client_key.decrypt(result), expected_result);

    assert!(hash_map.contains_key(&mux_expr_3));
    let result = hash_map.get(&mux_expr_3).unwrap();
    let expected_result = (decrypt_3 & decrypt_1) | (!decrypt_3 & decrypt_2);
    assert_eq!(client_key.decrypt(result), expected_result);

    assert!(hash_map.contains_key(&mux_expr_4));
    let result = hash_map.get(&mux_expr_4).unwrap();
    let expected_result = (decrypt_0 & decrypt_2) | (!decrypt_0 & decrypt_1);
    assert_eq!(client_key.decrypt(result), expected_result);

    assert!(hash_map.contains_key(&mux_expr_5));
    let result = hash_map.get(&mux_expr_5).unwrap();
    let expected_result = (decrypt_1 & decrypt_2) | (!decrypt_1 & decrypt_1);
    assert_eq!(client_key.decrypt(result), expected_result);
}

#[test]
fn one_stage_of_gates_reads_the_stage_before_it() {
    let (client_key, server_key) = gen_keys();
    let values = [true, false, true, true, false, false, true, false];
    let bits = bool_to_ciphertext(&values, &client_key);
    let operands = OperandMap::prepare(&bits, &server_key);
    assert!(operands.contains_key(&Operand::NotBit7));
    assert_eq!(client_key.decrypt(operands.get(&Operand::NotBit1).unwrap()), true);
    assert_eq!(client_key.decrypt(operands.get(&Operand::False).unwrap()), false);

    let leaf_0 = BooleanExpr::Operand(Operand::Bit0);
    let leaf_1 = BooleanExpr::Operand(Operand::NotBit1);
    let mut leaves = ExprMap::new();
    leaf_0.evaluate_stage(&server_key, &operands, &ExprMap::new(), &mut leaves);
    leaf_1.evaluate_stage(&server_key, &operands, &ExprMap::new(), &mut leaves);
    assert_eq!(leaves.len(), 2);
    assert_eq!(client_key.decrypt(leaves.get(&leaf_0).unwrap()), true);

    let and = BooleanExpr::And(Box::new(leaf_0.clone()), Box::new(leaf_1.clone()));
    let xor = BooleanExpr::Xor(Box::new(leaf_0.clone()), Box::new(leaf_1.clone()));
    let mux = BooleanExpr::Mux(Operand::Bit4, Box::new(leaf_0.clone()), Box::new(leaf_1.clone()));
    assert_eq!(client_key.decrypt(&and.evaluate_stage_return(&server_key, &operands, &leaves)), true);
    assert_eq!(client_key.decrypt(&xor.evaluate_stage_return(&server_key, &operands, &leaves)), false);
    assert_eq!(client_key.decrypt(&mux.evaluate_stage_return(&server_key, &operands, &leaves)), true);

    let mut next = ExprMap::new();
    xor.evaluate_stage(&server_key, &operands, &leaves, &mut next);
    assert!(next.contains_key(&xor));
    assert!(!next.contains_key(&and));
    assert_eq!(client_key.decrypt(next.get(&xor).unwrap()), false);
    assert!(next.get(&and).is_none());
}

#[test]
fn the_memo_keeps_what_was_evaluated() {
    let (client_key, server_key) = gen_keys();
    let values = [false, true, true, false, true, false, false, true];
    let bits = bool_to_ciphertext(&values, &client_key);
    let table: Vec<bool> = (0..16).map(|i| i % 3 == 0).collect();
    let expr = BooleanExpr::reduce_mux(&BooleanExpr::from_bool_vec(&table));
    let mut memo = ExprMap::new();
    let first = expr.evaluate(&bits, &server_key, &mut memo);
    assert!(memo.contains_key(&expr));
    let entries = memo.len();
    let second = expr.evaluate(&bits, &server_key, &mut memo);
    assert_eq!(memo.len(), entries);
    assert_eq!(client_key.decrypt(&first), clear_mux_eval(&values, &table));
    assert_eq!(client_key.decrypt(&second), client_key.decrypt(&first));
}

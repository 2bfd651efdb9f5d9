use negacyclic_rings::decomposition::{decompose_i32, recompose_i32};

#[test]
fn decimal_digits_recompose() {
    let input = [123, -45, 0, 999];
    let digits: [[i32; 4]; 4] = decompose_i32(&input, None, 10, false);
    assert_eq!(digits[0], [3, -5, 0, 9]);
    assert_eq!(digits[1], [2, -4, 0, 9]);
    assert_eq!(digits[2], [1, 0, 0, 9]);
    assert_eq!(digits[3], [0, 0, 0, 0]);
    assert_eq!(recompose_i32(&digits, 10, None, None), input);
}

#[test]
fn centered_digits_recompose() {
    let input = [123, -45, 7, 1000];
    let digits: [[i32; 4]; 4] = decompose_i32(&input, None, 16, true);
    assert!(digits.iter().flatten().all(|&d| -8 <= d && d <= 8));
    assert_eq!(digits[0], [-5, 3, 7, 8]);
    assert_eq!(recompose_i32(&digits, 16, None, None), input);
    assert_eq!(recompose_i32(&digits, 16, Some(16), None), input);
}

#[test]
fn source_and_target_moduli_center_the_values() {
    let input = [100, -3, 40, 0];
    let digits: [[i32; 4]; 3] = decompose_i32(&input, Some(97), 4, true);
    // 100 ≡ 3, −3 and 40 stay, all below 97/2 in magnitude
    assert_eq!(recompose_i32(&digits, 4, None, None), [3, -3, 40, 0]);
    assert_eq!(recompose_i32(&digits, 4, None, Some(7)), [3, -3, -2, 0]);
}

#[test]
fn too_few_digits_leave_the_low_part() {
    let input = [1234];
    let digits: [[i32; 1]; 2] = decompose_i32(&input, None, 10, false);
    assert_eq!(digits, [[4], [3]]);
    assert_eq!(recompose_i32(&digits, 10, None, None), [34]);
}

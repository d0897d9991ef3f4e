use calckit::baseconv::convert_base;
use calckit::coins::dp_rec_mc;
use calckit::fib::odd_fibnacci_sum;

#[test]
fn test_coins_greedy_187() {
    // Greedy selection: 100 + 50 + 30 + 5 + 2.
    assert_eq!(dp_rec_mc(187), 5);
}

#[test]
fn test_coins_small_amounts() {
    assert_eq!(dp_rec_mc(0), 0);
    assert_eq!(dp_rec_mc(1), 1);
    assert_eq!(dp_rec_mc(3), 2);
    assert_eq!(dp_rec_mc(100), 1);
    assert_eq!(dp_rec_mc(99), 6);
}

#[test]
fn test_odd_fibonacci_sum_below_10() {
    // 1 + 1 + 3 + 5 = 10.
    assert_eq!(odd_fibnacci_sum(10), 10);
}

#[test]
fn test_odd_fibonacci_edges() {
    assert_eq!(odd_fibnacci_sum(0), 0);
    assert_eq!(odd_fibnacci_sum(1), 0);
    assert_eq!(odd_fibnacci_sum(2), 2);
    assert_eq!(odd_fibnacci_sum(100), 1 + 1 + 3 + 5 + 13 + 21 + 55 + 89);
}

#[test]
fn test_convert_base_examples() {
    assert_eq!(convert_base("10(2)", 10), "2");
    assert_eq!(convert_base("ff(16)", 10), "255");
    assert_eq!(convert_base("FF(16)", 10), "255");
    assert_eq!(convert_base("255(10)", 16), "ff");
    assert_eq!(convert_base("0(10)", 2), "0");
}

#[test]
fn test_convert_base_round_trip() {
    // Converting to another base and back reproduces the numeric value.
    let in_base_7 = convert_base("4732(10)", 7);
    let back = convert_base(&format!("{}(7)", in_base_7), 10);
    assert_eq!(back, "4732");

    let in_base_2 = convert_base("a9(16)", 2);
    let back16 = convert_base(&format!("{}(2)", in_base_2), 16);
    assert_eq!(back16, "a9");
}

#[test]
fn test_convert_base_trailing_parens() {
    // Extra trailing parentheses are stripped from the base part.
    assert_eq!(convert_base("11(2))", 10), "3");
}

#[test]
fn test_count_distinct_tokens() {
    // "a", "b", "a", "", "c": the empty token is dropped, "a" counts once.
    assert_eq!(calckit::distinct::new_count_distinct("a, b, a, ,c"), 3);
}

#[test]
fn test_count_distinct_edges() {
    assert_eq!(calckit::distinct::new_count_distinct(""), 0);
    assert_eq!(calckit::distinct::new_count_distinct(" , , "), 0);
    assert_eq!(calckit::distinct::new_count_distinct("x"), 1);
    assert_eq!(calckit::distinct::new_count_distinct("x,y x, x ,y x"), 2);
}

use anvil_calc::cost::{calc_level, calc_penalty, calc_work_count, calc_xp};

#[test]
fn xp_curve_exact_values() {
    assert_eq!(calc_xp(0), 0);
    assert_eq!(calc_xp(1), 7);
    assert_eq!(calc_xp(2), 16);
    assert_eq!(calc_xp(15), 315);
    assert_eq!(calc_xp(16), 352);
    assert_eq!(calc_xp(17), 394);
    assert_eq!(calc_xp(31), 1507);
    assert_eq!(calc_xp(32), 1628);
    assert_eq!(calc_xp(33), 1758);
    assert_eq!(calc_xp(100), 30970);
}

#[test]
fn xp_curve_saturates() {
    assert_eq!(calc_xp(30912), 4_294_961_868);
    assert_eq!(calc_xp(30913), u32::MAX);
    assert_eq!(calc_xp(u32::MAX), u32::MAX);
}

#[test]
fn level_of_examples() {
    assert_eq!(calc_level(0), 0);
    assert_eq!(calc_level(1), 1);
    assert_eq!(calc_level(7), 1);
    assert_eq!(calc_level(8), 2);
    assert_eq!(calc_level(315), 15);
    assert_eq!(calc_level(316), 16);
}

#[test]
fn level_round_trip() {
    for level in 0..500u32 {
        assert_eq!(calc_level(calc_xp(level)), level);
    }
    assert_eq!(calc_level(calc_xp(30912)), 30912);
    assert_eq!(calc_level(calc_xp(30913)), 30913);
}

#[test]
fn penalty_exact_values() {
    assert_eq!(calc_penalty(0), 0);
    assert_eq!(calc_penalty(1), 1);
    assert_eq!(calc_penalty(2), 3);
    assert_eq!(calc_penalty(5), 31);
    assert_eq!(calc_penalty(8), 255);
    assert_eq!(calc_penalty(31), 0x7FFF_FFFF);
}

#[test]
fn penalty_doubles_minus_one() {
    for w in 0..30u32 {
        assert_eq!(calc_penalty(w + 1), 2 * calc_penalty(w) + 1);
    }
}

#[test]
fn work_count_round_trip() {
    for w in 0..=31u32 {
        assert_eq!(calc_work_count(calc_penalty(w)), w);
    }
}

#[test]
fn work_count_of_examples() {
    assert_eq!(calc_work_count(0), 0);
    assert_eq!(calc_work_count(1), 1);
    assert_eq!(calc_work_count(2), 2);
    assert_eq!(calc_work_count(3), 2);
    assert_eq!(calc_work_count(4), 3);
    assert_eq!(calc_work_count(255), 8);
}

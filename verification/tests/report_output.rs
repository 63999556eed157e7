use anvil_calc::piece::Config;
use anvil_calc::report::{expand_cost, get_name, process, ConfigSchema, Input, InputPiece};

fn entry(name: &str, value: u8, work_count: u8) -> InputPiece {
    InputPiece { name: name.to_string(), value, work_count, extra_cost: 0 }
}

fn schema(
    books_free: bool,
    optimize_xp: bool,
    items: Vec<InputPiece>,
    books: Vec<InputPiece>,
) -> ConfigSchema {
    ConfigSchema {
        config: Config { books_free, optimize_xp },
        input: Input { items, books },
    }
}

#[test]
fn two_items_report() {
    let s = schema(
        false,
        true,
        vec![entry("a", 1, 0), entry("b", 1, 0)],
        vec![],
    );
    assert_eq!(
        process(s),
        "1. [a: 1,0] + [b: 1,0] = 1 (7xp)\n\nMax step cost: 1 (7xp)\nTotal cost: 1 (7xp)\n"
    );
}

#[test]
fn item_and_book_report() {
    let s = schema(
        false,
        true,
        vec![entry("a", 1, 0)],
        vec![entry("b", 1, 0)],
    );
    assert_eq!(
        process(s),
        "1. [a: 1,0] + [b: 1,0] = 1 (7xp)\n\nMax step cost: 1 (7xp)\nTotal cost: 1 (7xp)\n"
    );
}

#[test]
fn three_free_books_report() {
    let s = schema(
        true,
        false,
        vec![],
        vec![entry("a", 1, 0), entry("b", 2, 0), entry("c", 3, 0)],
    );
    assert_eq!(
        process(s),
        "1. [b: 2,0] + [a: 1,0] = 0 (0xp)\n2. [c: 3,0] + [a + b: 3,0] = 0 (0xp)\n\nMax step cost: 0 (0xp)\nTotal cost: 0 (0xp)\n"
    );
}

#[test]
fn level_unit_report() {
    let s = schema(
        false,
        false,
        vec![entry("a", 1, 0), entry("b", 1, 0)],
        vec![],
    );
    // cost stays in the level unit: 1 level, 7 xp
    assert_eq!(
        process(s),
        "1. [a: 1,0] + [b: 1,0] = 1 (7xp)\n\nMax step cost: 1 (7xp)\nTotal cost: 1 (7xp)\n"
    );
}

#[test]
fn too_many_pieces_guard() {
    let items: Vec<InputPiece> = (0..13).map(|i| entry(&format!("p{i}"), 1, 0)).collect();
    let s = schema(false, true, items, vec![]);
    assert_eq!(process(s), "Too many pieces: at most 12 are supported.");
}

#[test]
fn too_few_pieces_guard() {
    let s = schema(false, true, vec![entry("a", 1, 0)], vec![]);
    assert_eq!(process(s), "Nothing to merge: at least two pieces are needed.");
}

#[test]
fn work_count_guard() {
    let s = schema(
        false,
        true,
        vec![entry("a", 1, 21), entry("b", 1, 0)],
        vec![],
    );
    assert_eq!(process(s), "Work counts too large: at most 20 is supported.");
}

#[test]
fn value_sum_guard() {
    let s = schema(
        false,
        true,
        vec![entry("a", 200, 0), entry("b", 56, 0)],
        vec![],
    );
    assert_eq!(process(s), "Values too large: they must sum to at most 255.");
}

#[test]
fn names_join_selected_bits() {
    let names = vec!["a".to_string(), "b".to_string(), "c".to_string()];
    assert_eq!(get_name(&names, (1 << 1) | (1 << 3)), "a + c");
    assert_eq!(get_name(&names, 1 << 2), "b");
    assert_eq!(get_name(&names, (1 << 1) | (1 << 2) | (1 << 3)), "a + b + c");
    assert_eq!(get_name(&names, 1), "");
}

#[test]
fn expand_cost_both_units() {
    let xp_config = Config { books_free: false, optimize_xp: true };
    assert_eq!(expand_cost(&xp_config, 7), (1, 7));
    let level_config = Config { books_free: false, optimize_xp: false };
    assert_eq!(expand_cost(&level_config, 7), (7, 91));
    assert_eq!(expand_cost(&level_config, 0), (0, 0));
}

#[test]
fn work_penalties_shown_in_report() {
    let s = schema(
        false,
        false,
        vec![entry("a", 1, 2), entry("b", 1, 1)],
        vec![],
    );
    // raw cost: right value 1 + penalties 3 and 1 = 5 levels, 55 xp
    assert_eq!(
        process(s),
        "1. [a: 1,3] + [b: 1,1] = 5 (55xp)\n\nMax step cost: 5 (55xp)\nTotal cost: 5 (55xp)\n"
    );
}

#[test]
fn no_order_within_bound() {
    // three heavily worked pieces: every step cost clamps to the cost
    // ceiling, so any two-step total exceeds it
    let s = schema(
        false,
        true,
        vec![entry("a", 1, 20), entry("b", 1, 20), entry("c", 1, 20)],
        vec![],
    );
    assert_eq!(process(s), "No merge order stays within the cost bound.");
}

#[test]
fn extra_cost_sum_guard() {
    let mut a = entry("a", 1, 0);
    a.extra_cost = 200;
    let mut b = entry("b", 1, 0);
    b.extra_cost = 56;
    let s = schema(false, true, vec![a, b], vec![]);
    assert_eq!(process(s), "Extra costs too large: they must sum to at most 255.");
}

#[test]
fn extra_cost_enters_the_report() {
    let mut a = entry("a", 1, 0);
    a.extra_cost = 2;
    let b = entry("b", 1, 0);
    let s = schema(false, false, vec![a, b], vec![]);
    // right value 1 plus left surcharge 2: 3 levels, 27 xp
    assert_eq!(
        process(s),
        "1. [a: 1,0] + [b: 1,0] = 3 (27xp)\n\nMax step cost: 3 (27xp)\nTotal cost: 3 (27xp)\n"
    );
}

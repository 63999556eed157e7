use anvil_calc::piece::{anvil, Config, Piece, TraceRecord};
use anvil_calc::search::{solve, NullPathSet};

fn item(bit: u16, value: u8, work_count: u8) -> Piece {
    Piece { name_mask: (1 << bit) | 1, value, work_count, extra_cost: 0 }
}

fn book(bit: u16, value: u8, work_count: u8) -> Piece {
    Piece { name_mask: 1 << bit, value, work_count, extra_cost: 0 }
}

fn run(config: &Config, queue: Vec<Piece>) -> (u32, Option<Vec<TraceRecord>>) {
    let mut null_paths = NullPathSet::new();
    let trace: Vec<TraceRecord> = Vec::new();
    solve(config, &mut null_paths, &queue, 0, u32::MAX, &trace)
}

/// Cheapest total over every kind-legal merge order, by plain enumeration
/// with no value cut, no pruning and no memo.
fn oracle_min(config: &Config, queue: &Vec<Piece>) -> Option<u32> {
    if queue.len() == 1 {
        return Some(0);
    }
    let mut best: Option<u32> = None;
    for l in 0..queue.len() {
        for r in 0..queue.len() {
            if l == r {
                continue;
            }
            let left = queue[l];
            let right = queue[r];
            if left.name_mask & 1 == 0 && right.name_mask & 1 == 1 {
                continue;
            }
            let (combined, cost) = anvil(config, &left, &right);
            let mut nq = queue.clone();
            nq.remove(l.max(r));
            nq.remove(l.min(r));
            nq.push(combined);
            if let Some(sub) = oracle_min(config, &nq) {
                let total = cost.checked_add(sub).unwrap();
                best = Some(best.map_or(total, |b| b.min(total)));
            }
        }
    }
    best
}

#[test]
fn anvil_cost_formula() {
    let config = Config { books_free: false, optimize_xp: false };
    let left = item(1, 4, 2);
    let right = item(2, 5, 3);
    let (combined, cost) = anvil(&config, &left, &right);
    // right value 5, penalties 3 and 7
    assert_eq!(cost, 15);
    assert_eq!(combined.value, 9);
    assert_eq!(combined.work_count, 4);
    assert_eq!(combined.name_mask, (1 << 1) | (1 << 2) | 1);
}

#[test]
fn anvil_cost_in_xp_unit() {
    let config = Config { books_free: false, optimize_xp: true };
    let left = item(1, 1, 0);
    let right = item(2, 1, 0);
    let (_, cost) = anvil(&config, &left, &right);
    // raw cost 1, converted: 1 + 6 = 7
    assert_eq!(cost, 7);
}

#[test]
fn anvil_free_book_merge() {
    let config = Config { books_free: true, optimize_xp: false };
    let left = book(1, 3, 4);
    let right = book(2, 2, 5);
    let (combined, cost) = anvil(&config, &left, &right);
    assert_eq!(cost, 0);
    assert_eq!(combined.work_count, 0);
    assert_eq!(combined.value, 5);
}

#[test]
fn anvil_book_merge_not_free_without_flag() {
    let config = Config { books_free: false, optimize_xp: false };
    let left = book(1, 3, 0);
    let right = book(2, 2, 0);
    let (combined, cost) = anvil(&config, &left, &right);
    assert_eq!(cost, 2);
    assert_eq!(combined.work_count, 1);
}

#[test]
fn two_items_cost_seven() {
    let config = Config { books_free: false, optimize_xp: true };
    let (cost, trace) = run(&config, vec![item(1, 1, 0), item(2, 1, 0)]);
    assert_eq!(cost, 7);
    assert_eq!(trace.unwrap().len(), 1);
}

#[test]
fn item_and_book_merge_item_left() {
    let config = Config { books_free: false, optimize_xp: true };
    let (cost, trace) = run(&config, vec![item(1, 1, 0), book(2, 1, 0)]);
    assert_eq!(cost, 7);
    let trace = trace.unwrap();
    assert_eq!(trace.len(), 1);
    // the one legal order puts the item on the left
    assert_eq!(trace[0].left.name_mask & 1, 1);
    assert_eq!(trace[0].right.name_mask & 1, 0);
}

#[test]
fn three_free_books() {
    let config = Config { books_free: true, optimize_xp: false };
    let (cost, trace) = run(&config, vec![book(1, 1, 0), book(2, 2, 0), book(3, 3, 0)]);
    assert_eq!(cost, 0);
    let trace = trace.unwrap();
    assert_eq!(trace.len(), 2);
    for step in &trace {
        let (combined, step_cost) = anvil(&config, &step.left, &step.right);
        assert_eq!(step_cost, 0);
        assert_eq!(combined.work_count, 0);
    }
}

#[test]
fn book_never_left_of_item() {
    let config = Config { books_free: false, optimize_xp: true };
    let (_, trace) = run(
        &config,
        vec![item(1, 2, 1), book(2, 3, 0), item(3, 1, 2), book(4, 1, 1)],
    );
    for step in trace.unwrap() {
        let left_book = step.left.name_mask & 1 == 0;
        let right_item = step.right.name_mask & 1 == 1;
        assert!(!(left_book && right_item));
    }
}

#[test]
fn matches_oracle_on_items() {
    for optimize_xp in [false, true] {
        let config = Config { books_free: false, optimize_xp };
        let queue = vec![item(1, 1, 0), item(2, 2, 1), item(3, 3, 0), item(4, 1, 2)];
        let (cost, trace) = run(&config, queue.clone());
        assert!(trace.is_some());
        assert_eq!(Some(cost), oracle_min(&config, &queue));
    }
}

#[test]
fn matches_oracle_on_mixed_pieces() {
    for books_free in [false, true] {
        for optimize_xp in [false, true] {
            let config = Config { books_free, optimize_xp };
            let queue = vec![
                item(1, 2, 0),
                item(2, 1, 1),
                book(3, 2, 0),
                book(4, 1, 0),
                book(5, 2, 1),
            ];
            let (cost, trace) = run(&config, queue.clone());
            assert!(trace.is_some());
            assert_eq!(Some(cost), oracle_min(&config, &queue));
        }
    }
}

#[test]
fn memo_never_changes_the_answer() {
    // the enumeration above uses no memo at all, so agreement with it on a
    // fresh run pins the memoized search to the same value; two runs also
    // agree with each other
    let config = Config { books_free: true, optimize_xp: true };
    let queue = vec![book(1, 1, 0), book(2, 1, 0), book(3, 2, 1), item(4, 2, 0)];
    let (cost1, trace1) = run(&config, queue.clone());
    let (cost2, trace2) = run(&config, queue.clone());
    assert_eq!(cost1, cost2);
    assert_eq!(trace1.is_some(), trace2.is_some());
    assert_eq!(Some(cost1), oracle_min(&config, &queue));
}

#[test]
fn identical_pieces_reuse_dead_states() {
    // many identical books force the search through repeated working sets
    let config = Config { books_free: false, optimize_xp: false };
    let queue = vec![
        book(1, 1, 0),
        book(2, 1, 0),
        book(3, 1, 0),
        book(4, 1, 0),
        book(5, 1, 0),
        item(6, 1, 0),
    ];
    let (cost, trace) = run(&config, queue.clone());
    assert!(trace.is_some());
    assert_eq!(Some(cost), oracle_min(&config, &queue));
}

#[test]
fn tight_bound_returns_none() {
    let config = Config { books_free: false, optimize_xp: true };
    let queue = vec![item(1, 1, 0), item(2, 1, 0)];
    let mut null_paths = NullPathSet::new();
    let trace: Vec<TraceRecord> = Vec::new();
    // the only completions cost 7, which the bound of 3 excludes
    let (cost, trace) = solve(&config, &mut null_paths, &queue, 0, 3, &trace);
    assert_eq!(cost, 3);
    assert!(trace.is_none());
}

#[test]
fn anvil_adds_extra_costs() {
    let config = Config { books_free: false, optimize_xp: false };
    let left = Piece { name_mask: (1 << 1) | 1, value: 2, work_count: 1, extra_cost: 4 };
    let right = Piece { name_mask: (1 << 2) | 1, value: 3, work_count: 0, extra_cost: 5 };
    let (combined, cost) = anvil(&config, &left, &right);
    // right value 3, penalties 1 and 0, surcharges 4 and 5
    assert_eq!(cost, 13);
    assert_eq!(combined.extra_cost, 9);
}

#[test]
fn free_book_merge_ignores_extra_costs() {
    let config = Config { books_free: true, optimize_xp: false };
    let left = Piece { name_mask: 1 << 1, value: 1, work_count: 0, extra_cost: 7 };
    let right = Piece { name_mask: 1 << 2, value: 1, work_count: 0, extra_cost: 9 };
    let (combined, cost) = anvil(&config, &left, &right);
    assert_eq!(cost, 0);
    assert_eq!(combined.extra_cost, 16);
}

//! The piece model and the merge ("anvil") operator.

use vstd::prelude::*;
use crate::cost::{
    spec_penalty, xp_sat, calc_penalty, calc_xp, lemma_penalty_nonneg, lemma_xp_exact_nonneg,
    lemma_penalty_bound,
};

verus! {

/// A combinable unit: a bitmask naming the original inputs folded into it
/// (whose lowest bit tags the kind: clear for a book, set for an item), the
/// accumulated value, the number of merges in its lineage, and a flat
/// surcharge that accumulates outside the penalty curve.
#[derive(Clone, Copy, PartialEq, Eq, Structural, Debug)]
pub struct Piece {
    pub name_mask: u16,
    pub value: u8,
    pub work_count: u8,
    pub extra_cost: u8,
}

/// One accepted merge step: the two operands, by value.
#[derive(Clone, Copy, PartialEq, Eq, Structural, Debug)]
pub struct TraceRecord {
    pub left: Piece,
    pub right: Piece,
}

/// The engine's switches: whether book-with-book merges are free, and
/// whether the search optimizes the experience unit rather than the level
/// unit.
#[derive(Clone, Copy, PartialEq, Eq, Structural, Debug)]
pub struct Config {
    pub books_free: bool,
    pub optimize_xp: bool,
}

/// A piece whose kind bit is clear descends from books alone.
pub open spec fn is_book(p: Piece) -> bool {
    p.name_mask & 1 == 0
}

/// The piece produced by merging `left` and `right`: names union, values
/// add, and the merge count grows by one past the larger operand count --
/// except that a free book-with-book merge resets the count.
pub open spec fn merged_piece(cfg: Config, left: Piece, right: Piece) -> Piece {
    let mask = left.name_mask | right.name_mask;
    if cfg.books_free && mask & 1 == 0 {
        Piece {
            name_mask: mask,
            value: (left.value + right.value) as u8,
            work_count: 0,
            extra_cost: (left.extra_cost + right.extra_cost) as u8,
        }
    } else {
        let wc = if left.work_count >= right.work_count {
            left.work_count
        } else {
            right.work_count
        };
        Piece {
            name_mask: mask,
            value: (left.value + right.value) as u8,
            work_count: (wc + 1) as u8,
            extra_cost: (left.extra_cost + right.extra_cost) as u8,
        }
    }
}

/// The cost charged for merging `left` and `right`: free for a free
/// book-with-book merge; otherwise the right operand's value plus both work
/// penalties plus both flat surcharges, converted to the experience unit
/// when so configured.
pub open spec fn merge_cost(cfg: Config, left: Piece, right: Piece) -> int {
    let mask = left.name_mask | right.name_mask;
    if cfg.books_free && mask & 1 == 0 {
        0
    } else {
        let raw = right.value + spec_penalty(left.work_count as nat) + spec_penalty(
            right.work_count as nat,
        ) + left.extra_cost + right.extra_cost;
        if cfg.optimize_xp {
            xp_sat(raw)
        } else {
            raw
        }
    }
}

/// Merge costs are never negative.
pub proof fn lemma_merge_cost_nonneg(cfg: Config, left: Piece, right: Piece)
    ensures
        merge_cost(cfg, left, right) >= 0,
{
    lemma_penalty_nonneg(left.work_count as nat);
    lemma_penalty_nonneg(right.work_count as nat);
    let raw = right.value + spec_penalty(left.work_count as nat) + spec_penalty(
        right.work_count as nat,
    ) + left.extra_cost + right.extra_cost;
    if raw >= 0 {
        lemma_xp_exact_nonneg(raw);
    }
}

/// The merge result keeps the kind rule: it is a book exactly when both
/// operands are books.
pub proof fn lemma_merged_kind(cfg: Config, left: Piece, right: Piece)
    ensures
        is_book(merged_piece(cfg, left, right)) <==> is_book(left) && is_book(right),
{
    let l = left.name_mask;
    let r = right.name_mask;
    assert(((l | r) & 1 == 0) <==> (l & 1 == 0 && r & 1 == 0)) by (bit_vector);
}

/// With free book merging configured, combining two books costs nothing and
/// resets the merged piece's work count to zero.
pub proof fn lemma_free_book_merge(cfg: Config, left: Piece, right: Piece)
    requires
        cfg.books_free,
        is_book(left),
        is_book(right),
    ensures
        merge_cost(cfg, left, right) == 0,
        merged_piece(cfg, left, right).work_count == 0,
{
    let l = left.name_mask;
    let r = right.name_mask;
    assert((l & 1 == 0 && r & 1 == 0) ==> ((l | r) & 1 == 0)) by (bit_vector);
}

/// The merge operator: combines two pieces and prices the operation.
///
/// The asymmetry matters: the right operand's value enters the cost, and a
/// book may not absorb an item, which the search enforces separately.
pub fn anvil(config: &Config, left: &Piece, right: &Piece) -> (r: (Piece, u32))
    requires
        left.value + right.value <= 255,
        left.extra_cost + right.extra_cost <= 255,
        left.work_count <= 30,
        right.work_count <= 30,
    ensures
        r.0 == merged_piece(*config, *left, *right),
        r.1 == merge_cost(*config, *left, *right),
{
    let new_name_mask = left.name_mask | right.name_mask;
    if config.books_free && new_name_mask & 1 == 0 {
        return (
            Piece {
                name_mask: new_name_mask,
                value: left.value + right.value,
                work_count: 0,
                extra_cost: left.extra_cost + right.extra_cost,
            },
            0,
        );
    }
    proof {
        lemma_penalty_bound(left.work_count as nat);
        lemma_penalty_bound(right.work_count as nat);
    }
    let mut cost = (right.value as u32) + calc_penalty(left.work_count as u32) + calc_penalty(
        right.work_count as u32,
    ) + (left.extra_cost as u32) + (right.extra_cost as u32);
    if config.optimize_xp {
        cost = calc_xp(cost);
    }
    let wc = if left.work_count >= right.work_count {
        left.work_count
    } else {
        right.work_count
    };
    (
        Piece {
            name_mask: new_name_mask,
            value: left.value + right.value,
            work_count: wc + 1,
            extra_cost: left.extra_cost + right.extra_cost,
        },
        cost,
    )
}

} // verus!

//! The input schema, the trace report, and the top-level pipeline from a
//! parsed configuration to the rendered report.

use vstd::prelude::*;
use vstd::arithmetic::power2::pow2;
use vstd::bits::{lemma_u32_shr_is_div, lemma_u16_shl_is_mul};
use vstd::string::StringExecFns;
use crate::cost::{calc_level, calc_xp, calc_penalty, spec_level, spec_penalty, xp_sat, COST_MAX};
use crate::piece::{Piece, TraceRecord, Config, merge_cost, anvil};
use crate::search::{
    NullPathSet, solve, completes, trace_cost, valid_trace, reduced, bounded_queue, sum_values,
    sum_extras, search_outcome, lemma_index_pair_exists, lemma_reduced_queue,
    lemma_sum_values_two, lemma_sum_values_push, lemma_sum_extras_two, lemma_sum_extras_push,
    lemma_sum_values_nonneg, lemma_sum_extras_nonneg,
};

verus! {

/// One input entry: a display name, a value, a prior merge count, and a
/// flat surcharge.
pub struct InputPiece {
    pub name: String,
    pub value: u8,
    pub work_count: u8,
    pub extra_cost: u8,
}

/// The declarative input: the items and the books to merge.
pub struct Input {
    pub items: Vec<InputPiece>,
    pub books: Vec<InputPiece>,
}

/// A full parsed configuration: the engine switches and the input pieces.
pub struct ConfigSchema {
    pub config: Config,
    pub input: Input,
}

/// Whether the original input named by position `k` has been folded into a
/// piece carrying `mask`: its bit, one past the kind bit, is set.
pub open spec fn name_selected(mask: u16, k: int) -> bool {
    (mask as nat / pow2((k + 1) as nat)) % 2 == 1
}

/// No input before position `k` is selected by `mask`.
pub open spec fn none_selected(mask: u16, k: int) -> bool
    decreases k,
{
    k <= 0 || (!name_selected(mask, k - 1) && none_selected(mask, k - 1))
}

/// The composed display name of the first `k` original inputs selected by
/// `mask`, joined in input order.
pub open spec fn joined_names(names: Seq<Seq<char>>, mask: u16, k: int) -> Seq<char>
    decreases k,
{
    if k <= 0 {
        Seq::<char>::empty()
    } else {
        let prev = joined_names(names, mask, k - 1);
        if name_selected(mask, k - 1) {
            if none_selected(mask, k - 1) {
                names[k - 1]
            } else {
                prev + " + "@ + names[k - 1]
            }
        } else {
            prev
        }
    }
}

/// While nothing is selected, the join is still empty.
proof fn lemma_joined_names_empty(names: Seq<Seq<char>>, mask: u16, k: int)
    requires
        none_selected(mask, k),
    ensures
        joined_names(names, mask, k).len() == 0,
    decreases k,
{
    if k > 0 {
        lemma_joined_names_empty(names, mask, k - 1);
    }
}

/// The composed name of a piece: the names of all original inputs folded
/// into it, joined by " + " in input order.
pub fn get_name(names: &Vec<String>, name_mask: u16) -> (r: String)
    requires
        names@.len() <= 15,
    ensures
        r@ == joined_names(names.deep_view(), name_mask, names@.len() as int),
{
    let mut result = String::new();
    let mut first = true;
    let mut i: usize = 0;
    while i < names.len()
        invariant
            i <= names@.len(),
            names@.len() <= 15,
            result@ == joined_names(names.deep_view(), name_mask, i as int),
            first <==> none_selected(name_mask, i as int),
        decreases names@.len() - i,
    {
        let shifted = (name_mask as u32) >> ((i as u32) + 1);
        proof {
            lemma_u32_shr_is_div(name_mask as u32, (i + 1) as u32);
            assert((shifted & 1) == (shifted % 2)) by (bit_vector);
        }
        proof {
            if shifted & 1 == 1 {
                assert(name_selected(name_mask, i as int));
            } else {
                assert(!name_selected(name_mask, i as int));
            }
        }
        if shifted & 1 == 1 {
            if !first {
                result.append(" + ");
                proof {
                    reveal_strlit(" + ");
                }
            }
            result.append(names[i].as_str());
            first = false;
        }
        proof {
            assert(names.deep_view()[i as int] == names@[i as int]@);
            if none_selected(name_mask, i as int) {
                lemma_joined_names_empty(names.deep_view(), name_mask, i as int);
            }
            assert(result@ =~= joined_names(names.deep_view(), name_mask, i as int + 1));
        }
        i = i + 1;
    }
    result
}

/// A step's or total's cost in both units: the level unit first, then the
/// experience unit, as the configuration orders them.
pub open spec fn expanded_cost(cfg: Config, cost: int) -> (int, int) {
    if cfg.optimize_xp {
        (spec_level(cost), cost)
    } else {
        (cost, xp_sat(cost))
    }
}

/// Expresses a cost in both units: when the search optimized the
/// experience unit the level is recovered by conversion, otherwise the
/// experience value is derived from the level.
pub fn expand_cost(config: &Config, cost: u32) -> (r: (u32, u32))
    ensures
        (r.0 as int, r.1 as int) == expanded_cost(*config, cost as int),
{
    if config.optimize_xp {
        (calc_level(cost), cost)
    } else {
        (cost, calc_xp(cost))
    }
}

/// The decimal digit characters of a non-negative number.
pub open spec fn dec_digits(n: int) -> Seq<char>
    decreases n,
{
    if n < 10 {
        seq![digit_char(n)]
    } else {
        dec_digits(n / 10).push(digit_char(n % 10))
    }
}

/// The character for one decimal digit.
pub open spec fn digit_char(d: int) -> char {
    if d == 0 {
        '0'
    } else if d == 1 {
        '1'
    } else if d == 2 {
        '2'
    } else if d == 3 {
        '3'
    } else if d == 4 {
        '4'
    } else if d == 5 {
        '5'
    } else if d == 6 {
        '6'
    } else if d == 7 {
        '7'
    } else if d == 8 {
        '8'
    } else {
        '9'
    }
}

/// The one-character text of a decimal digit.
fn digit_str(d: u32) -> (r: &'static str)
    requires
        d < 10,
    ensures
        r@ == seq![digit_char(d as int)],
{
    proof {
        reveal_strlit("0");
        reveal_strlit("1");
        reveal_strlit("2");
        reveal_strlit("3");
        reveal_strlit("4");
        reveal_strlit("5");
        reveal_strlit("6");
        reveal_strlit("7");
        reveal_strlit("8");
        reveal_strlit("9");
    }
    match d {
        0 => "0",
        1 => "1",
        2 => "2",
        3 => "3",
        4 => "4",
        5 => "5",
        6 => "6",
        7 => "7",
        8 => "8",
        _ => "9",
    }
}

/// The decimal text of a number.
fn u32_string(n: u32) -> (r: String)
    ensures
        r@ == dec_digits(n as int),
    decreases n,
{
    if n < 10 {
        String::from_str(digit_str(n))
    } else {
        let mut s = u32_string(n / 10);
        s.append(digit_str(n % 10));
        proof {
            assert(s@ =~= dec_digits((n / 10) as int).push(digit_char((n % 10) as int)));
        }
        s
    }
}


/// One step's cost in both units.
pub open spec fn step_pair(cfg: Config, rec: TraceRecord) -> (int, int) {
    expanded_cost(cfg, merge_cost(cfg, rec.left, rec.right))
}

/// One rendered step line of the report.
pub open spec fn step_line(cfg: Config, names: Seq<Seq<char>>, idx: int, rec: TraceRecord) -> Seq<
    char,
> {
    let pair = step_pair(cfg, rec);
    dec_digits(idx + 1) + ". ["@ + joined_names(names, rec.left.name_mask, names.len() as int)
        + ": "@ + dec_digits(rec.left.value as int) + ","@ + dec_digits(
        spec_penalty(rec.left.work_count as nat),
    ) + "] + ["@ + joined_names(names, rec.right.name_mask, names.len() as int) + ": "@
        + dec_digits(rec.right.value as int) + ","@ + dec_digits(
        spec_penalty(rec.right.work_count as nat),
    ) + "] = "@ + dec_digits(pair.0) + " ("@ + dec_digits(pair.1) + "xp)\n"@
}

/// The first `k` rendered step lines.
pub open spec fn report_steps(cfg: Config, names: Seq<Seq<char>>, recs: Seq<TraceRecord>, k: int)
    -> Seq<char>
    decreases k,
{
    if k <= 0 {
        Seq::<char>::empty()
    } else {
        report_steps(cfg, names, recs, k - 1) + step_line(cfg, names, k - 1, recs[k - 1])
    }
}

/// The largest per-step experience cost among the first `k` steps.
pub open spec fn max_step_xp(cfg: Config, recs: Seq<TraceRecord>, k: int) -> int
    decreases k,
{
    if k <= 0 {
        0
    } else {
        let m = max_step_xp(cfg, recs, k - 1);
        let x = step_pair(cfg, recs[k - 1]).1;
        if x > m {
            x
        } else {
            m
        }
    }
}

/// The full report: one line per step, then the largest single-step cost
/// and the total along the winning path, each in both units.
pub open spec fn report_text(
    cfg: Config,
    names: Seq<Seq<char>>,
    recs: Seq<TraceRecord>,
    best: int,
) -> Seq<char> {
    let total = expanded_cost(cfg, best);
    let maxxp = max_step_xp(cfg, recs, recs.len() as int);
    report_steps(cfg, names, recs, recs.len() as int) + "\n"@ + "Max step cost: "@ + dec_digits(
        spec_level(maxxp),
    ) + " ("@ + dec_digits(maxxp) + "xp)\n"@ + "Total cost: "@ + dec_digits(total.0) + " ("@
        + dec_digits(total.1) + "xp)\n"@
}


/// Builds one step line of the report.
#[verifier::rlimit(100)]
fn step_line_string(
    config: &Config,
    names: &Vec<String>,
    idx: u32,
    rec: &TraceRecord,
    level_cost: u32,
    xp_cost: u32,
) -> (r: String)
    requires
        names@.len() <= 15,
        idx < 0xFFFF_FFFF,
        rec.left.work_count < 32,
        rec.right.work_count < 32,
        (level_cost as int, xp_cost as int) == step_pair(*config, *rec),
    ensures
        r@ == step_line(*config, names.deep_view(), idx as int, *rec),
{
    let mut result = String::new();
    result.append(u32_string(idx + 1).as_str());
    result.append(". [");
    let left_name = get_name(names, rec.left.name_mask);
    result.append(left_name.as_str());
    result.append(": ");
    result.append(u32_string(rec.left.value as u32).as_str());
    result.append(",");
    result.append(u32_string(calc_penalty(rec.left.work_count as u32)).as_str());
    result.append("] + [");
    let right_name = get_name(names, rec.right.name_mask);
    result.append(right_name.as_str());
    result.append(": ");
    result.append(u32_string(rec.right.value as u32).as_str());
    result.append(",");
    result.append(u32_string(calc_penalty(rec.right.work_count as u32)).as_str());
    result.append("] = ");
    result.append(u32_string(level_cost).as_str());
    result.append(" (");
    result.append(u32_string(xp_cost).as_str());
    result.append("xp)\n");
    proof {
        assert(result@ =~= step_line(*config, names.deep_view(), idx as int, *rec));
    }
    result
}

/// Renders the winning trace, recomputing each step's cost through the
/// merge operator rather than storing it twice.
#[verifier::rlimit(100)]
fn render_report(
    config: &Config,
    names: &Vec<String>,
    order: &Vec<TraceRecord>,
    best_cost: u32,
    Ghost(q0): Ghost<Seq<Piece>>,
) -> (r: String)
    requires
        names@.len() <= 15,
        bounded_queue(q0),
        completes(*config, q0.to_multiset(), order@),
    ensures
        r@ == report_text(*config, names.deep_view(), order@, best_cost as int),
{
    let ghost cfg = *config;
    proof {
        q0.to_multiset_ensures();
        lemma_bounded_queue_len(q0);
        if q0.len() > 0 {
            assert(q0[0].work_count + q0.len() <= 32);
        }
    }
    let mut result = String::new();
    let mut max_xp_cost: u32 = 0;
    let mut i: usize = 0;
    let ghost mut qk = q0;
    proof {
        assert(order@.skip(0) =~= order@);
        assert(result@ =~= report_steps(cfg, names.deep_view(), order@, 0));
    }
    while i < order.len()
        invariant
            i <= order@.len(),
            names@.len() <= 15,
            cfg == *config,
            order@.len() + 1 == q0.len(),
            q0.len() <= 32,
            bounded_queue(qk),
            qk.len() == q0.len() - i,
            valid_trace(cfg, qk.to_multiset(), order@.skip(i as int)),
            result@ == report_steps(cfg, names.deep_view(), order@, i as int),
            max_xp_cost == max_step_xp(cfg, order@, i as int),
        decreases order@.len() - i,
    {
        let rec = order[i];
        proof {
            qk.to_multiset_ensures();
            assert(order@.skip(i as int)[0] == rec);
            assert(order@.skip(i as int).len() > 0);
            assert(qk.to_multiset().count(rec.left) > 0);
            assert(qk.to_multiset().remove(rec.left).count(rec.right) > 0);
            lemma_index_pair_exists(qk, rec.left, rec.right);
        }
        let ghost (gi, gj): (int, int) = choose|gi: int, gj: int|
            0 <= gi < qk.len() && 0 <= gj < qk.len() && gi != gj && qk[gi] == rec.left && qk[gj]
                == rec.right;
        proof {
            lemma_sum_values_two(qk, gi, gj);
            lemma_sum_extras_two(qk, gi, gj);
            lemma_sum_values_nonneg(qk);
            lemma_sum_extras_nonneg(qk);
            assert(qk[gi].work_count + qk.len() <= 32);
            assert(qk[gj].work_count + qk.len() <= 32);
        }
        let (_combined, cost) = anvil(config, &rec.left, &rec.right);
        let (level_cost, xp_cost) = expand_cost(config, cost);
        if xp_cost > max_xp_cost {
            max_xp_cost = xp_cost;
        }
        let line = step_line_string(config, names, i as u32, &rec, level_cost, xp_cost);
        result.append(line.as_str());
        proof {
            assert(result@ == report_steps(cfg, names.deep_view(), order@, i as int + 1));
            lemma_reduced_queue(cfg, qk, gi, gj);
            let i1 = if gi < gj { gi } else { gj };
            let i2 = if gi < gj { gj } else { gi };
            let old_qk = qk;
            qk = qk.remove(i2).remove(i1).push(crate::piece::merged_piece(cfg, rec.left, rec.right));
            assert(qk.to_multiset() == reduced(cfg, old_qk.to_multiset(), rec.left, rec.right));
            assert(order@.skip(i as int).drop_first() =~= order@.skip(i as int + 1));
        }
        i = i + 1;
    }
    result.append("\n");
    result.append("Max step cost: ");
    result.append(u32_string(calc_level(max_xp_cost)).as_str());
    result.append(" (");
    result.append(u32_string(max_xp_cost).as_str());
    result.append("xp)\n");
    let (best_level, best_xp) = expand_cost(config, best_cost);
    result.append("Total cost: ");
    result.append(u32_string(best_level).as_str());
    result.append(" (");
    result.append(u32_string(best_xp).as_str());
    result.append("xp)\n");
    proof {
        assert(result@ =~= report_text(cfg, names.deep_view(), order@, best_cost as int));
    }
    result
}

/// The queue a report replay keeps is never larger than the piece bound
/// allows.
proof fn lemma_bounded_queue_len(q: Seq<Piece>)
    requires
        bounded_queue(q),
    ensures
        q.len() <= 32,
{
    if q.len() > 32 {
        assert(q[0].work_count + q.len() <= 32);
    }
}


/// All input entries, items first and books after, in input order.
pub open spec fn schema_entries(s: ConfigSchema) -> Seq<InputPiece> {
    s.input.items@ + s.input.books@
}

/// The piece built for input position `i`: a fresh identity bit one past
/// the kind bit, which is set for items and clear for books.
pub open spec fn init_piece(s: ConfigSchema, i: int) -> Piece {
    let es = schema_entries(s);
    let kind: nat = if i < s.input.items@.len() {
        1
    } else {
        0
    };
    Piece {
        name_mask: (pow2((i + 1) as nat) + kind) as u16,
        value: es[i].value,
        work_count: es[i].work_count,
        extra_cost: es[i].extra_cost,
    }
}

/// The initial working queue of a configuration.
pub open spec fn initial_pieces(s: ConfigSchema) -> Seq<Piece> {
    Seq::new(schema_entries(s).len(), |i: int| init_piece(s, i))
}

/// The display names of a configuration, in input order.
pub open spec fn schema_names(s: ConfigSchema) -> Seq<Seq<char>> {
    Seq::new(schema_entries(s).len(), |i: int| schema_entries(s)[i].name@)
}

/// Every entry's prior merge count stays within the supported window.
pub open spec fn work_counts_ok(s: ConfigSchema) -> bool {
    forall|j: int|
        0 <= j < schema_entries(s).len() ==> #[trigger] schema_entries(s)[j].work_count <= 20
}

/// The whole pipeline: builds the working queue from the parsed
/// configuration, guards the input against sizes the search cannot
/// support, runs the search, and renders the report.
///
/// Undersized, oversized and out-of-range inputs each yield their fixed
/// message; otherwise the report describes a cheapest merge order.
#[verifier::rlimit(100)]
#[verifier::loop_isolation(false)]
pub fn process(schema: ConfigSchema) -> (r: String)
    ensures
        ({
            let es = schema_entries(schema);
            let n = es.len() as int;
            let cfg = schema.config;
            let ms0 = initial_pieces(schema).to_multiset();
            &&& n > 12 ==> r@ == "Too many pieces: at most 12 are supported."@
            &&& (n <= 12 && n < 2) ==> r@ == "Nothing to merge: at least two pieces are needed."@
            &&& (2 <= n <= 12 && !work_counts_ok(schema)) ==> r@
                == "Work counts too large: at most 20 is supported."@
            &&& (2 <= n <= 12 && work_counts_ok(schema) && sum_values(initial_pieces(schema))
                > 255) ==> r@ == "Values too large: they must sum to at most 255."@
            &&& (2 <= n <= 12 && work_counts_ok(schema) && sum_values(initial_pieces(schema))
                <= 255 && sum_extras(initial_pieces(schema)) > 255) ==> r@
                == "Extra costs too large: they must sum to at most 255."@
            &&& (2 <= n <= 12 && work_counts_ok(schema) && sum_values(initial_pieces(schema))
                <= 255 && sum_extras(initial_pieces(schema)) <= 255) ==> {
                &&& (exists|recs: Seq<TraceRecord>|
                    completes(cfg, ms0, recs) && trace_cost(cfg, recs) <= COST_MAX) ==> (exists|
                    recs: Seq<TraceRecord>,
                |
                    {
                        &&& completes(cfg, ms0, recs)
                        &&& search_outcome(cfg, ms0, 0, COST_MAX as int, trace_cost(cfg, recs))
                        &&& r@ == report_text(
                            cfg,
                            schema_names(schema),
                            recs,
                            trace_cost(cfg, recs),
                        )
                    })
                &&& !(exists|recs: Seq<TraceRecord>|
                    completes(cfg, ms0, recs) && trace_cost(cfg, recs) <= COST_MAX) ==> r@
                    == "No merge order stays within the cost bound."@
            }
        }),
{
    let ghost s = schema;
    let config = schema.config;
    let items = schema.input.items;
    let books = schema.input.books;
    // each list is bounded on its own first, so the sum below cannot wrap
    if items.len() > 12 || books.len() > 12 {
        return String::from_str("Too many pieces: at most 12 are supported.");
    }
    let n = items.len() + books.len();
    proof {
        assert(schema_entries(s).len() == n);
    }
    if n > 12 {
        return String::from_str("Too many pieces: at most 12 are supported.");
    }
    if n < 2 {
        return String::from_str("Nothing to merge: at least two pieces are needed.");
    }
    let mut pieces: Vec<Piece> = Vec::new();
    let mut names: Vec<String> = Vec::new();
    let mut sum: u32 = 0;
    let mut esum: u32 = 0;
    let mut k: usize = 0;
    proof {
        vstd::arithmetic::power2::lemma2_to64();
        assert(pieces@ =~= initial_pieces(s).subrange(0, 0));
        assert(sum_values(pieces@) == 0);
        assert(sum_extras(pieces@) == 0);
    }
    while k < n
        invariant
            2 <= n <= 12,
            n == schema_entries(s).len(),
            items@ == s.input.items@,
            books@ == s.input.books@,
            n == items@.len() + books@.len(),
            k <= n,
            pieces@ == initial_pieces(s).subrange(0, k as int),
            names@.len() == k,
            forall|j: int| 0 <= j < k ==> #[trigger] names@[j]@ == schema_names(s)[j],
            sum == sum_values(pieces@),
            sum <= 255 * k,
            esum == sum_extras(pieces@),
            esum <= 255 * k,
            forall|j: int| 0 <= j < k ==> #[trigger] schema_entries(s)[j].work_count <= 20,
        decreases n - k,
    {
        let entry: &InputPiece = if k < items.len() {
            &items[k]
        } else {
            &books[k - items.len()]
        };
        let ptype: u16 = if k < items.len() {
            1
        } else {
            0
        };
        proof {
            if k < items@.len() {
                assert(schema_entries(s)[k as int] == items@[k as int]);
            } else {
                assert(schema_entries(s)[k as int] == books@[k as int - items@.len()]);
            }
        }
        if entry.work_count > 20 {
            proof {
                assert(schema_entries(s)[k as int].work_count > 20);
                assert(!work_counts_ok(s));
            }
            return String::from_str("Work counts too large: at most 20 is supported.");
        }
        sum = sum + entry.value as u32;
        esum = esum + entry.extra_cost as u32;
        let ghost old_names = names@;
        let cloned_name = entry.name.clone();
        proof {
            assert(cloned_name@ == schema_entries(s)[k as int].name@);
        }
        names.push(cloned_name);
        let shift: u16 = (k as u16) + 1;
        let mask_base: u16 = 1u16 << shift;
        let mask: u16 = mask_base | ptype;
        proof {
            vstd::arithmetic::power2::lemma2_to64();
            if shift < 13 {
                vstd::arithmetic::power2::lemma_pow2_strictly_increases(shift as nat, 13);
            }
            lemma_u16_shl_is_mul(1u16, shift);
            assert(mask_base == pow2(shift as nat));
            assert(((1u16 << shift) | 1) == (1u16 << shift) + 1) by (bit_vector)
                requires
                    1 <= shift < 16,
            ;
            assert((mask_base | 0) == mask_base) by (bit_vector);
        }
        let piece = Piece {
            name_mask: mask,
            value: entry.value,
            work_count: entry.work_count,
            extra_cost: entry.extra_cost,
        };
        pieces.push(piece);
        proof {
            assert(piece == init_piece(s, k as int));
            assert(pieces@ =~= initial_pieces(s).subrange(0, k as int + 1));
            assert(names@ == old_names.push(cloned_name));
            lemma_sum_values_push(pieces@.drop_last(), piece);
            lemma_sum_extras_push(pieces@.drop_last(), piece);
            assert(pieces@.drop_last() =~= initial_pieces(s).subrange(0, k as int));
            assert(pieces@.drop_last().push(piece) =~= pieces@);
        }
        k = k + 1;
    }
    proof {
        assert(pieces@ =~= initial_pieces(s));
        assert forall|j: int| 0 <= j < n implies names.deep_view()[j] == schema_names(s)[j] by {
            assert(names.deep_view()[j] == names@[j]@);
        }
        assert(names.deep_view() =~= schema_names(s));
        assert(names.deep_view() == schema_names(s));
        assert(work_counts_ok(s));
    }
    if sum > 255 {
        return String::from_str("Values too large: they must sum to at most 255.");
    }
    if esum > 255 {
        return String::from_str("Extra costs too large: they must sum to at most 255.");
    }
    proof {
        assert(bounded_queue(pieces@)) by {
            assert forall|j: int| 0 <= j < pieces@.len() implies #[trigger] pieces@[j].work_count
                + pieces@.len() <= 32 by {
                assert(pieces@[j] == init_piece(s, j));
                assert(schema_entries(s)[j].work_count <= 20);
            }
        }
    }
    let trace: Vec<TraceRecord> = Vec::new();
    let mut null_paths = NullPathSet::new();
    let (best_cost, best_order) = solve(&config, &mut null_paths, &pieces, 0, 4_294_967_295, &trace);
    let ghost ms0 = initial_pieces(s).to_multiset();
    proof {
        assert(pieces@.to_multiset() == ms0);
    }
    match best_order {
        None => {
            proof {
                assert(!(exists|recs: Seq<TraceRecord>|
                    completes(config, ms0, recs) && trace_cost(config, recs) <= COST_MAX));
            }
            String::from_str("No merge order stays within the cost bound.")
        },
        Some(order) => {
            proof {
                assert(order@.skip(0) =~= order@);
                assert(completes(config, ms0, order@));
            }
            let report = render_report(&config, &names, &order, best_cost, Ghost(pieces@));
            proof {
                assert(trace_cost(config, order@) == best_cost);
                assert(search_outcome(config, ms0, 0, COST_MAX as int, trace_cost(config, order@)));
                assert(report@ == report_text(config, schema_names(s), order@, trace_cost(
                    config,
                    order@,
                )));
            }
            report
        },
    }
}

} // verus!

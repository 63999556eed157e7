//! The branch-and-bound search over merge orders, with dead-state
//! memoization.
//!
//! A working set of pieces is modelled as the multiset of its elements; a
//! completion is a sequence of trace records that merges the set down to a
//! single piece. The solver's contract pins the returned cost as the
//! cheapest completion within the caller's bound, so the memo table is
//! provably invisible in the result.

use vstd::prelude::*;
use vstd::multiset::Multiset;
use vstd::multiset::group_multiset_axioms;
use vstd::seq_lib::group_to_multiset_ensures;
use crate::piece::{
    Piece, TraceRecord, Config, is_book, merged_piece, merge_cost, anvil, lemma_merge_cost_nonneg,
};

verus! {

/// A book may never absorb an item: the left operand of a merge must not be
/// a book when the right operand is an item.
pub open spec fn kind_ok(left: Piece, right: Piece) -> bool {
    !(is_book(left) && !is_book(right))
}

/// Book-with-book merges are only explored in ascending value order; the
/// optimal book order never needs the descending pairs.
pub open spec fn cut_ok(left: Piece, right: Piece) -> bool {
    !(is_book(left) && right.value > left.value)
}

/// The pairs the search explores.
pub open spec fn eligible(left: Piece, right: Piece) -> bool {
    kind_ok(left, right) && cut_ok(left, right)
}

/// The working set after merging `left` and `right`: both leave, their
/// merge result enters.
pub open spec fn reduced(cfg: Config, m: Multiset<Piece>, left: Piece, right: Piece) -> Multiset<
    Piece,
> {
    m.remove(left).remove(right).insert(merged_piece(cfg, left, right))
}

/// The records describe merges that can be applied to the working set in
/// order: each step's operands are present and form an eligible pair.
pub open spec fn valid_trace(cfg: Config, m: Multiset<Piece>, recs: Seq<TraceRecord>) -> bool
    decreases recs.len(),
{
    recs.len() == 0 || {
        let rec = recs[0];
        &&& m.count(rec.left) > 0
        &&& m.remove(rec.left).count(rec.right) > 0
        &&& eligible(rec.left, rec.right)
        &&& valid_trace(cfg, reduced(cfg, m, rec.left, rec.right), recs.drop_first())
    }
}

/// The total cost charged along a sequence of merges.
pub open spec fn trace_cost(cfg: Config, recs: Seq<TraceRecord>) -> int
    decreases recs.len(),
{
    if recs.len() == 0 {
        0
    } else {
        merge_cost(cfg, recs[0].left, recs[0].right) + trace_cost(cfg, recs.drop_first())
    }
}

/// The records merge the whole working set into a single piece.
pub open spec fn completes(cfg: Config, m: Multiset<Piece>, recs: Seq<TraceRecord>) -> bool {
    valid_trace(cfg, m, recs) && m.len() == recs.len() + 1
}

/// Sum of the values held in a working queue.
pub open spec fn sum_values(q: Seq<Piece>) -> int
    decreases q.len(),
{
    if q.len() == 0 {
        0
    } else {
        q[0].value + sum_values(q.drop_first())
    }
}

/// Sum of the flat surcharges held in a working queue.
pub open spec fn sum_extras(q: Seq<Piece>) -> int
    decreases q.len(),
{
    if q.len() == 0 {
        0
    } else {
        q[0].extra_cost + sum_extras(q.drop_first())
    }
}

/// The bounds under which every merge order stays within machine words:
/// the values and the surcharges each sum to at most one byte, and no
/// piece can be merged often enough to push its work penalty past thirty
/// doublings.
pub open spec fn bounded_queue(q: Seq<Piece>) -> bool {
    &&& sum_values(q) <= 255
    &&& sum_extras(q) <= 255
    &&& forall|i: int| 0 <= i < q.len() ==> #[trigger] q[i].work_count + q.len() <= 32
}

/// One memoized dead state: a canonical working set and the running cost it
/// was reached with.
pub struct NullPath {
    pub pieces: Vec<Piece>,
    pub total: u32,
}

/// The set of dead states: states proven to admit no completion within the
/// best bound known when they were recorded.
pub struct NullPathSet {
    pub entries: Vec<NullPath>,
}

/// What a recorded dead state means: no completion of that working set
/// finishes within `best` of its recorded running cost.
pub open spec fn entry_ok(cfg: Config, e: NullPath, best: int) -> bool {
    forall|recs: Seq<TraceRecord>|
        #[trigger] completes(cfg, e.pieces@.to_multiset(), recs) ==> e.total + trace_cost(
            cfg,
            recs,
        ) > best
}

/// Every recorded dead state is dead with respect to the current best
/// bound. The bound only ever shrinks, so entries stay valid.
pub open spec fn memo_ok(cfg: Config, m: NullPathSet, best: int) -> bool {
    forall|i: int| 0 <= i < m.entries@.len() ==> entry_ok(cfg, #[trigger] m.entries@[i], best)
}

impl NullPathSet {
    /// An empty memo table, valid for any bound.
    pub fn new() -> (r: NullPathSet)
        ensures
            r.entries@.len() == 0,
            forall|cfg: Config, best: int| memo_ok(cfg, r, best),
    {
        NullPathSet { entries: Vec::new() }
    }
}

/// A shrunken bound keeps every dead state dead.
pub proof fn lemma_memo_ok_mono(cfg: Config, m: NullPathSet, b1: int, b2: int)
    requires
        memo_ok(cfg, m, b1),
        b2 <= b1,
    ensures
        memo_ok(cfg, m, b2),
{
    assert forall|i: int| 0 <= i < m.entries@.len() implies entry_ok(
        cfg,
        #[trigger] m.entries@[i],
        b2,
    ) by {
        assert(entry_ok(cfg, m.entries@[i], b1));
        assert forall|recs: Seq<TraceRecord>|
            #[trigger] completes(cfg, m.entries@[i].pieces@.to_multiset(), recs) implies m.entries@[
            i].total + trace_cost(cfg, recs) > b2 by {
            assert(m.entries@[i].total + trace_cost(cfg, recs) > b1);
        }
    }
}

/// Costs only accumulate: no sequence of merges has negative total cost.
pub proof fn lemma_trace_cost_nonneg(cfg: Config, recs: Seq<TraceRecord>)
    ensures
        trace_cost(cfg, recs) >= 0,
    decreases recs.len(),
{
    if recs.len() > 0 {
        lemma_merge_cost_nonneg(cfg, recs[0].left, recs[0].right);
        lemma_trace_cost_nonneg(cfg, recs.drop_first());
    }
}

/// Values are non-negative, so the sum of a queue is too.
pub proof fn lemma_sum_values_nonneg(q: Seq<Piece>)
    ensures
        sum_values(q) >= 0,
    decreases q.len(),
{
    if q.len() > 0 {
        lemma_sum_values_nonneg(q.drop_first());
    }
}

/// Removing a piece takes exactly its value out of the sum.
pub proof fn lemma_sum_values_remove(q: Seq<Piece>, i: int)
    requires
        0 <= i < q.len(),
    ensures
        sum_values(q.remove(i)) == sum_values(q) - q[i].value,
    decreases q.len(),
{
    if i == 0 {
        assert(q.remove(0) =~= q.drop_first());
    } else {
        assert(q.remove(i).drop_first() =~= q.drop_first().remove(i - 1));
        lemma_sum_values_remove(q.drop_first(), i - 1);
        assert(q.remove(i)[0] == q[0]);
    }
}

/// Appending a piece adds exactly its value to the sum.
pub proof fn lemma_sum_values_push(q: Seq<Piece>, p: Piece)
    ensures
        sum_values(q.push(p)) == sum_values(q) + p.value,
    decreases q.len(),
{
    assert(q.push(p).len() == q.len() + 1);
    assert(sum_values(q.push(p)) == q.push(p)[0].value + sum_values(q.push(p).drop_first()));
    if q.len() == 0 {
        assert(q.push(p)[0] == p);
        assert(q.push(p).drop_first() =~= Seq::<Piece>::empty());
        assert(sum_values(q.push(p).drop_first()) == 0);
    } else {
        assert(q.push(p).drop_first() =~= q.drop_first().push(p));
        lemma_sum_values_push(q.drop_first(), p);
        assert(q.push(p)[0] == q[0]);
    }
}

/// A single piece never exceeds the sum of its queue.
pub proof fn lemma_sum_values_elem(q: Seq<Piece>, i: int)
    requires
        0 <= i < q.len(),
    ensures
        q[i].value <= sum_values(q),
{
    lemma_sum_values_remove(q, i);
    lemma_sum_values_nonneg(q.remove(i));
}

/// Two distinct pieces never exceed the sum of their queue together.
pub proof fn lemma_sum_values_two(q: Seq<Piece>, i: int, j: int)
    requires
        0 <= i < q.len(),
        0 <= j < q.len(),
        i != j,
    ensures
        q[i].value + q[j].value <= sum_values(q),
{
    lemma_sum_values_remove(q, i);
    let qi = q.remove(i);
    let j2 = if j < i {
        j
    } else {
        j - 1
    };
    assert(qi[j2] == q[j]);
    lemma_sum_values_elem(qi, j2);
}

/// Surcharges are non-negative, so the sum of a queue is too.
pub proof fn lemma_sum_extras_nonneg(q: Seq<Piece>)
    ensures
        sum_extras(q) >= 0,
    decreases q.len(),
{
    if q.len() > 0 {
        lemma_sum_extras_nonneg(q.drop_first());
    }
}

/// Removing a piece takes exactly its surcharge out of the sum.
pub proof fn lemma_sum_extras_remove(q: Seq<Piece>, i: int)
    requires
        0 <= i < q.len(),
    ensures
        sum_extras(q.remove(i)) == sum_extras(q) - q[i].extra_cost,
    decreases q.len(),
{
    if i == 0 {
        assert(q.remove(0) =~= q.drop_first());
    } else {
        assert(q.remove(i).drop_first() =~= q.drop_first().remove(i - 1));
        lemma_sum_extras_remove(q.drop_first(), i - 1);
        assert(q.remove(i)[0] == q[0]);
    }
}

/// Appending a piece adds exactly its surcharge to the sum.
pub proof fn lemma_sum_extras_push(q: Seq<Piece>, p: Piece)
    ensures
        sum_extras(q.push(p)) == sum_extras(q) + p.extra_cost,
    decreases q.len(),
{
    assert(q.push(p).len() == q.len() + 1);
    assert(sum_extras(q.push(p)) == q.push(p)[0].extra_cost + sum_extras(q.push(p).drop_first()));
    if q.len() == 0 {
        assert(q.push(p)[0] == p);
        assert(q.push(p).drop_first() =~= Seq::<Piece>::empty());
        assert(sum_extras(q.push(p).drop_first()) == 0);
    } else {
        assert(q.push(p).drop_first() =~= q.drop_first().push(p));
        lemma_sum_extras_push(q.drop_first(), p);
        assert(q.push(p)[0] == q[0]);
    }
}

/// Two distinct pieces never exceed the surcharge sum of their queue
/// together.
pub proof fn lemma_sum_extras_two(q: Seq<Piece>, i: int, j: int)
    requires
        0 <= i < q.len(),
        0 <= j < q.len(),
        i != j,
    ensures
        q[i].extra_cost + q[j].extra_cost <= sum_extras(q),
{
    lemma_sum_extras_remove(q, i);
    let qi = q.remove(i);
    let j2 = if j < i {
        j
    } else {
        j - 1
    };
    assert(qi[j2] == q[j]);
    lemma_sum_extras_remove(qi, j2);
    lemma_sum_extras_nonneg(qi.remove(j2));
}

/// Two distinct positions witness that the multiset holds both pieces, one
/// even after the other is taken out.
pub proof fn lemma_pair_in_multiset(q: Seq<Piece>, i: int, j: int)
    requires
        0 <= i < q.len(),
        0 <= j < q.len(),
        i != j,
    ensures
        q.to_multiset().count(q[i]) > 0,
        q.to_multiset().remove(q[i]).count(q[j]) > 0,
{
    broadcast use group_to_multiset_ensures;

    assert(q.contains(q[i]));
    let qi = q.remove(i);
    let j2 = if j < i {
        j
    } else {
        j - 1
    };
    assert(qi[j2] == q[j]);
    assert(qi.contains(q[j]));
    assert(qi.to_multiset() == q.to_multiset().remove(q[i]));
}

/// Conversely, if the multiset holds a piece, and another once the first is
/// taken out, the queue holds them at two distinct positions.
pub proof fn lemma_index_pair_exists(q: Seq<Piece>, a: Piece, b: Piece)
    requires
        q.to_multiset().count(a) > 0,
        q.to_multiset().remove(a).count(b) > 0,
    ensures
        exists|i: int, j: int|
            0 <= i < q.len() && 0 <= j < q.len() && i != j && q[i] == a && q[j] == b,
{
    broadcast use group_to_multiset_ensures;

    assert(q.contains(a));
    let i = choose|i: int| 0 <= i < q.len() && q[i] == a;
    let qi = q.remove(i);
    assert(qi.to_multiset() == q.to_multiset().remove(a));
    assert(qi.contains(b));
    let j2 = choose|j: int| 0 <= j < qi.len() && qi[j] == b;
    let j = if j2 < i {
        j2
    } else {
        j2 + 1
    };
    assert(q[j] == b);
    assert(0 <= i < q.len() && 0 <= j < q.len() && i != j && q[i] == a && q[j] == b);
}

/// Prepending a legal first merge onto a valid tail gives a valid trace,
/// whose cost adds that step's cost.
pub proof fn lemma_trace_cons(cfg: Config, m: Multiset<Piece>, rec: TraceRecord, tail: Seq<
    TraceRecord,
>)
    requires
        m.count(rec.left) > 0,
        m.remove(rec.left).count(rec.right) > 0,
        eligible(rec.left, rec.right),
        valid_trace(cfg, reduced(cfg, m, rec.left, rec.right), tail),
    ensures
        valid_trace(cfg, m, seq![rec] + tail),
        trace_cost(cfg, seq![rec] + tail) == merge_cost(cfg, rec.left, rec.right) + trace_cost(
            cfg,
            tail,
        ),
{
    let recs = seq![rec] + tail;
    assert(recs[0] == rec);
    assert(recs.drop_first() =~= tail);
}

/// The queue built by dropping the two merged positions and appending their
/// merge result: its multiset is the reduced working set, and it stays
/// within the engine's bounds.
pub proof fn lemma_reduced_queue(cfg: Config, q: Seq<Piece>, i: int, j: int)
    requires
        0 <= i < q.len(),
        0 <= j < q.len(),
        i != j,
        q.len() >= 2,
        bounded_queue(q),
    ensures
        ({
            let i1 = if i < j { i } else { j };
            let i2 = if i < j { j } else { i };
            let m = merged_piece(cfg, q[i], q[j]);
            let nq = q.remove(i2).remove(i1).push(m);
            &&& nq.to_multiset() == reduced(cfg, q.to_multiset(), q[i], q[j])
            &&& nq.len() == q.len() - 1
            &&& bounded_queue(nq)
        }),
{
    broadcast use group_to_multiset_ensures;

    let i1 = if i < j { i } else { j };
    let i2 = if i < j { j } else { i };
    let m = merged_piece(cfg, q[i], q[j]);
    let q2 = q.remove(i2);
    let q1 = q2.remove(i1);
    let nq = q1.push(m);

    // The merged value and surcharge do not truncate: both operands fit in
    // the byte sums.
    lemma_sum_values_two(q, i, j);
    lemma_sum_values_nonneg(q);
    assert(q[i].value + q[j].value <= 255);
    lemma_sum_extras_two(q, i, j);
    lemma_sum_extras_nonneg(q);
    assert(q[i].extra_cost + q[j].extra_cost <= 255);

    // Multiset of the rebuilt queue.
    assert(q2[i1] == q[i1]);
    assert(q2.to_multiset() == q.to_multiset().remove(q[i2]));
    assert(q1.to_multiset() == q2.to_multiset().remove(q[i1]));
    assert(nq.to_multiset() == q1.to_multiset().insert(m));
    assert(q.to_multiset().remove(q[i2]).remove(q[i1]) =~= q.to_multiset().remove(q[i]).remove(
        q[j],
    ));

    // Length.
    assert(nq.len() == q.len() - 1);

    // The sums of values and surcharges are preserved.
    lemma_sum_values_remove(q, i2);
    lemma_sum_values_remove(q2, i1);
    lemma_sum_values_push(q1, m);
    assert(m.value == q[i].value + q[j].value);
    assert(sum_values(nq) == sum_values(q));
    lemma_sum_extras_remove(q, i2);
    lemma_sum_extras_remove(q2, i1);
    lemma_sum_extras_push(q1, m);
    assert(m.extra_cost == q[i].extra_cost + q[j].extra_cost);
    assert(sum_extras(nq) == sum_extras(q));

    // Work counts stay under the shrinking ceiling.
    assert forall|k: int| 0 <= k < nq.len() implies #[trigger] nq[k].work_count + nq.len()
        <= 32 by {
        if k < nq.len() - 1 {
            let orig = if k < i1 {
                k
            } else if k + 1 < i2 {
                k + 1
            } else {
                k + 2
            };
            assert(nq[k] == q[orig]);
            assert(q[orig].work_count + q.len() <= 32);
        } else {
            assert(nq[k] == m);
            assert(q[i].work_count + q.len() <= 32);
            assert(q[j].work_count + q.len() <= 32);
        }
    }
}


/// Completions starting with the given ordered operand pair never finish
/// below `floor` on top of the running total.
pub open spec fn pair_ok(
    cfg: Config,
    m: Multiset<Piece>,
    left: Piece,
    right: Piece,
    total: int,
    floor: int,
) -> bool {
    forall|recs: Seq<TraceRecord>|
        #[trigger] completes(cfg, m, recs) && recs.len() > 0 && recs[0].left == left
            && recs[0].right == right ==> total + trace_cost(cfg, recs) >= floor
}

/// The floor the search has established so far: while no complete solution
/// has been adopted yet, every handled branch is strictly over the bound.
pub open spec fn search_floor(best: int, undecided: bool) -> int {
    if undecided {
        best + 1
    } else {
        best
    }
}

/// Lowering the floor keeps a handled pair handled.
pub proof fn lemma_pair_ok_weaken(
    cfg: Config,
    m: Multiset<Piece>,
    left: Piece,
    right: Piece,
    total: int,
    f1: int,
    f2: int,
)
    requires
        pair_ok(cfg, m, left, right, total, f1),
        f2 <= f1,
    ensures
        pair_ok(cfg, m, left, right, total, f2),
{
    assert forall|recs: Seq<TraceRecord>|
        #[trigger] completes(cfg, m, recs) && recs.len() > 0 && recs[0].left == left
            && recs[0].right == right implies total + trace_cost(cfg, recs) >= f2 by {
        assert(total + trace_cost(cfg, recs) >= f1);
    }
}

/// Plain copy of a piece queue.
fn copy_pieces(v: &Vec<Piece>) -> (r: Vec<Piece>)
    ensures
        r@ == v@,
{
    let mut r: Vec<Piece> = Vec::new();
    let mut i: usize = 0;
    while i < v.len()
        invariant
            i <= v@.len(),
            r@ == v@.subrange(0, i as int),
        decreases v@.len() - i,
    {
        r.push(v[i]);
        proof {
            assert(r@ =~= v@.subrange(0, i + 1));
        }
        i = i + 1;
    }
    proof {
        assert(r@ =~= v@);
    }
    r
}

/// Plain copy of a trace.
fn copy_records(v: &Vec<TraceRecord>) -> (r: Vec<TraceRecord>)
    ensures
        r@ == v@,
{
    let mut r: Vec<TraceRecord> = Vec::new();
    let mut i: usize = 0;
    while i < v.len()
        invariant
            i <= v@.len(),
            r@ == v@.subrange(0, i as int),
        decreases v@.len() - i,
    {
        r.push(v[i]);
        proof {
            assert(r@ =~= v@.subrange(0, i + 1));
        }
        i = i + 1;
    }
    proof {
        assert(r@ =~= v@);
    }
    r
}

/// Element-wise equality of two piece queues.
fn pieces_equal(a: &Vec<Piece>, b: &Vec<Piece>) -> (r: bool)
    ensures
        r <==> a@ == b@,
{
    if a.len() != b.len() {
        return false;
    }
    let mut i: usize = 0;
    while i < a.len()
        invariant
            i <= a@.len(),
            a@.len() == b@.len(),
            forall|k: int| 0 <= k < i ==> a@[k] == b@[k],
        decreases a@.len() - i,
    {
        if !(a[i] == b[i]) {
            proof {
                assert(a@[i as int] != b@[i as int]);
            }
            return false;
        }
        i = i + 1;
    }
    proof {
        assert(a@ =~= b@);
    }
    true
}

/// Whether a piece descends from books alone.
fn piece_is_book(p: &Piece) -> (r: bool)
    ensures
        r == is_book(*p),
{
    p.name_mask & 1 == 0
}

/// The fixed sort key of a piece: value first, then work count, then the
/// identity mask.
fn piece_key(p: &Piece) -> (r: u32)
    ensures
        r == (p.value as int) * 0x100_0000 + (p.work_count as int) * 0x1_0000 + (
        p.name_mask as int),
{
    (p.value as u32) * 0x100_0000 + (p.work_count as u32) * 0x1_0000 + (p.name_mask as u32)
}

/// The canonical form of a working set: the same pieces, fused into a fixed
/// sort order so that two orderings of one set share a single form.
fn canonical_key(queue: &Vec<Piece>) -> (r: Vec<Piece>)
    ensures
        r@.to_multiset() == queue@.to_multiset(),
{
    broadcast use group_to_multiset_ensures;
    broadcast use group_multiset_axioms;

    let mut work = copy_pieces(queue);
    let mut out: Vec<Piece> = Vec::new();
    while work.len() > 0
        invariant
            out@.to_multiset().add(work@.to_multiset()) == queue@.to_multiset(),
        decreases work@.len(),
    {
        let mut mi: usize = 0;
        let mut k: usize = 1;
        while k < work.len()
            invariant
                mi < work@.len(),
                k <= work@.len(),
            decreases work@.len() - k,
        {
            if piece_key(&work[k]) < piece_key(&work[mi]) {
                mi = k;
            }
            k = k + 1;
        }
        let ghost old_work = work@;
        let ghost old_out = out@;
        let p = work.remove(mi);
        out.push(p);
        proof {
            broadcast use group_multiset_axioms;

            old_work.to_multiset_ensures();
            old_out.to_multiset_ensures();
            assert(old_work.contains(p));
            assert(work@ == old_work.remove(mi as int));
            vstd::seq_lib::to_multiset_remove(old_work, mi as int);
            vstd::seq_lib::to_multiset_build(old_out, p);
            assert(out@ == old_out.push(p));
            assert(work@.to_multiset() == old_work.to_multiset().remove(p));
            assert(out@.to_multiset() =~= old_out.to_multiset().insert(p));
            assert(old_work.to_multiset().count(p) > 0);
            assert(out@.to_multiset().add(work@.to_multiset()) =~= old_out.to_multiset().add(
                old_work.to_multiset(),
            ));
        }
    }
    proof {
        broadcast use group_multiset_axioms;

        work@.to_multiset_ensures();
        assert(work@.to_multiset() =~= Multiset::<Piece>::empty());
        assert(out@.to_multiset().add(work@.to_multiset()) =~= out@.to_multiset());
    }
    out
}


/// The branch-and-bound search: explores every eligible ordered pair of the
/// working queue as the next merge, recurses on the reduced queue, prunes
/// branches that cannot beat the bound, and memoizes dead states.
///
/// The returned cost is the cheapest completion of the queue within the
/// caller's bound -- or the bound itself, untouched, when no completion
/// fits under it -- and the returned trace extends `trace` with merge
/// records achieving exactly that cost. The memo table's contents never
/// influence the result, only the time taken to find it.
#[verifier::rlimit(50)]
#[verifier::loop_isolation(false)]
pub fn solve(
    config: &Config,
    null_paths: &mut NullPathSet,
    queue: &Vec<Piece>,
    total_cost: u32,
    best_cost: u32,
    trace: &Vec<TraceRecord>,
) -> (r: (u32, Option<Vec<TraceRecord>>))
    requires
        queue@.len() >= 2,
        bounded_queue(queue@),
        memo_ok(*config, *old(null_paths), best_cost as int),
    ensures
        r.0 <= best_cost,
        memo_ok(*config, *final(null_paths), r.0 as int),
        match r.1 {
            Some(tr) => {
                &&& tr@.len() == trace@.len() + queue@.len() - 1
                &&& tr@.subrange(0, trace@.len() as int) == trace@
                &&& completes(*config, queue@.to_multiset(), tr@.skip(trace@.len() as int))
                &&& total_cost + trace_cost(*config, tr@.skip(trace@.len() as int)) == r.0
            },
            None => r.0 == best_cost,
        },
        (r.1 is Some) <==> exists|recs: Seq<TraceRecord>|
            completes(*config, queue@.to_multiset(), recs) && total_cost + trace_cost(
                *config,
                recs,
            ) <= best_cost,
        forall|recs: Seq<TraceRecord>|
            completes(*config, queue@.to_multiset(), recs) ==> r.0 <= total_cost + trace_cost(
                *config,
                recs,
            ),
        search_outcome(
            *config,
            queue@.to_multiset(),
            total_cost as int,
            best_cost as int,
            r.0 as int,
        ),
    decreases queue@.len(),
{
    let ghost cfg = *config;
    let ghost q = queue@;
    let ghost ms = queue@.to_multiset();
    proof {
        q.to_multiset_ensures();
        assert(ms.len() == q.len());
    }
    let n = queue.len();

    // Dead-state lookup: an exact hit proves no completion fits the bound.
    let key = canonical_key(queue);
    let ghost keyv = key@;
    let mut mi: usize = 0;
    while mi < null_paths.entries.len()
        invariant
            *null_paths == *old(null_paths),
            mi <= null_paths.entries@.len(),
        decreases null_paths.entries@.len() - mi,
    {
        if null_paths.entries[mi].total == total_cost && pieces_equal(
            &null_paths.entries[mi].pieces,
            &key,
        ) {
            proof {
                assert(memo_ok(cfg, *null_paths, best_cost as int));
                let e = null_paths.entries@[mi as int];
                assert(entry_ok(cfg, e, best_cost as int));
                assert(e.pieces@ == keyv);
                assert(e.pieces@.to_multiset() == ms);
                assert forall|recs: Seq<TraceRecord>| #[trigger]
                    completes(cfg, ms, recs) implies total_cost + trace_cost(cfg, recs)
                    > best_cost by {
                    assert(completes(cfg, e.pieces@.to_multiset(), recs));
                }
            }
            return (best_cost, None);
        }
        mi = mi + 1;
    }

    let mut best: u32 = best_cost;
    let mut best_trace: Option<Vec<TraceRecord>> = None;
    let mut o1: usize = 0;
    while o1 < n
        invariant
            n == q.len(),
            q == queue@,
            ms == q.to_multiset(),
            ms.len() == q.len(),
            2 <= n,
            bounded_queue(q),
            cfg == *config,
            best <= best_cost,
            memo_ok(cfg, *null_paths, best as int),
            o1 <= n,
            match best_trace {
                None => best == best_cost,
                Some(tr) => {
                    &&& tr@.len() == trace@.len() + q.len() - 1
                    &&& tr@.subrange(0, trace@.len() as int) == trace@
                    &&& completes(cfg, ms, tr@.skip(trace@.len() as int))
                    &&& total_cost + trace_cost(cfg, tr@.skip(trace@.len() as int)) == best
                },
            },
            forall|a: int, b: int|
                0 <= a < o1 && 0 <= b < q.len() && a != b ==> #[trigger] pair_ok(
                    cfg,
                    ms,
                    q[a],
                    q[b],
                    total_cost as int,
                    search_floor(best as int, best_trace is None),
                ),
        decreases n - o1,
    {
        let mut o2: usize = 0;
        while o2 < n
            invariant
                n == q.len(),
                q == queue@,
                ms == q.to_multiset(),
                ms.len() == q.len(),
                2 <= n,
                bounded_queue(q),
                cfg == *config,
                best <= best_cost,
                memo_ok(cfg, *null_paths, best as int),
                o1 < n,
                o2 <= n,
                match best_trace {
                    None => best == best_cost,
                    Some(tr) => {
                        &&& tr@.len() == trace@.len() + q.len() - 1
                        &&& tr@.subrange(0, trace@.len() as int) == trace@
                        &&& completes(cfg, ms, tr@.skip(trace@.len() as int))
                        &&& total_cost + trace_cost(cfg, tr@.skip(trace@.len() as int)) == best
                    },
                },
                forall|a: int, b: int|
                    0 <= a < o1 && 0 <= b < q.len() && a != b ==> #[trigger] pair_ok(
                        cfg,
                        ms,
                        q[a],
                        q[b],
                        total_cost as int,
                        search_floor(best as int, best_trace is None),
                    ),
                forall|b: int|
                    0 <= b < o2 && b != o1 ==> #[trigger] pair_ok(
                        cfg,
                        ms,
                        q[o1 as int],
                        q[b],
                        total_cost as int,
                        search_floor(best as int, best_trace is None),
                    ),
            decreases n - o2,
        {
            if o2 != o1 {
                let left = queue[o1];
                let right = queue[o2];
                let ghost gl = q[o1 as int];
                let ghost gr = q[o2 as int];
                let lbook = piece_is_book(&left);
                let rbook = piece_is_book(&right);
                if (lbook && !rbook) || (lbook && right.value > left.value) {
                    // An ineligible pair heads no completion at all.
                    proof {
                        let floor = search_floor(best as int, best_trace is None);
                        assert(!eligible(gl, gr));
                        assert forall|recs: Seq<TraceRecord>|
                            #[trigger] completes(cfg, ms, recs) && recs.len() > 0 && recs[0].left
                                == gl && recs[0].right == gr implies total_cost + trace_cost(
                            cfg,
                            recs,
                        ) >= floor by {
                            assert(valid_trace(cfg, ms, recs));
                            assert(eligible(recs[0].left, recs[0].right));
                        }
                        assert(pair_ok(cfg, ms, gl, gr, total_cost as int, floor));
                    }
                } else {
                    proof {
                        lemma_sum_values_two(q, o1 as int, o2 as int);
                        lemma_sum_extras_two(q, o1 as int, o2 as int);
                        lemma_sum_values_nonneg(q);
                        lemma_sum_extras_nonneg(q);
                        assert(q[o1 as int].work_count + q.len() <= 32);
                        assert(q[o2 as int].work_count + q.len() <= 32);
                        assert(eligible(gl, gr));
                    }
                    let (combined, cost) = anvil(config, &left, &right);
                    if (total_cost as u64) + (cost as u64) > (best as u64) {
                        // Pruned: even this first step exceeds the bound.
                        proof {
                            let floor = search_floor(best as int, best_trace is None);
                            assert forall|recs: Seq<TraceRecord>|
                                #[trigger] completes(cfg, ms, recs) && recs.len() > 0 && recs[0].left
                                    == gl && recs[0].right == gr implies total_cost + trace_cost(
                                cfg,
                                recs,
                            ) >= floor by {
                                let tail = recs.drop_first();
                                assert(trace_cost(cfg, recs) == merge_cost(cfg, gl, gr)
                                    + trace_cost(cfg, tail));
                                lemma_trace_cost_nonneg(cfg, tail);
                            }
                            assert(pair_ok(cfg, ms, gl, gr, total_cost as int, floor));
                        }
                    } else {
                        let t2 = total_cost + cost;
                        let i1 = if o1 < o2 { o1 } else { o2 };
                        let i2 = if o1 < o2 { o2 } else { o1 };
                        let mut nq = copy_pieces(queue);
                        let _removed_high = nq.remove(i2);
                        let _removed_low = nq.remove(i1);
                        nq.push(combined);
                        proof {
                            lemma_reduced_queue(cfg, q, o1 as int, o2 as int);
                            lemma_pair_in_multiset(q, o1 as int, o2 as int);
                            nq@.to_multiset_ensures();
                        }
                        let ghost ms2 = nq@.to_multiset();
                        proof {
                            assert(ms2 == reduced(cfg, ms, gl, gr));
                            assert(nq@.len() == n - 1);
                            assert(bounded_queue(nq@));
                        }
                        let rec = TraceRecord { left, right };
                        let ghost old_best = best as int;
                        let ghost old_none = best_trace is None;
                        if nq.len() > 1 {
                            let mut new_trace = copy_records(trace);
                            new_trace.push(rec);
                            let (rc, rt) = solve(config, null_paths, &nq, t2, best, &new_trace);
                            let ghost rtg = rt;
                            let ghost rcg = rc as int;
                            if best_trace.is_none() || rc < best {
                                best = rc;
                                best_trace = rt;
                            }
                            proof {
                                lemma_memo_ok_mono(cfg, *null_paths, rcg, best as int);
                                let floor = search_floor(best as int, best_trace is None);
                                let old_floor = search_floor(old_best, old_none);
                                // The bound never grows, and the undecided
                                // floor only drops once a solution exists.
                                if rtg is None {
                                    assert(rcg == old_best);
                                }
                                assert(best <= old_best);
                                assert(floor <= old_floor);
                                // The adopted trace, if any, extends ours.
                                if best_trace is Some {
                                    let trv = best_trace->Some_0;
                                    if old_none || rcg < old_best {
                                        assert(trv@.subrange(0, new_trace@.len() as int)
                                            == new_trace@);
                                        assert(new_trace@ == trace@.push(rec));
                                        assert forall|k: int| 0 <= k < trace@.len() implies trv@[k]
                                            == trace@[k] by {
                                            assert(trv@.subrange(0, new_trace@.len() as int)[k]
                                                == trv@[k]);
                                        }
                                        assert(trv@.subrange(0, trace@.len() as int) =~= trace@);
                                        let tail2 = trv@.skip(new_trace@.len() as int);
                                        assert(completes(cfg, ms2, tail2));
                                        assert(trv@[trace@.len() as int] == new_trace@[
                                            trace@.len() as int]);
                                        assert(trv@[trace@.len() as int] == rec);
                                        assert(trv@.skip(trace@.len() as int) =~= seq![rec]
                                            + tail2);
                                        lemma_trace_cons(cfg, ms, rec, tail2);
                                        assert(completes(cfg, ms, trv@.skip(trace@.len() as int)));
                                        assert(total_cost + trace_cost(
                                            cfg,
                                            trv@.skip(trace@.len() as int),
                                        ) == best);
                                    }
                                }
                                // This ordered pair is now handled.
                                assert forall|recs: Seq<TraceRecord>|
                                    #[trigger] completes(cfg, ms, recs) && recs.len() > 0
                                        && recs[0].left == gl && recs[0].right == gr implies
                                    total_cost + trace_cost(cfg, recs) >= floor by {
                                    let tail = recs.drop_first();
                                    assert(valid_trace(cfg, reduced(cfg, ms, gl, gr), tail));
                                    assert(completes(cfg, ms2, tail));
                                    assert(trace_cost(cfg, recs) == merge_cost(cfg, gl, gr)
                                        + trace_cost(cfg, tail));
                                    assert(rcg <= t2 + trace_cost(cfg, tail));
                                    if best_trace is None {
                                        assert(t2 + trace_cost(cfg, tail) > old_best);
                                    }
                                }
                                assert(pair_ok(cfg, ms, gl, gr, total_cost as int, floor));
                                // Earlier pairs stay handled under the new floor.
                                assert forall|a: int, b: int|
                                    0 <= a < o1 && 0 <= b < q.len() && a != b implies #[trigger]
                                    pair_ok(cfg, ms, q[a], q[b], total_cost as int, floor) by {
                                    assert(pair_ok(cfg, ms, q[a], q[b], total_cost as int,
                                        old_floor));
                                    lemma_pair_ok_weaken(cfg, ms, q[a], q[b], total_cost as int,
                                        old_floor, floor);
                                }
                                assert forall|b: int|
                                    0 <= b < o2 && b != o1 implies #[trigger] pair_ok(
                                    cfg,
                                    ms,
                                    q[o1 as int],
                                    q[b],
                                    total_cost as int,
                                    floor,
                                ) by {
                                    assert(pair_ok(cfg, ms, q[o1 as int], q[b], total_cost as int,
                                        old_floor));
                                    lemma_pair_ok_weaken(cfg, ms, q[o1 as int], q[b],
                                        total_cost as int, old_floor, floor);
                                }
                            }
                        } else {
                            // Terminal: this merge finishes the set.
                            if best_trace.is_none() || t2 < best {
                                let mut full = copy_records(trace);
                                full.push(rec);
                                best = t2;
                                best_trace = Some(full);
                            }
                            proof {
                                lemma_memo_ok_mono(cfg, *null_paths, old_best, best as int);
                                let floor = search_floor(best as int, best_trace is None);
                                let old_floor = search_floor(old_best, old_none);
                                assert(n == 2);
                                assert(best_trace is Some);
                                assert(best <= old_best);
                                assert(floor <= old_floor);
                                // A single record completes a two-piece set.
                                assert(seq![rec].drop_first() =~= Seq::<TraceRecord>::empty());
                                assert(seq![rec][0] == rec);
                                assert(rec.left == gl && rec.right == gr);
                                assert(ms.count(rec.left) > 0);
                                assert(ms.remove(rec.left).count(rec.right) > 0);
                                assert(valid_trace(cfg, reduced(cfg, ms, rec.left, rec.right),
                                    seq![rec].drop_first()));
                                assert(valid_trace(cfg, ms, seq![rec]));
                                assert(trace_cost(cfg, seq![rec].drop_first()) == 0);
                                assert(trace_cost(cfg, seq![rec]) == merge_cost(cfg, gl, gr));
                                assert(completes(cfg, ms, seq![rec]));
                                if old_none || t2 < old_best {
                                    let trv = best_trace->Some_0;
                                    assert(trv@ == trace@.push(rec));
                                    assert(trv@.subrange(0, trace@.len() as int) =~= trace@);
                                    assert(trv@.skip(trace@.len() as int) =~= seq![rec]);
                                    assert(total_cost + trace_cost(
                                        cfg,
                                        trv@.skip(trace@.len() as int),
                                    ) == best);
                                }
                                assert forall|recs: Seq<TraceRecord>|
                                    #[trigger] completes(cfg, ms, recs) && recs.len() > 0
                                        && recs[0].left == gl && recs[0].right == gr implies
                                    total_cost + trace_cost(cfg, recs) >= floor by {
                                    assert(recs.len() == 1);
                                    assert(recs.drop_first().len() == 0);
                                    assert(trace_cost(cfg, recs.drop_first()) == 0);
                                    assert(recs[0].left == gl && recs[0].right == gr);
                                    assert(trace_cost(cfg, recs) == merge_cost(cfg, recs[0].left,
                                        recs[0].right) + trace_cost(cfg, recs.drop_first()));
                                    assert(trace_cost(cfg, recs) == merge_cost(cfg, gl, gr));
                                }
                                assert(pair_ok(cfg, ms, gl, gr, total_cost as int, floor));
                                assert forall|a: int, b: int|
                                    0 <= a < o1 && 0 <= b < q.len() && a != b implies #[trigger]
                                    pair_ok(cfg, ms, q[a], q[b], total_cost as int, floor) by {
                                    assert(pair_ok(cfg, ms, q[a], q[b], total_cost as int,
                                        old_floor));
                                    lemma_pair_ok_weaken(cfg, ms, q[a], q[b], total_cost as int,
                                        old_floor, floor);
                                }
                                assert forall|b: int|
                                    0 <= b < o2 && b != o1 implies #[trigger] pair_ok(
                                    cfg,
                                    ms,
                                    q[o1 as int],
                                    q[b],
                                    total_cost as int,
                                    floor,
                                ) by {
                                    assert(pair_ok(cfg, ms, q[o1 as int], q[b], total_cost as int,
                                        old_floor));
                                    lemma_pair_ok_weaken(cfg, ms, q[o1 as int], q[b],
                                        total_cost as int, old_floor, floor);
                                }
                            }
                        }
                    }
                }
            }
            o2 = o2 + 1;
        }
        o1 = o1 + 1;
    }

    // Every completion starts with some ordered pair of positions, and
    // every such pair has been handled.
    proof {
        let floor = search_floor(best as int, best_trace is None);
        assert forall|recs: Seq<TraceRecord>| #[trigger]
            completes(cfg, ms, recs) implies total_cost + trace_cost(cfg, recs) >= floor by {
            assert(recs.len() + 1 == ms.len());
            let rec0 = recs[0];
            assert(valid_trace(cfg, ms, recs));
            lemma_index_pair_exists(q, rec0.left, rec0.right);
            let (i, j): (int, int) = choose|i: int, j: int|
                0 <= i < q.len() && 0 <= j < q.len() && i != j && q[i] == rec0.left && q[j]
                    == rec0.right;
            assert(pair_ok(cfg, ms, q[i], q[j], total_cost as int, floor));
            assert(completes(cfg, ms, recs) && recs.len() > 0 && recs[0].left == q[i]
                && recs[0].right == q[j]);
        }
    }
    match best_trace {
        None => {
            // Nothing fit under the bound: record the dead state.
            let ghost old_entries = null_paths.entries@;
            null_paths.entries.push(NullPath { pieces: key, total: total_cost });
            proof {
                let e = NullPath { pieces: key, total: total_cost };
                assert(null_paths.entries@ == old_entries.push(e));
                assert forall|recs: Seq<TraceRecord>| #[trigger]
                    completes(cfg, e.pieces@.to_multiset(), recs) implies e.total + trace_cost(
                    cfg,
                    recs,
                ) > best by {
                    assert(e.pieces@.to_multiset() == ms);
                    assert(completes(cfg, ms, recs));
                }
                assert(entry_ok(cfg, e, best as int));
                assert forall|i: int| 0 <= i < null_paths.entries@.len() implies entry_ok(
                    cfg,
                    #[trigger] null_paths.entries@[i],
                    best as int,
                ) by {
                    if i < old_entries.len() {
                        assert(null_paths.entries@[i] == old_entries[i]);
                        assert(entry_ok(cfg, old_entries[i], best as int));
                    } else {
                        assert(null_paths.entries@[i] == e);
                    }
                }
            }
            (best, None)
        },
        Some(tr) => {
            proof {
                let suf = tr@.skip(trace@.len() as int);
                assert(completes(cfg, ms, suf) && total_cost + trace_cost(cfg, suf) <= best_cost);
                assert(completes(cfg, ms, suf) && total_cost + trace_cost(cfg, suf) == best);
            }
            (best, Some(tr))
        },
    }
}


/// What the search's cost result means, independent of how it was found:
/// it never exceeds the bound, no explored completion beats it, and it is
/// either the untouched bound or the exact cost of some completion.
pub open spec fn search_outcome(
    cfg: Config,
    m: Multiset<Piece>,
    total: int,
    bound: int,
    x: int,
) -> bool {
    &&& x <= bound
    &&& forall|recs: Seq<TraceRecord>|
        #[trigger] completes(cfg, m, recs) ==> x <= total + trace_cost(cfg, recs)
    &&& (x == bound || exists|recs: Seq<TraceRecord>|
        #[trigger] completes(cfg, m, recs) && total + trace_cost(cfg, recs) == x)
}

/// The search's cost result is a function of the pieces, the running total
/// and the bound alone: any two values meeting the outcome description are
/// equal. In particular the dead-state memo, which the outcome never
/// mentions, can only speed the search up, never change its answer.
pub proof fn lemma_outcome_unique(
    cfg: Config,
    m: Multiset<Piece>,
    total: int,
    bound: int,
    x1: int,
    x2: int,
)
    requires
        search_outcome(cfg, m, total, bound, x1),
        search_outcome(cfg, m, total, bound, x2),
    ensures
        x1 == x2,
{
    if x1 != bound {
        let recs1 = choose|recs: Seq<TraceRecord>|
            #[trigger] completes(cfg, m, recs) && total + trace_cost(cfg, recs) == x1;
        assert(x2 <= total + trace_cost(cfg, recs1));
    }
    if x2 != bound {
        let recs2 = choose|recs: Seq<TraceRecord>|
            #[trigger] completes(cfg, m, recs) && total + trace_cost(cfg, recs) == x2;
        assert(x1 <= total + trace_cost(cfg, recs2));
    }
}

/// Every step of a valid trace obeys the kind rule: a book is never the
/// left operand over an item.
pub proof fn lemma_trace_steps_kind_ok(cfg: Config, m: Multiset<Piece>, recs: Seq<TraceRecord>)
    requires
        valid_trace(cfg, m, recs),
    ensures
        forall|k: int|
            0 <= k < recs.len() ==> kind_ok(#[trigger] recs[k].left, recs[k].right),
    decreases recs.len(),
{
    if recs.len() > 0 {
        let m2 = reduced(cfg, m, recs[0].left, recs[0].right);
        lemma_trace_steps_kind_ok(cfg, m2, recs.drop_first());
        assert forall|k: int|
            0 <= k < recs.len() implies kind_ok(#[trigger] recs[k].left, recs[k].right) by {
            if k > 0 {
                assert(recs.drop_first()[k - 1] == recs[k]);
                assert(kind_ok(recs.drop_first()[k - 1].left, recs.drop_first()[k - 1].right));
            }
        }
    }
}

/// With free book merging configured, every step of a valid trace that
/// combines two books is free and resets the merged work count to zero.
pub proof fn lemma_trace_steps_free_books(cfg: Config, m: Multiset<Piece>, recs: Seq<TraceRecord>)
    requires
        cfg.books_free,
    ensures
        forall|k: int|
            0 <= k < recs.len() && is_book(#[trigger] recs[k].left) && is_book(recs[k].right)
                ==> merge_cost(cfg, recs[k].left, recs[k].right) == 0 && merged_piece(
                cfg,
                recs[k].left,
                recs[k].right,
            ).work_count == 0,
{
    assert forall|k: int|
        0 <= k < recs.len() && is_book(#[trigger] recs[k].left) && is_book(recs[k].right) implies
        merge_cost(cfg, recs[k].left, recs[k].right) == 0 && merged_piece(
        cfg,
        recs[k].left,
        recs[k].right,
    ).work_count == 0 by {
        crate::piece::lemma_free_book_merge(cfg, recs[k].left, recs[k].right);
    }
}

/// A valid trace under the search's ascending-value book cut is in
/// particular legal under the kind rule alone: the cut only narrows which
/// orders are explored, never makes an illegal order legal. So a cost the
/// search achieves is the cost of some order a full enumeration over the
/// kind-legal space would also visit, and by the outcome description no
/// explored order is cheaper than the result.
pub open spec fn valid_trace_kind(cfg: Config, m: Multiset<Piece>, recs: Seq<TraceRecord>) -> bool
    decreases recs.len(),
{
    recs.len() == 0 || {
        let rec = recs[0];
        &&& m.count(rec.left) > 0
        &&& m.remove(rec.left).count(rec.right) > 0
        &&& kind_ok(rec.left, rec.right)
        &&& valid_trace_kind(cfg, reduced(cfg, m, rec.left, rec.right), recs.drop_first())
    }
}

/// Every completion the search can return is legal in the kind-only space.
pub proof fn lemma_valid_trace_in_kind_space(cfg: Config, m: Multiset<Piece>, recs: Seq<
    TraceRecord,
>)
    requires
        valid_trace(cfg, m, recs),
    ensures
        valid_trace_kind(cfg, m, recs),
    decreases recs.len(),
{
    if recs.len() > 0 {
        let m2 = reduced(cfg, m, recs[0].left, recs[0].right);
        lemma_valid_trace_in_kind_space(cfg, m2, recs.drop_first());
    }
}


/// A record with its operands exchanged.
pub open spec fn swapped(rec: TraceRecord) -> TraceRecord {
    TraceRecord { left: rec.right, right: rec.left }
}

/// The same merge order with every value-descending book-with-book step
/// turned around.
pub open spec fn repaired(recs: Seq<TraceRecord>) -> Seq<TraceRecord>
    decreases recs.len(),
{
    if recs.len() == 0 {
        Seq::<TraceRecord>::empty()
    } else {
        let rec = recs[0];
        let fixed = if cut_ok(rec.left, rec.right) {
            rec
        } else {
            swapped(rec)
        };
        seq![fixed] + repaired(recs.drop_first())
    }
}

/// Merging is symmetric in the produced piece: only the cost depends on
/// the operand order.
pub proof fn lemma_merged_symmetric(cfg: Config, l: Piece, r: Piece)
    ensures
        merged_piece(cfg, l, r) == merged_piece(cfg, r, l),
{
    let a = l.name_mask;
    let b = r.name_mask;
    assert(a | b == b | a) by (bit_vector);
}

/// Putting the smaller value on the right never raises the cost of a step.
pub proof fn lemma_swapped_cost(cfg: Config, l: Piece, r: Piece)
    requires
        l.value <= r.value,
    ensures
        merge_cost(cfg, r, l) <= merge_cost(cfg, l, r),
{
    let a = l.name_mask;
    let b = r.name_mask;
    assert(a | b == b | a) by (bit_vector);
    let raw_swapped = l.value + crate::cost::spec_penalty(r.work_count as nat)
        + crate::cost::spec_penalty(l.work_count as nat) + r.extra_cost + l.extra_cost;
    let raw = r.value + crate::cost::spec_penalty(l.work_count as nat)
        + crate::cost::spec_penalty(r.work_count as nat) + l.extra_cost + r.extra_cost;
    assert(raw_swapped <= raw);
    crate::cost::lemma_penalty_nonneg(l.work_count as nat);
    crate::cost::lemma_penalty_nonneg(r.work_count as nat);
    if cfg.optimize_xp {
        crate::cost::lemma_xp_sat_mono(raw_swapped, raw);
    }
}

/// The ascending-value book cut loses nothing: every kind-legal merge
/// order can be turned, step by step, into an order the search explores
/// that costs no more and is exactly as long.
pub proof fn lemma_repair(cfg: Config, m: Multiset<Piece>, recs: Seq<TraceRecord>)
    requires
        valid_trace_kind(cfg, m, recs),
    ensures
        valid_trace(cfg, m, repaired(recs)),
        repaired(recs).len() == recs.len(),
        trace_cost(cfg, repaired(recs)) <= trace_cost(cfg, recs),
    decreases recs.len(),
{
    broadcast use group_multiset_axioms;

    if recs.len() > 0 {
        let rec = recs[0];
        let tail = recs.drop_first();
        let m2 = reduced(cfg, m, rec.left, rec.right);
        if cut_ok(rec.left, rec.right) {
            lemma_repair(cfg, m2, tail);
            lemma_trace_cons(cfg, m, rec, repaired(tail));
            lemma_merge_cost_nonneg(cfg, rec.left, rec.right);
        } else {
            // a cut-rejected step in a kind-legal order merges two books,
            // the cheaper one on the left
            assert(is_book(rec.left));
            assert(is_book(rec.right));
            assert(rec.right.value > rec.left.value);
            assert(rec.left != rec.right);
            lemma_merged_symmetric(cfg, rec.left, rec.right);
            lemma_swapped_cost(cfg, rec.left, rec.right);
            let fixed = swapped(rec);
            assert(m.count(fixed.left) > 0);
            assert(m.remove(fixed.left).count(fixed.right) > 0);
            assert(eligible(fixed.left, fixed.right));
            assert(reduced(cfg, m, fixed.left, fixed.right) =~= m2);
            lemma_repair(cfg, m2, tail);
            lemma_trace_cons(cfg, m, fixed, repaired(tail));
        }
    }
}

/// No kind-legal merge order, explored or not, finishes cheaper than the
/// search's result: the value the outcome description pins is a true
/// optimum over the whole kind-legal space, not only over the narrowed
/// space the search walks.
pub proof fn lemma_no_kind_order_beats_outcome(
    cfg: Config,
    m: Multiset<Piece>,
    total: int,
    bound: int,
    x: int,
    recs: Seq<TraceRecord>,
)
    requires
        search_outcome(cfg, m, total, bound, x),
        valid_trace_kind(cfg, m, recs),
        m.len() == recs.len() + 1,
    ensures
        x <= total + trace_cost(cfg, recs),
{
    lemma_repair(cfg, m, recs);
    assert(completes(cfg, m, repaired(recs)));
    assert(x <= total + trace_cost(cfg, repaired(recs)));
}

} // verus!

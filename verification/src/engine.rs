//! The backtracking enumeration engine.
//!
//! Given a sorted pool of characters the engine produces every distinct
//! permutation by fixing one position per recursion depth, and appends a
//! step to the trace at each transition: the untouched branch first, then
//! one swap per candidate position, skipping candidates equal to their left
//! neighbour in the working sequence at that moment.

use crate::loader::{build_pool, first_line, lemma_dec_val_nonneg, loaded_pool, pad_pool, parse_count, valid_count_line};
use crate::step::{copy_chars, State, Step, StepView};
use crate::trace::{done_snapshots_before, Trace};
use crate::CoreError;
use vstd::prelude::*;

verus! {

broadcast use vstd::seq_lib::group_to_multiset_ensures;

/// Two sequences hold the same symbols with the same multiplicities.
pub open spec fn same_symbols(a: Seq<char>, b: Seq<char>) -> bool {
    a.to_multiset() == b.to_multiset()
}

/// A recorded step is about `pool`: its snapshot is a rearrangement of it.
pub open spec fn step_records_pool(s: StepView, pool: Seq<char>) -> bool {
    &&& same_symbols(s.snapshot, pool)
    &&& s.snapshot.len() == pool.len()
}

/// `s` is ordered by the characters' scalar values.
pub open spec fn sorted_chars(s: Seq<char>) -> bool {
    forall|i: int, j: int| 0 <= i < j < s.len() ==> (s[i] as u32) <= (s[j] as u32)
}

/// Exchanges two distinct positions; the symbols are only rearranged.
fn swap_chars(v: &mut Vec<char>, a: usize, b: usize)
    requires
        a < old(v)@.len(),
        b < old(v)@.len(),
        a != b,
    ensures
        final(v)@ == old(v)@.update(a as int, old(v)@[b as int]).update(
            b as int,
            old(v)@[a as int],
        ),
        same_symbols(final(v)@, old(v)@),
        final(v)@.len() == old(v)@.len(),
{
    let ghost s = v@;
    let x = v[a];
    let y = v[b];
    v.set(a, y);
    v.set(b, x);
    proof {
        let m = s.to_multiset();
        assert(s.contains(s[a as int]));
        assert(s.update(a as int, s[b as int])[b as int] == s[b as int]);
        assert(v@.to_multiset() =~= m) by {
            assert(v@.to_multiset() == m.insert(s[b as int]).remove(s[a as int]).insert(
                s[a as int],
            ).remove(s[b as int]));
        }
    }
}

/// Sorts the pool in place by scalar value; only rearranges the symbols.
pub fn sort_chars(v: &mut Vec<char>)
    ensures
        sorted_chars(final(v)@),
        same_symbols(final(v)@, old(v)@),
        final(v)@.len() == old(v)@.len(),
{
    if v.len() <= 1 {
        return ;
    }
    let mut i: usize = 1;
    while i < v.len()
        invariant
            1 <= i,
            i <= v@.len(),
            same_symbols(v@, old(v)@),
            v@.len() == old(v)@.len(),
            sorted_chars(v@.subrange(0, i as int)),
        decreases v@.len() - i,
    {
        let mut j: usize = i;
        proof {
            assert forall|p: int, q: int|
                0 <= p < q <= i && q != j implies (v@[p] as u32) <= (v@[q] as u32) by {
                assert(v@.subrange(0, i as int)[p] == v@[p]);
                assert(v@.subrange(0, i as int)[q] == v@[q]);
            }
        }
        while j > 0 && (v[j - 1] as u32) > (v[j] as u32)
            invariant
                j <= i < v@.len(),
                same_symbols(v@, old(v)@),
                v@.len() == old(v)@.len(),
                forall|p: int, q: int|
                    0 <= p < q <= i && q != j ==> (v@[p] as u32) <= (v@[q] as u32),
            decreases j,
        {
            swap_chars(v, j - 1, j);
            j -= 1;
        }
        i += 1;
        proof {
            assert forall|p: int, q: int|
                0 <= p < q < i implies (v@.subrange(0, i as int)[p] as u32) <= (v@.subrange(
                0,
                i as int,
            )[q] as u32) by {
                assert(v@.subrange(0, i as int)[p] == v@[p]);
                assert(v@.subrange(0, i as int)[q] == v@[q]);
                assert((v@[p] as u32) <= (v@[q] as u32));
            }
        }
    }
    proof {
        if v@.len() > 0 {
            assert(v@ =~= v@.subrange(0, v@.len() as int));
        }
    }
}

/// Shorthand for a recorded transition.
pub open spec fn sv(c: Seq<char>, primary: int, pivot: int, tag: State) -> StepView {
    StepView { snapshot: c, primary_index: primary, pivot_index: pivot, tag }
}

/// Exactly the steps the engine appends when entered on working sequence
/// `c` with position `start` fixed: a lone `Done` step at the last depth,
/// and otherwise the untouched branch bracketed by `NotRepeated` and
/// `Back`, followed by one swap branch per admitted candidate.
pub open spec fn emission(c: Seq<char>, start: int) -> Seq<StepView>
    decreases c.len() - start, c.len() + 1,
{
    if c.len() == 0 || start < 0 || start >= c.len() - 1 {
        seq![sv(c, start, start, State::Done)]
    } else {
        seq![sv(c, start, start, State::NotRepeated)] + emission(c, start + 1) + seq![
            sv(c, start, start, State::Back),
        ] + branch_emission(c, start, start + 1)
    }
}

/// The steps of the swap branches for the candidate positions `i` and
/// beyond: a candidate equal to its left neighbour is skipped, any other
/// is recorded as `Selected`, swapped to `start`, recorded as `Swapped`,
/// enumerated one depth further, recorded as `Back`, and swapped back.
pub open spec fn branch_emission(c: Seq<char>, start: int, i: int) -> Seq<StepView>
    decreases c.len() - start, c.len() - i,
{
    if i >= c.len() || i < 1 || start < 0 || start >= i {
        Seq::empty()
    } else if c[i] != c[i - 1] {
        let cs = c.update(start, c[i]).update(i, c[start]);
        seq![sv(c, i, start, State::Selected), sv(cs, i, start, State::Swapped)] + emission(
            cs,
            start + 1,
        ) + seq![sv(cs, i, start, State::Back)] + branch_emission(c, start, i + 1)
    } else {
        branch_emission(c, start, i + 1)
    }
}

/// The engine always records at least one step.
pub proof fn lemma_emission_len(c: Seq<char>, start: int)
    ensures
        emission(c, start).len() >= 1,
{
}

/// Swapping two positions only rearranges the symbols.
pub proof fn lemma_swap_same_symbols(c: Seq<char>, a: int, b: int)
    requires
        0 <= a < c.len(),
        0 <= b < c.len(),
        a != b,
    ensures
        same_symbols(c.update(a, c[b]).update(b, c[a]), c),
        c.update(a, c[b]).update(b, c[a]).len() == c.len(),
{
    let m = c.to_multiset();
    assert(c.contains(c[a]));
    assert(c.update(a, c[b])[b] == c[b]);
    assert(c.update(a, c[b]).update(b, c[a]).to_multiset() =~= m) by {
        assert(c.update(a, c[b]).update(b, c[a]).to_multiset() == m.insert(c[b]).remove(
            c[a],
        ).insert(c[a]).remove(c[b]));
    }
}

/// Every snapshot the engine records from working sequence `c` is a
/// rearrangement of `c`, of the same length.
pub proof fn lemma_emission_records(c: Seq<char>, start: int)
    requires
        0 <= start,
    ensures
        forall|k: int|
            0 <= k < emission(c, start).len() ==> step_records_pool(
                #[trigger] emission(c, start)[k],
                c,
            ),
    decreases c.len() - start, c.len() + 1,
{
    if c.len() == 0 || start >= c.len() - 1 {
        assert(step_records_pool(emission(c, start)[0], c));
    } else {
        lemma_emission_records(c, start + 1);
        lemma_branch_records(c, start, start + 1);
        assert forall|k: int|
            0 <= k < emission(c, start).len() implies step_records_pool(
            #[trigger] emission(c, start)[k],
            c,
        ) by {
            let whole = emission(c, start);
            let em = emission(c, start + 1);
            if 1 <= k < 1 + em.len() {
                assert(whole[k] == em[k - 1]);
            } else if k >= 2 + em.len() {
                assert(whole[k] == branch_emission(c, start, start + 1)[k - 2 - em.len()]);
            }
        }
    }
}

/// As [`lemma_emission_records`], for the swap branches from position `i` on.
pub proof fn lemma_branch_records(c: Seq<char>, start: int, i: int)
    requires
        0 <= start < c.len(),
        start < i,
    ensures
        forall|k: int|
            0 <= k < branch_emission(c, start, i).len() ==> step_records_pool(
                #[trigger] branch_emission(c, start, i)[k],
                c,
            ),
    decreases c.len() - start, c.len() - i,
{
    if i >= c.len() || i < 1 || start < 0 || start >= i {
    } else if c[i] != c[i - 1] {
        let cs = c.update(start, c[i]).update(i, c[start]);
        lemma_swap_same_symbols(c, start, i);
        lemma_emission_records(cs, start + 1);
        lemma_branch_records(c, start, i + 1);
        assert forall|k: int|
            0 <= k < branch_emission(c, start, i).len() implies step_records_pool(
            #[trigger] branch_emission(c, start, i)[k],
            c,
        ) by {
            let whole = branch_emission(c, start, i);
            let em = emission(cs, start + 1);
            let head = seq![sv(c, i, start, State::Selected), sv(cs, i, start, State::Swapped)];
            let back = seq![sv(cs, i, start, State::Back)];
            let rest = branch_emission(c, start, i + 1);
            assert(whole == head + em + back + rest);
            if k == 0 {
                assert(whole[k] == sv(c, i, start, State::Selected));
            } else if k == 1 {
                assert(whole[k] == sv(cs, i, start, State::Swapped));
            } else if k < 2 + em.len() {
                assert(whole[k] == em[k - 2]);
                assert(step_records_pool(em[k - 2], cs));
            } else if k == 2 + em.len() {
                assert(whole[k] == sv(cs, i, start, State::Back));
            } else {
                assert(whole[k] == rest[k - 3 - em.len()]);
                assert(step_records_pool(rest[k - 3 - em.len()], c));
            }
        }
    } else {
        lemma_branch_records(c, start, i + 1);
        assert(branch_emission(c, start, i) == branch_emission(c, start, i + 1));
        assert forall|k: int|
            0 <= k < branch_emission(c, start, i).len() implies step_records_pool(
            #[trigger] branch_emission(c, start, i)[k],
            c,
        ) by {
            assert(branch_emission(c, start, i)[k] == branch_emission(c, start, i + 1)[k]);
            assert(step_records_pool(branch_emission(c, start, i + 1)[k], c));
        }
    }
}

/// A multiset of symbols has exactly one sorted arrangement.  So the
/// `Sorted` snapshot a session records — and with it the engine's whole
/// emission — is fully determined by the loaded pool.
pub proof fn lemma_sorted_rearrangement_unique(a: Seq<char>, b: Seq<char>)
    requires
        sorted_chars(a),
        sorted_chars(b),
        same_symbols(a, b),
    ensures
        a == b,
    decreases a.len(),
{
    a.to_multiset_ensures();
    b.to_multiset_ensures();
    if a.len() == 0 {
        assert(b.len() == 0);
        assert(a =~= b);
    } else {
        assert(b.len() == a.len());
        assert(a.to_multiset().count(b[0]) > 0);
        assert(b.to_multiset().count(a[0]) > 0);
        assert(a.contains(b[0]));
        assert(b.contains(a[0]));
        let i = choose|i: int| 0 <= i < a.len() && a[i] == b[0];
        let k = choose|k: int| 0 <= k < b.len() && b[k] == a[0];
        assert((a[0] as u32) <= (a[i] as u32));
        assert((b[0] as u32) <= (b[k] as u32));
        assert(a[0] == b[0]) by {
            assert((a[0] as u32) == (b[0] as u32));
            vstd::utf8::char_u32_cast(a[0], a[0] as u32);
            vstd::utf8::char_u32_cast(b[0], b[0] as u32);
        }
        assert(a.remove(0) =~= a.drop_first());
        assert(b.remove(0) =~= b.drop_first());
        assert(a.drop_first().to_multiset() == a.to_multiset().remove(a[0]));
        assert(b.drop_first().to_multiset() == b.to_multiset().remove(b[0]));
        assert(sorted_chars(a.drop_first()));
        assert(sorted_chars(b.drop_first()));
        lemma_sorted_rearrangement_unique(a.drop_first(), b.drop_first());
        assert forall|j: int| 0 <= j < a.len() implies a[j] == b[j] by {
            if j > 0 {
                assert(a[j] == a.drop_first()[j - 1]);
                assert(b[j] == b.drop_first()[j - 1]);
            }
        }
        assert(a =~= b);
    }
}

/// Everything a session's trace records is a rearrangement of the loaded
/// pool: the opening steps hold the pool and its sorted order, and the
/// engine's steps only ever swap symbols.  In particular no `Done`
/// snapshot holds symbols the input did not supply.
pub proof fn lemma_run_trace_records(t: Seq<StepView>, pool: Seq<char>)
    requires
        t.len() >= 2,
        t[0].snapshot == pool,
        same_symbols(t[1].snapshot, pool),
        t[1].snapshot.len() == pool.len(),
        t == seq![t[0], t[1]] + emission(t[1].snapshot, 0),
    ensures
        forall|k: int| 0 <= k < t.len() ==> step_records_pool(#[trigger] t[k], pool),
{
    lemma_emission_records(t[1].snapshot, 0);
    assert forall|k: int| 0 <= k < t.len() implies step_records_pool(#[trigger] t[k], pool) by {
        if k >= 2 {
            assert(t[k] == emission(t[1].snapshot, 0)[k - 2]);
            assert(step_records_pool(t[k], t[1].snapshot));
        }
    }
}

/// Carries [`lemma_run_trace_records`] through to the player's completed
/// view: every snapshot it hands out is a rearrangement of the pool.
pub proof fn lemma_done_snapshots_record(t: Seq<StepView>, pool: Seq<char>, idx: int)
    requires
        forall|k: int| 0 <= k < t.len() ==> step_records_pool(#[trigger] t[k], pool),
        idx <= t.len(),
    ensures
        forall|j: int|
            0 <= j < done_snapshots_before(t, idx).len() ==> same_symbols(
                #[trigger] done_snapshots_before(t, idx)[j],
                pool,
            ),
    decreases idx,
{
    if idx > 0 {
        lemma_done_snapshots_record(t, pool, idx - 1);
        assert forall|j: int|
            0 <= j < done_snapshots_before(t, idx).len() implies same_symbols(
            #[trigger] done_snapshots_before(t, idx)[j],
            pool,
        ) by {
            if t[idx - 1].tag == State::Done && j == done_snapshots_before(t, idx).len() - 1 {
                assert(done_snapshots_before(t, idx)[j] == t[idx - 1].snapshot);
            } else {
                assert(done_snapshots_before(t, idx)[j] == done_snapshots_before(t, idx - 1)[j]);
            }
        }
    }
}

/// The engine proper.  It fixes `start`, records every transition it makes
/// in `trace`, and leaves the working sequence exactly as it found it.
#[verifier::loop_isolation(false)]
pub fn perm(collection: &mut Vec<char>, start: usize, trace: &mut Trace)
    requires
        start <= old(collection)@.len(),
    ensures
        final(collection)@ == old(collection)@,
        final(trace)@ == old(trace)@ + emission(old(collection)@, start as int),
    decreases old(collection)@.len() - start,
{
    let ghost c0 = collection@;
    let ghost t0 = trace@;
    if collection.len() == 0 || start >= collection.len() - 1 {
        let snap = copy_chars(collection);
        trace.append(Step::new(snap, start, start, State::Done));
        proof {
            assert(trace@ =~= t0 + emission(c0, start as int));
        }
    } else {
        let snap = copy_chars(collection);
        trace.append(Step::new(snap, start, start, State::NotRepeated));
        perm(collection, start + 1, trace);
        let snap = copy_chars(collection);
        trace.append(Step::new(snap, start, start, State::Back));
        proof {
            assert(trace@ =~= t0 + seq![sv(c0, start as int, start as int, State::NotRepeated)]
                + emission(c0, start as int + 1) + seq![
                sv(c0, start as int, start as int, State::Back),
            ]);
        }
        let ghost thead = trace@;
        let mut i: usize = start + 1;
        while i < collection.len()
            invariant
                start + 1 <= i <= collection@.len(),
                start + 2 <= collection@.len(),
                collection@ == c0,
                trace@ + branch_emission(c0, start as int, i as int) == thead + branch_emission(
                    c0,
                    start as int,
                    start as int + 1,
                ),
            decreases collection@.len() - i,
        {
            let ghost tb = trace@;
            if collection[i] != collection[i - 1] {
                let snap = copy_chars(collection);
                trace.append(Step::new(snap, i, start, State::Selected));
                swap_chars(collection, start, i);
                let ghost cs = collection@;
                let snap = copy_chars(collection);
                trace.append(Step::new(snap, i, start, State::Swapped));
                perm(collection, start + 1, trace);
                let snap = copy_chars(collection);
                trace.append(Step::new(snap, i, start, State::Back));
                swap_chars(collection, start, i);
                proof {
                    assert(collection@ =~= c0);
                    assert(cs == c0.update(start as int, c0[i as int]).update(
                        i as int,
                        c0[start as int],
                    ));
                    assert(trace@ =~= tb + (seq![
                        sv(c0, i as int, start as int, State::Selected),
                        sv(cs, i as int, start as int, State::Swapped),
                    ] + emission(cs, start as int + 1) + seq![
                        sv(cs, i as int, start as int, State::Back),
                    ]));
                    assert(branch_emission(c0, start as int, i as int) == (seq![
                        sv(c0, i as int, start as int, State::Selected),
                        sv(cs, i as int, start as int, State::Swapped),
                    ] + emission(cs, start as int + 1) + seq![
                        sv(cs, i as int, start as int, State::Back),
                    ]) + branch_emission(c0, start as int, i as int + 1));
                    assert(trace@ + branch_emission(c0, start as int, i as int + 1) =~= tb
                        + branch_emission(c0, start as int, i as int));
                }
            } else {
                proof {
                    assert(branch_emission(c0, start as int, i as int) == branch_emission(
                        c0,
                        start as int,
                        i as int + 1,
                    ));
                }
            }
            i += 1;
        }
        proof {
            assert(branch_emission(c0, start as int, c0.len() as int) =~= Seq::<StepView>::empty());
            assert(trace@ =~= trace@ + branch_emission(c0, start as int, c0.len() as int));
            assert(trace@ =~= t0 + emission(c0, start as int));
        }
    }
}

/// One full session: loads the pool from the input text, records `Start`,
/// sorts it, records `Sorted`, and runs the engine over the whole trace.
/// `InputFormatError` exactly when the first line declares no usable
/// length; on success the trace is the two loading steps followed by
/// exactly the engine's emission over the sorted pool.
pub fn run(content: &str) -> (r: Result<Trace, CoreError>)
    ensures
        valid_count_line(first_line(content@)) ==> (r matches Ok(t) && {
            let pool = loaded_pool(content@);
            &&& t@.len() == 2 + emission(t@[1].snapshot, 0).len()
            &&& t@[0] == sv(pool, 0, 0, State::Start)
            &&& t@[1].tag == State::Sorted
            &&& t@[1].primary_index == 0
            &&& t@[1].pivot_index == 0
            &&& sorted_chars(t@[1].snapshot)
            &&& same_symbols(t@[1].snapshot, pool)
            &&& t@[1].snapshot.len() == pool.len()
            &&& t@ == seq![t@[0], t@[1]] + emission(t@[1].snapshot, 0)
        }),
        !valid_count_line(first_line(content@)) ==> r == Err::<Trace, CoreError>(
            CoreError::InputFormatError,
        ),
{
    let n = match parse_count(content) {
        Ok(n) => n,
        Err(e) => {
            return Err(e);
        },
    };
    let mut collection = build_pool(content);
    pad_pool(&mut collection, n);
    let ghost pool = collection@;
    let mut trace = Trace::new();
    let snap = copy_chars(&collection);
    trace.append(Step::new(snap, 0, 0, State::Start));
    sort_chars(&mut collection);
    let snap = copy_chars(&collection);
    trace.append(Step::new(snap, 0, 0, State::Sorted));
    let ghost spool = collection@;
    let ghost t2 = trace@;
    perm(&mut collection, 0, &mut trace);
    proof {
        lemma_dec_val_nonneg(first_line(content@));
        assert(pool == loaded_pool(content@));
        assert(trace@ =~= seq![t2[0], t2[1]] + emission(spool, 0));
        assert(trace@[0] == sv(pool, 0, 0, State::Start));
        assert(trace@[1] == sv(spool, 0, 0, State::Sorted));
        lemma_emission_len(spool, 0);
    }
    Ok(trace)
}

} // verus!

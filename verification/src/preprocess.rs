//! Post-processing of converted sequences: detection of non-AFK
//! stretches, padding around them, fixed-length cutting, sub-sequence
//! extraction, and ranking players by how much material they contributed.

use vstd::prelude::*;

use crate::extractor::Sequence;
use crate::names::{
    has_name, lemma_name_found, lemma_name_index, lemma_name_index_same_keys,
    lemma_remove_other, name_index, value_of_name, NameMap,
};

verus! {

/// An inclusive closed range `[start, end]` of tick indices within a
/// sequence.
#[derive(Clone, Copy, PartialEq, Eq, Structural, Debug)]
pub struct Duration {
    pub start: usize,
    pub end: usize,
}

/// Durations in order, pairwise disjoint with a gap of at least one tick,
/// each within `[0, max_tick]`.
pub open spec fn sorted_disjoint(ds: Seq<Duration>, max_tick: usize) -> bool {
    &&& forall|i: int| 0 <= i < ds.len() ==> (#[trigger] ds[i]).start <= ds[i].end <= max_tick
    &&& forall|i: int| 0 < i < ds.len() ==> (#[trigger] ds[i]).start > ds[i - 1].end
}

/// The state of the AFK scan after some prefix of the movement column:
/// whether the player is currently AFK, the open run's first and most
/// recent moving tick (meaningful only while not AFK), and the closed
/// runs so far.
pub struct AfkScan {
    pub afk: bool,
    pub first: usize,
    pub last: usize,
    pub runs: Seq<Duration>,
}

/// One step of the AFK scan at tick `t`.  Movement opens or extends a
/// run; stillness beyond the threshold closes the open run.
pub open spec fn afk_step(st: AfkScan, t: usize, mv: i32, thr: usize) -> AfkScan {
    if mv != 0 {
        if st.afk {
            AfkScan { afk: false, first: t, last: t, runs: st.runs }
        } else {
            AfkScan { afk: false, first: st.first, last: t, runs: st.runs }
        }
    } else {
        if !st.afk && t - st.last > thr {
            AfkScan {
                afk: true,
                first: st.first,
                last: st.last,
                runs: st.runs.push(Duration { start: st.first, end: st.last }),
            }
        } else {
            st
        }
    }
}

/// The scan state after the first `i` ticks of the movement column.
pub open spec fn afk_scan(moves: Seq<i32>, i: int, thr: usize) -> AfkScan
    decreases i,
{
    if i <= 0 {
        AfkScan { afk: true, first: 0, last: 0, runs: Seq::empty() }
    } else {
        afk_step(afk_scan(moves, i - 1, thr), (i - 1) as usize, moves[i - 1], thr)
    }
}

/// All non-AFK runs of a movement column: the closed runs plus the final
/// open run, if the player was still moving at the end.
pub open spec fn non_afk_runs(moves: Seq<i32>, thr: usize) -> Seq<Duration> {
    let st = afk_scan(moves, moves.len() as int, thr);
    if !st.afk {
        st.runs.push(Duration { start: st.first, end: st.last })
    } else {
        st.runs
    }
}

/// The scan state is always well shaped: runs are sorted and disjoint,
/// they end before the scanned prefix does, and the open run lies after
/// every closed one.
pub proof fn lemma_afk_scan_props(moves: Seq<i32>, i: int, thr: usize)
    requires
        0 <= i <= moves.len(),
        i <= usize::MAX,
    ensures
        ({
            let st = afk_scan(moves, i, thr);
            &&& forall|k: int| 0 <= k < st.runs.len()
                ==> (#[trigger] st.runs[k]).start <= st.runs[k].end < i
            &&& forall|k: int| 0 < k < st.runs.len()
                ==> (#[trigger] st.runs[k]).start > st.runs[k - 1].end
            &&& !st.afk ==> st.first <= st.last < i
            &&& !st.afk && st.runs.len() > 0 ==> st.first > st.runs.last().end
        }),
    decreases i,
{
    if i > 0 {
        lemma_afk_scan_props(moves, i - 1, thr);
        let st0 = afk_scan(moves, i - 1, thr);
        let st = afk_scan(moves, i, thr);
        if st.runs.len() == st0.runs.len() + 1 {
            assert forall|k: int| 0 <= k < st.runs.len() implies (#[trigger] st.runs[k]).start
                <= st.runs[k].end < i by {
                if k < st0.runs.len() {
                    assert(st.runs[k] == st0.runs[k]);
                }
            }
            assert forall|k: int| 0 < k < st.runs.len() implies (#[trigger] st.runs[k]).start
                > st.runs[k - 1].end by {
                if k < st0.runs.len() {
                    assert(st.runs[k] == st0.runs[k] && st.runs[k - 1] == st0.runs[k - 1]);
                } else {
                    assert(st.runs[k - 1] == st0.runs[k - 1]);
                }
            }
        } else {
            assert(st.runs == st0.runs);
        }
    }
}

/// A name ranked with the amount of material it contributed.
pub open spec fn weight_of(s: Sequence, count_ticks: bool) -> int {
    if count_ticks {
        s.tick_count as int
    } else {
        1
    }
}

/// The total contribution of a player name over a batch.
pub open spec fn count_of(seqs: Seq<Sequence>, name: Seq<char>, count_ticks: bool) -> int
    decreases seqs.len(),
{
    if seqs.len() == 0 {
        0
    } else {
        count_of(seqs.drop_last(), name, count_ticks) + if seqs.last().player_name@ == name {
            weight_of(seqs.last(), count_ticks)
        } else {
            0
        }
    }
}

/// Whether the sequence at `i` repeats an earlier player name.
pub open spec fn seen_before(seqs: Seq<Sequence>, i: int) -> bool {
    exists|j: int| 0 <= j < i && (#[trigger] seqs[j]).player_name@ == seqs[i].player_name@
}

/// How many distinct player names a batch holds.
pub open spec fn distinct_name_count(seqs: Seq<Sequence>) -> int
    decreases seqs.len(),
{
    if seqs.len() == 0 {
        0
    } else {
        distinct_name_count(seqs.drop_last()) + if seen_before(seqs, seqs.len() - 1) {
            0int
        } else {
            1
        }
    }
}

/// The total contribution of all sequences, whatever the name.
pub open spec fn total_weight(seqs: Seq<Sequence>, count_ticks: bool) -> int
    decreases seqs.len(),
{
    if seqs.len() == 0 {
        0
    } else {
        total_weight(seqs.drop_last(), count_ticks) + weight_of(seqs.last(), count_ticks)
    }
}

impl Duration {
    pub fn new(start: usize, end: usize) -> (d: Duration)
        requires
            start <= end,
        ensures
            d.start == start,
            d.end == end,
    {
        Duration { start, end }
    }

    /// How many ticks the duration spans; the end is inclusive.
    pub fn tick_count(&self) -> (n: usize)
        requires
            self.start <= self.end < usize::MAX,
        ensures
            n == self.end - self.start + 1,
    {
        self.end - self.start + 1
    }

    /// Slice the duration into back-to-back sub-durations of exactly
    /// `target_length` ticks, starting from the duration's start; the
    /// remainder is discarded.
    pub fn cut_duration(&self, target_length: usize) -> (r: Vec<Duration>)
        requires
            self.start <= self.end < usize::MAX,
            target_length >= 1,
        ensures
            r@.len() == (self.end - self.start + 1) / target_length as int,
            forall|i: int| 0 <= i < r@.len() ==> #[trigger] r@[i] == (Duration {
                start: (self.start + i * target_length) as usize,
                end: (self.start + i * target_length + target_length - 1) as usize,
            }),
            forall|i: int| 0 <= i < r@.len() ==> (#[trigger] r@[i]).start <= r@[i].end
                <= self.end,
            forall|i: int| 0 <= i < r@.len() ==> (#[trigger] r@[i]).end - r@[i].start + 1
                == target_length as int,
    {
        let length = self.end - self.start + 1;
        let sequence_count = length / target_length;
        proof {
            vstd::arithmetic::div_mod::lemma_fundamental_div_mod(
                length as int,
                target_length as int,
            );
            vstd::arithmetic::div_mod::lemma_mod_bound(length as int, target_length as int);
        }
        proof {
            vstd::arithmetic::mul::lemma_mul_is_commutative(
                sequence_count as int,
                target_length as int,
            );
            vstd::arithmetic::mul::lemma_mul_basics(target_length as int);
            assert(target_length as int * (length as int / target_length as int) <= length);
            assert(sequence_count as int * target_length as int <= length);
        }
        let mut durations: Vec<Duration> = Vec::new();
        let mut cursor = self.start;
        for idx in 0..sequence_count
            invariant
                target_length >= 1,
                sequence_count == (self.end - self.start + 1) / target_length as int,
                sequence_count * target_length <= self.end - self.start + 1,
                cursor == self.start + idx * target_length,
                durations@.len() == idx,
                forall|i: int| 0 <= i < idx ==> #[trigger] durations@[i] == (Duration {
                    start: (self.start + i * target_length) as usize,
                    end: (self.start + i * target_length + target_length - 1) as usize,
                }),
                forall|i: int| 0 <= i < idx ==> (#[trigger] durations@[i]).start
                    <= durations@[i].end <= self.end,
                forall|i: int| 0 <= i < idx ==> (#[trigger] durations@[i]).end
                    - durations@[i].start + 1 == target_length as int,
                self.start <= self.end < usize::MAX,
        {
            proof {
                vstd::arithmetic::mul::lemma_mul_inequality(
                    idx + 1,
                    sequence_count as int,
                    target_length as int,
                );
                assert((idx + 1) * target_length == idx * target_length + target_length)
                    by (nonlinear_arith);
            }
            let d = Duration { start: cursor, end: cursor + target_length - 1 };
            durations.push(d);
            cursor = cursor + target_length;
        }
        durations
    }

    /// Extend each duration by `margin` ticks on both sides, clamped to
    /// `[0, max_tick]`, and resolve overlaps in order: an adjusted end
    /// may not reach the next duration's unpadded start, and an adjusted
    /// start may not touch the previous adjusted end.  A duration whose
    /// adjusted range inverts is dropped.
    #[verifier::rlimit(100)]
    #[verifier::spinoff_prover]
    pub fn pad_durations(durations: Vec<Duration>, max_tick: usize, margin: usize) -> (r: Vec<
        Duration,
    >)
        requires
            sorted_disjoint(durations@, max_tick),
            max_tick + margin <= usize::MAX,
            max_tick < usize::MAX,
        ensures
            r@ == pad_from(durations@, 0, max_tick, margin, Seq::<Duration>::empty()),
            sorted_disjoint(r@, max_tick),
    {
        let n = durations.len();
        let mut adjusted: Vec<Duration> = Vec::new();
        for i in 0..n
            invariant
                n == durations@.len(),
                sorted_disjoint(durations@, max_tick),
                max_tick + margin <= usize::MAX,
                max_tick < usize::MAX,
                sorted_disjoint(adjusted@, max_tick),
                pad_from(durations@, 0, max_tick, margin, Seq::<Duration>::empty()) == pad_from(
                    durations@,
                    i as int,
                    max_tick,
                    margin,
                    adjusted@,
                ),
                forall|j: int| 0 <= j < adjusted@.len() ==> (#[trigger] adjusted@[j]).end
                    < usize::MAX,
        {
            let d = durations[i];
            let mut start = if d.start >= margin {
                d.start - margin
            } else {
                0
            };
            let mut end = if d.end + margin <= max_tick {
                d.end + margin
            } else {
                max_tick
            };
            if i + 1 < n {
                let next = durations[i + 1];
                if end >= next.start {
                    end = next.start - 1;
                }
            }
            if adjusted.len() > 0 {
                let prev_end = adjusted[adjusted.len() - 1].end;
                if start <= prev_end {
                    start = prev_end + 1;
                }
            }
            if start <= end {
                adjusted.push(Duration { start, end });
            }
        }
        adjusted
    }
}

/// The padded durations, processed front to back with the adjusted list
/// accumulated so far.
pub open spec fn pad_from(
    ds: Seq<Duration>,
    i: int,
    max_tick: usize,
    margin: usize,
    acc: Seq<Duration>,
) -> Seq<Duration>
    decreases ds.len() - i,
{
    if i < 0 || i >= ds.len() {
        acc
    } else {
        let raw_start = if ds[i].start >= margin {
            (ds[i].start - margin) as usize
        } else {
            0usize
        };
        let raw_end = if ds[i].end + margin <= max_tick {
            (ds[i].end + margin) as usize
        } else {
            max_tick
        };
        let capped_end = if i + 1 < ds.len() && raw_end >= ds[i + 1].start {
            (ds[i + 1].start - 1) as usize
        } else {
            raw_end
        };
        let capped_start = if acc.len() > 0 && raw_start <= acc.last().end {
            (acc.last().end + 1) as usize
        } else {
            raw_start
        };
        if capped_start <= capped_end {
            pad_from(
                ds,
                i + 1,
                max_tick,
                margin,
                acc.push(Duration { start: capped_start, end: capped_end }),
            )
        } else {
            pad_from(ds, i + 1, max_tick, margin, acc)
        }
    }
}

impl Duration {
    /// Walk the movement column and emit one duration per non-AFK run: a
    /// player is AFK once it has not moved for more than `tick_threshold`
    /// consecutive ticks.
    pub fn get_non_afk_durations(sequence: &Sequence, tick_threshold: usize) -> (r: Vec<
        Duration,
    >)
        ensures
            r@ == non_afk_runs(sequence.move_dir@, tick_threshold),
            sorted_disjoint(r@, if sequence.move_dir@.len() == 0 {
                0usize
            } else {
                (sequence.move_dir@.len() - 1) as usize
            }),
    {
        let ghost moves = sequence.move_dir@;
        let n = sequence.move_dir.len();
        let mut afk = true;
        let mut first: usize = 0;
        let mut last: usize = 0;
        let mut durations: Vec<Duration> = Vec::new();
        for current_tick in 0..n
            invariant
                n == moves.len(),
                moves == sequence.move_dir@,
                afk_scan(moves, current_tick as int, tick_threshold) == (AfkScan {
                    afk,
                    first,
                    last,
                    runs: durations@,
                }),
        {
            proof {
                lemma_afk_scan_props(moves, current_tick as int, tick_threshold);
            }
            let move_dir = sequence.move_dir[current_tick];
            if move_dir != 0 {
                last = current_tick;
                if afk {
                    first = current_tick;
                    afk = false;
                }
            } else {
                if !afk && current_tick - last > tick_threshold {
                    durations.push(Duration { start: first, end: last });
                    afk = true;
                }
            }
        }
        if !afk {
            durations.push(Duration { start: first, end: last });
        }
        proof {
            lemma_afk_scan_props(moves, n as int, tick_threshold);
        }
        durations
    }

    /// Copy the tick columns of each duration into a sequence of its own,
    /// adjusting the start tick and the tick count; the name columns are
    /// copied verbatim.
    pub fn extract_sub_sequences(sequence: &Sequence, durations: Vec<Duration>) -> (r: Vec<
        Sequence,
    >)
        requires
            sequence.wf(),
            forall|i: int| 0 <= i < durations@.len() ==> (#[trigger] durations@[i]).start
                <= durations@[i].end < sequence.tick_count,
        ensures
            r@.len() == durations@.len(),
            forall|i: int| 0 <= i < r@.len() ==> sub_of(
                #[trigger] r@[i],
                *sequence,
                durations@[i],
            ),
    {
        let n = durations.len();
        let mut sub_sequences: Vec<Sequence> = Vec::new();
        for i in 0..n
            invariant
                n == durations@.len(),
                sequence.wf(),
                forall|j: int| 0 <= j < n ==> (#[trigger] durations@[j]).start
                    <= durations@[j].end < sequence.tick_count,
                sub_sequences@.len() == i,
                forall|j: int| 0 <= j < i ==> sub_of(
                    #[trigger] sub_sequences@[j],
                    *sequence,
                    durations@[j],
                ),
        {
            let duration = durations[i];
            let a = duration.start;
            let b = duration.end;
            let sub = Sequence {
                start_tick: sequence.start_tick + a,
                tick_count: b - a + 1,
                player_name: sequence.player_name.clone(),
                map_name: sequence.map_name.clone(),
                teehist_name: sequence.teehist_name.clone(),
                timeout_code: sequence.timeout_code.clone(),
                pos_x: slice_i32(&sequence.pos_x, a, b),
                pos_y: slice_i32(&sequence.pos_y, a, b),
                move_dir: slice_i32(&sequence.move_dir, a, b),
                target_x: slice_i32(&sequence.target_x, a, b),
                target_y: slice_i32(&sequence.target_y, a, b),
                jump: slice_bool(&sequence.jump, a, b),
                fire: slice_bool(&sequence.fire, a, b),
                hook: slice_bool(&sequence.hook, a, b),
            };
            sub_sequences.push(sub);
        }
        sub_sequences
    }
}

/// One extracted sub-sequence: the duration's slice of every tick column,
/// with the identity columns copied.
pub open spec fn sub_of(sub: Sequence, parent: Sequence, d: Duration) -> bool {
    &&& sub.wf()
    &&& sub.start_tick == parent.start_tick + d.start
    &&& sub.tick_count == d.end - d.start + 1
    &&& sub.player_name@ == parent.player_name@
    &&& sub.map_name@ == parent.map_name@
    &&& sub.teehist_name@ == parent.teehist_name@
    &&& sub.timeout_code@ == parent.timeout_code@
    &&& sub.pos_x@ == parent.pos_x@.subrange(d.start as int, d.end + 1)
    &&& sub.pos_y@ == parent.pos_y@.subrange(d.start as int, d.end + 1)
    &&& sub.move_dir@ == parent.move_dir@.subrange(d.start as int, d.end + 1)
    &&& sub.target_x@ == parent.target_x@.subrange(d.start as int, d.end + 1)
    &&& sub.target_y@ == parent.target_y@.subrange(d.start as int, d.end + 1)
    &&& sub.jump@ == parent.jump@.subrange(d.start as int, d.end + 1)
    &&& sub.fire@ == parent.fire@.subrange(d.start as int, d.end + 1)
    &&& sub.hook@ == parent.hook@.subrange(d.start as int, d.end + 1)
}

fn slice_i32(v: &Vec<i32>, a: usize, b: usize) -> (r: Vec<i32>)
    requires
        a <= b < v@.len(),
    ensures
        r@ == v@.subrange(a as int, b + 1),
{
    let n = v.len();
    let mut r: Vec<i32> = Vec::new();
    for i in a..(b + 1)
        invariant
            a <= b < n == v@.len(),
            a <= i <= b + 1,
            r@ == v@.subrange(a as int, i as int),
    {
        r.push(v[i]);
        proof {
            assert(r@ =~= v@.subrange(a as int, i + 1));
        }
    }
    r
}

fn slice_bool(v: &Vec<bool>, a: usize, b: usize) -> (r: Vec<bool>)
    requires
        a <= b < v@.len(),
    ensures
        r@ == v@.subrange(a as int, b + 1),
{
    let n = v.len();
    let mut r: Vec<bool> = Vec::new();
    for i in a..(b + 1)
        invariant
            a <= b < n == v@.len(),
            a <= i <= b + 1,
            r@ == v@.subrange(a as int, i as int),
    {
        r.push(v[i]);
        proof {
            assert(r@ =~= v@.subrange(a as int, i + 1));
        }
    }
    r
}

/// Rank the players of a batch by their contribution, counting either
/// whole sequences or ticks, and keep the top `k`.  Ties keep the order
/// in which the names were first seen, so the ranking is deterministic.
pub fn get_top_k_players(sequences: &[Sequence], k: usize, count_ticks: bool) -> (r: Vec<
    (String, usize),
>)
    requires
        total_weight(sequences@, count_ticks) <= usize::MAX,
    ensures
        r@.len() <= k,
        forall|i: int| 0 <= i < r@.len() ==> (#[trigger] r@[i]).1 == count_of(
            sequences@,
            r@[i].0@,
            count_ticks,
        ),
        forall|i: int, j: int| 0 <= i < j < r@.len() ==> r@[i].0@ != r@[j].0@,
        forall|i: int| 0 < i < r@.len() ==> (#[trigger] r@[i]).1 <= r@[i - 1].1,
        r@.len() == (if k as int <= distinct_name_count(sequences@) {
            k as int
        } else {
            distinct_name_count(sequences@)
        }),
        forall|nm: Seq<char>| #![trigger count_of(sequences@, nm, count_ticks)] ((forall|x: int|
            0 <= x < r@.len() ==> (#[trigger] r@[x]).0@ != nm) && r@.len() > 0) ==> count_of(
            sequences@,
            nm,
            count_ticks,
        ) <= r@[r@.len() - 1].1,
{
    let counts = accumulate_counts(sequences, count_ticks);
    let ghost cv = counts@;
    let r = select_top_k(counts, k);
    proof {
        assert forall|i: int| 0 <= i < r@.len() implies (#[trigger] r@[i]).1 as int == count_of(
            sequences@,
            r@[i].0@,
            count_ticks,
        ) by {
            lemma_name_index(cv, r@[i].0@);
        }
        if sequences@.len() > 0 {
            assert(has_name(cv, sequences@[0].player_name@));
            lemma_name_index(cv, sequences@[0].player_name@);
        }
        assert forall|nm: Seq<char>| #![trigger count_of(sequences@, nm, count_ticks)] ((forall|
            x: int|
            0 <= x < r@.len() ==> (#[trigger] r@[x]).0@ != nm) && r@.len() > 0) implies count_of(
            sequences@,
            nm,
            count_ticks,
        ) <= r@[r@.len() - 1].1 by {
            lemma_name_index(cv, nm);
            if has_name(cv, nm) {
                let ni = name_index(cv, nm);
                assert(value_of_name(cv, nm) == Some(cv[ni].1));
                assert(cv[ni].1 as int == count_of(sequences@, nm, count_ticks));
            } else {
                lemma_count_le_total(sequences@, nm, count_ticks);
                assert(count_of(sequences@, nm, count_ticks) == 0);
            }
        }
    }
    r
}

/// The per-name totals of a batch, in first-seen order.
fn accumulate_counts(sequences: &[Sequence], count_ticks: bool) -> (r: NameMap<usize>)
    requires
        total_weight(sequences@, count_ticks) <= usize::MAX,
    ensures
        r.wf(),
        forall|i: int| 0 <= i < r@.len() ==> (#[trigger] r@[i]).1 as int == count_of(
            sequences@,
            r@[i].0@,
            count_ticks,
        ),
        forall|j: int| 0 <= j < sequences@.len() ==> has_name(
            r@,
            (#[trigger] sequences@[j]).player_name@,
        ),
        forall|nm: Seq<char>| #![trigger has_name(r@, nm)] !has_name(r@, nm) ==> count_of(
            sequences@,
            nm,
            count_ticks,
        ) == 0,
        r@.len() == distinct_name_count(sequences@),
{
    let n = sequences.len();
    let mut counts: NameMap<usize> = NameMap::new();
    proof {
        lemma_count_le_total(sequences@, Seq::<char>::empty(), count_ticks);
        assert(sequences@.subrange(0, 0) =~= Seq::<Sequence>::empty());
    }
    for s in 0..n
        invariant
            n == sequences@.len(),
            total_weight(sequences@, count_ticks) <= usize::MAX,
            counts.wf(),
            forall|i: int| 0 <= i < counts@.len() ==> (#[trigger] counts@[i]).1 as int
                == count_of(sequences@.subrange(0, s as int), counts@[i].0@, count_ticks),
            forall|i: int| 0 <= i < counts@.len() ==> (#[trigger] counts@[i]).1 as int
                <= total_weight(sequences@.subrange(0, s as int), count_ticks),
            forall|name: Seq<char>| !has_name(counts@, name) ==> count_of(
                sequences@.subrange(0, s as int),
                name,
                count_ticks,
            ) == 0,
            forall|x: int| 0 <= x < s ==> has_name(
                counts@,
                (#[trigger] sequences@[x]).player_name@,
            ),
            counts@.len() == distinct_name_count(sequences@.subrange(0, s as int)),
            forall|i: int| 0 <= i < counts@.len() ==> exists|x: int| 0 <= x < s
                && (#[trigger] sequences@[x]).player_name@ == (#[trigger] counts@[i]).0@,
            total_weight(sequences@.subrange(0, s as int), count_ticks) <= total_weight(
                sequences@,
                count_ticks,
            ),
    {
        let seq = &sequences[s];
        let increment = if count_ticks {
            seq.tick_count
        } else {
            1
        };
        proof {
            lemma_prefix_weight(sequences@, s as int, count_ticks);
            assert(sequences@.subrange(0, s + 1).drop_last() =~= sequences@.subrange(
                0,
                s as int,
            ));
            assert(sequences@.subrange(0, s + 1).last() == sequences@[s as int]);
            lemma_count_le_total(sequences@.subrange(0, s as int), seq.player_name@, count_ticks);
        }
        let prev = match counts.get(&seq.player_name) {
            Some(c) => *c,
            None => 0,
        };
        let ghost c0 = counts@;
        let ghost pre = sequences@.subrange(0, s as int);
        let ghost cur = sequences@.subrange(0, s + 1);
        proof {
            lemma_name_index(c0, seq.player_name@);
            if has_name(c0, seq.player_name@) {
                let ni = name_index(c0, seq.player_name@);
                lemma_name_found(c0, ni);
                assert(c0[ni].1 == prev);
                assert(prev as int == count_of(pre, seq.player_name@, count_ticks));
            } else {
                assert(prev as int == count_of(pre, seq.player_name@, count_ticks));
            }
            lemma_count_step(sequences@, s as int, seq.player_name@, count_ticks);
        }
        counts.insert(seq.player_name.clone(), prev + increment);
        proof {
            assert forall|i: int| 0 <= i < counts@.len() implies (#[trigger] counts@[i]).1 as int
                == count_of(cur, counts@[i].0@, count_ticks) by {
                lemma_name_found(counts@, i);
                lemma_count_step(sequences@, s as int, counts@[i].0@, count_ticks);
                if counts@[i].0@ == seq.player_name@ {
                    assert(value_of_name(counts@, seq.player_name@) == Some(
                        (prev + increment) as usize,
                    ));
                } else {
                    assert(value_of_name(counts@, counts@[i].0@) == value_of_name(
                        c0,
                        counts@[i].0@,
                    ));
                    lemma_name_index(c0, counts@[i].0@);
                    if has_name(c0, counts@[i].0@) {
                        lemma_name_found(c0, name_index(c0, counts@[i].0@));
                    }
                }
            }
            assert forall|name: Seq<char>| !has_name(counts@, name) implies count_of(
                cur,
                name,
                count_ticks,
            ) == 0 by {
                lemma_name_index(counts@, name);
                lemma_count_step(sequences@, s as int, name, count_ticks);
                assert(name != seq.player_name@);
                assert(value_of_name(counts@, name) == value_of_name(c0, name));
                lemma_name_index(c0, name);
                if has_name(c0, name) {
                    lemma_name_found(c0, name_index(c0, name));
                    assert(value_of_name(c0, name) is Some);
                }
            }
            let fresh = !has_name(c0, seq.player_name@);
            assert forall|i: int| 0 <= i < counts@.len() implies exists|x: int| 0 <= x < s + 1
                && (#[trigger] sequences@[x]).player_name@ == (#[trigger] counts@[i]).0@ by {
                if counts@[i].0@ == seq.player_name@ {
                    assert(sequences@[s as int].player_name@ == counts@[i].0@);
                } else {
                    assert(counts@[i].0@ == c0[i].0@);
                    let x = choose|x: int| 0 <= x < s && (#[trigger] sequences@[x]).player_name@
                        == c0[i].0@;
                    assert(sequences@[x].player_name@ == counts@[i].0@);
                }
            }
            assert(seen_before(cur, s as int) <==> !fresh) by {
                assert forall|j: int| 0 <= j < s + 1 implies cur[j] == sequences@[j] by {}
                if !fresh {
                    lemma_name_index(c0, seq.player_name@);
                    let ni = name_index(c0, seq.player_name@);
                    let x = choose|x: int| 0 <= x < s && (#[trigger] sequences@[x]).player_name@
                        == c0[ni].0@;
                    assert(cur[x].player_name@ == cur[s as int].player_name@);
                }
                if seen_before(cur, s as int) {
                    let j = choose|j: int| 0 <= j < s && (#[trigger] cur[j]).player_name@
                        == cur[s as int].player_name@;
                    assert(has_name(c0, sequences@[j].player_name@));
                }
            }
            assert(cur.drop_last() =~= pre);
            assert(counts@.len() == distinct_name_count(cur));
            assert forall|i: int| 0 <= i < counts@.len() implies (#[trigger] counts@[i]).1 as int
                <= total_weight(cur, count_ticks) by {
                lemma_count_le_total(cur, counts@[i].0@, count_ticks);
            }
            assert forall|x: int| 0 <= x < s + 1 implies has_name(
                counts@,
                (#[trigger] sequences@[x]).player_name@,
            ) by {
                let nm = sequences@[x].player_name@;
                if nm == seq.player_name@ {
                    assert(value_of_name(counts@, nm) is Some);
                } else {
                    assert(value_of_name(counts@, nm) == value_of_name(c0, nm));
                    if x < s {
                        lemma_name_index(c0, nm);
                        lemma_name_index(counts@, nm);
                    }
                }
            }
        }
    }
    proof {
        assert(sequences@.subrange(0, n as int) =~= sequences@);
    }
    counts
}

/// `count_of` over one more sequence grows by that sequence's weight for
/// its own player and stays put for every other name.
proof fn lemma_count_step(seqs: Seq<Sequence>, s: int, name: Seq<char>, count_ticks: bool)
    requires
        0 <= s < seqs.len(),
    ensures
        count_of(seqs.subrange(0, s + 1), name, count_ticks) == count_of(
            seqs.subrange(0, s),
            name,
            count_ticks,
        ) + if seqs[s].player_name@ == name {
            weight_of(seqs[s], count_ticks)
        } else {
            0
        },
{
    assert(seqs.subrange(0, s + 1).drop_last() =~= seqs.subrange(0, s));
    assert(seqs.subrange(0, s + 1).last() == seqs[s]);
}

/// A prefix never outweighs the whole batch.
proof fn lemma_prefix_weight(seqs: Seq<Sequence>, s: int, count_ticks: bool)
    requires
        0 <= s < seqs.len(),
    ensures
        total_weight(seqs.subrange(0, s + 1), count_ticks) == total_weight(
            seqs.subrange(0, s),
            count_ticks,
        ) + weight_of(seqs[s], count_ticks),
        total_weight(seqs.subrange(0, s + 1), count_ticks) <= total_weight(seqs, count_ticks),
    decreases seqs.len() - s,
{
    assert(seqs.subrange(0, s + 1).drop_last() =~= seqs.subrange(0, s));
    assert(seqs.subrange(0, s + 1).last() == seqs[s]);
    if s + 1 < seqs.len() {
        lemma_prefix_weight(seqs, s + 1, count_ticks);
    } else {
        assert(seqs.subrange(0, s + 1) =~= seqs);
    }
}

/// No single name outweighs the whole batch.
proof fn lemma_count_le_total(seqs: Seq<Sequence>, name: Seq<char>, count_ticks: bool)
    ensures
        0 <= count_of(seqs, name, count_ticks) <= total_weight(seqs, count_ticks),
    decreases seqs.len(),
{
    if seqs.len() > 0 {
        lemma_count_le_total(seqs.drop_last(), name, count_ticks);
    }
}

/// Repeatedly move the largest remaining count to the front, keeping
/// first-seen order among ties, until `k` entries are chosen.
pub(crate) fn select_top_k(counts: NameMap<usize>, k: usize) -> (r: Vec<(String, usize)>)
    requires
        counts.wf(),
    ensures
        r@.len() <= k,
        r@.len() == (if k as int <= counts@.len() {
            k as int
        } else {
            counts@.len() as int
        }),
        forall|i: int| 0 <= i < r@.len() ==> value_of_name(counts@, (#[trigger] r@[i]).0@)
            == Some(r@[i].1),
        forall|i: int, j: int| 0 <= i < j < r@.len() ==> r@[i].0@ != r@[j].0@,
        forall|i: int| 0 < i < r@.len() ==> (#[trigger] r@[i]).1 <= r@[i - 1].1,
        forall|nm: Seq<char>| #![trigger value_of_name(counts@, nm)] ((forall|x: int| 0 <= x
            < r@.len() ==> (#[trigger] r@[x]).0@ != nm) && r@.len() > 0) ==> (match
        value_of_name(counts@, nm) {
            Some(c) => c <= r@[r@.len() - 1].1,
            None => true,
        }),
{
    let ghost orig = counts@;
    let mut avail: Vec<(String, usize)> = Vec::new();
    let entries = counts.entries();
    let n = entries.len();
    for i in 0..n
        invariant
            n == entries@.len(),
            entries@ == counts@,
            avail@.len() == i,
            forall|j: int| 0 <= j < i ==> (#[trigger] avail@[j]).0@ == counts@[j].0@
                && avail@[j].1 == counts@[j].1,
    {
        let entry = &entries[i];
        avail.push((entry.0.clone(), entry.1));
    }
    proof {
        assert forall|i: int| 0 <= i < avail@.len() implies value_of_name(
            orig,
            (#[trigger] avail@[i]).0@,
        ) == Some(avail@[i].1) by {
            lemma_name_found(orig, i);
        }
        assert forall|i1: int, i2: int| 0 <= i1 < i2 < avail@.len() implies avail@[i1].0@
            != avail@[i2].0@ by {
            assert(avail@[i1].0@ == orig[i1].0@ && avail@[i2].0@ == orig[i2].0@);
        }
        assert forall|nm: Seq<char>| #[trigger] value_of_name(avail@, nm) == value_of_name(
            orig,
            nm,
        ) by {
            lemma_name_index_same_keys(avail@, orig, nm);
            lemma_name_index(avail@, nm);
            lemma_name_index(orig, nm);
        }
    }
    let mut out: Vec<(String, usize)> = Vec::new();
    while out.len() < k && avail.len() > 0
        invariant
            counts.wf(),
            out@.len() <= k,
            out@.len() + avail@.len() == orig.len(),
            forall|i: int| 0 <= i < out@.len() ==> value_of_name(
                orig,
                (#[trigger] out@[i]).0@,
            ) == Some(out@[i].1),
            forall|i: int| 0 <= i < avail@.len() ==> value_of_name(
                orig,
                (#[trigger] avail@[i]).0@,
            ) == Some(avail@[i].1),
            forall|i1: int, i2: int| 0 <= i1 < i2 < out@.len() ==> out@[i1].0@ != out@[i2].0@,
            forall|i1: int, i2: int| 0 <= i1 < i2 < avail@.len() ==> avail@[i1].0@
                != avail@[i2].0@,
            forall|i1: int, i2: int| 0 <= i1 < out@.len() && 0 <= i2 < avail@.len()
                ==> out@[i1].0@ != avail@[i2].0@,
            forall|i: int| 0 < i < out@.len() ==> (#[trigger] out@[i]).1 <= out@[i - 1].1,
            forall|i: int| 0 <= i < avail@.len() && out@.len() > 0 ==> (#[trigger] avail@[i]).1
                <= out@.last().1,
            forall|nm: Seq<char>| #![trigger value_of_name(avail@, nm)] (forall|x: int| 0 <= x
                < out@.len() ==> (#[trigger] out@[x]).0@ != nm) ==> value_of_name(avail@, nm)
                == value_of_name(orig, nm),
        decreases avail@.len(),
    {
        let mut best: usize = 0;
        let m = avail.len();
        for i in 1..m
            invariant
                m == avail@.len(),
                best < m,
                forall|j: int| 0 <= j < i ==> (#[trigger] avail@[j]).1 <= avail@[best as int].1,
        {
            if avail[i].1 > avail[best].1 {
                best = i;
            }
        }
        let ghost avail0 = avail@;
        let ghost out0 = out@;
        let chosen = avail.remove(best);
        proof {
            assert forall|i: int| 0 <= i < avail@.len() implies value_of_name(
                orig,
                (#[trigger] avail@[i]).0@,
            ) == Some(avail@[i].1) by {
                if i < best {
                    assert(avail@[i] == avail0[i]);
                } else {
                    assert(avail@[i] == avail0[i + 1]);
                }
            }
            assert forall|i1: int, i2: int| 0 <= i1 < i2 < avail@.len() implies avail@[i1].0@
                != avail@[i2].0@ by {
                if i1 < best {
                    assert(avail@[i1] == avail0[i1]);
                } else {
                    assert(avail@[i1] == avail0[i1 + 1]);
                }
                if i2 < best {
                    assert(avail@[i2] == avail0[i2]);
                } else {
                    assert(avail@[i2] == avail0[i2 + 1]);
                }
            }
        }
        out.push(chosen);
        proof {
            assert forall|i: int| 0 <= i < avail@.len() implies (#[trigger] avail@[i]).1
                <= out@.last().1 by {
                if i < best {
                    assert(avail@[i] == avail0[i]);
                } else {
                    assert(avail@[i] == avail0[i + 1]);
                }
            }
            assert forall|i1: int, i2: int| 0 <= i1 < out@.len() && 0 <= i2 < avail@.len()
                implies out@[i1].0@ != avail@[i2].0@ by {
                if i2 < best {
                    assert(avail@[i2] == avail0[i2]);
                } else {
                    assert(avail@[i2] == avail0[i2 + 1]);
                }
            }
            assert forall|nm: Seq<char>| (forall|x: int| 0 <= x < out@.len()
                ==> (#[trigger] out@[x]).0@ != nm) implies #[trigger] value_of_name(avail@, nm)
                == value_of_name(orig, nm) by {
                assert(out@.last().0@ == avail0[best as int].0@);
                assert(nm != avail0[best as int].0@);
                lemma_remove_other(avail0, best as int, nm);
                assert forall|x: int| 0 <= x < out0.len() implies (#[trigger] out0[x]).0@ != nm
                    by {
                    assert(out0[x] == out@[x]);
                }
                assert(value_of_name(avail0, nm) == value_of_name(orig, nm));
            }
        }
    }
    proof {
        if out@.len() > 0 {
            assert forall|nm: Seq<char>| #![trigger value_of_name(orig, nm)] ((forall|x: int| 0
                <= x < out@.len() ==> (#[trigger] out@[x]).0@ != nm) && out@.len() > 0) implies
                (match value_of_name(orig, nm) {
                Some(c) => c <= out@[out@.len() - 1].1,
                None => true,
            }) by {
                if value_of_name(orig, nm) is Some {
                    assert(value_of_name(avail@, nm) == value_of_name(orig, nm));
                    lemma_name_index(avail@, nm);
                    if avail@.len() == 0 {
                        assert(value_of_name(avail@, nm) is None);
                    } else {
                        let yi = name_index(avail@, nm);
                        assert(avail@[yi].1 <= out@.last().1);
                    }
                }
            }
        }
    }
    out
}

/// A cleaned output is a verbatim slice of its parent, at the offset its
/// own start tick names.
pub open spec fn cleaned_slice(sub: Sequence, parent: Sequence) -> bool {
    &&& parent.start_tick <= sub.start_tick
    &&& sub.tick_count >= 1
    &&& sub.start_tick - parent.start_tick + sub.tick_count <= parent.tick_count
    &&& sub_of(
        sub,
        parent,
        Duration {
            start: (sub.start_tick - parent.start_tick) as usize,
            end: (sub.start_tick - parent.start_tick + sub.tick_count - 1) as usize,
        },
    )
}

/// How many fixed-length pieces a list of durations yields.
pub open spec fn total_cuts(ds: Seq<Duration>, len: usize) -> int
    decreases ds.len(),
{
    if ds.len() == 0 {
        0
    } else {
        total_cuts(ds.drop_last(), len) + (ds.last().end - ds.last().start + 1) / (len as int)
    }
}

/// The whole cleaning pass over one sequence: trim the AFK stretches,
/// pad the remaining runs, cut them to `seq_length` ticks and extract
/// one sub-sequence per piece.  Every output is a verbatim slice of the
/// input of exactly `seq_length` ticks, and there is one output for
/// every piece the padded runs yield.
#[verifier::rlimit(100)]
#[verifier::spinoff_prover]
pub fn clean(sequence: &Sequence, afk_ticks: usize, afk_padding: usize, seq_length: usize) -> (r:
    Vec<Sequence>)
    requires
        sequence.wf(),
        seq_length >= 1,
        sequence.tick_count + afk_padding <= usize::MAX,
        sequence.tick_count < usize::MAX,
    ensures
        forall|i: int| 0 <= i < r@.len() ==> (#[trigger] r@[i]).tick_count == seq_length,
        forall|i: int| 0 <= i < r@.len() ==> cleaned_slice(#[trigger] r@[i], *sequence),
        r@.len() == (if sequence.tick_count == 0 {
            0int
        } else {
            total_cuts(
                pad_from(
                    non_afk_runs(sequence.move_dir@, afk_ticks),
                    0,
                    (sequence.tick_count - 1) as usize,
                    afk_padding,
                    Seq::<Duration>::empty(),
                ),
                seq_length,
            )
        }),
{
    if sequence.tick_count == 0 {
        return Vec::new();
    }
    let runs = Duration::get_non_afk_durations(sequence, afk_ticks);
    let max_tick = sequence.tick_count - 1;
    let padded = Duration::pad_durations(runs, max_tick, afk_padding);
    let mut cut: Vec<Duration> = Vec::new();
    let n = padded.len();
    for i in 0..n
        invariant
            n == padded@.len(),
            sorted_disjoint(padded@, max_tick),
            max_tick == sequence.tick_count - 1,
            max_tick < usize::MAX,
            seq_length >= 1,
            cut@.len() == total_cuts(padded@.subrange(0, i as int), seq_length),
            forall|j: int| 0 <= j < cut@.len() ==> (#[trigger] cut@[j]).start <= cut@[j].end
                < sequence.tick_count,
            forall|j: int| 0 <= j < cut@.len() ==> (#[trigger] cut@[j]).end - cut@[j].start + 1
                == seq_length,
    {
        let d = padded[i];
        let pieces = d.cut_duration(seq_length);
        let m = pieces.len();
        let ghost cut0 = cut@;
        for p in 0..m
            invariant
                m == pieces@.len(),
                sorted_disjoint(padded@, max_tick),
                0 <= i < padded@.len(),
                d == padded@[i as int],
                max_tick == sequence.tick_count - 1,
                seq_length >= 1,
                cut@.len() == cut0.len() + p,
                forall|j: int| 0 <= j < cut0.len() ==> cut@[j] == cut0[j],
                forall|j: int| 0 <= j < m ==> (#[trigger] pieces@[j]).start <= pieces@[j].end
                    <= d.end,
                forall|j: int| 0 <= j < m ==> (#[trigger] pieces@[j]).end - pieces@[j].start + 1
                    == seq_length,
                forall|j: int| 0 <= j < cut@.len() ==> (#[trigger] cut@[j]).start <= cut@[j].end
                    < sequence.tick_count,
                forall|j: int| 0 <= j < cut@.len() ==> (#[trigger] cut@[j]).end - cut@[j].start
                    + 1 == seq_length,
        {
            cut.push(pieces[p]);
        }
        proof {
            assert(padded@.subrange(0, i + 1).drop_last() =~= padded@.subrange(0, i as int));
            assert(padded@.subrange(0, i + 1).last() == padded@[i as int]);
        }
    }
    proof {
        assert(padded@.subrange(0, n as int) =~= padded@);
    }
    let ghost cuts = cut@;
    let r = Duration::extract_sub_sequences(sequence, cut);
    proof {
        assert forall|i: int| 0 <= i < r@.len() implies (#[trigger] r@[i]).tick_count
            == seq_length by {
            assert(sub_of(r@[i], *sequence, cuts[i]));
            assert(cuts[i].end - cuts[i].start + 1 == seq_length);
        }
        assert forall|i: int| 0 <= i < r@.len() implies cleaned_slice(
            #[trigger] r@[i],
            *sequence,
        ) by {
            let w = cuts[i];
            assert(w.start <= w.end < sequence.tick_count);
            assert(sub_of(r@[i], *sequence, w));
            assert(w == (Duration {
                start: (r@[i].start_tick - sequence.start_tick) as usize,
                end: (r@[i].start_tick - sequence.start_tick + r@[i].tick_count - 1) as usize,
            }));
        }
    }
    r
}

/// Cleaning is non-creative: every tick column of a sub-sequence of a
/// sub-sequence comes verbatim from the original sequence, at the
/// composed offset.  Applying the cleaner to its own output therefore
/// yields per-tick contents that are a subset of the input's.
pub proof fn lemma_sub_of_compose(
    s0: Sequence,
    d0: Duration,
    s1: Sequence,
    d1: Duration,
    s2: Sequence,
)
    requires
        s0.wf(),
        sub_of(s1, s0, d0),
        sub_of(s2, s1, d1),
        d0.start <= d0.end < s0.tick_count,
        d1.start <= d1.end < s1.tick_count,
    ensures
        sub_of(
            s2,
            s0,
            Duration {
                start: (d0.start + d1.start) as usize,
                end: (d0.start + d1.end) as usize,
            },
        ),
{
    let a = d0.start + d1.start;
    let b = d0.start + d1.end;
    assert(s2.pos_x@ =~= s0.pos_x@.subrange(a as int, b + 1));
    assert(s2.pos_y@ =~= s0.pos_y@.subrange(a as int, b + 1));
    assert(s2.move_dir@ =~= s0.move_dir@.subrange(a as int, b + 1));
    assert(s2.target_x@ =~= s0.target_x@.subrange(a as int, b + 1));
    assert(s2.target_y@ =~= s0.target_y@.subrange(a as int, b + 1));
    assert(s2.jump@ =~= s0.jump@.subrange(a as int, b + 1));
    assert(s2.fire@ =~= s0.fire@.subrange(a as int, b + 1));
    assert(s2.hook@ =~= s0.hook@.subrange(a as int, b + 1));
}

} // verus!

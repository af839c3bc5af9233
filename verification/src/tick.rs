//! Per-tick state: the absolute input vector and the absolute position of
//! every player present at one timestep.
//!
//! With the exception of the first tick, the previous tick is copied during
//! parsing and only the changes are applied, so after parsing all implicit
//! information is explicitly available for each tick.

use vstd::prelude::*;

use crate::assoc::{
    has_key, key_index, lemma_key_index, lemma_spec_insert, lemma_spec_remove, spec_insert,
    spec_remove, value_of, CidMap,
};

verus! {

/// The ten-slot input vector: direction, target_x, target_y, jump, fire,
/// hook, player_flags, wanted_weapon, next_weapon, prev_weapon.
pub type InputVector = [i32; 10];

/// The element-wise sum of an input vector and a diff, wrapping on 32-bit
/// overflow as the stream's delta encoding assumes.
pub open spec fn wrapped_vec(a: InputVector, d: InputVector) -> Seq<i32> {
    Seq::new(10, |i: int| vstd::wrapping::i32_specs::wrapping_add(a[i], d[i]))
}

/// Input vectors and player positions for one timestep.
pub struct Tick {
    /// input vector for each cid present
    pub input_vectors: CidMap<InputVector>,
    /// absolute world position (x, y) for each cid present
    pub player_positions: CidMap<(i32, i32)>,
}

impl Tick {
    pub open spec fn wf(&self) -> bool {
        &&& self.input_vectors.wf()
        &&& self.player_positions.wf()
    }

    pub open spec fn input_of(&self, cid: i32) -> Option<InputVector> {
        value_of(self.input_vectors@, cid)
    }

    pub open spec fn position_of(&self, cid: i32) -> Option<(i32, i32)> {
        value_of(self.player_positions@, cid)
    }

    /// An empty tick: no player has an input or a position yet.
    pub fn new() -> (t: Tick)
        ensures
            t.wf(),
            t.input_vectors@ == Seq::<(i32, InputVector)>::empty(),
            t.player_positions@ == Seq::<(i32, (i32, i32))>::empty(),
    {
        Tick { input_vectors: CidMap::new(), player_positions: CidMap::new() }
    }

    /// Record a player's initial position when it enters the world.
    pub fn add_init_position(&mut self, cid: i32, x: i32, y: i32)
        requires
            old(self).wf(),
            old(self).position_of(cid) is None,
        ensures
            final(self).wf(),
            final(self).player_positions@ == old(self).player_positions@.push((cid, (x, y))),
            final(self).input_vectors == old(self).input_vectors,
            final(self).position_of(cid) == Some((x, y)),
            forall|c: i32| c != cid ==> final(self).position_of(c) == old(self).position_of(c),
    {
        proof {
            lemma_spec_insert(self.player_positions@, cid, (x, y));
            lemma_key_index(self.player_positions@, cid);
        }
        self.player_positions.insert(cid, (x, y));
    }

    /// Record a player's initial input vector.  A vector that is already
    /// present is overwritten: the stream occasionally replays the initial
    /// input, and dropping the rest of the file would lose far more data.
    pub fn add_init_input(&mut self, cid: i32, input: InputVector)
        requires
            old(self).wf(),
        ensures
            final(self).wf(),
            final(self).input_vectors@ == spec_insert(old(self).input_vectors@, cid, input),
            final(self).player_positions == old(self).player_positions,
            final(self).input_of(cid) == Some(input),
            forall|c: i32| c != cid ==> final(self).input_of(c) == old(self).input_of(c),
    {
        proof {
            lemma_spec_insert(self.input_vectors@, cid, input);
        }
        self.input_vectors.insert(cid, input);
    }

    /// Apply an input diff element-wise with wrap-around on 32-bit overflow.
    /// A diff for an absent cid is dropped: some streams emit diffs before
    /// the matching initial input.
    pub fn apply_input_diff(&mut self, cid: i32, dinput: InputVector)
        requires
            old(self).wf(),
        ensures
            final(self).wf(),
            final(self).player_positions == old(self).player_positions,
            match old(self).input_of(cid) {
                Some(prev) => {
                    &&& final(self).input_of(cid) matches Some(cur)
                        && cur@ == wrapped_vec(prev, dinput)
                    &&& final(self).input_vectors@ == spec_insert(
                        old(self).input_vectors@,
                        cid,
                        final(self).input_of(cid)->Some_0,
                    )
                },
                None => *final(self) == *old(self),
            },
            forall|c: i32| c != cid ==> final(self).input_of(c) == old(self).input_of(c),
    {
        let prev = match self.input_vectors.get(cid) {
            Some(v) => *v,
            None => {
                return ;
            },
        };
        let next: InputVector = [
            prev[0].wrapping_add(dinput[0]),
            prev[1].wrapping_add(dinput[1]),
            prev[2].wrapping_add(dinput[2]),
            prev[3].wrapping_add(dinput[3]),
            prev[4].wrapping_add(dinput[4]),
            prev[5].wrapping_add(dinput[5]),
            prev[6].wrapping_add(dinput[6]),
            prev[7].wrapping_add(dinput[7]),
            prev[8].wrapping_add(dinput[8]),
            prev[9].wrapping_add(dinput[9]),
        ];
        proof {
            assert(next@ =~= wrapped_vec(prev, dinput));
            lemma_spec_insert(self.input_vectors@, cid, next);
        }
        self.input_vectors.insert(cid, next);
    }

    /// Move a player by an absolute position diff.
    pub fn apply_position_diff(&mut self, cid: i32, dx: i32, dy: i32)
        requires
            old(self).wf(),
            old(self).position_of(cid) matches Some(p)
                && i32::MIN <= p.0 + dx <= i32::MAX
                && i32::MIN <= p.1 + dy <= i32::MAX,
        ensures
            final(self).wf(),
            final(self).input_vectors == old(self).input_vectors,
            final(self).position_of(cid) == Some(
                (
                    (old(self).position_of(cid)->Some_0.0 + dx) as i32,
                    (old(self).position_of(cid)->Some_0.1 + dy) as i32,
                ),
            ),
            final(self).player_positions@ == spec_insert(
                old(self).player_positions@,
                cid,
                final(self).position_of(cid)->Some_0,
            ),
            forall|c: i32| c != cid ==> final(self).position_of(c) == old(self).position_of(c),
    {
        let p = match self.player_positions.get(cid) {
            Some(p) => *p,
            None => {
                proof {
                    assert(false);
                }
                (0, 0)
            },
        };
        let np = (p.0 + dx, p.1 + dy);
        proof {
            lemma_spec_insert(self.player_positions@, cid, np);
        }
        self.player_positions.insert(cid, np);
    }

    /// Remove a player's position when it leaves the world.
    pub fn remove_player_position(&mut self, cid: i32)
        requires
            old(self).wf(),
            old(self).position_of(cid) is Some,
        ensures
            final(self).wf(),
            final(self).input_vectors == old(self).input_vectors,
            final(self).player_positions@ == spec_remove(old(self).player_positions@, cid),
            final(self).position_of(cid) is None,
            forall|c: i32| c != cid ==> final(self).position_of(c) == old(self).position_of(c),
    {
        proof {
            lemma_spec_remove(self.player_positions@, cid);
        }
        let _ = self.player_positions.take(cid);
    }

    /// A deep copy, taken when the parser crosses a tick boundary.
    pub fn snapshot(&self) -> (t: Tick)
        requires
            self.wf(),
        ensures
            t.wf(),
            t.input_vectors@ == self.input_vectors@,
            t.player_positions@ == self.player_positions@,
    {
        let mut inputs: CidMap<InputVector> = CidMap::new();
        let iv = self.input_vectors.entries();
        let n = iv.len();
        for i in 0..n
            invariant
                n == iv@.len(),
                iv@ == self.input_vectors@,
                self.wf(),
                inputs.wf(),
                inputs@ == self.input_vectors@.subrange(0, i as int),
        {
            let (k, v) = iv[i];
            proof {
                lemma_key_index(inputs@, k);
                if has_key(inputs@, k) {
                    assert(inputs@[key_index(inputs@, k)]
                        == self.input_vectors@[key_index(inputs@, k)]);
                }
            }
            inputs.push_entry(k, v);
            proof {
                assert(inputs@ =~= self.input_vectors@.subrange(0, i + 1));
            }
        }
        let mut positions: CidMap<(i32, i32)> = CidMap::new();
        let pv = self.player_positions.entries();
        let m = pv.len();
        for i in 0..m
            invariant
                m == pv@.len(),
                pv@ == self.player_positions@,
                self.wf(),
                positions.wf(),
                positions@ == self.player_positions@.subrange(0, i as int),
        {
            let (k, v) = pv[i];
            proof {
                lemma_key_index(positions@, k);
                if has_key(positions@, k) {
                    assert(positions@[key_index(positions@, k)]
                        == self.player_positions@[key_index(positions@, k)]);
                }
            }
            positions.push_entry(k, v);
            proof {
                assert(positions@ =~= self.player_positions@.subrange(0, i + 1));
            }
        }
        proof {
            assert(inputs@ =~= self.input_vectors@);
            assert(positions@ =~= self.player_positions@);
        }
        Tick { input_vectors: inputs, player_positions: positions }
    }
}

/// The sum of a series of input diffs for one slot.
pub open spec fn sum_of(ds: Seq<i32>) -> int
    decreases ds.len(),
{
    if ds.len() == 0 {
        0
    } else {
        sum_of(ds.drop_last()) + ds.last()
    }
}

/// One slot after an initial value and a series of wrapping diffs.
pub open spec fn fold_wrapped(v: i32, ds: Seq<i32>) -> i32
    decreases ds.len(),
{
    if ds.len() == 0 {
        v
    } else {
        vstd::wrapping::i32_specs::wrapping_add(fold_wrapped(v, ds.drop_last()), ds.last())
    }
}

/// An integer reduced modulo 2^32 into the 32-bit two's-complement range.
pub open spec fn wrap_i32(x: int) -> i32 {
    let m = x % 0x1_0000_0000;
    if m > i32::MAX {
        (m - 0x1_0000_0000) as i32
    } else {
        m as i32
    }
}

/// A value already in range is its own wrap.
proof fn lemma_wrap_identity(x: int)
    requires
        i32::MIN <= x <= i32::MAX,
    ensures
        wrap_i32(x) == x as i32,
{
    if x < 0 {
        vstd::arithmetic::div_mod::lemma_mod_multiples_vanish(1, x, 0x1_0000_0000);
        vstd::arithmetic::div_mod::lemma_small_mod((x + 0x1_0000_0000) as nat, 0x1_0000_0000);
    } else {
        vstd::arithmetic::div_mod::lemma_small_mod(x as nat, 0x1_0000_0000);
    }
}

/// The wrapping addition of two 32-bit values is addition modulo 2^32.
proof fn lemma_wrapping_add_is_wrap(a: i32, d: i32)
    ensures
        vstd::wrapping::i32_specs::wrapping_add(a, d) == wrap_i32(a + d),
{
    let x = a + d;
    if x > i32::MAX {
        vstd::arithmetic::div_mod::lemma_small_mod(x as nat, 0x1_0000_0000);
    } else if x < i32::MIN {
        vstd::arithmetic::div_mod::lemma_mod_multiples_vanish(1, x, 0x1_0000_0000);
        vstd::arithmetic::div_mod::lemma_small_mod((x + 0x1_0000_0000) as nat, 0x1_0000_0000);
    } else {
        lemma_wrap_identity(x);
    }
}

/// Wrapping first and then adding gives the same residue as adding
/// outright.
proof fn lemma_wrap_shift(x: int, d: int)
    ensures
        wrap_i32(wrap_i32(x) + d) == wrap_i32(x + d),
{
    let m = 0x1_0000_0000int;
    vstd::arithmetic::div_mod::lemma_mod_bound(x, m);
    let r = x % m;
    vstd::arithmetic::div_mod::lemma_fundamental_div_mod(x, m);
    let k = x / m;
    if r > i32::MAX {
        assert(wrap_i32(x) == r - m);
        assert(wrap_i32(x) + d == x + d - (k + 1) * m) by (nonlinear_arith)
            requires
                x == m * k + r,
                wrap_i32(x) == r - m,
        ;
        vstd::arithmetic::div_mod::lemma_mod_multiples_vanish(k + 1, wrap_i32(x) + d, m);
        assert((k + 1) * m + (wrap_i32(x) + d) == x + d) by (nonlinear_arith)
            requires
                wrap_i32(x) + d == x + d - (k + 1) * m,
        ;
    } else {
        assert(wrap_i32(x) == r);
        assert(wrap_i32(x) + d == x + d - k * m) by (nonlinear_arith)
            requires
                x == m * k + r,
                wrap_i32(x) == r,
        ;
        vstd::arithmetic::div_mod::lemma_mod_multiples_vanish(k, wrap_i32(x) + d, m);
        assert(k * m + (wrap_i32(x) + d) == x + d) by (nonlinear_arith)
            requires
                wrap_i32(x) + d == x + d - k * m,
        ;
    }
}

/// Round trip of the delta encoding, one slot at a time: starting from
/// an initial value and applying any series of diffs with wrap-around on
/// 32-bit overflow, the reconstructed value is the initial value plus
/// the sum of all diffs, modulo 2^32.
pub proof fn lemma_input_round_trip(v: i32, ds: Seq<i32>)
    ensures
        fold_wrapped(v, ds) == wrap_i32(v + sum_of(ds)),
    decreases ds.len(),
{
    if ds.len() == 0 {
        lemma_wrap_identity(v as int);
    } else {
        lemma_input_round_trip(v, ds.drop_last());
        let a = fold_wrapped(v, ds.drop_last());
        let d = ds.last();
        lemma_wrapping_add_is_wrap(a, d);
        lemma_wrap_shift(v + sum_of(ds.drop_last()), d as int);
    }
}

} // verus!

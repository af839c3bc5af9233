//! Batch accounting for the exported dataset: stable player identifiers
//! assigned in first-seen order, a global sequence counter, per-player
//! timeout-code histograms, and the alias diagnostics built on them.
//!
//! The exporter does the accounting only; writing the tabular dataset is
//! the caller's concern, which also decides whether the returned metadata
//! rows are persisted at all (a dry run accounts but writes nothing).

use vstd::prelude::*;
use vstd::string::StringExecFns;

use crate::extractor::Sequence;
use crate::names::{
    distinct_names, has_name, lemma_name_found, lemma_name_index, lemma_name_index_same_keys,
    name_index, value_of_name, NameMap,
};

verus! {

/// Options of one export run.  The feature flags select the derived
/// columns of the tabular dataset; the dry-run flag suppresses writes
/// downstream while the accounting still happens.
#[derive(Clone, Copy)]
pub struct ExportConfig {
    pub seq_length: usize,
    pub afk_ticks: usize,
    pub afk_padding: usize,
    pub use_vel: bool,
    pub use_rel_target: bool,
    pub use_aim_angle: bool,
    pub use_aim_distance: bool,
    pub dry_run: bool,
}

/// What the exporter knows about one player.
pub struct PlayerInfo {
    /// assigned in first-seen order, stable across batches
    pub player_id: usize,
    /// how many sequences of this player were accounted
    pub seq_count: usize,
    /// how often each timeout code was seen for this player
    pub timeout_codes: NameMap<usize>,
}

/// One row of per-sequence metadata, as the dataset's companion file
/// records it.
pub struct MetaRow {
    pub seq_id: usize,
    pub player_id: usize,
    pub player: String,
    pub start: usize,
    pub ticks: usize,
    pub map: String,
    pub teehist: String,
}

/// One reported alias candidate: two players whose timeout-code
/// histograms overlap suspiciously.
pub struct AliasPair {
    pub name_a: String,
    pub id_a: usize,
    pub name_b: String,
    pub id_b: usize,
    pub wj_num: usize,
    pub wj_den: usize,
    pub shared: usize,
}

/// One candidate dropped by the greedy deduplication.
pub struct CollisionDrop {
    pub kept: String,
    pub dropped: String,
    pub wj_num: usize,
    pub wj_den: usize,
    pub shared: usize,
    pub colliding_sequences: usize,
}

/// The sum of all counts of a histogram.
pub open spec fn hist_total(h: Seq<(String, usize)>) -> int
    decreases h.len(),
{
    if h.len() == 0 {
        0
    } else {
        h[0].1 + hist_total(h.drop_first())
    }
}

/// The count a histogram holds for one code, zero when absent.
pub open spec fn hist_count(h: Seq<(String, usize)>, c: Seq<char>) -> int {
    match value_of_name(h, c) {
        Some(v) => v as int,
        None => 0,
    }
}

/// How many sequences of a batch belong to one player name.
pub open spec fn occ_name(seqs: Seq<Sequence>, n: Seq<char>) -> int
    decreases seqs.len(),
{
    if seqs.len() == 0 {
        0
    } else {
        occ_name(seqs.drop_last(), n) + if seqs.last().player_name@ == n {
            1int
        } else {
            0
        }
    }
}

/// How many sequences of a batch belong to one player name and carry one
/// timeout code.
pub open spec fn occ_name_code(seqs: Seq<Sequence>, n: Seq<char>, c: Seq<char>) -> int
    decreases seqs.len(),
{
    if seqs.len() == 0 {
        0
    } else {
        occ_name_code(seqs.drop_last(), n, c) + if seqs.last().player_name@ == n
            && seqs.last().timeout_code@ == c {
            1int
        } else {
            0
        }
    }
}

/// The names a batch adds to a registry that already knows `have`, in
/// first-seen order.
pub open spec fn fresh_names(have: Seq<Seq<char>>, seqs: Seq<Sequence>) -> Seq<Seq<char>>
    decreases seqs.len(),
{
    if seqs.len() == 0 {
        Seq::empty()
    } else {
        let n = seqs[0].player_name@;
        if have.contains(n) {
            fresh_names(have, seqs.drop_first())
        } else {
            seq![n] + fresh_names(have.push(n), seqs.drop_first())
        }
    }
}

/// The registry's names, in assignment order.
pub open spec fn names_of(ps: Seq<(String, PlayerInfo)>) -> Seq<Seq<char>> {
    ps.map_values(|p: (String, PlayerInfo)| p.0@)
}

/// The sum of all players' sequence counts.
pub open spec fn total_seqs(ps: Seq<(String, PlayerInfo)>) -> int
    decreases ps.len(),
{
    if ps.len() == 0 {
        0
    } else {
        ps[0].1.seq_count + total_seqs(ps.drop_first())
    }
}

/// A player's accounted sequences before a batch, zero for a new name.
pub open spec fn base_count(ps0: Seq<(String, PlayerInfo)>, n: Seq<char>) -> int {
    match value_of_name(ps0, n) {
        Some(info) => info.seq_count as int,
        None => 0,
    }
}

/// A player's histogram count for one code before a batch.
pub open spec fn base_hist(ps0: Seq<(String, PlayerInfo)>, n: Seq<char>, c: Seq<char>) -> int {
    match value_of_name(ps0, n) {
        Some(info) => hist_count(info.timeout_codes@, c),
        None => 0,
    }
}

/// Every registered player accounts exactly for its base plus its share
/// of the batch, and identifiers assigned earlier never change.
pub open spec fn accounts_for(
    ps0: Seq<(String, PlayerInfo)>,
    ps: Seq<(String, PlayerInfo)>,
    seqs: Seq<Sequence>,
) -> bool {
    forall|n: Seq<char>| #[trigger] has_name(ps, n) ==> {
        let info = value_of_name(ps, n)->Some_0;
        &&& info.seq_count as int == base_count(ps0, n) + occ_name(seqs, n)
        &&& forall|c: Seq<char>| #[trigger] hist_count(info.timeout_codes@, c) == base_hist(
            ps0,
            n,
            c,
        ) + occ_name_code(seqs, n, c)
        &&& (has_name(ps0, n) ==> info.player_id == value_of_name(ps0, n)->Some_0.player_id)
    }
}

/// What one metadata row must say about its sequence, against the
/// registry that assigned the identifiers.
pub open spec fn row_like(
    row: MetaRow,
    seq_id: int,
    ps: Seq<(String, PlayerInfo)>,
    s: Sequence,
) -> bool {
    &&& row.seq_id as int == seq_id
    &&& row.player@ == s.player_name@
    &&& row.start == s.start_tick
    &&& row.ticks == s.tick_count
    &&& row.map@ == s.map_name@
    &&& row.teehist@ == s.teehist_name@
    &&& value_of_name(ps, s.player_name@) matches Some(info) && row.player_id == info.player_id
}

/// Keeps the export accounting consistent across batches.
pub struct Exporter {
    /// every player seen so far, in first-seen order
    pub players: NameMap<PlayerInfo>,
    /// how many players have an identifier
    pub player_count: usize,
    /// how many sequences were accounted over all batches
    pub sequence_count: usize,
    pub config: ExportConfig,
}

impl Exporter {
    /// The accounting invariant: identifiers are positions in the
    /// registry, every histogram sums to its player's sequence count,
    /// and the players' counts sum to the global one.
    pub open spec fn wf(&self) -> bool {
        &&& self.players.wf()
        &&& self.player_count as int == self.players@.len()
        &&& total_seqs(self.players@) == self.sequence_count as int
        &&& forall|i: int| 0 <= i < self.players@.len() ==> {
            let info = (#[trigger] self.players@[i]).1;
            &&& info.player_id as int == i
            &&& info.timeout_codes.wf()
            &&& hist_total(info.timeout_codes@) == info.seq_count as int
            &&& forall|j: int| 0 <= j < info.timeout_codes@.len()
                ==> (#[trigger] info.timeout_codes@[j]).1 >= 1
        }
    }

    /// An empty accounting state; batches are added to it one by one.
    pub fn new(config: ExportConfig) -> (e: Exporter)
        ensures
            e.wf(),
            e.players@.len() == 0,
            e.player_count == 0,
            e.sequence_count == 0,
            e.config == config,
    {
        Exporter { players: NameMap::new(), player_count: 0, sequence_count: 0, config }
    }

    /// The column names of the tabular dataset, in the order the columns
    /// are appended: the four base columns, then each enabled feature.
    pub fn get_column_names(
        use_vel: bool,
        use_rel_target: bool,
        use_aim_angle: bool,
        use_aim_distance: bool,
    ) -> (r: Vec<String>)
        ensures
            r@.map_values(|s: String| s@) == column_names_spec(
                use_vel,
                use_rel_target,
                use_aim_angle,
                use_aim_distance,
            ),
    {
        let mut column_names: Vec<String> = Vec::new();
        column_names.push(String::from_str("move_dir"));
        column_names.push(String::from_str("jump"));
        column_names.push(String::from_str("fire"));
        column_names.push(String::from_str("hook"));
        if use_vel {
            column_names.push(String::from_str("vel_x"));
            column_names.push(String::from_str("vel_y"));
        }
        if use_rel_target {
            column_names.push(String::from_str("target_rel_x"));
            column_names.push(String::from_str("target_rel_y"));
        }
        if use_aim_angle {
            column_names.push(String::from_str("aim_angle"));
        }
        if use_aim_distance {
            column_names.push(String::from_str("aim_distance"));
        }
        proof {
            assert(column_names@.map_values(|s: String| s@) =~= column_names_spec(
                use_vel,
                use_rel_target,
                use_aim_angle,
                use_aim_distance,
            ));
        }
        column_names
    }

    /// Account one batch of sequences, in order: assign or look up each
    /// player's identifier, bump its sequence count and its timeout-code
    /// histogram, and hand back one metadata row per sequence.  Whether
    /// the rows are persisted is the caller's decision; a dry run simply
    /// discards them, which leaves this accounting untouched.
    #[verifier::rlimit(100)]
    #[verifier::spinoff_prover]
    pub fn add_to_dataset(&mut self, sequences: &[Sequence]) -> (r: Vec<MetaRow>)
        requires
            old(self).wf(),
            old(self).sequence_count + sequences@.len() <= usize::MAX,
            old(self).player_count + sequences@.len() <= usize::MAX,
        ensures
            final(self).wf(),
            final(self).config == old(self).config,
            final(self).sequence_count == old(self).sequence_count + sequences@.len(),
            names_of(final(self).players@) == names_of(old(self).players@) + fresh_names(
                names_of(old(self).players@),
                sequences@,
            ),
            accounts_for(old(self).players@, final(self).players@, sequences@),
            forall|j: int| 0 <= j < sequences@.len() ==> has_name(
                final(self).players@,
                (#[trigger] sequences@[j]).player_name@,
            ),
            r@.len() == sequences@.len(),
            forall|j: int| 0 <= j < r@.len() ==> row_like(
                #[trigger] r@[j],
                old(self).sequence_count + j,
                final(self).players@,
                sequences@[j],
            ),
    {
        let ghost ps0 = self.players@;
        let ghost goal = names_of(ps0) + fresh_names(names_of(ps0), sequences@);
        let n = sequences.len();
        let mut rows: Vec<MetaRow> = Vec::new();
        proof {
            assert(sequences@.skip(0) =~= sequences@);
            assert(sequences@.subrange(0, 0) =~= Seq::<Sequence>::empty());
            assert forall|m: int| 0 <= m < ps0.len() implies has_name(
                ps0,
                (#[trigger] ps0[m]).0@,
            ) by {
                lemma_name_found(ps0, m);
            }
        }
        for j in 0..n
            invariant
                n == sequences@.len(),
                self.wf(),
                self.config == old(self).config,
                old(self).wf(),
                ps0 == old(self).players@,
                old(self).sequence_count + n <= usize::MAX,
                old(self).player_count + n <= usize::MAX,
                self.sequence_count == old(self).sequence_count + j,
                self.player_count <= old(self).player_count + j,
                goal == names_of(ps0) + fresh_names(names_of(ps0), sequences@),
                goal =~= names_of(self.players@) + fresh_names(
                    names_of(self.players@),
                    sequences@.skip(j as int),
                ),
                accounts_for(ps0, self.players@, sequences@.subrange(0, j as int)),
                forall|m: int| 0 <= m < ps0.len() ==> has_name(
                    self.players@,
                    (#[trigger] ps0[m]).0@,
                ),
                rows@.len() == j,
                forall|x: int| 0 <= x < j ==> row_like(
                    #[trigger] rows@[x],
                    old(self).sequence_count + x,
                    self.players@,
                    sequences@[x],
                ),
                forall|x: int| 0 <= x < j ==> has_name(
                    self.players@,
                    (#[trigger] sequences@[x]).player_name@,
                ),
        {
            let seq = &sequences[j];
            let ghost cur = self.players@;
            let present = self.players.contains(&seq.player_name);
            proof {
                lemma_name_index(cur, seq.player_name@);
                if present {
                    let ni = name_index(cur, seq.player_name@);
                    lemma_name_found(cur, ni);
                    lemma_total_bound(cur, ni);
                    let info = value_of_name(cur, seq.player_name@)->Some_0;
                    lemma_hist_bound(info.timeout_codes@, seq.timeout_code@);
                }
                lemma_names_contains(cur, seq.player_name@);
                lemma_occ_step(sequences@, j as int, seq.player_name@, seq.timeout_code@);
            }
            let (pid, prev_count, mut hist) = match self.players.get(&seq.player_name) {
                Some(info) => (info.player_id, info.seq_count, info.timeout_codes.duplicate()),
                None => (self.player_count, 0usize, NameMap::<usize>::new()),
            };
            let prev_code = match hist.get(&seq.timeout_code) {
                Some(c) => *c,
                None => 0,
            };
            let ghost h0 = hist@;
            hist.insert(seq.timeout_code.clone(), prev_code + 1);
            proof {
                lemma_name_index(h0, seq.timeout_code@);
                if has_name(h0, seq.timeout_code@) {
                    lemma_hist_total_update(h0, hist@, name_index(h0, seq.timeout_code@));
                } else {
                    lemma_hist_total_push(h0, hist@);
                }
            }
            let new_info = PlayerInfo {
                player_id: pid,
                seq_count: prev_count + 1,
                timeout_codes: hist,
            };
            if !present {
                self.player_count = self.player_count + 1;
            }
            self.players.insert(seq.player_name.clone(), new_info);
            rows.push(
                MetaRow {
                    seq_id: self.sequence_count,
                    player_id: pid,
                    player: seq.player_name.clone(),
                    start: seq.start_tick,
                    ticks: seq.tick_count,
                    map: seq.map_name.clone(),
                    teehist: seq.teehist_name.clone(),
                },
            );
            self.sequence_count = self.sequence_count + 1;
            proof {
                let nxt = self.players@;
                if present {
                    lemma_total_update(cur, nxt, name_index(cur, seq.player_name@));
                } else {
                    lemma_total_push(cur, nxt);
                }
                lemma_register_one(
                    ps0,
                    cur,
                    nxt,
                    sequences@,
                    j as int,
                    seq.player_name@,
                    seq.timeout_code@,
                );
                assert(sequences@.skip(j as int).drop_first() =~= sequences@.skip(j + 1));
                if present {
                    assert(names_of(nxt) =~= names_of(cur));
                    assert(fresh_names(names_of(cur), sequences@.skip(j as int)) == fresh_names(
                        names_of(cur),
                        sequences@.skip(j + 1),
                    ));
                } else {
                    assert(names_of(nxt) =~= names_of(cur).push(seq.player_name@));
                    assert(names_of(cur) + fresh_names(names_of(cur), sequences@.skip(j as int))
                        =~= names_of(nxt) + fresh_names(names_of(nxt), sequences@.skip(j + 1)));
                }
                assert forall|x: int| 0 <= x < j + 1 implies row_like(
                    #[trigger] rows@[x],
                    old(self).sequence_count + x,
                    nxt,
                    sequences@[x],
                ) by {
                    if x < j {
                        assert(row_like(
                            rows@[x],
                            old(self).sequence_count + x,
                            cur,
                            sequences@[x],
                        ));
                        if sequences@[x].player_name@ != seq.player_name@ {
                            assert(value_of_name(nxt, sequences@[x].player_name@)
                                == value_of_name(cur, sequences@[x].player_name@));
                        }
                    }
                }
            }
        }
        proof {
            assert(sequences@.subrange(0, n as int) =~= sequences@);
            assert(sequences@.skip(n as int) =~= Seq::<Sequence>::empty());
            assert(names_of(self.players@) =~= names_of(self.players@) + fresh_names(
                names_of(self.players@),
                Seq::<Sequence>::empty(),
            ));
        }
        rows
    }
}

/// The names of the dataset columns in emission order.
pub open spec fn column_names_spec(
    use_vel: bool,
    use_rel_target: bool,
    use_aim_angle: bool,
    use_aim_distance: bool,
) -> Seq<Seq<char>> {
    let base = seq!["move_dir"@, "jump"@, "fire"@, "hook"@];
    let vel = if use_vel {
        seq!["vel_x"@, "vel_y"@]
    } else {
        Seq::empty()
    };
    let rel = if use_rel_target {
        seq!["target_rel_x"@, "target_rel_y"@]
    } else {
        Seq::empty()
    };
    let angle = if use_aim_angle {
        seq!["aim_angle"@]
    } else {
        Seq::empty()
    };
    let dist = if use_aim_distance {
        seq!["aim_distance"@]
    } else {
        Seq::empty()
    };
    base + vel + rel + angle + dist
}

/// A registry name is a member of the name list.
proof fn lemma_names_contains(ps: Seq<(String, PlayerInfo)>, n: Seq<char>)
    ensures
        has_name(ps, n) <==> names_of(ps).contains(n),
{
    lemma_name_index(ps, n);
    if has_name(ps, n) {
        assert(names_of(ps)[name_index(ps, n)] == n);
    }
    if names_of(ps).contains(n) {
        let i = choose|i: int| 0 <= i < names_of(ps).len() && names_of(ps)[i] == n;
        assert(ps[i].0@ == n);
        if !has_name(ps, n) {
            assert(ps[i].0@ != n);
        }
    }
}

/// One player's count never exceeds the sum of all counts.
proof fn lemma_total_bound(ps: Seq<(String, PlayerInfo)>, i: int)
    requires
        0 <= i < ps.len(),
    ensures
        ps[i].1.seq_count <= total_seqs(ps),
        total_seqs(ps) >= 0,
    decreases ps.len(),
{
    if i == 0 {
        lemma_total_nonneg(ps.drop_first());
    } else {
        lemma_total_bound(ps.drop_first(), i - 1);
        assert(ps.drop_first()[i - 1] == ps[i]);
    }
}

proof fn lemma_total_nonneg(ps: Seq<(String, PlayerInfo)>)
    ensures
        total_seqs(ps) >= 0,
    decreases ps.len(),
{
    if ps.len() > 0 {
        lemma_total_nonneg(ps.drop_first());
    }
}

/// Replacing one entry with a count one higher raises the sum by one.
proof fn lemma_total_update(ps0: Seq<(String, PlayerInfo)>, ps1: Seq<(String, PlayerInfo)>, i: int)
    requires
        0 <= i < ps0.len(),
        ps1.len() == ps0.len(),
        forall|j: int| 0 <= j < ps0.len() && j != i ==> ps1[j] == ps0[j],
        ps1[i].1.seq_count == ps0[i].1.seq_count + 1,
    ensures
        total_seqs(ps1) == total_seqs(ps0) + 1,
    decreases ps0.len(),
{
    if i == 0 {
        assert(ps1.drop_first() =~= ps0.drop_first());
    } else {
        lemma_total_update(ps0.drop_first(), ps1.drop_first(), i - 1);
    }
}

/// Appending an entry with count one raises the sum by one.
proof fn lemma_total_push(ps0: Seq<(String, PlayerInfo)>, ps1: Seq<(String, PlayerInfo)>)
    requires
        ps1.len() == ps0.len() + 1,
        forall|j: int| 0 <= j < ps0.len() ==> ps1[j] == ps0[j],
        ps1.last().1.seq_count == 1,
    ensures
        total_seqs(ps1) == total_seqs(ps0) + 1,
    decreases ps0.len(),
{
    if ps0.len() == 0 {
        assert(ps1[0] == ps1.last());
        assert(ps1.drop_first() =~= Seq::<(String, PlayerInfo)>::empty());
        assert(total_seqs(ps1.drop_first()) == 0);
        assert(total_seqs(ps1) == ps1[0].1.seq_count + total_seqs(ps1.drop_first()));
        assert(total_seqs(ps0) == 0);
    } else {
        assert forall|j: int| 0 <= j < ps0.drop_first().len() implies ps1.drop_first()[j]
            == ps0.drop_first()[j] by {
            assert(ps1[j + 1] == ps0[j + 1]);
        }
        assert(ps1.drop_first().last() == ps1.last());
        lemma_total_push(ps0.drop_first(), ps1.drop_first());
        assert(ps1[0] == ps0[0]);
        assert(total_seqs(ps1) == ps1[0].1.seq_count + total_seqs(ps1.drop_first()));
        assert(total_seqs(ps0) == ps0[0].1.seq_count + total_seqs(ps0.drop_first()));
    }
}

/// One code's count never exceeds the histogram's sum.
proof fn lemma_hist_bound(h: Seq<(String, usize)>, c: Seq<char>)
    ensures
        0 <= hist_count(h, c) <= hist_total(h),
        hist_total(h) >= 0,
    decreases h.len(),
{
    lemma_name_index(h, c);
    if h.len() > 0 {
        lemma_hist_bound(h.drop_first(), c);
        if has_name(h, c) && h[0].0@ != c {
            assert(value_of_name(h, c) == value_of_name(h.drop_first(), c));
        }
    }
}

/// Replacing one entry with a count one higher raises the sum by one.
proof fn lemma_hist_total_update(h0: Seq<(String, usize)>, h1: Seq<(String, usize)>, i: int)
    requires
        0 <= i < h0.len(),
        h1.len() == h0.len(),
        forall|j: int| 0 <= j < h0.len() && j != i ==> h1[j] == h0[j],
        h1[i].1 == h0[i].1 + 1,
    ensures
        hist_total(h1) == hist_total(h0) + 1,
    decreases h0.len(),
{
    if i == 0 {
        assert(h1.drop_first() =~= h0.drop_first());
    } else {
        lemma_hist_total_update(h0.drop_first(), h1.drop_first(), i - 1);
    }
}

proof fn lemma_hist_total_push(h0: Seq<(String, usize)>, h1: Seq<(String, usize)>)
    requires
        h1.len() == h0.len() + 1,
        forall|j: int| 0 <= j < h0.len() ==> h1[j] == h0[j],
        h1.last().1 == 1,
    ensures
        hist_total(h1) == hist_total(h0) + 1,
    decreases h0.len(),
{
    if h0.len() == 0 {
        assert(h1[0] == h1.last());
        assert(h1.drop_first() =~= Seq::<(String, usize)>::empty());
        assert(hist_total(h1.drop_first()) == 0);
        assert(hist_total(h1) == h1[0].1 + hist_total(h1.drop_first()));
        assert(hist_total(h0) == 0);
    } else {
        assert forall|j: int| 0 <= j < h0.drop_first().len() implies h1.drop_first()[j]
            == h0.drop_first()[j] by {
            assert(h1[j + 1] == h0[j + 1]);
        }
        assert(h1.drop_first().last() == h1.last());
        lemma_hist_total_push(h0.drop_first(), h1.drop_first());
        assert(h1[0] == h0[0]);
        assert(hist_total(h1) == h1[0].1 + hist_total(h1.drop_first()));
        assert(hist_total(h0) == h0[0].1 + hist_total(h0.drop_first()));
    }
}

/// `occ_name` and `occ_name_code` over one more sequence.
proof fn lemma_occ_step(seqs: Seq<Sequence>, j: int, n: Seq<char>, c: Seq<char>)
    requires
        0 <= j < seqs.len(),
    ensures
        forall|n2: Seq<char>| #[trigger] occ_name(seqs.subrange(0, j + 1), n2) == occ_name(
            seqs.subrange(0, j),
            n2,
        ) + (if seqs[j].player_name@ == n2 {
            1int
        } else {
            0
        }),
        forall|n2: Seq<char>, c2: Seq<char>| #[trigger] occ_name_code(
            seqs.subrange(0, j + 1),
            n2,
            c2,
        ) == occ_name_code(seqs.subrange(0, j), n2, c2) + (if seqs[j].player_name@ == n2
            && seqs[j].timeout_code@ == c2 {
            1int
        } else {
            0
        }),
{
    assert(seqs.subrange(0, j + 1).drop_last() =~= seqs.subrange(0, j));
    assert(seqs.subrange(0, j + 1).last() == seqs[j]);
}

/// Registering one sequence preserves the accounting relation and grows
/// the total by one.
#[verifier::rlimit(100)]
proof fn lemma_register_one(
    ps0: Seq<(String, PlayerInfo)>,
    cur: Seq<(String, PlayerInfo)>,
    nxt: Seq<(String, PlayerInfo)>,
    seqs: Seq<Sequence>,
    j: int,
    n: Seq<char>,
    c: Seq<char>,
)
    requires
        0 <= j < seqs.len(),
        seqs[j].player_name@ == n,
        seqs[j].timeout_code@ == c,
        distinct_names(cur),
        distinct_names(nxt),
        accounts_for(ps0, cur, seqs.subrange(0, j)),
        has_name(nxt, n),
        forall|n2: Seq<char>| n2 != n ==> value_of_name(nxt, n2) == value_of_name(cur, n2),
        ({
            let info = value_of_name(nxt, n)->Some_0;
            &&& info.seq_count as int == (match value_of_name(cur, n) {
                Some(i0) => i0.seq_count as int,
                None => 0,
            }) + 1
            &&& (match value_of_name(cur, n) {
                Some(i0) => info.player_id == i0.player_id,
                None => true,
            })
            &&& forall|c2: Seq<char>| #[trigger] hist_count(info.timeout_codes@, c2) == (match
                value_of_name(cur, n) {
                Some(i0) => hist_count(i0.timeout_codes@, c2),
                None => 0,
            }) + (if c2 == c {
                1int
            } else {
                0
            })
        }),
        forall|m: int| 0 <= m < ps0.len() ==> has_name(cur, (#[trigger] ps0[m]).0@),
        forall|x: int| 0 <= x < j ==> has_name(cur, (#[trigger] seqs[x]).player_name@),
    ensures
        accounts_for(ps0, nxt, seqs.subrange(0, j + 1)),
{
    lemma_occ_step(seqs, j, n, c);
    assert forall|n2: Seq<char>| #[trigger] has_name(nxt, n2) implies {
        let info = value_of_name(nxt, n2)->Some_0;
        &&& info.seq_count as int == base_count(ps0, n2) + occ_name(seqs.subrange(0, j + 1), n2)
        &&& forall|c2: Seq<char>| #[trigger] hist_count(info.timeout_codes@, c2) == base_hist(
            ps0,
            n2,
            c2,
        ) + occ_name_code(seqs.subrange(0, j + 1), n2, c2)
        &&& (has_name(ps0, n2) ==> info.player_id == value_of_name(ps0, n2)->Some_0.player_id)
    } by {
        if n2 == n {
            if !has_name(cur, n) {
                // a fresh name: it cannot be one of the original names
                lemma_name_index(ps0, n);
                if has_name(ps0, n) {
                    let m = name_index(ps0, n);
                    assert(has_name(cur, ps0[m].0@));
                }
                assert(base_count(ps0, n) == 0);
                assert(occ_name(seqs.subrange(0, j), n) == 0) by {
                    if occ_name(seqs.subrange(0, j), n) != 0 {
                        lemma_occ_witness(seqs.subrange(0, j), n);
                        let x = choose|x: int| 0 <= x < seqs.subrange(0, j).len()
                            && (#[trigger] seqs.subrange(0, j)[x]).player_name@ == n;
                        assert(seqs[x].player_name@ == n);
                        assert(has_name(cur, n));
                    }
                }
                assert forall|c2: Seq<char>| #[trigger] occ_name_code(
                    seqs.subrange(0, j),
                    n,
                    c2,
                ) == 0 by {
                    lemma_occ_code_bound(seqs.subrange(0, j), n, c2);
                    assert(occ_name(seqs.subrange(0, j), n) == 0);
                }
            }
        } else {
            assert(value_of_name(nxt, n2) == value_of_name(cur, n2));
            assert(has_name(cur, n2));
        }
    }
}

/// A nonzero occurrence count names a witness sequence.
proof fn lemma_occ_witness(seqs: Seq<Sequence>, n: Seq<char>)
    requires
        occ_name(seqs, n) != 0,
    ensures
        exists|x: int| 0 <= x < seqs.len() && (#[trigger] seqs[x]).player_name@ == n,
    decreases seqs.len(),
{
    if seqs.len() > 0 {
        if seqs.last().player_name@ == n {
            assert(seqs[seqs.len() - 1].player_name@ == n);
        } else {
            lemma_occ_witness(seqs.drop_last(), n);
            let x = choose|x: int| 0 <= x < seqs.drop_last().len()
                && (#[trigger] seqs.drop_last()[x]).player_name@ == n;
            assert(seqs[x].player_name@ == n);
        }
    }
}

/// Occurrences of a name with one code never exceed the name's total.
proof fn lemma_occ_code_bound(seqs: Seq<Sequence>, n: Seq<char>, c: Seq<char>)
    ensures
        0 <= occ_name_code(seqs, n, c) <= occ_name(seqs, n),
    decreases seqs.len(),
{
    if seqs.len() > 0 {
        lemma_occ_code_bound(seqs.drop_last(), n, c);
    }
}

/// The smaller of two counts.
pub open spec fn min_int(x: int, y: int) -> int {
    if x <= y {
        x
    } else {
        y
    }
}

/// The weighted-Jaccard numerator of two histograms: the sum over all
/// codes of the smaller of the two counts.  Codes that only the second
/// histogram holds contribute nothing.
pub open spec fn wj_num(a: Seq<(String, usize)>, b: Seq<(String, usize)>) -> int
    decreases a.len(),
{
    if a.len() == 0 {
        0
    } else {
        min_int(a[0].1 as int, hist_count(b, a[0].0@)) + wj_num(a.drop_first(), b)
    }
}

/// The weighted-Jaccard denominator: the sum over all codes of the
/// larger of the two counts.  Since the larger plus the smaller is the
/// plain sum, this equals both totals minus the numerator.
pub open spec fn wj_den(a: Seq<(String, usize)>, b: Seq<(String, usize)>) -> int {
    hist_total(a) + hist_total(b) - wj_num(a, b)
}

/// How many codes the two histograms share.
pub open spec fn wj_shared(a: Seq<(String, usize)>, b: Seq<(String, usize)>) -> int
    decreases a.len(),
{
    if a.len() == 0 {
        0
    } else {
        (if has_name(b, a[0].0@) {
            1int
        } else {
            0
        }) + wj_shared(a.drop_first(), b)
    }
}

/// The similarity `num / den` reaches `tn / td`; an empty denominator
/// counts as similarity zero.
pub open spec fn sim_at_least(num: int, den: int, tn: int, td: int) -> bool {
    if den == 0 {
        tn <= 0
    } else {
        num * td >= tn * den
    }
}

/// The similarity `num / den` exceeds `tn / td` strictly; an empty
/// denominator counts as similarity zero.
pub open spec fn sim_greater(num: int, den: int, tn: int, td: int) -> bool {
    if den == 0 {
        false
    } else {
        num * td > tn * den
    }
}

proof fn lemma_hist_nonneg(h: Seq<(String, usize)>)
    ensures
        hist_total(h) >= 0,
    decreases h.len(),
{
    if h.len() > 0 {
        lemma_hist_nonneg(h.drop_first());
    }
}

/// The numerator never exceeds the first histogram's total, the shared
/// count never exceeds its number of codes.
proof fn lemma_wj_bounds(a: Seq<(String, usize)>, b: Seq<(String, usize)>)
    ensures
        0 <= wj_num(a, b) <= hist_total(a),
        0 <= wj_shared(a, b) <= a.len(),
    decreases a.len(),
{
    if a.len() > 0 {
        lemma_wj_bounds(a.drop_first(), b);
        lemma_hist_bound(b, a[0].0@);
    }
}

/// The total of a histogram, summed in entry order.
fn hist_sum(h: &NameMap<usize>) -> (t: usize)
    requires
        hist_total(h@) <= usize::MAX,
    ensures
        t as int == hist_total(h@),
{
    let entries = h.entries();
    let n = entries.len();
    let mut t: usize = 0;
    proof {
        assert(h@.skip(0) =~= h@);
        lemma_hist_nonneg(h@);
    }
    for i in 0..n
        invariant
            n == entries@.len(),
            entries@ == h@,
            hist_total(h@) <= usize::MAX,
            t as int + hist_total(h@.skip(i as int)) == hist_total(h@),
            hist_total(h@.skip(i as int)) >= 0,
    {
        proof {
            assert(h@.skip(i as int).drop_first() =~= h@.skip(i + 1));
            assert(h@.skip(i as int)[0] == h@[i as int]);
            lemma_hist_nonneg(h@.skip(i + 1));
        }
        t = t + entries[i].1;
    }
    proof {
        assert(h@.skip(n as int) =~= Seq::<(String, usize)>::empty());
    }
    t
}

/// The weighted-Jaccard overlap of two timeout-code histograms:
/// numerator, denominator and the number of shared codes.
pub fn weighted_jaccard(a: &NameMap<usize>, b: &NameMap<usize>) -> (r: (usize, usize, usize))
    requires
        a.wf(),
        b.wf(),
        hist_total(a@) + hist_total(b@) <= usize::MAX,
    ensures
        r.0 as int == wj_num(a@, b@),
        r.1 as int == wj_den(a@, b@),
        r.2 as int == wj_shared(a@, b@),
{
    proof {
        lemma_hist_nonneg(a@);
        lemma_hist_nonneg(b@);
        lemma_wj_bounds(a@, b@);
    }
    let ta = hist_sum(a);
    let tb = hist_sum(b);
    let entries = a.entries();
    let n = entries.len();
    let mut num: usize = 0;
    let mut shared: usize = 0;
    proof {
        assert(a@.skip(0) =~= a@);
    }
    for i in 0..n
        invariant
            n == entries@.len(),
            entries@ == a@,
            a.wf(),
            b.wf(),
            hist_total(a@) + hist_total(b@) <= usize::MAX,
            num as int + wj_num(a@.skip(i as int), b@) == wj_num(a@, b@),
            shared as int + wj_shared(a@.skip(i as int), b@) == wj_shared(a@, b@),
            num as int <= hist_total(a@),
            shared <= i,
            ta as int == hist_total(a@),
    {
        proof {
            assert(a@.skip(i as int).drop_first() =~= a@.skip(i + 1));
            assert(a@.skip(i as int)[0] == a@[i as int]);
            lemma_wj_bounds(a@.skip(i + 1), b@);
            lemma_wj_bounds(a@.skip(i as int), b@);
            lemma_wj_bounds(a@, b@);
            lemma_hist_suffix_le(a@, i as int);
            lemma_hist_bound(b@, a@[i as int].0@);
        }
        let entry = &entries[i];
        let bv = match b.get(&entry.0) {
            Some(v) => {
                shared = shared + 1;
                *v
            },
            None => 0,
        };
        let m = if entry.1 <= bv {
            entry.1
        } else {
            bv
        };
        num = num + m;
    }
    proof {
        assert(a@.skip(n as int) =~= Seq::<(String, usize)>::empty());
    }
    let den = ta + tb - num;
    (num, den, shared)
}

/// A suffix never outweighs the whole histogram.
proof fn lemma_hist_suffix_le(h: Seq<(String, usize)>, i: int)
    requires
        0 <= i <= h.len(),
    ensures
        hist_total(h.skip(i)) <= hist_total(h),
    decreases i,
{
    if i == 0 {
        assert(h.skip(0) =~= h);
    } else {
        lemma_hist_suffix_le(h, i - 1);
        assert(h.skip(i - 1).drop_first() =~= h.skip(i));
        assert(h.skip(i - 1)[0] == h[i - 1]);
    }
}

/// Both players' histograms pass the alias thresholds: enough shared
/// codes and a similarity at or above `tn / td`.
pub open spec fn pair_thresholds(
    ha: Seq<(String, usize)>,
    hb: Seq<(String, usize)>,
    min_shared: int,
    tn: int,
    td: int,
) -> bool {
    &&& wj_shared(ha, hb) >= min_shared
    &&& sim_at_least(wj_num(ha, hb), wj_den(ha, hb), tn, td)
}

/// One reported pair carries its players' identifiers and the exact
/// overlap of their histograms, and passes the thresholds.
pub open spec fn pair_like(
    p: AliasPair,
    ps: Seq<(String, PlayerInfo)>,
    min_shared: int,
    tn: int,
    td: int,
) -> bool {
    &&& value_of_name(ps, p.name_a@) matches Some(ia) && {
        &&& p.id_a == ia.player_id
        &&& value_of_name(ps, p.name_b@) matches Some(ib) && {
            &&& p.id_b == ib.player_id
            &&& p.wj_num as int == wj_num(ia.timeout_codes@, ib.timeout_codes@)
            &&& p.wj_den as int == wj_den(ia.timeout_codes@, ib.timeout_codes@)
            &&& p.shared as int == wj_shared(ia.timeout_codes@, ib.timeout_codes@)
            &&& pair_thresholds(ia.timeout_codes@, ib.timeout_codes@, min_shared, tn, td)
        }
    }
}

/// Two registered players whose histograms pass the alias thresholds.
pub open spec fn qualifies(
    ps: Seq<(String, PlayerInfo)>,
    na: Seq<char>,
    nb: Seq<char>,
    min_shared: int,
    tn: int,
    td: int,
) -> bool {
    &&& value_of_name(ps, na) matches Some(ia) && value_of_name(ps, nb) matches Some(ib)
        && pair_thresholds(ia.timeout_codes@, ib.timeout_codes@, min_shared, tn, td)
}

/// The first player's histogram exceeds the collision threshold against
/// the second's.
pub open spec fn collides(
    ps: Seq<(String, PlayerInfo)>,
    na: Seq<char>,
    nb: Seq<char>,
    tn: int,
    td: int,
) -> bool {
    &&& value_of_name(ps, na) matches Some(ia) && value_of_name(ps, nb) matches Some(ib)
        && sim_greater(
        wj_num(ia.timeout_codes@, ib.timeout_codes@),
        wj_den(ia.timeout_codes@, ib.timeout_codes@),
        tn,
        td,
    )
}

proof fn lemma_mul_fits_u128(x: u128, y: u128)
    requires
        x < 0x1_0000_0000_0000_0000,
        y < 0x1_0000_0000_0000_0000,
    ensures
        x * y <= u128::MAX,
{
    assert(x * y <= u128::MAX) by (nonlinear_arith)
        requires
            x < 0x1_0000_0000_0000_0000,
            y < 0x1_0000_0000_0000_0000,
    ;
}

/// Whether `num / den` reaches `tn / td`, compared without division.
fn sim_reaches(num: usize, den: usize, tn: usize, td: usize) -> (b: bool)
    ensures
        b == sim_at_least(num as int, den as int, tn as int, td as int),
{
    if den == 0 {
        tn == 0
    } else {
        proof {
            lemma_mul_fits_u128(num as u128, td as u128);
            lemma_mul_fits_u128(tn as u128, den as u128);
        }
        (num as u128) * (td as u128) >= (tn as u128) * (den as u128)
    }
}

/// Whether `num / den` exceeds `tn / td` strictly.
fn sim_exceeds(num: usize, den: usize, tn: usize, td: usize) -> (b: bool)
    ensures
        b == sim_greater(num as int, den as int, tn as int, td as int),
{
    if den == 0 {
        false
    } else {
        proof {
            lemma_mul_fits_u128(num as u128, td as u128);
            lemma_mul_fits_u128(tn as u128, den as u128);
        }
        (num as u128) * (td as u128) > (tn as u128) * (den as u128)
    }
}

/// The index pairs of a ranking that pass the alias thresholds, in scan
/// order: outer index ascending, inner index ascending.
pub open spec fn qualifying_pairs(
    ps: Seq<(String, PlayerInfo)>,
    ranked: Seq<(String, usize)>,
    min_shared: int,
    tn: int,
    td: int,
    i: int,
    j: int,
) -> Seq<(int, int)>
    decreases ranked.len() - i, ranked.len() - j,
{
    if i < 0 || j <= i || i >= ranked.len() {
        Seq::empty()
    } else if j >= ranked.len() {
        qualifying_pairs(ps, ranked, min_shared, tn, td, i + 1, i + 2)
    } else {
        let rest = qualifying_pairs(ps, ranked, min_shared, tn, td, i, j + 1);
        if qualifies(ps, ranked[i].0@, ranked[j].0@, min_shared, tn, td) {
            seq![(i, j)] + rest
        } else {
            rest
        }
    }
}

/// The name pair each reported alias candidate carries.
pub open spec fn alias_pair_names(pairs: Seq<AliasPair>) -> Seq<(Seq<char>, Seq<char>)> {
    pairs.map_values(|p: AliasPair| (p.name_a@, p.name_b@))
}

/// The name pairs at the given ranking index pairs.
pub open spec fn pair_names(
    ranked: Seq<(String, usize)>,
    qs: Seq<(int, int)>,
) -> Seq<(Seq<char>, Seq<char>)> {
    qs.map_values(|ij: (int, int)| (ranked[ij.0].0@, ranked[ij.1].0@))
}

/// The names of a kept list.
pub open spec fn kept_names(v: Seq<String>) -> Seq<Seq<char>> {
    v.map_values(|s: String| s@)
}

/// The names at the given ranking indices.
pub open spec fn names_at(ranked: Seq<(String, usize)>, idxs: Seq<int>) -> Seq<Seq<char>> {
    idxs.map_values(|i: int| ranked[i].0@)
}

/// The (dropped, keeper) name pair each collision record carries.
pub open spec fn drop_pair_names(ds: Seq<CollisionDrop>) -> Seq<(Seq<char>, Seq<char>)> {
    ds.map_values(|d: CollisionDrop| (d.dropped@, d.kept@))
}

/// The position in `kept` of the first already kept rank the candidate
/// at rank `i` collides with, starting the scan at `s`; `kept.len()` if
/// it collides with none.
pub open spec fn first_collider(
    ps: Seq<(String, PlayerInfo)>,
    ranked: Seq<(String, usize)>,
    kept: Seq<int>,
    i: int,
    tn: int,
    td: int,
    s: int,
) -> int
    decreases kept.len() - s,
{
    if s < 0 || s >= kept.len() {
        kept.len() as int
    } else if collides(ps, ranked[i].0@, ranked[kept[s]].0@, tn, td) {
        s
    } else {
        first_collider(ps, ranked, kept, i, tn, td, s + 1)
    }
}

/// The ranks the greedy deduplication keeps and the (dropped, keeper)
/// rank pairs it records, scanning the ranking in order from rank `i`
/// with `kept` already selected.
pub open spec fn greedy_split(
    ps: Seq<(String, PlayerInfo)>,
    ranked: Seq<(String, usize)>,
    tn: int,
    td: int,
    i: int,
    kept: Seq<int>,
) -> (Seq<int>, Seq<(int, int)>)
    decreases ranked.len() - i,
{
    if i < 0 || i >= ranked.len() {
        (kept, Seq::empty())
    } else {
        let c = first_collider(ps, ranked, kept, i, tn, td, 0);
        if c < kept.len() {
            let rest = greedy_split(ps, ranked, tn, td, i + 1, kept);
            (rest.0, seq![(i, kept[c])] + rest.1)
        } else {
            greedy_split(ps, ranked, tn, td, i + 1, kept.push(i))
        }
    }
}

/// A scan with no collision before `c` and one at `c` finds `c` first.
proof fn lemma_first_collider_is(
    ps: Seq<(String, PlayerInfo)>,
    ranked: Seq<(String, usize)>,
    kept: Seq<int>,
    i: int,
    tn: int,
    td: int,
    s: int,
    c: int,
)
    requires
        0 <= s <= c <= kept.len(),
        forall|a: int| s <= a < c ==> !collides(
            ps,
            ranked[i].0@,
            ranked[#[trigger] kept[a]].0@,
            tn,
            td,
        ),
        c < kept.len() ==> collides(ps, ranked[i].0@, ranked[kept[c]].0@, tn, td),
    ensures
        first_collider(ps, ranked, kept, i, tn, td, s) == (if c < kept.len() {
            c
        } else {
            kept.len() as int
        }),
    decreases c - s,
{
    if s < c {
        lemma_first_collider_is(ps, ranked, kept, i, tn, td, s + 1, c);
    }
}

/// Two players' counts together never exceed the sum of all counts.
proof fn lemma_total_pair(ps: Seq<(String, PlayerInfo)>, i: int, j: int)
    requires
        0 <= i < j < ps.len(),
    ensures
        ps[i].1.seq_count + ps[j].1.seq_count <= total_seqs(ps),
    decreases ps.len(),
{
    if i == 0 {
        lemma_total_bound(ps.drop_first(), j - 1);
        assert(ps.drop_first()[j - 1] == ps[j]);
    } else {
        lemma_total_pair(ps.drop_first(), i - 1, j - 1);
        assert(ps.drop_first()[i - 1] == ps[i]);
        assert(ps.drop_first()[j - 1] == ps[j]);
    }
}

impl Exporter {
    /// The players with the most accounted sequences, ranked; ties keep
    /// first-seen order.
    pub fn top_player_names(&self, k: usize) -> (r: Vec<(String, usize)>)
        requires
            self.wf(),
        ensures
            r@.len() <= k,
            r@.len() == (if k as int <= self.players@.len() {
                k as int
            } else {
                self.players@.len() as int
            }),
            forall|i: int| 0 <= i < r@.len() ==> (value_of_name(
                self.players@,
                (#[trigger] r@[i]).0@,
            ) matches Some(info) && info.seq_count == r@[i].1),
            forall|i: int, j: int| 0 <= i < j < r@.len() ==> r@[i].0@ != r@[j].0@,
            forall|i: int| 0 < i < r@.len() ==> (#[trigger] r@[i]).1 <= r@[i - 1].1,
            forall|nm: Seq<char>| #![trigger value_of_name(self.players@, nm)] ((forall|x: int|
                0 <= x < r@.len() ==> (#[trigger] r@[x]).0@ != nm) && r@.len() > 0) ==> (match
            value_of_name(self.players@, nm) {
                Some(info) => info.seq_count <= r@[r@.len() - 1].1,
                None => true,
            }),
    {
        let mut counts: NameMap<usize> = NameMap::new();
        let entries = self.players.entries();
        let n = entries.len();
        for i in 0..n
            invariant
                n == entries@.len(),
                entries@ == self.players@,
                self.wf(),
                counts.wf(),
                counts@.len() == i,
                forall|j: int| 0 <= j < i ==> (#[trigger] counts@[j]).0@ == self.players@[j].0@
                    && counts@[j].1 == self.players@[j].1.seq_count,
        {
            let entry = &entries[i];
            proof {
                lemma_name_index(counts@, entry.0@);
                if has_name(counts@, entry.0@) {
                    let ni = name_index(counts@, entry.0@);
                    assert(counts@[ni].0@ == self.players@[ni].0@);
                }
            }
            counts.insert(entry.0.clone(), entry.1.seq_count);
        }
        let ghost cv = counts@;
        let r = crate::preprocess::select_top_k(counts, k);
        proof {
            assert forall|i: int| 0 <= i < r@.len() implies (value_of_name(
                self.players@,
                (#[trigger] r@[i]).0@,
            ) matches Some(info) && info.seq_count == r@[i].1) by {
                lemma_name_index(cv, r@[i].0@);
                lemma_name_index_same_keys(cv, self.players@, r@[i].0@);
            }
            assert forall|nm: Seq<char>| #![trigger value_of_name(self.players@, nm)] ((forall|
                x: int|
                0 <= x < r@.len() ==> (#[trigger] r@[x]).0@ != nm) && r@.len() > 0) implies
                (match value_of_name(self.players@, nm) {
                Some(info) => info.seq_count <= r@[r@.len() - 1].1,
                None => true,
            }) by {
                lemma_name_index(cv, nm);
                lemma_name_index_same_keys(cv, self.players@, nm);
                if has_name(self.players@, nm) {
                    let ni = name_index(self.players@, nm);
                    assert(value_of_name(cv, nm) == Some(cv[ni].1));
                    assert(cv[ni].1 == self.players@[ni].1.seq_count);
                }
            }
        }
        r
    }

    /// The alias candidates among the top `k` players: every ordered
    /// pair of the ranking whose histograms share at least `min_shared`
    /// codes with a weighted-Jaccard similarity of at least
    /// `sim_num / sim_den`.  The ranking itself is returned beside the
    /// pairs.
    #[verifier::rlimit(100)]
    #[verifier::spinoff_prover]
    pub fn alias_candidates(
        &self,
        k: usize,
        min_shared: usize,
        sim_num: usize,
        sim_den: usize,
    ) -> (r: (Vec<(String, usize)>, Vec<AliasPair>))
        requires
            self.wf(),
        ensures
            ({
                let (ranked, pairs) = r;
                &&& ranked@.len() <= k
                &&& ranked@.len() == (if k as int <= self.players@.len() {
                    k as int
                } else {
                    self.players@.len() as int
                })
                &&& (forall|nm: Seq<char>| #![trigger value_of_name(self.players@, nm)] ((
                forall|x: int| 0 <= x < ranked@.len() ==> (#[trigger] ranked@[x]).0@ != nm)
                    && ranked@.len() > 0) ==> (match value_of_name(self.players@, nm) {
                    Some(info) => info.seq_count <= ranked@[ranked@.len() - 1].1,
                    None => true,
                }))
                &&& (forall|i: int| 0 <= i < ranked@.len() ==> (value_of_name(
                    self.players@,
                    (#[trigger] ranked@[i]).0@,
                ) matches Some(info) && info.seq_count == ranked@[i].1))
                &&& (forall|i: int, j: int| 0 <= i < j < ranked@.len() ==> ranked@[i].0@
                    != ranked@[j].0@)
                &&& (forall|i: int| 0 < i < ranked@.len() ==> (#[trigger] ranked@[i]).1
                    <= ranked@[i - 1].1)
                &&& (forall|x: int| 0 <= x < pairs@.len() ==> pair_like(
                    #[trigger] pairs@[x],
                    self.players@,
                    min_shared as int,
                    sim_num as int,
                    sim_den as int,
                ))
                &&& alias_pair_names(pairs@) == pair_names(
                    ranked@,
                    qualifying_pairs(
                        self.players@,
                        ranked@,
                        min_shared as int,
                        sim_num as int,
                        sim_den as int,
                        0,
                        1,
                    ),
                )
            }),
    {
        let ranked = self.top_player_names(k);
        let mut pairs: Vec<AliasPair> = Vec::new();
        let ghost ps = self.players@;
        let ghost ms = min_shared as int;
        let ghost tn = sim_num as int;
        let ghost td = sim_den as int;
        let ghost allq = qualifying_pairs(ps, ranked@, ms, tn, td, 0, 1);
        let ghost mut collected: Seq<(int, int)> = Seq::empty();
        let m = ranked.len();
        for i in 0..m
            invariant
                self.wf(),
                m == ranked@.len(),
                forall|a: int| 0 <= a < m ==> (value_of_name(
                    self.players@,
                    (#[trigger] ranked@[a]).0@,
                ) matches Some(info) && info.seq_count == ranked@[a].1),
                forall|a: int, b: int| 0 <= a < b < m ==> ranked@[a].0@ != ranked@[b].0@,
                forall|x: int| 0 <= x < pairs@.len() ==> pair_like(
                    #[trigger] pairs@[x],
                    self.players@,
                    min_shared as int,
                    sim_num as int,
                    sim_den as int,
                ),
                ps == self.players@,
                ms == min_shared as int,
                tn == sim_num as int,
                td == sim_den as int,
                allq == qualifying_pairs(ps, ranked@, ms, tn, td, 0, 1),
                allq == collected + qualifying_pairs(ps, ranked@, ms, tn, td, i as int, i + 1),
                alias_pair_names(pairs@) == pair_names(ranked@, collected),
        {
            let start = i + 1;
            for j in start..m
                invariant
                    self.wf(),
                    m == ranked@.len(),
                    i < m,
                    start == i + 1,
                    forall|a: int| 0 <= a < m ==> (value_of_name(
                        self.players@,
                        (#[trigger] ranked@[a]).0@,
                    ) matches Some(info) && info.seq_count == ranked@[a].1),
                    forall|a: int, b: int| 0 <= a < b < m ==> ranked@[a].0@ != ranked@[b].0@,
                    forall|x: int| 0 <= x < pairs@.len() ==> pair_like(
                        #[trigger] pairs@[x],
                        self.players@,
                        min_shared as int,
                        sim_num as int,
                        sim_den as int,
                    ),
                    ps == self.players@,
                    ms == min_shared as int,
                    tn == sim_num as int,
                    td == sim_den as int,
                    allq == qualifying_pairs(ps, ranked@, ms, tn, td, 0, 1),
                    allq == collected + qualifying_pairs(ps, ranked@, ms, tn, td, i as int, j as int),
                    alias_pair_names(pairs@) == pair_names(ranked@, collected),
            {
                proof {
                    lemma_name_index(self.players@, ranked@[i as int].0@);
                    lemma_name_index(self.players@, ranked@[j as int].0@);
                    let ii = name_index(self.players@, ranked@[i as int].0@);
                    let jj = name_index(self.players@, ranked@[j as int].0@);
                    if ii < jj {
                        lemma_total_pair(self.players@, ii, jj);
                    } else {
                        lemma_total_pair(self.players@, jj, ii);
                    }
                }
                let info_i = match self.players.get(&ranked[i].0) {
                    Some(info) => info,
                    None => {
                        proof {
                            assert(false);
                        }
                        return (ranked, pairs);
                    },
                };
                let info_j = match self.players.get(&ranked[j].0) {
                    Some(info) => info,
                    None => {
                        proof {
                            assert(false);
                        }
                        return (ranked, pairs);
                    },
                };
                let (num, den, shared) = weighted_jaccard(
                    &info_i.timeout_codes,
                    &info_j.timeout_codes,
                );
                let ghost na = ranked@[i as int].0@;
                let ghost nb = ranked@[j as int].0@;
                let passes = shared >= min_shared && sim_reaches(num, den, sim_num, sim_den);
                proof {
                    assert(passes == qualifies(ps, na, nb, ms, tn, td));
                }
                if passes {
                    let ghost pairs0 = pairs@;
                    let ghost collected0 = collected;
                    pairs.push(
                        AliasPair {
                            name_a: ranked[i].0.clone(),
                            id_a: info_i.player_id,
                            name_b: ranked[j].0.clone(),
                            id_b: info_j.player_id,
                            wj_num: num,
                            wj_den: den,
                            shared,
                        },
                    );
                    proof {
                        let x = pairs@.len() - 1;
                        assert(pairs@[x].name_a@ == na && pairs@[x].name_b@ == nb);
                        assert(pair_like(
                            pairs@[x],
                            self.players@,
                            min_shared as int,
                            sim_num as int,
                            sim_den as int,
                        ));
                        let qp = qualifying_pairs(ps, ranked@, ms, tn, td, i as int, j as int);
                        assert(qp == seq![(i as int, j as int)] + qualifying_pairs(
                            ps,
                            ranked@,
                            ms,
                            tn,
                            td,
                            i as int,
                            j + 1,
                        ));
                        collected = collected.push((i as int, j as int));
                        assert(collected.drop_last() + qp =~= collected + qualifying_pairs(
                            ps,
                            ranked@,
                            ms,
                            tn,
                            td,
                            i as int,
                            j + 1,
                        ));
                        let lhs = alias_pair_names(pairs@);
                        let rhs = pair_names(ranked@, collected);
                        let lhs0 = alias_pair_names(pairs0);
                        let rhs0 = pair_names(ranked@, collected0);
                        assert(lhs0 == rhs0);
                        assert(pairs0.len() == lhs0.len() && rhs0.len() == collected0.len());
                        assert(pairs@ == pairs0.push(pairs@.last()));
                        assert(collected == collected0.push((i as int, j as int)));
                        assert(lhs.len() == rhs.len());
                        assert forall|y: int| 0 <= y < lhs.len() implies lhs[y] == rhs[y] by {
                            if y < lhs.len() - 1 {
                                assert(pairs@[y] == pairs0[y]);
                                assert(collected[y] == collected0[y]);
                                assert(lhs0[y] == rhs0[y]);
                                assert(lhs[y] == lhs0[y]);
                                assert(rhs[y] == rhs0[y]);
                            } else {
                                assert(pairs@[y].name_a@ == na && pairs@[y].name_b@ == nb);
                                assert(collected[y] == (i as int, j as int));
                            }
                        }
                        assert(lhs =~= rhs);
                    }
                } else {
                    proof {
                        assert(qualifying_pairs(ps, ranked@, ms, tn, td, i as int, j as int)
                            == qualifying_pairs(ps, ranked@, ms, tn, td, i as int, j + 1));
                    }
                }
            }
            proof {
                assert(qualifying_pairs(ps, ranked@, ms, tn, td, i as int, m as int)
                    == qualifying_pairs(ps, ranked@, ms, tn, td, i + 1, i + 2));
            }
        }
        proof {
            assert(qualifying_pairs(ps, ranked@, ms, tn, td, m as int, m as int + 1)
                =~= Seq::<(int, int)>::empty());
            assert(allq =~= collected);
        }
        (ranked, pairs)
    }

    /// Greedily keep the highest-ranked players whose histograms do not
    /// collide with an already kept player's, and record every dropped
    /// candidate with the overlap that disqualified it.  Kept names and
    /// drops together partition the returned ranking, processed in rank
    /// order; kept players are mutually below the collision threshold.
    pub fn distinct_top_k_player_names_with_drops(
        &self,
        k: usize,
        sim_num: usize,
        sim_den: usize,
    ) -> (r: (Vec<(String, usize)>, Vec<String>, Vec<CollisionDrop>))
        requires
            self.wf(),
        ensures
            ({
                let (ranked, kept, drops) = r;
                &&& ranked@.len() == (if k as int <= self.players@.len() {
                    k as int
                } else {
                    self.players@.len() as int
                })
                &&& (forall|i: int| 0 <= i < ranked@.len() ==> (value_of_name(
                    self.players@,
                    (#[trigger] ranked@[i]).0@,
                ) matches Some(info) && info.seq_count == ranked@[i].1))
                &&& (forall|i: int, j: int| 0 <= i < j < ranked@.len() ==> ranked@[i].0@
                    != ranked@[j].0@)
                &&& (forall|i: int| 0 < i < ranked@.len() ==> (#[trigger] ranked@[i]).1
                    <= ranked@[i - 1].1)
                &&& kept@.len() + drops@.len() == ranked@.len()
                &&& ({
                    let split = greedy_split(
                        self.players@,
                        ranked@,
                        sim_num as int,
                        sim_den as int,
                        0,
                        Seq::empty(),
                    );
                    &&& kept_names(kept@) == names_at(ranked@, split.0)
                    &&& drop_pair_names(drops@) == pair_names(ranked@, split.1)
                })
                &&& (forall|i: int| 0 <= i < kept@.len() ==> has_name(
                    self.players@,
                    (#[trigger] kept@[i])@,
                ))
                &&& (forall|i: int, j: int| 0 <= i < j < kept@.len() ==> kept@[i]@ != kept@[j]@)
                &&& (forall|i: int, j: int| 0 <= i < j < kept@.len() ==> !collides(
                    self.players@,
                    kept@[j]@,
                    kept@[i]@,
                    sim_num as int,
                    sim_den as int,
                ))
                &&& (forall|x: int| 0 <= x < drops@.len() ==> {
                    let d = #[trigger] drops@[x];
                    &&& has_name(self.players@, d.dropped@)
                    &&& has_name(self.players@, d.kept@)
                    &&& collides(
                        self.players@,
                        d.dropped@,
                        d.kept@,
                        sim_num as int,
                        sim_den as int,
                    )
                })
            }),
    {
        let ranked = self.top_player_names(k);
        let (kept, drops) = self.greedy_scan(&ranked, sim_num, sim_den);
        (ranked, kept, drops)
    }

    /// The greedy pass itself, over an already computed ranking.
    #[verifier::rlimit(100)]
    #[verifier::spinoff_prover]
    fn greedy_scan(
        &self,
        ranked: &Vec<(String, usize)>,
        sim_num: usize,
        sim_den: usize,
    ) -> (r: (Vec<String>, Vec<CollisionDrop>))
        requires
            self.wf(),
            forall|a: int| 0 <= a < ranked@.len() ==> (value_of_name(
                self.players@,
                (#[trigger] ranked@[a]).0@,
            ) matches Some(info) && info.seq_count == ranked@[a].1),
            forall|a: int, b: int| 0 <= a < b < ranked@.len() ==> ranked@[a].0@
                != ranked@[b].0@,
        ensures
            ({
                let (kept, drops) = r;
                &&& kept@.len() + drops@.len() == ranked@.len()
                &&& ({
                    let split = greedy_split(
                        self.players@,
                        ranked@,
                        sim_num as int,
                        sim_den as int,
                        0,
                        Seq::empty(),
                    );
                    &&& kept_names(kept@) == names_at(ranked@, split.0)
                    &&& drop_pair_names(drops@) == pair_names(ranked@, split.1)
                })
                &&& (forall|i: int| 0 <= i < kept@.len() ==> has_name(
                    self.players@,
                    (#[trigger] kept@[i])@,
                ))
                &&& (forall|i: int, j: int| 0 <= i < j < kept@.len() ==> kept@[i]@ != kept@[j]@)
                &&& (forall|i: int, j: int| 0 <= i < j < kept@.len() ==> !collides(
                    self.players@,
                    kept@[j]@,
                    kept@[i]@,
                    sim_num as int,
                    sim_den as int,
                ))
                &&& (forall|x: int| 0 <= x < drops@.len() ==> {
                    let d = #[trigger] drops@[x];
                    &&& has_name(self.players@, d.dropped@)
                    &&& has_name(self.players@, d.kept@)
                    &&& collides(
                        self.players@,
                        d.dropped@,
                        d.kept@,
                        sim_num as int,
                        sim_den as int,
                    )
                })
            }),
    {
        let mut kept: Vec<String> = Vec::new();
        let mut drops: Vec<CollisionDrop> = Vec::new();
        let ghost ps = self.players@;
        let ghost tn = sim_num as int;
        let ghost td = sim_den as int;
        let ghost mut kept_idx: Seq<int> = Seq::empty();
        let ghost mut dropped_idx: Seq<(int, int)> = Seq::empty();
        let ghost goal = greedy_split(ps, ranked@, tn, td, 0, Seq::empty());
        let m = ranked.len();
        for i in 0..m
            invariant
                self.wf(),
                m == ranked@.len(),
                ps == self.players@,
                tn == sim_num as int,
                td == sim_den as int,
                goal == greedy_split(ps, ranked@, tn, td, 0, Seq::<int>::empty()),
                forall|a: int| 0 <= a < m ==> (value_of_name(
                    self.players@,
                    (#[trigger] ranked@[a]).0@,
                ) matches Some(info) && info.seq_count == ranked@[a].1),
                forall|a: int, b: int| 0 <= a < b < m ==> ranked@[a].0@ != ranked@[b].0@,
                kept@.len() + drops@.len() == i,
                kept@.len() == kept_idx.len(),
                drops@.len() == dropped_idx.len(),
                goal.0 == greedy_split(ps, ranked@, tn, td, i as int, kept_idx).0,
                goal.1 == dropped_idx + greedy_split(ps, ranked@, tn, td, i as int, kept_idx).1,
                kept_names(kept@) == names_at(ranked@, kept_idx),
                drop_pair_names(drops@) == pair_names(ranked@, dropped_idx),
                forall|a: int| 0 <= a < kept_idx.len() ==> 0 <= #[trigger] kept_idx[a] < i,
                forall|a: int| 0 <= a < kept@.len() ==> has_name(
                    self.players@,
                    (#[trigger] kept@[a])@,
                ),
                forall|a: int, b: int| 0 <= a < b < kept@.len() ==> kept@[a]@ != kept@[b]@,
                forall|a: int, b: int| 0 <= a < b < kept@.len() ==> !collides(
                    self.players@,
                    kept@[b]@,
                    kept@[a]@,
                    sim_num as int,
                    sim_den as int,
                ),
                forall|x: int| 0 <= x < drops@.len() ==> {
                    let d = #[trigger] drops@[x];
                    &&& has_name(self.players@, d.dropped@)
                    &&& has_name(self.players@, d.kept@)
                    &&& collides(
                        self.players@,
                        d.dropped@,
                        d.kept@,
                        sim_num as int,
                        sim_den as int,
                    )
                },
        {
            let cand = &ranked[i];
            let mut collided = false;
            let mut collider: usize = 0;
            let kn = kept.len();
            for s in 0..kn
                invariant
                    self.wf(),
                    m == ranked@.len(),
                    ps == self.players@,
                    tn == sim_num as int,
                    td == sim_den as int,
                    i < m,
                    *cand == ranked@[i as int],
                    forall|a: int| 0 <= a < m ==> (value_of_name(
                        self.players@,
                        (#[trigger] ranked@[a]).0@,
                    ) matches Some(info) && info.seq_count == ranked@[a].1),
                    forall|a: int| 0 <= a < kept@.len() ==> has_name(
                        self.players@,
                        (#[trigger] kept@[a])@,
                    ),
                    kept_names(kept@) == names_at(ranked@, kept_idx),
                    kn == kept_idx.len(),
                    forall|a: int| 0 <= a < kept_idx.len() ==> 0 <= #[trigger] kept_idx[a] < i,
                    forall|a: int, b: int| 0 <= a < b < m ==> ranked@[a].0@ != ranked@[b].0@,
                    kn == kept@.len(),
                    collided ==> collider < kn && collides(
                        self.players@,
                        ranked@[i as int].0@,
                        kept@[collider as int]@,
                        sim_num as int,
                        sim_den as int,
                    ) && (forall|a: int| 0 <= a < collider ==> !collides(
                        self.players@,
                        ranked@[i as int].0@,
                        (#[trigger] kept@[a])@,
                        sim_num as int,
                        sim_den as int,
                    )),
                    !collided ==> (forall|a: int| 0 <= a < s ==> !collides(
                        self.players@,
                        ranked@[i as int].0@,
                        (#[trigger] kept@[a])@,
                        sim_num as int,
                        sim_den as int,
                    )),
            {
                if !collided {
                    proof {
                        lemma_name_index(self.players@, ranked@[i as int].0@);
                        lemma_name_index(self.players@, kept@[s as int]@);
                        let ii = name_index(self.players@, ranked@[i as int].0@);
                        let jj = name_index(self.players@, kept@[s as int]@);
                        assert(kept_names(kept@)[s as int] == names_at(ranked@, kept_idx)[
                        s as int]);
                        assert(kept@[s as int]@ == ranked@[kept_idx[s as int]].0@);
                        assert(kept@[s as int]@ != ranked@[i as int].0@);
                        assert(ii != jj);
                        assert(self.players@[ii].1.player_id as int == ii);
                        assert(self.players@[jj].1.player_id as int == jj);
                        if ii < jj {
                            lemma_total_pair(self.players@, ii, jj);
                        } else if jj < ii {
                            lemma_total_pair(self.players@, jj, ii);
                        } else {
                            lemma_total_bound(self.players@, ii);
                        }
                    }
                    let info_c = match self.players.get(&cand.0) {
                        Some(info) => info,
                        None => {
                            proof {
                                assert(false);
                            }
                            return (kept, drops);
                        },
                    };
                    let info_s = match self.players.get(&kept[s]) {
                        Some(info) => info,
                        None => {
                            proof {
                                assert(false);
                            }
                            return (kept, drops);
                        },
                    };
                    let (num, den, _shared) = weighted_jaccard(
                        &info_c.timeout_codes,
                        &info_s.timeout_codes,
                    );
                    if sim_exceeds(num, den, sim_num, sim_den) {
                        collided = true;
                        collider = s;
                    }
                }
            }
            proof {
                assert forall|a: int| 0 <= a < kept_idx.len() implies kept@[a]@
                    == ranked@[#[trigger] kept_idx[a]].0@ by {
                    assert(kept_names(kept@)[a] == names_at(ranked@, kept_idx)[a]);
                }
                let c = if collided {
                    collider as int
                } else {
                    kept_idx.len() as int
                };
                if collided {
                    assert forall|a: int| 0 <= a < c implies !collides(
                        ps,
                        ranked@[i as int].0@,
                        ranked@[#[trigger] kept_idx[a]].0@,
                        tn,
                        td,
                    ) by {
                        assert(!collides(ps, ranked@[i as int].0@, kept@[a]@, tn, td));
                    }
                    assert(collides(
                        ps,
                        ranked@[i as int].0@,
                        ranked@[kept_idx[c]].0@,
                        tn,
                        td,
                    ));
                } else {
                    assert forall|a: int| 0 <= a < kept_idx.len() implies !collides(
                        ps,
                        ranked@[i as int].0@,
                        ranked@[#[trigger] kept_idx[a]].0@,
                        tn,
                        td,
                    ) by {
                        assert(!collides(ps, ranked@[i as int].0@, kept@[a]@, tn, td));
                    }
                }
                lemma_first_collider_is(ps, ranked@, kept_idx, i as int, tn, td, 0, c);
                assert(first_collider(ps, ranked@, kept_idx, i as int, tn, td, 0) == (
                if collided {
                    collider as int
                } else {
                    kept_idx.len() as int
                }));
            }
            if collided {
                proof {
                    lemma_name_index(self.players@, ranked@[i as int].0@);
                    lemma_name_index(self.players@, kept@[collider as int]@);
                    let ii = name_index(self.players@, ranked@[i as int].0@);
                    let jj = name_index(self.players@, kept@[collider as int]@);
                    assert(kept_names(kept@)[collider as int] == names_at(ranked@, kept_idx)[
                    collider as int]);
                    assert(kept@[collider as int]@ == ranked@[kept_idx[collider as int]].0@);
                    assert(kept@[collider as int]@ != ranked@[i as int].0@);
                    assert(ii != jj);
                    assert(self.players@[ii].1.player_id as int == ii);
                    assert(self.players@[jj].1.player_id as int == jj);
                    if ii < jj {
                        lemma_total_pair(self.players@, ii, jj);
                    } else if jj < ii {
                        lemma_total_pair(self.players@, jj, ii);
                    } else {
                        lemma_total_bound(self.players@, ii);
                    }
                }
                let info_c = match self.players.get(&cand.0) {
                    Some(info) => info,
                    None => {
                        proof {
                            assert(false);
                        }
                        return (kept, drops);
                    },
                };
                let info_s = match self.players.get(&kept[collider]) {
                    Some(info) => info,
                    None => {
                        proof {
                            assert(false);
                        }
                        return (kept, drops);
                    },
                };
                let (num, den, shared) = weighted_jaccard(
                    &info_c.timeout_codes,
                    &info_s.timeout_codes,
                );
                let colliding_sequences = if info_c.seq_count <= info_s.seq_count {
                    info_c.seq_count
                } else {
                    info_s.seq_count
                };
                let ghost drops0 = drops@;
                let ghost dropped0 = dropped_idx;
                drops.push(
                    CollisionDrop {
                        kept: kept[collider].clone(),
                        dropped: cand.0.clone(),
                        wj_num: num,
                        wj_den: den,
                        shared,
                        colliding_sequences,
                    },
                );
                proof {
                    let split_i = greedy_split(ps, ranked@, tn, td, i as int, kept_idx);
                    let split_n = greedy_split(ps, ranked@, tn, td, i + 1, kept_idx);
                    assert(split_i.0 == split_n.0);
                    assert(split_i.1 == seq![(i as int, kept_idx[collider as int])]
                        + split_n.1);
                    dropped_idx = dropped_idx.push((i as int, kept_idx[collider as int]));
                    assert(dropped0 + split_i.1 =~= dropped_idx + split_n.1);
                    let lhs = drop_pair_names(drops@);
                    let rhs = pair_names(ranked@, dropped_idx);
                    assert(drop_pair_names(drops0) == pair_names(ranked@, dropped0));
                    assert(lhs.len() == rhs.len());
                    assert forall|y: int| 0 <= y < lhs.len() implies lhs[y] == rhs[y] by {
                        if y < lhs.len() - 1 {
                            assert(drops@[y] == drops0[y]);
                            assert(dropped_idx[y] == dropped0[y]);
                            assert(drop_pair_names(drops0)[y] == pair_names(
                                ranked@,
                                dropped0,
                            )[y]);
                        } else {
                            assert(drops@[y].dropped@ == ranked@[i as int].0@);
                            assert(drops@[y].kept@ == kept@[collider as int]@);
                        }
                    }
                    assert(lhs =~= rhs);
                }
            } else {
                let ghost kept0 = kept@;
                let ghost keptidx0 = kept_idx;
                kept.push(cand.0.clone());
                proof {
                    assert forall|a: int| 0 <= a < kept0.len() implies (#[trigger] kept0[a])@
                        != ranked@[i as int].0@ by {
                        assert(kept_names(kept0)[a] == names_at(ranked@, keptidx0)[a]);
                        assert(kept0[a]@ == ranked@[keptidx0[a]].0@);
                    }
                    let split_i = greedy_split(ps, ranked@, tn, td, i as int, keptidx0);
                    kept_idx = kept_idx.push(i as int);
                    assert(split_i == greedy_split(ps, ranked@, tn, td, i + 1, kept_idx));
                    let lhs = kept_names(kept@);
                    let rhs = names_at(ranked@, kept_idx);
                    assert(kept_names(kept0) == names_at(ranked@, keptidx0));
                    assert(lhs.len() == rhs.len());
                    assert forall|y: int| 0 <= y < lhs.len() implies lhs[y] == rhs[y] by {
                        if y < lhs.len() - 1 {
                            assert(kept@[y] == kept0[y]);
                            assert(kept_idx[y] == keptidx0[y]);
                            assert(kept_names(kept0)[y] == names_at(ranked@, keptidx0)[y]);
                        } else {
                            assert(kept@[y]@ == ranked@[i as int].0@);
                            assert(kept_idx[y] == i as int);
                        }
                    }
                    assert(lhs =~= rhs);
                }
            }
        }
        proof {
            assert(greedy_split(ps, ranked@, tn, td, m as int, kept_idx)
                == (kept_idx, Seq::<(int, int)>::empty()));
            assert(goal.0 == kept_idx);
            assert(goal.1 =~= dropped_idx);
        }
        (kept, drops)
    }
}

/// The accounting of a batch is determined by the prior registry, the
/// prior counters and the batch alone: two runs that start from the same
/// registry and counter and see the same ordered batch agree on every
/// player's identifier, sequence count and timeout-code histogram, and
/// on every metadata row.  In particular the accounting is independent
/// of the configuration, so a dry run yields the same summary statistics
/// as a real one.
pub proof fn lemma_export_accounting_determined(
    o1: Exporter,
    o2: Exporter,
    n1: Exporter,
    n2: Exporter,
    r1: Seq<MetaRow>,
    r2: Seq<MetaRow>,
    seqs: Seq<Sequence>,
)
    requires
        o1.wf(),
        o2.wf(),
        n1.wf(),
        n2.wf(),
        o1.players@ == o2.players@,
        o1.sequence_count == o2.sequence_count,
        n1.sequence_count == o1.sequence_count + seqs.len(),
        n2.sequence_count == o2.sequence_count + seqs.len(),
        names_of(n1.players@) == names_of(o1.players@) + fresh_names(
            names_of(o1.players@),
            seqs,
        ),
        names_of(n2.players@) == names_of(o2.players@) + fresh_names(
            names_of(o2.players@),
            seqs,
        ),
        accounts_for(o1.players@, n1.players@, seqs),
        accounts_for(o2.players@, n2.players@, seqs),
        r1.len() == seqs.len(),
        r2.len() == seqs.len(),
        forall|j: int| 0 <= j < seqs.len() ==> row_like(
            #[trigger] r1[j],
            o1.sequence_count + j,
            n1.players@,
            seqs[j],
        ),
        forall|j: int| 0 <= j < seqs.len() ==> row_like(
            #[trigger] r2[j],
            o2.sequence_count + j,
            n2.players@,
            seqs[j],
        ),
        forall|j: int| 0 <= j < seqs.len() ==> has_name(
            n1.players@,
            (#[trigger] seqs[j]).player_name@,
        ),
    ensures
        n1.sequence_count == n2.sequence_count,
        n1.players@.len() == n2.players@.len(),
        forall|i: int| 0 <= i < n1.players@.len() ==> {
            let e1 = #[trigger] n1.players@[i];
            let e2 = n2.players@[i];
            &&& e1.0@ == e2.0@
            &&& e1.1.player_id == e2.1.player_id
            &&& e1.1.seq_count == e2.1.seq_count
            &&& forall|c: Seq<char>| #[trigger] hist_count(e1.1.timeout_codes@, c) == hist_count(
                e2.1.timeout_codes@,
                c,
            )
        },
        forall|j: int| 0 <= j < seqs.len() ==> {
            let a = #[trigger] r1[j];
            let b = r2[j];
            &&& a.seq_id == b.seq_id
            &&& a.player_id == b.player_id
            &&& a.player@ == b.player@
            &&& a.start == b.start
            &&& a.ticks == b.ticks
            &&& a.map@ == b.map@
            &&& a.teehist@ == b.teehist@
        },
{
    assert(names_of(n1.players@).len() == n1.players@.len());
    assert(names_of(n2.players@).len() == n2.players@.len());
    assert forall|i: int| 0 <= i < n1.players@.len() implies {
        let e1 = #[trigger] n1.players@[i];
        let e2 = n2.players@[i];
        &&& e1.0@ == e2.0@
        &&& e1.1.player_id == e2.1.player_id
        &&& e1.1.seq_count == e2.1.seq_count
        &&& forall|c: Seq<char>| #[trigger] hist_count(e1.1.timeout_codes@, c) == hist_count(
            e2.1.timeout_codes@,
            c,
        )
    } by {
        let e1 = n1.players@[i];
        let e2 = n2.players@[i];
        assert(names_of(n1.players@)[i] == e1.0@);
        assert(names_of(n2.players@)[i] == e2.0@);
        lemma_name_found(n1.players@, i);
        lemma_name_found(n2.players@, i);
        assert forall|a: int| 0 <= a < n1.players@.len() implies (#[trigger] n1.players@[a]).0@
            == n2.players@[a].0@ by {
            assert(names_of(n1.players@)[a] == n1.players@[a].0@);
            assert(names_of(n2.players@)[a] == n2.players@[a].0@);
        }
        lemma_name_index_same_keys(n1.players@, n2.players@, e1.0@);
        assert(value_of_name(n2.players@, e1.0@) == Some(e2.1));
        lemma_name_index_same_keys(o1.players@, o1.players@, e1.0@);
    }
    assert forall|j: int| 0 <= j < seqs.len() implies {
        let a = #[trigger] r1[j];
        let b = r2[j];
        &&& a.seq_id == b.seq_id
        &&& a.player_id == b.player_id
        &&& a.player@ == b.player@
        &&& a.start == b.start
        &&& a.ticks == b.ticks
        &&& a.map@ == b.map@
        &&& a.teehist@ == b.teehist@
    } by {
        let n = seqs[j].player_name@;
        assert(row_like(r1[j], o1.sequence_count + j, n1.players@, seqs[j]));
        assert(row_like(r2[j], o2.sequence_count + j, n2.players@, seqs[j]));
        assert forall|a: int| 0 <= a < n1.players@.len() implies (#[trigger] n1.players@[a]).0@
            == n2.players@[a].0@ by {
            assert(names_of(n1.players@)[a] == n1.players@[a].0@);
            assert(names_of(n2.players@)[a] == n2.players@[a].0@);
        }
        lemma_name_index_same_keys(n1.players@, n2.players@, n);
        lemma_name_index(n1.players@, n);
        let ni = name_index(n1.players@, n);
        assert(n1.players@[ni].1.player_id as int == ni);
        assert(n2.players@[ni].1.player_id as int == ni);
    }
}

} // verus!

//! The replay state machine: consumes a chronological stream of chunks,
//! materialises explicit per-tick state, and carves it into per-player
//! sequences.
//!
//! A tick boundary is crossed either explicitly (`TickSkip { dt }` advances
//! the tick index by `dt + 1`) or implicitly: a `PlayerNew`, `PlayerDiff`
//! or `PlayerOld` whose cid is less than or equal to the last player cid
//! seen advances the tick index by one before the chunk is processed.

use vstd::prelude::*;

use crate::assoc::{
    has_key, key_index, lemma_entry_found, lemma_has_key_push, lemma_key_index, lemma_spec_insert,
    lemma_spec_remove, spec_insert, spec_remove, value_of, CidMap,
};
use crate::tick::{InputVector, Tick};
use twgame_core::net_msg::{parse_net_msg, ClNetMessage, NetVersion};

verus! {

/// Reasons why parsing one file stops early.  Already-completed sequences
/// are kept; the caller moves on to the next file.
#[derive(Debug)]
pub enum ParseError {
    /// the net-message sub-decoder rejected a message
    NetMsgParseError,
    /// a chunk that would silently corrupt state if it were ignored
    UnhandledChunkError(String),
    /// an internal invariant of the replay was broken by the stream
    UnexpectedParserState(String),
}

/// Server metadata taken from the stream header.
pub struct GameInfo {
    pub server_name: String,
    pub map_name: String,
}

/// A decoded client net-message, reduced to the variants the replay reacts
/// to.
pub enum NetEvent {
    StartInfo { name: String },
    Kill,
    SetTeam,
    Command { name: String, arguments: String },
    Other,
}

/// One atomic record of the stream, as handed over by the framing decoder.
pub enum Chunk {
    TickSkip { dt: i32 },
    InputNew { cid: i32, input: InputVector },
    InputDiff { cid: i32, dinput: InputVector },
    PlayerNew { cid: i32, x: i32, y: i32 },
    PlayerDiff { cid: i32, dx: i32, dy: i32 },
    PlayerOld { cid: i32 },
    Drop { cid: i32 },
    NetMessage { cid: i32, msg: Vec<u8> },
    ConsoleCommand { cid: i32, cmd: String, args: Vec<String> },
    Eos,
    Join { cid: i32 },
    PlayerReady { cid: i32 },
    PlayerSwap,
    RejoinVer6,
    TeamLoadSuccess,
    JoinVer6,
    JoinVer7,
    DdnetVersion,
    DdnetVersionOld,
    PlayerTeam,
    TeamPractice,
    AuthInit,
    TeamSaveSuccess,
    Unknown,
}

#[derive(Clone, Copy)]
pub struct ParserConfig {
    /// close the active sequence on a kill net-message
    pub cut_kill: bool,
    /// close the active sequence on the console command `r`
    pub cut_rescue: bool,
    /// per-tick position-delta threshold for the teleport cut
    pub max_step: i32,
}

impl ParserConfig {
    pub fn new(cut_kill: bool, cut_rescue: bool, max_step: i32) -> (c: ParserConfig)
        requires
            max_step >= 0,
        ensures
            c.cut_kill == cut_kill,
            c.cut_rescue == cut_rescue,
            c.max_step == max_step,
    {
        ParserConfig { cut_kill, cut_rescue, max_step }
    }
}

/// Sequence of parsed player inputs and positions, truthful to the raw
/// stream representation.  Used while parsing, so it includes optional
/// values.
pub struct DDNetSequence {
    pub cid: i32,
    pub start_tick: i32,
    /// exclusive
    pub end_tick: Option<i32>,
    pub player_name: Option<String>,
    pub input_vectors: Vec<InputVector>,
    pub player_positions: Vec<(i32, i32)>,
    pub map_name: Option<String>,
    pub timeout_code: Option<String>,
    pub teehist_path: Option<String>,
}

impl DDNetSequence {
    pub fn new(cid: i32, start_tick: i32) -> (s: DDNetSequence)
        ensures
            blank_like(s, cid, start_tick as int),
    {
        DDNetSequence {
            cid,
            start_tick,
            end_tick: None,
            player_name: None,
            input_vectors: Vec::new(),
            player_positions: Vec::new(),
            map_name: None,
            timeout_code: None,
            teehist_path: None,
        }
    }
}

/// An active sequence as the parser keeps it: nothing accumulated yet.
pub open spec fn blank_like(s: DDNetSequence, cid: i32, start_tick: int) -> bool {
    &&& s.cid == cid
    &&& s.start_tick as int == start_tick
    &&& s.end_tick is None
    &&& s.player_name is None
    &&& s.input_vectors@.len() == 0
    &&& s.player_positions@.len() == 0
    &&& s.map_name is None
    &&& s.timeout_code is None
    &&& s.teehist_path is None
}

/// The input vector recorded for `cid` at tick `t` of the history.
pub open spec fn input_at(h: Seq<Tick>, cid: i32, t: int) -> Option<InputVector> {
    value_of(h[t].input_vectors@, cid)
}

/// The position recorded for `cid` at tick `t` of the history.
pub open spec fn position_at(h: Seq<Tick>, cid: i32, t: int) -> Option<(i32, i32)> {
    value_of(h[t].player_positions@, cid)
}

pub open spec fn inputs_present(h: Seq<Tick>, cid: i32, s: int, e: int) -> bool {
    forall|t: int| s <= t < e ==> input_at(h, cid, t) is Some
}

pub open spec fn positions_present(h: Seq<Tick>, cid: i32, s: int, e: int) -> bool {
    forall|t: int| s <= t < e ==> position_at(h, cid, t) is Some
}

/// The first tick in `[s, e)` at which `cid` has an input vector, or `e`
/// if it has none anywhere in the range.
pub open spec fn first_input_tick(h: Seq<Tick>, cid: i32, s: int, e: int) -> int
    decreases e - s,
{
    if s >= e {
        e
    } else if input_at(h, cid, s) is Some {
        s
    } else {
        first_input_tick(h, cid, s + 1, e)
    }
}

pub proof fn lemma_first_input_tick_of(h: Seq<Tick>, cid: i32, s0: int, s: int, e: int)
    requires
        s0 <= s <= e,
        forall|t: int| s0 <= t < s ==> input_at(h, cid, t) is None,
        s < e ==> input_at(h, cid, s) is Some,
    ensures
        first_input_tick(h, cid, s0, e) == s,
    decreases s - s0,
{
    if s0 < s {
        lemma_first_input_tick_of(h, cid, s0 + 1, s, e);
    }
}

/// A position diff beyond the teleport threshold in either axis.
pub open spec fn big_delta(dx: i32, dy: i32, m: i32) -> bool {
    dx > m || dx < -m || dy > m || dy < -m
}

/// What one decoded net-message does to the replay: a start-info records
/// the player's name, a kill closes the active sequence when the kill cut
/// is enabled, a timeout command records the player's timeout code, and
/// everything else is ignored.
pub open spec fn net_event_post(
    o: Parser,
    n: Parser,
    r: Result<(), ParseError>,
    cid: i32,
    ev: NetEvent,
) -> bool {
    &&& n.finished == o.finished
    &&& n.tick_index == o.tick_index
    &&& n.chunk_index == o.chunk_index
    &&& n.last_cid == o.last_cid
    &&& n.previous_ticks@ == o.previous_ticks@
    &&& n.current_tick.input_vectors@ == o.current_tick.input_vectors@
    &&& n.current_tick.player_positions@ == o.current_tick.player_positions@
    &&& n.game_info == o.game_info
    &&& n.config == o.config
    &&& match ev {
        NetEvent::StartInfo { name } => {
            &&& r is Ok
            &&& n.player_names@ == spec_insert(o.player_names@, cid, name)
            &&& n.timeout_codes@ == o.timeout_codes@
            &&& n.active_sequences@ == o.active_sequences@
            &&& n.completed_sequences@ == o.completed_sequences@
        },
        NetEvent::Kill => {
            &&& n.player_names@ == o.player_names@
            &&& n.timeout_codes@ == o.timeout_codes@
            &&& if o.config.cut_kill {
                match value_of(o.active_sequences@, cid) {
                    None => {
                        &&& r matches Err(err) && err is UnexpectedParserState
                        &&& n.active_sequences@ == o.active_sequences@
                        &&& n.completed_sequences@ == o.completed_sequences@
                    },
                    Some(seq0) => {
                        &&& n.active_sequences@.len() >= 1
                        &&& n.active_sequences@.drop_last() == spec_remove(
                            o.active_sequences@,
                            cid,
                        )
                        &&& n.active_sequences@.last().0 == cid
                        &&& blank_like(n.active_sequences@.last().1, cid, o.tick_index + 2)
                        &&& emission_shape(
                            o,
                            n,
                            r,
                            cid,
                            seq0,
                            o.previous_ticks@,
                            o.tick_index as int,
                        )
                    },
                }
            } else {
                &&& r is Ok
                &&& n.active_sequences@ == o.active_sequences@
                &&& n.completed_sequences@ == o.completed_sequences@
            }
        },
        NetEvent::Command { name, arguments } => {
            &&& r is Ok
            &&& n.player_names@ == o.player_names@
            &&& n.timeout_codes@ == (if name@ == "timeout"@ {
                spec_insert(o.timeout_codes@, cid, arguments)
            } else {
                o.timeout_codes@
            })
            &&& n.active_sequences@ == o.active_sequences@
            &&& n.completed_sequences@ == o.completed_sequences@
        },
        _ => {
            &&& r is Ok
            &&& n.player_names@ == o.player_names@
            &&& n.timeout_codes@ == o.timeout_codes@
            &&& n.active_sequences@ == o.active_sequences@
            &&& n.completed_sequences@ == o.completed_sequences@
        },
    }
}

/// Admissibility of one chunk against the current parser state: the
/// machine limits that the replay arithmetic needs (tick and chunk
/// counters and position sums staying inside their integer types).
pub open spec fn chunk_ok(p: Parser, c: Chunk) -> bool {
    &&& p.chunk_index < u32::MAX
    &&& match c {
        Chunk::TickSkip { dt } => dt >= 0 && p.tick_index + dt + 1 <= i32::MAX,
        Chunk::PlayerNew { .. } => p.tick_index + 1 <= i32::MAX,
        Chunk::PlayerOld { .. } => p.tick_index + 1 <= i32::MAX,
        Chunk::PlayerDiff { cid, dx, dy } => {
            &&& p.tick_index + 3 <= i32::MAX
            &&& (match p.current_tick.position_of(cid) {
                Some(pos) => i32::MIN <= pos.0 + dx <= i32::MAX && i32::MIN <= pos.1 + dy
                    <= i32::MAX,
                None => true,
            })
        },
        Chunk::NetMessage { .. } => p.tick_index + 2 <= i32::MAX,
        Chunk::ConsoleCommand { .. } => p.tick_index + 2 <= i32::MAX,
        _ => true,
    }
}

/// One per-tick movement within the configured threshold.
pub open spec fn step_ok(p: (i32, i32), q: (i32, i32), max_step: i32) -> bool {
    &&& -max_step <= q.0 - p.0 <= max_step
    &&& -max_step <= q.1 - p.1 <= max_step
}

/// Consecutive recorded positions of `cid` never jump further than
/// `max_step` anywhere in `[s, e)` of the history.
pub open spec fn history_deltas_ok(h: Seq<Tick>, cid: i32, s: int, e: int, max_step: i32) -> bool {
    forall|t: int| s < t < e ==> step_ok(
        position_at(h, cid, t - 1)->Some_0,
        (#[trigger] position_at(h, cid, t))->Some_0,
        max_step,
    )
}

/// Shape of every emitted sequence: explicit end, at least three ticks,
/// one input vector and one position per tick, and no per-tick movement
/// beyond `max_step`.
pub open spec fn wf_completed(s: DDNetSequence, max_step: i32) -> bool {
    &&& s.end_tick matches Some(e) && {
        &&& 0 <= s.start_tick
        &&& s.start_tick + 3 <= e
        &&& s.input_vectors@.len() == e - s.start_tick
        &&& s.player_positions@.len() == e - s.start_tick
        &&& forall|i: int| 0 < i < s.player_positions@.len() ==> step_ok(
            s.player_positions@[i - 1],
            #[trigger] s.player_positions@[i],
            max_step,
        )
    }
}

/// Every tick of an emitted sequence is exactly what the history recorded
/// for its cid: the player was present throughout `[start_tick, end_tick)`.
pub open spec fn matches_history(s: DDNetSequence, h: Seq<Tick>) -> bool {
    &&& s.end_tick matches Some(e) && {
        &&& e <= h.len()
        &&& forall|i: int| 0 <= i < e - s.start_tick ==> {
            &&& input_at(h, s.cid, s.start_tick + i) == Some(#[trigger] s.input_vectors@[i])
            &&& position_at(h, s.cid, s.start_tick + i) == Some(s.player_positions@[i])
        }
    }
}

/// Two ticks that record the same state.
pub open spec fn tick_like(a: Tick, b: Tick) -> bool {
    &&& a.input_vectors@ == b.input_vectors@
    &&& a.player_positions@ == b.player_positions@
}

/// The implicit-tick rule: a player event advances the tick when its cid
/// is less than or equal to the last player cid seen.
pub open spec fn advances(last_cid: Option<i32>, cid: i32) -> bool {
    last_cid matches Some(l) && cid <= l
}

/// `n` extends `o` by exactly `k` history snapshots of the current tick,
/// which itself is untouched.
pub open spec fn advance_shape(o: Parser, n: Parser, k: int) -> bool {
    &&& n.tick_index == o.tick_index + k
    &&& n.previous_ticks@.len() == o.previous_ticks@.len() + k
    &&& forall|t: int| 0 <= t < o.previous_ticks@.len()
        ==> n.previous_ticks@[t] == o.previous_ticks@[t]
    &&& forall|t: int| o.previous_ticks@.len() <= t < n.previous_ticks@.len()
        ==> tick_like(#[trigger] n.previous_ticks@[t], o.current_tick)
}

/// Fields that closing a sequence never touches.
pub open spec fn complete_frame(o: Parser, n: Parser) -> bool {
    &&& n.finished == o.finished
    &&& n.tick_index == o.tick_index
    &&& n.chunk_index == o.chunk_index
    &&& n.last_cid == o.last_cid
    &&& n.previous_ticks@ == o.previous_ticks@
    &&& n.current_tick.input_vectors@ == o.current_tick.input_vectors@
    &&& n.player_names@ == o.player_names@
    &&& n.timeout_codes@ == o.timeout_codes@
    &&& n.game_info == o.game_info
    &&& n.config == o.config
}

/// How closing `cid` reshapes the active map and the position table:
/// dropping removes the position, a cut reopens a blank sequence that
/// starts two ticks later (`e` is the tick index at closing time).
pub open spec fn close_shape(o: Parser, n: Parser, cid: i32, drop_player: bool, e: int) -> bool {
    if drop_player {
        &&& n.active_sequences@ == spec_remove(o.active_sequences@, cid)
        &&& n.current_tick.player_positions@ == spec_remove(
            o.current_tick.player_positions@,
            cid,
        )
    } else {
        &&& n.active_sequences@.len() >= 1
        &&& n.active_sequences@.drop_last() == spec_remove(o.active_sequences@, cid)
        &&& n.active_sequences@.last().0 == cid
        &&& blank_like(n.active_sequences@.last().1, cid, e + 2)
        &&& n.current_tick.player_positions@ == o.current_tick.player_positions@
    }
}

/// What the emitted sequence must be when `cid`'s sequence `seq0` is
/// closed against history `h` at tick `e`.
pub open spec fn emitted_like(
    l: DDNetSequence,
    cid: i32,
    fs: int,
    e: int,
    h: Seq<Tick>,
    o: Parser,
) -> bool {
    &&& l.cid == cid
    &&& l.start_tick as int == fs
    &&& l.end_tick == Some(e as i32)
    &&& l.player_name == value_of(o.player_names@, cid)
    &&& l.timeout_code == value_of(o.timeout_codes@, cid)
    &&& l.map_name == (match o.game_info {
        Some(g) => Some(g.map_name),
        None => None::<String>,
    })
    &&& l.teehist_path is None
    &&& matches_history(l, h)
    &&& wf_completed(l, o.config.max_step)
}

/// A span that cannot be closed cleanly: it is long enough to be
/// emitted, but the recorded state has a gap or an oversized position
/// step inside it.
pub open spec fn span_faulty(h: Seq<Tick>, cid: i32, start0: int, e: int, max_step: i32) -> bool {
    let fs = first_input_tick(h, cid, start0, e);
    &&& start0 < e
    &&& e - fs >= 3
    &&& !(inputs_present(h, cid, fs, e) && positions_present(h, cid, fs, e)
        && history_deltas_ok(h, cid, fs, e, max_step))
}

/// A span that is closed cleanly and emitted at end-of-stream: it
/// started, the recorded state is complete and within the step bound,
/// and at least three input vectors remain after the leading skip.
pub open spec fn span_emits(h: Seq<Tick>, cid: i32, start0: int, e: int, max_step: i32) -> bool {
    let fs = first_input_tick(h, cid, start0, e);
    &&& start0 < e
    &&& e - fs >= 3
    &&& inputs_present(h, cid, fs, e)
    &&& positions_present(h, cid, fs, e)
    &&& history_deltas_ok(h, cid, fs, e, max_step)
}

/// The active entries whose spans are emitted at end-of-stream, in map
/// order.
pub open spec fn emitting_entries(
    entries: Seq<(i32, DDNetSequence)>,
    h: Seq<Tick>,
    e: int,
    max_step: i32,
) -> Seq<(i32, DDNetSequence)>
    decreases entries.len(),
{
    if entries.len() == 0 {
        Seq::empty()
    } else {
        let rest = emitting_entries(entries.drop_last(), h, e, max_step);
        if span_emits(h, entries.last().0, entries.last().1.start_tick as int, e, max_step) {
            rest.push(entries.last())
        } else {
            rest
        }
    }
}

/// What the end-of-stream transition does: the parser finishes, every
/// remaining active sequence is closed with drop semantics (the player's
/// position is removed), the clean spans of at least three inputs are
/// emitted in map order, and the transition succeeds exactly when no
/// remaining span is faulty.
pub open spec fn eos_post(o: Parser, n: Parser, r: Result<(), ParseError>) -> bool {
    &&& n.finished
    &&& n.tick_index == o.tick_index
    &&& n.last_cid == o.last_cid
    &&& n.previous_ticks@ == o.previous_ticks@
    &&& n.current_tick.input_vectors@ == o.current_tick.input_vectors@
    &&& n.player_names@ == o.player_names@
    &&& n.timeout_codes@ == o.timeout_codes@
    &&& n.game_info == o.game_info
    &&& n.config == o.config
    &&& n.completed_sequences@.len() >= o.completed_sequences@.len()
    &&& (forall|i: int| 0 <= i < o.completed_sequences@.len()
        ==> n.completed_sequences@[i] == o.completed_sequences@[i])
    &&& (r is Ok ==> n.active_sequences@.len() == 0)
    &&& (r matches Err(err) ==> err is UnexpectedParserState)
    &&& (r is Ok <==> forall|i: int| 0 <= i < o.active_sequences@.len() ==> !span_faulty(
        o.previous_ticks@,
        (#[trigger] o.active_sequences@[i]).0,
        o.active_sequences@[i].1.start_tick as int,
        o.tick_index as int,
        o.config.max_step,
    ))
    &&& (r is Ok ==> ({
        let em = emitting_entries(
            o.active_sequences@,
            o.previous_ticks@,
            o.tick_index as int,
            o.config.max_step,
        );
        &&& n.completed_sequences@.len() == o.completed_sequences@.len() + em.len()
        &&& forall|j: int| 0 <= j < em.len() ==> emitted_like(
            n.completed_sequences@[o.completed_sequences@.len() + j],
            (#[trigger] em[j]).0,
            first_input_tick(
                o.previous_ticks@,
                em[j].0,
                em[j].1.start_tick as int,
                o.tick_index as int,
            ),
            o.tick_index as int,
            o.previous_ticks@,
            o,
        )
    }))
    &&& (r is Ok ==> forall|k: i32| #[trigger] value_of(n.current_tick.player_positions@, k)
        == (if has_key(o.active_sequences@, k) {
        None::<(i32, i32)>
    } else {
        value_of(o.current_tick.player_positions@, k)
    }))
}

/// The completed list after closing `seq0` for `cid` against history `h`
/// ending at tick `e`: a span that never started or kept fewer than three
/// inputs is discarded silently; a gap or an oversized step inside the
/// span is an error; anything else is emitted.
pub open spec fn emission_shape(
    o: Parser,
    n: Parser,
    r: Result<(), ParseError>,
    cid: i32,
    seq0: DDNetSequence,
    h: Seq<Tick>,
    e: int,
) -> bool {
    let st0 = seq0.start_tick as int;
    let fs = first_input_tick(h, cid, st0, e);
    if st0 >= e || e - fs < 3 {
        &&& r is Ok
        &&& n.completed_sequences@ == o.completed_sequences@
    } else if !inputs_present(h, cid, fs, e) || !positions_present(h, cid, fs, e)
        || !history_deltas_ok(h, cid, fs, e, o.config.max_step) {
        &&& r matches Err(err) && err is UnexpectedParserState
        &&& n.completed_sequences@ == o.completed_sequences@
    } else {
        &&& r is Ok
        &&& n.completed_sequences@.len() == o.completed_sequences@.len() + 1
        &&& n.completed_sequences@.drop_last() == o.completed_sequences@
        &&& emitted_like(n.completed_sequences@.last(), cid, fs, e, h, o)
    }
}


/// The full step relation of the replay: what one chunk does to the
/// parser state and which result it yields.  The fatal chunks are
/// exactly the ones that answer with the unhandled-chunk error.
pub open spec fn parse_chunk_post(
    o: Parser,
    n: Parser,
    r: Result<(), ParseError>,
    chunk: Chunk,
) -> bool {
    &&& (r is Ok ==> n.chunk_index == o.chunk_index + 1)
    &&& (r is Err ==> n.chunk_index == o.chunk_index)
    &&& n.completed_sequences@.len() >= o.completed_sequences@.len()
    &&& (forall|i: int| 0 <= i < o.completed_sequences@.len()
        ==> n.completed_sequences@[i] == o.completed_sequences@[i])
    &&& n.game_info == o.game_info
    &&& n.config == o.config
    &&& n.finished == (o.finished || chunk is Eos)
    &&& (r matches Err(err) ==> (err is UnhandledChunkError <==> (chunk is PlayerSwap
        || chunk is RejoinVer6 || chunk is TeamLoadSuccess)))
    &&& match chunk {
        Chunk::TickSkip { dt } => {
            &&& r is Ok
            &&& advance_shape(o, n, dt + 1)
            &&& n.last_cid is None
            &&& n.current_tick == o.current_tick
            &&& n.active_sequences@ == o.active_sequences@
            &&& n.completed_sequences@ == o.completed_sequences@
            &&& n.player_names@ == o.player_names@
            &&& n.timeout_codes@ == o.timeout_codes@
        },
        Chunk::InputNew { cid, input } => {
            &&& r is Ok
            &&& n == (Parser {
                current_tick: n.current_tick,
                chunk_index: n.chunk_index,
                ..o
            })
            &&& n.current_tick.input_vectors@ == spec_insert(
                o.current_tick.input_vectors@,
                cid,
                input,
            )
            &&& n.current_tick.player_positions@ == o.current_tick.player_positions@
        },
        Chunk::InputDiff { cid, dinput } => {
            &&& r is Ok
            &&& n == (Parser {
                current_tick: n.current_tick,
                chunk_index: n.chunk_index,
                ..o
            })
            &&& n.current_tick.player_positions@ == o.current_tick.player_positions@
            &&& (match o.current_tick.input_of(cid) {
                Some(prev) => n.current_tick.input_of(cid) matches Some(cur) && cur@
                    == crate::tick::wrapped_vec(prev, dinput) && (forall|c: i32| c != cid
                    ==> n.current_tick.input_of(c) == o.current_tick.input_of(c)),
                None => n.current_tick == o.current_tick,
            })
        },
        Chunk::Drop { cid } => {
            &&& r is Ok
            &&& n == (Parser {
                current_tick: n.current_tick,
                chunk_index: n.chunk_index,
                ..o
            })
            &&& n.current_tick.input_vectors@ == spec_remove(
                o.current_tick.input_vectors@,
                cid,
            )
            &&& n.current_tick.player_positions@ == o.current_tick.player_positions@
        },
        Chunk::PlayerNew { cid, x, y } => {
            &&& advance_shape(o, n, if advances(o.last_cid, cid) { 1int } else { 0 })
            &&& n.last_cid == Some(cid)
            &&& n.completed_sequences@ == o.completed_sequences@
            &&& n.player_names@ == o.player_names@
            &&& n.timeout_codes@ == o.timeout_codes@
            &&& n.current_tick.input_vectors@ == o.current_tick.input_vectors@
            &&& (if has_key(o.current_tick.player_positions@, cid) {
                &&& r matches Err(err) && err is UnexpectedParserState
                &&& n.active_sequences@ == o.active_sequences@
                &&& n.current_tick.player_positions@ == o.current_tick.player_positions@
            } else {
                &&& r is Ok
                &&& n.active_sequences@.len() == o.active_sequences@.len() + 1
                &&& n.active_sequences@.drop_last() == o.active_sequences@
                &&& n.active_sequences@.last().0 == cid
                &&& blank_like(n.active_sequences@.last().1, cid, n.tick_index as int)
                &&& n.current_tick.player_positions@
                    == o.current_tick.player_positions@.push((cid, (x, y)))
            })
        },
        Chunk::PlayerDiff { cid, dx, dy } => {
            &&& advance_shape(o, n, if advances(o.last_cid, cid) { 1int } else { 0 })
            &&& n.last_cid == Some(cid)
            &&& n.player_names@ == o.player_names@
            &&& n.timeout_codes@ == o.timeout_codes@
            &&& n.current_tick.input_vectors@ == o.current_tick.input_vectors@
            &&& ({
                let cut = big_delta(dx, dy, o.config.max_step) && (match value_of(
                    o.active_sequences@,
                    cid,
                ) {
                    Some(s0) => n.tick_index >= s0.start_tick,
                    None => false,
                });
                if !cut {
                    &&& r is Ok
                    &&& n.active_sequences@ == o.active_sequences@
                    &&& n.completed_sequences@ == o.completed_sequences@
                    &&& (match o.current_tick.position_of(cid) {
                        Some(p) => n.current_tick.player_positions@ == spec_insert(
                            o.current_tick.player_positions@,
                            cid,
                            ((p.0 + dx) as i32, (p.1 + dy) as i32),
                        ),
                        None => n.current_tick.player_positions@
                            == o.current_tick.player_positions@,
                    })
                } else {
                    let seq0 = value_of(o.active_sequences@, cid)->Some_0;
                    &&& n.active_sequences@.len() >= 1
                    &&& n.active_sequences@.drop_last() == spec_remove(
                        o.active_sequences@,
                        cid,
                    )
                    &&& n.active_sequences@.last().0 == cid
                    &&& blank_like(n.active_sequences@.last().1, cid, n.tick_index + 2)
                    &&& emission_shape(
                        o,
                        n,
                        r,
                        cid,
                        seq0,
                        n.previous_ticks@,
                        n.tick_index as int,
                    )
                    &&& (r is Ok ==> (match o.current_tick.position_of(cid) {
                        Some(p) => n.current_tick.player_positions@ == spec_insert(
                            o.current_tick.player_positions@,
                            cid,
                            ((p.0 + dx) as i32, (p.1 + dy) as i32),
                        ),
                        None => n.current_tick.player_positions@
                            == o.current_tick.player_positions@,
                    }))
                    &&& (r is Err ==> n.current_tick.player_positions@
                        == o.current_tick.player_positions@)
                }
            })
        },
        Chunk::PlayerOld { cid } => {
            &&& advance_shape(o, n, if advances(o.last_cid, cid) { 1int } else { 0 })
            &&& n.last_cid == Some(cid)
            &&& n.player_names@ == o.player_names@
            &&& n.timeout_codes@ == o.timeout_codes@
            &&& n.current_tick.input_vectors@ == o.current_tick.input_vectors@
            &&& (match value_of(o.active_sequences@, cid) {
                None => {
                    &&& r matches Err(err) && err is UnexpectedParserState
                    &&& n.active_sequences@ == o.active_sequences@
                    &&& n.current_tick.player_positions@ == o.current_tick.player_positions@
                    &&& n.completed_sequences@ == o.completed_sequences@
                },
                Some(seq0) => {
                    &&& n.active_sequences@ == spec_remove(o.active_sequences@, cid)
                    &&& n.current_tick.player_positions@ == spec_remove(
                        o.current_tick.player_positions@,
                        cid,
                    )
                    &&& emission_shape(
                        o,
                        n,
                        r,
                        cid,
                        seq0,
                        n.previous_ticks@,
                        n.tick_index as int,
                    )
                },
            })
        },
        Chunk::NetMessage { cid, msg } => {
            &&& n.tick_index == o.tick_index
            &&& (match decoded_net_event(msg@) {
                None => r matches Err(err) && err is NetMsgParseError && n == o,
                Some(ev) => net_event_post(
                    Parser { chunk_index: n.chunk_index, ..o },
                    n,
                    r,
                    cid,
                    ev,
                ),
            })
        },
        Chunk::ConsoleCommand { cid, cmd, .. } => {
            &&& n.tick_index == o.tick_index
            &&& n.last_cid == o.last_cid
            &&& n.previous_ticks@ == o.previous_ticks@
            &&& n.current_tick.input_vectors@ == o.current_tick.input_vectors@
            &&& n.current_tick.player_positions@ == o.current_tick.player_positions@
            &&& n.player_names@ == o.player_names@
            &&& n.timeout_codes@ == o.timeout_codes@
            &&& (if cid != -1 && o.config.cut_rescue && cmd@ == "r"@ {
                match value_of(o.active_sequences@, cid) {
                    None => {
                        &&& r matches Err(err) && err is UnexpectedParserState
                        &&& n.active_sequences@ == o.active_sequences@
                        &&& n.completed_sequences@ == o.completed_sequences@
                    },
                    Some(seq0) => {
                        &&& n.active_sequences@.len() >= 1
                        &&& n.active_sequences@.drop_last() == spec_remove(
                            o.active_sequences@,
                            cid,
                        )
                        &&& n.active_sequences@.last().0 == cid
                        &&& blank_like(n.active_sequences@.last().1, cid, o.tick_index + 2)
                        &&& emission_shape(
                            o,
                            n,
                            r,
                            cid,
                            seq0,
                            o.previous_ticks@,
                            o.tick_index as int,
                        )
                    },
                }
            } else {
                &&& r is Ok
                &&& n.active_sequences@ == o.active_sequences@
                &&& n.completed_sequences@ == o.completed_sequences@
            })
        },
        Chunk::Eos => eos_post(o, n, r),
        Chunk::PlayerSwap | Chunk::RejoinVer6 | Chunk::TeamLoadSuccess => {
            &&& r matches Err(err) && err is UnhandledChunkError
            &&& n == o
        },
        _ => {
            &&& r is Ok
            &&& n == (Parser { chunk_index: n.chunk_index, ..o })
        },
    }
}

/// Tracks state while replaying one file.
pub struct Parser {
    /// whether the end-of-stream chunk has been parsed
    pub finished: bool,
    /// current tick index
    pub tick_index: i32,
    /// number of chunks parsed so far
    pub chunk_index: u32,
    /// last cid seen in a player event, for the implicit-tick rule
    pub last_cid: Option<i32>,
    /// state of the current tick
    pub current_tick: Tick,
    /// snapshots of all previous ticks, one per tick index
    pub previous_ticks: Vec<Tick>,
    /// sequences under construction, keyed by cid
    pub active_sequences: CidMap<DDNetSequence>,
    /// sequences completed so far
    pub completed_sequences: Vec<DDNetSequence>,
    /// player names announced by start-info net-messages
    pub player_names: CidMap<String>,
    /// timeout codes announced by command net-messages
    pub timeout_codes: CidMap<String>,
    /// server metadata from the header, if any was given
    pub game_info: Option<GameInfo>,
    pub config: ParserConfig,
}

impl Parser {
    /// The parser's replay invariant.
    pub open spec fn wf(&self) -> bool {
        &&& 0 <= self.tick_index
        &&& self.previous_ticks@.len() == self.tick_index as int
        &&& self.current_tick.wf()
        &&& forall|t: int| 0 <= t < self.previous_ticks@.len()
            ==> (#[trigger] self.previous_ticks@[t]).wf()
        &&& self.active_sequences.wf()
        &&& self.player_names.wf()
        &&& self.timeout_codes.wf()
        &&& self.config.max_step >= 0
        &&& forall|i: int| 0 <= i < self.active_sequences@.len() ==> {
            let entry = #[trigger] self.active_sequences@[i];
            &&& blank_like(entry.1, entry.0, entry.1.start_tick as int)
            &&& entry.1.start_tick >= 0
            &&& has_key(self.current_tick.player_positions@, entry.0)
        }
        &&& forall|i: int| 0 <= i < self.completed_sequences@.len() ==> {
            &&& wf_completed(
                #[trigger] self.completed_sequences@[i],
                self.config.max_step,
            )
            &&& matches_history(self.completed_sequences@[i], self.previous_ticks@)
        }
    }

    pub fn new(config: ParserConfig) -> (p: Parser)
        requires
            config.max_step >= 0,
        ensures
            p.wf(),
            !p.finished,
            p.tick_index == 0,
            p.chunk_index == 0,
            p.last_cid is None,
            p.current_tick.input_vectors@.len() == 0,
            p.current_tick.player_positions@.len() == 0,
            p.previous_ticks@.len() == 0,
            p.active_sequences@.len() == 0,
            p.completed_sequences@.len() == 0,
            p.player_names@.len() == 0,
            p.timeout_codes@.len() == 0,
            p.game_info is None,
            p.config == config,
    {
        Parser {
            finished: false,
            tick_index: 0,
            chunk_index: 0,
            last_cid: None,
            current_tick: Tick::new(),
            previous_ticks: Vec::new(),
            active_sequences: CidMap::new(),
            completed_sequences: Vec::new(),
            player_names: CidMap::new(),
            timeout_codes: CidMap::new(),
            game_info: None,
            config,
        }
    }

    /// Install the server metadata decoded from the stream header.
    pub fn parse_header(&mut self, game_info: GameInfo)
        requires
            old(self).wf(),
        ensures
            final(self).wf(),
            final(self).game_info == Some(game_info),
            *final(self) == (Parser { game_info: Some(game_info), ..*old(self) }),
    {
        self.game_info = Some(game_info);
    }

    /// Skip `dt + 1` ticks: push that many snapshots of the current tick
    /// onto the history.  With `dt == 0` this just finalises the current
    /// tick.  An explicit skip clears `last_cid` so that no unintended
    /// implicit skip follows.
    pub fn handle_tick_skip(&mut self, dt: i32, implicit: bool)
        requires
            old(self).wf(),
            dt >= 0,
            old(self).tick_index + dt + 1 <= i32::MAX,
        ensures
            final(self).wf(),
            advance_shape(*old(self), *final(self), dt + 1),
            final(self).current_tick == old(self).current_tick,
            final(self).last_cid == if implicit { old(self).last_cid } else { None::<i32> },
            final(self).finished == old(self).finished,
            final(self).chunk_index == old(self).chunk_index,
            final(self).active_sequences@ == old(self).active_sequences@,
            final(self).completed_sequences@ == old(self).completed_sequences@,
            final(self).player_names@ == old(self).player_names@,
            final(self).timeout_codes@ == old(self).timeout_codes@,
            final(self).game_info == old(self).game_info,
            final(self).config == old(self).config,
    {
        self.tick_index = self.tick_index + 1 + dt;
        let mut i: i32 = 0;
        while i < dt + 1
            invariant
                0 <= i <= dt + 1,
                self.previous_ticks@.len() == old(self).previous_ticks@.len() + i,
                forall|t: int| 0 <= t < old(self).previous_ticks@.len()
                    ==> self.previous_ticks@[t] == old(self).previous_ticks@[t],
                forall|t: int|
                    old(self).previous_ticks@.len() <= t < self.previous_ticks@.len()
                        ==> tick_like(
                        #[trigger] self.previous_ticks@[t],
                        old(self).current_tick,
                    ),
                forall|t: int| 0 <= t < self.previous_ticks@.len()
                    ==> (#[trigger] self.previous_ticks@[t]).wf(),
                *self == (Parser {
                    previous_ticks: self.previous_ticks,
                    tick_index: self.tick_index,
                    ..*old(self)
                }),
                self.tick_index == old(self).tick_index + dt + 1,
                self.current_tick == old(self).current_tick,
                old(self).current_tick.wf(),
                dt + 1 <= i32::MAX,
            decreases dt + 1 - i,
        {
            let snap = self.current_tick.snapshot();
            self.previous_ticks.push(snap);
            i = i + 1;
        }
        proof {
            assert forall|k: int| 0 <= k < self.completed_sequences@.len() implies matches_history(
                #[trigger] self.completed_sequences@[k],
                self.previous_ticks@,
            ) by {
                let s = self.completed_sequences@[k];
                assert(matches_history(s, old(self).previous_ticks@));
                let e = s.end_tick->Some_0;
                assert forall|j: int| 0 <= j < e - s.start_tick implies input_at(
                    self.previous_ticks@,
                    s.cid,
                    s.start_tick + j,
                ) == Some(#[trigger] s.input_vectors@[j]) && position_at(
                    self.previous_ticks@,
                    s.cid,
                    s.start_tick + j,
                ) == Some(s.player_positions@[j]) by {
                    assert(self.previous_ticks@[s.start_tick + j] == old(
                        self,
                    ).previous_ticks@[s.start_tick + j]);
                }
            }
        }
        if !implicit {
            self.last_cid = None;
        }
    }

    /// Apply the implicit-tick rule for a player event on `cid`, and
    /// remember `cid` as the last player cid seen.
    pub fn check_implicit_tick(&mut self, cid: i32)
        requires
            old(self).wf(),
            old(self).tick_index + 1 <= i32::MAX,
        ensures
            final(self).wf(),
            advance_shape(
                *old(self),
                *final(self),
                if advances(old(self).last_cid, cid) { 1int } else { 0 },
            ),
            final(self).current_tick == old(self).current_tick,
            final(self).last_cid == Some(cid),
            final(self).finished == old(self).finished,
            final(self).chunk_index == old(self).chunk_index,
            final(self).active_sequences@ == old(self).active_sequences@,
            final(self).completed_sequences@ == old(self).completed_sequences@,
            final(self).player_names@ == old(self).player_names@,
            final(self).timeout_codes@ == old(self).timeout_codes@,
            final(self).game_info == old(self).game_info,
            final(self).config == old(self).config,
    {
        let mut advanced = false;
        match self.last_cid {
            Some(last) => {
                if cid <= last {
                    self.handle_tick_skip(0, true);
                    advanced = true;
                }
            },
            None => {},
        }
        self.last_cid = Some(cid);
        proof {
            if !advanced {
                assert(advance_shape(*old(self), *self, 0));
            }
        }
    }

    /// Close the active sequence of `cid` and, unless the player is
    /// dropped, immediately open a fresh one two ticks later, so that a
    /// kill or respawn position reset cannot contaminate the next
    /// sequence.  A span that never started or kept fewer than three
    /// input vectors is discarded silently (respawn spam); a gap in the
    /// recorded state or an oversized position step is an error.
    #[verifier::loop_isolation(false)]
    #[verifier::rlimit(100)]
    pub fn complete_active_sequence(&mut self, cid: i32, drop_player: bool) -> (r: Result<
        (),
        ParseError,
    >)
        requires
            old(self).wf(),
            !drop_player ==> old(self).tick_index + 2 <= i32::MAX,
        ensures
            final(self).wf(),
            complete_frame(*old(self), *final(self)),
            (match value_of(old(self).active_sequences@, cid) {
                None => {
                    &&& r matches Err(err) && err is UnexpectedParserState
                    &&& *final(self) == *old(self)
                },
                Some(seq0) => {
                    &&& close_shape(
                        *old(self),
                        *final(self),
                        cid,
                        drop_player,
                        old(self).tick_index as int,
                    )
                    &&& emission_shape(
                        *old(self),
                        *final(self),
                        r,
                        cid,
                        seq0,
                        old(self).previous_ticks@,
                        old(self).tick_index as int,
                    )
                },
            }),
    {
        let ghost o = *self;
        let seq0 = match self.active_sequences.take(cid) {
            Some(s) => s,
            None => {
                return Err(
                    ParseError::UnexpectedParserState(
                        "no active sequence found for this cid".to_string(),
                    ),
                );
            },
        };
        proof {
            lemma_key_index(o.active_sequences@, cid);
            let ki = key_index(o.active_sequences@, cid);
            assert(o.active_sequences@[ki].0 == cid && o.active_sequences@[ki].1 == seq0);
            assert(blank_like(seq0, cid, seq0.start_tick as int));
            assert(has_key(o.current_tick.player_positions@, cid));
            lemma_key_index(o.current_tick.player_positions@, cid);
            lemma_spec_remove(o.active_sequences@, cid);
        }
        if drop_player {
            self.current_tick.remove_player_position(cid);
        } else {
            let ns = DDNetSequence::new(cid, self.tick_index + 2);
            proof {
                lemma_key_index(self.active_sequences@, cid);
                lemma_spec_insert(self.active_sequences@, cid, ns);
            }
            self.active_sequences.insert(cid, ns);
            proof {
                assert(self.active_sequences@.drop_last() =~= spec_remove(
                    o.active_sequences@,
                    cid,
                ));
            }
        }
        proof {
            assert(close_shape(o, *self, cid, drop_player, o.tick_index as int));
            assert forall|i: int| 0 <= i < self.active_sequences@.len() implies {
                let entry = #[trigger] self.active_sequences@[i];
                &&& blank_like(entry.1, entry.0, entry.1.start_tick as int)
                &&& entry.1.start_tick >= 0
                &&& has_key(self.current_tick.player_positions@, entry.0)
            } by {
                lemma_entry_found(self.active_sequences@, i);
                let entry = self.active_sequences@[i];
                if drop_player || i < self.active_sequences@.len() - 1 {
                    let rm = spec_remove(o.active_sequences@, cid);
                    let ki = key_index(o.active_sequences@, cid);
                    if i < ki {
                        assert(rm[i] == o.active_sequences@[i]);
                    } else {
                        assert(rm[i] == o.active_sequences@[i + 1]);
                    }
                    assert(entry.0 != cid);
                    if drop_player {
                        lemma_spec_remove(o.current_tick.player_positions@, cid);
                    }
                }
            }
        }
        if seq0.start_tick >= self.tick_index {
            return Ok(());
        }
        let ghost h = self.previous_ticks@;
        let start0 = seq0.start_tick as usize;
        let end = self.tick_index as usize;
        let (inputs, positions, fs) = match extract_span(
            &self.previous_ticks,
            cid,
            start0,
            end,
            self.config.max_step,
        ) {
            Ok(None) => {
                return Ok(());
            },
            Ok(Some(triple)) => triple,
            Err(err) => {
                return Err(err);
            },
        };
        let player_name = match self.player_names.get(cid) {
            Some(n) => Some(n.clone()),
            None => None,
        };
        let map_name = match &self.game_info {
            Some(g) => Some(g.map_name.clone()),
            None => None,
        };
        let timeout_code = match self.timeout_codes.get(cid) {
            Some(c) => Some(c.clone()),
            None => None,
        };
        let seq = DDNetSequence {
            cid,
            start_tick: fs as i32,
            end_tick: Some(self.tick_index),
            player_name,
            input_vectors: inputs,
            player_positions: positions,
            map_name,
            timeout_code,
            teehist_path: None,
        };
        proof {
            assert(wf_completed(seq, self.config.max_step));
            assert(matches_history(seq, h));
        }
        self.completed_sequences.push(seq);
        proof {
            assert(self.completed_sequences@.drop_last() =~= o.completed_sequences@);
        }
        Ok(())
    }
    /// Record a player's initial input vector; an existing one is
    /// overwritten with a warning counted upstream.
    pub fn handle_input_new(&mut self, cid: i32, input: InputVector)
        requires
            old(self).wf(),
        ensures
            final(self).wf(),
            final(self).current_tick.input_vectors@ == spec_insert(
                old(self).current_tick.input_vectors@,
                cid,
                input,
            ),
            final(self).current_tick.player_positions@
                == old(self).current_tick.player_positions@,
            *final(self) == (Parser { current_tick: final(self).current_tick, ..*old(self) }),
    {
        self.current_tick.add_init_input(cid, input);
    }

    /// Apply an input diff to the current tick, wrapping on overflow;
    /// a diff without a matching input vector is dropped with a warning
    /// counted upstream.
    pub fn handle_input_diff(&mut self, cid: i32, dinput: InputVector)
        requires
            old(self).wf(),
        ensures
            final(self).wf(),
            final(self).current_tick.player_positions@
                == old(self).current_tick.player_positions@,
            *final(self) == (Parser { current_tick: final(self).current_tick, ..*old(self) }),
            (match old(self).current_tick.input_of(cid) {
                Some(prev) => final(self).current_tick.input_of(cid) matches Some(cur)
                    && cur@ == crate::tick::wrapped_vec(prev, dinput)
                    && (forall|c: i32| c != cid ==> final(self).current_tick.input_of(c)
                        == old(self).current_tick.input_of(c)),
                None => final(self).current_tick == old(self).current_tick,
            }),
    {
        self.current_tick.apply_input_diff(cid, dinput);
    }

    /// A dropped connection clears the player's input vector.  The
    /// position is owned by the player-old event and is left alone.
    pub fn handle_drop(&mut self, cid: i32)
        requires
            old(self).wf(),
        ensures
            final(self).wf(),
            final(self).current_tick.input_vectors@ == spec_remove(
                old(self).current_tick.input_vectors@,
                cid,
            ),
            final(self).current_tick.player_positions@
                == old(self).current_tick.player_positions@,
            *final(self) == (Parser { current_tick: final(self).current_tick, ..*old(self) }),
    {
        proof {
            lemma_spec_remove(self.current_tick.input_vectors@, cid);
        }
        let _ = self.current_tick.input_vectors.take(cid);
    }

    /// A player enters the world: apply the implicit-tick rule, open an
    /// active sequence at the current tick and record the position.  A
    /// position that is already present would corrupt the bookkeeping of
    /// both sequences, so it stops this file.
    pub fn handle_player_new(&mut self, cid: i32, x: i32, y: i32) -> (r: Result<(), ParseError>)
        requires
            old(self).wf(),
            old(self).tick_index + 1 <= i32::MAX,
        ensures
            final(self).wf(),
            advance_shape(
                *old(self),
                *final(self),
                if advances(old(self).last_cid, cid) { 1int } else { 0 },
            ),
            final(self).last_cid == Some(cid),
            final(self).finished == old(self).finished,
            final(self).chunk_index == old(self).chunk_index,
            final(self).completed_sequences@ == old(self).completed_sequences@,
            final(self).player_names@ == old(self).player_names@,
            final(self).timeout_codes@ == old(self).timeout_codes@,
            final(self).game_info == old(self).game_info,
            final(self).config == old(self).config,
            final(self).current_tick.input_vectors@ == old(self).current_tick.input_vectors@,
            (if has_key(old(self).current_tick.player_positions@, cid) {
                &&& r matches Err(err) && err is UnexpectedParserState
                &&& final(self).active_sequences@ == old(self).active_sequences@
                &&& final(self).current_tick.player_positions@
                    == old(self).current_tick.player_positions@
            } else {
                &&& r is Ok
                &&& final(self).active_sequences@.len() == old(self).active_sequences@.len() + 1
                &&& final(self).active_sequences@.drop_last() == old(self).active_sequences@
                &&& final(self).active_sequences@.last().0 == cid
                &&& blank_like(
                    final(self).active_sequences@.last().1,
                    cid,
                    final(self).tick_index as int,
                )
                &&& final(self).current_tick.player_positions@
                    == old(self).current_tick.player_positions@.push((cid, (x, y)))
            }),
    {
        self.check_implicit_tick(cid);
        if self.current_tick.player_positions.contains(cid) {
            return Err(
                ParseError::UnexpectedParserState(
                    "player position already present on player-new".to_string(),
                ),
            );
        }
        proof {
            lemma_key_index(self.current_tick.player_positions@, cid);
            lemma_key_index(self.active_sequences@, cid);
            if has_key(self.active_sequences@, cid) {
                let ki = key_index(self.active_sequences@, cid);
                assert(self.active_sequences@[ki].0 == cid);
                assert(has_key(self.current_tick.player_positions@, cid));
            }
        }
        let ns = DDNetSequence::new(cid, self.tick_index);
        let ghost a0 = self.active_sequences@;
        let ghost t0 = self.current_tick;
        let ghost p0 = self.current_tick.player_positions@;
        proof {
            lemma_spec_insert(self.active_sequences@, cid, ns);
        }
        self.active_sequences.insert(cid, ns);
        self.current_tick.add_init_position(cid, x, y);
        proof {
            assert forall|i: int| 0 <= i < self.active_sequences@.len() implies {
                let entry = #[trigger] self.active_sequences@[i];
                &&& blank_like(entry.1, entry.0, entry.1.start_tick as int)
                &&& entry.1.start_tick >= 0
                &&& has_key(self.current_tick.player_positions@, entry.0)
            } by {
                if i < a0.len() {
                    assert(self.active_sequences@[i] == a0[i]);
                    assert(has_key(p0, a0[i].0));
                    assert(a0[i].0 != cid);
                    assert(self.current_tick.position_of(a0[i].0) == t0.position_of(a0[i].0));
                } else {
                    assert(value_of(self.current_tick.player_positions@, cid) == Some((x, y)));
                }
            }
        }
        Ok(())
    }

    /// A player leaves the world: apply the implicit-tick rule, close its
    /// active sequence and drop its position.
    pub fn handle_player_old(&mut self, cid: i32) -> (r: Result<(), ParseError>)
        requires
            old(self).wf(),
            old(self).tick_index + 1 <= i32::MAX,
        ensures
            final(self).wf(),
            advance_shape(
                *old(self),
                *final(self),
                if advances(old(self).last_cid, cid) { 1int } else { 0 },
            ),
            final(self).last_cid == Some(cid),
            final(self).finished == old(self).finished,
            final(self).chunk_index == old(self).chunk_index,
            final(self).player_names@ == old(self).player_names@,
            final(self).timeout_codes@ == old(self).timeout_codes@,
            final(self).game_info == old(self).game_info,
            final(self).config == old(self).config,
            final(self).current_tick.input_vectors@ == old(self).current_tick.input_vectors@,
            (match value_of(old(self).active_sequences@, cid) {
                None => {
                    &&& r matches Err(err) && err is UnexpectedParserState
                    &&& final(self).active_sequences@ == old(self).active_sequences@
                    &&& final(self).current_tick.player_positions@
                        == old(self).current_tick.player_positions@
                    &&& final(self).completed_sequences@ == old(self).completed_sequences@
                },
                Some(seq0) => {
                    &&& final(self).active_sequences@ == spec_remove(
                        old(self).active_sequences@,
                        cid,
                    )
                    &&& final(self).current_tick.player_positions@ == spec_remove(
                        old(self).current_tick.player_positions@,
                        cid,
                    )
                    &&& emission_shape(
                        *old(self),
                        *final(self),
                        r,
                        cid,
                        seq0,
                        final(self).previous_ticks@,
                        final(self).tick_index as int,
                    )
                },
            }),
    {
        self.check_implicit_tick(cid);
        self.complete_active_sequence(cid, true)
    }

    /// A position diff: apply the implicit-tick rule; a jump beyond
    /// `max_step` inside the active span is a teleport, which closes the
    /// sequence and reopens one two ticks later.  The diff itself is then
    /// applied to the current tick (a diff without a recorded position is
    /// dropped with a warning counted upstream).
    pub fn handle_player_diff(&mut self, cid: i32, dx: i32, dy: i32) -> (r: Result<
        (),
        ParseError,
    >)
        requires
            old(self).wf(),
            old(self).tick_index + 3 <= i32::MAX,
            (match old(self).current_tick.position_of(cid) {
                Some(p) => i32::MIN <= p.0 + dx <= i32::MAX && i32::MIN <= p.1 + dy <= i32::MAX,
                None => true,
            }),
        ensures
            final(self).wf(),
            advance_shape(
                *old(self),
                *final(self),
                if advances(old(self).last_cid, cid) { 1int } else { 0 },
            ),
            final(self).last_cid == Some(cid),
            final(self).finished == old(self).finished,
            final(self).chunk_index == old(self).chunk_index,
            final(self).player_names@ == old(self).player_names@,
            final(self).timeout_codes@ == old(self).timeout_codes@,
            final(self).game_info == old(self).game_info,
            final(self).config == old(self).config,
            final(self).current_tick.input_vectors@ == old(self).current_tick.input_vectors@,
            ({
                let cut = big_delta(dx, dy, old(self).config.max_step) && (match value_of(
                    old(self).active_sequences@,
                    cid,
                ) {
                    Some(s0) => final(self).tick_index >= s0.start_tick,
                    None => false,
                });
                if !cut {
                    &&& r is Ok
                    &&& final(self).active_sequences@ == old(self).active_sequences@
                    &&& final(self).completed_sequences@ == old(self).completed_sequences@
                    &&& (match old(self).current_tick.position_of(cid) {
                        Some(p) => final(self).current_tick.player_positions@ == spec_insert(
                            old(self).current_tick.player_positions@,
                            cid,
                            ((p.0 + dx) as i32, (p.1 + dy) as i32),
                        ),
                        None => final(self).current_tick.player_positions@
                            == old(self).current_tick.player_positions@,
                    })
                } else {
                    let seq0 = value_of(old(self).active_sequences@, cid)->Some_0;
                    &&& final(self).active_sequences@.len() >= 1
                    &&& final(self).active_sequences@.drop_last() == spec_remove(
                        old(self).active_sequences@,
                        cid,
                    )
                    &&& final(self).active_sequences@.last().0 == cid
                    &&& blank_like(
                        final(self).active_sequences@.last().1,
                        cid,
                        final(self).tick_index + 2,
                    )
                    &&& emission_shape(
                        *old(self),
                        *final(self),
                        r,
                        cid,
                        seq0,
                        final(self).previous_ticks@,
                        final(self).tick_index as int,
                    )
                    &&& (r is Ok ==> (match old(self).current_tick.position_of(cid) {
                        Some(p) => final(self).current_tick.player_positions@ == spec_insert(
                            old(self).current_tick.player_positions@,
                            cid,
                            ((p.0 + dx) as i32, (p.1 + dy) as i32),
                        ),
                        None => final(self).current_tick.player_positions@
                            == old(self).current_tick.player_positions@,
                    }))
                    &&& (r is Err ==> final(self).current_tick.player_positions@
                        == old(self).current_tick.player_positions@)
                }
            }),
    {
        self.check_implicit_tick(cid);
        let m = self.config.max_step;
        let big = dx > m || dx < -m || dy > m || dy < -m;
        if big {
            let mut do_cut = false;
            match self.active_sequences.get(cid) {
                Some(seq) => {
                    if self.tick_index >= seq.start_tick {
                        do_cut = true;
                    }
                },
                None => {},
            }
            proof {
                lemma_key_index(self.active_sequences@, cid);
            }
            if do_cut {
                match self.complete_active_sequence(cid, false) {
                    Ok(()) => {},
                    Err(err) => {
                        return Err(err);
                    },
                }
            }
        }
        if self.current_tick.player_positions.contains(cid) {
            proof {
                lemma_key_index(self.current_tick.player_positions@, cid);
            }
            let ghost a1 = self.active_sequences@;
            let ghost t1 = self.current_tick;
            let ghost p1 = self.current_tick.player_positions@;
            self.current_tick.apply_position_diff(cid, dx, dy);
            proof {
                assert forall|i: int| 0 <= i < self.active_sequences@.len() implies has_key(
                    self.current_tick.player_positions@,
                    (#[trigger] self.active_sequences@[i]).0,
                ) by {
                    let k = self.active_sequences@[i].0;
                    assert(has_key(p1, k));
                    if k != cid {
                        assert(self.current_tick.position_of(k) == t1.position_of(k));
                    } else {
                        assert(self.current_tick.position_of(k) is Some);
                    }
                }
            }
        }
        Ok(())
    }
    /// React to one decoded net-message for `cid`.
    pub fn apply_net_event(&mut self, cid: i32, event: NetEvent) -> (r: Result<(), ParseError>)
        requires
            old(self).wf(),
            old(self).tick_index + 2 <= i32::MAX,
        ensures
            final(self).wf(),
            net_event_post(*old(self), *final(self), r, cid, event),
    {
        match event {
            NetEvent::StartInfo { name } => {
                proof {
                    lemma_spec_insert(self.player_names@, cid, name);
                }
                self.player_names.insert(cid, name);
                Ok(())
            },
            NetEvent::Kill => {
                if self.config.cut_kill {
                    self.complete_active_sequence(cid, false)
                } else {
                    Ok(())
                }
            },
            NetEvent::SetTeam => Ok(()),
            NetEvent::Command { name, arguments } => {
                if name == String::from_str("timeout") {
                    proof {
                        lemma_spec_insert(self.timeout_codes@, cid, arguments);
                    }
                    self.timeout_codes.insert(cid, arguments);
                }
                Ok(())
            },
            NetEvent::Other => Ok(()),
        }
    }

    /// Decode a raw net-message and react to it; a message the
    /// sub-decoder rejects stops this file.
    pub fn handle_net_message(&mut self, cid: i32, msg: Vec<u8>) -> (r: Result<(), ParseError>)
        requires
            old(self).wf(),
            old(self).tick_index + 2 <= i32::MAX,
        ensures
            final(self).wf(),
            (match decoded_net_event(msg@) {
                None => r matches Err(err) && err is NetMsgParseError && *final(self) == *old(
                    self,
                ),
                Some(ev) => net_event_post(*old(self), *final(self), r, cid, ev),
            }),
    {
        match decode_net_msg(&msg) {
            Some(ev) => self.apply_net_event(cid, ev),
            None => Err(ParseError::NetMsgParseError),
        }
    }

    /// React to a console command.  Server commands (`cid == -1`) are
    /// ignored; the command `r` closes the active sequence when the
    /// rescue cut is enabled.
    pub fn handle_console_command(&mut self, cid: i32, cmd: String, _args: Vec<String>) -> (r:
        Result<(), ParseError>)
        requires
            old(self).wf(),
            old(self).tick_index + 2 <= i32::MAX,
        ensures
            final(self).wf(),
            final(self).finished == old(self).finished,
            final(self).tick_index == old(self).tick_index,
            final(self).chunk_index == old(self).chunk_index,
            final(self).last_cid == old(self).last_cid,
            final(self).previous_ticks@ == old(self).previous_ticks@,
            final(self).current_tick.input_vectors@ == old(self).current_tick.input_vectors@,
            final(self).current_tick.player_positions@
                == old(self).current_tick.player_positions@,
            final(self).player_names@ == old(self).player_names@,
            final(self).timeout_codes@ == old(self).timeout_codes@,
            final(self).game_info == old(self).game_info,
            final(self).config == old(self).config,
            (if cid != -1 && old(self).config.cut_rescue && cmd@ == "r"@ {
                match value_of(old(self).active_sequences@, cid) {
                    None => {
                        &&& r matches Err(err) && err is UnexpectedParserState
                        &&& final(self).active_sequences@ == old(self).active_sequences@
                        &&& final(self).completed_sequences@ == old(self).completed_sequences@
                    },
                    Some(seq0) => {
                        &&& final(self).active_sequences@.len() >= 1
                        &&& final(self).active_sequences@.drop_last() == spec_remove(
                            old(self).active_sequences@,
                            cid,
                        )
                        &&& final(self).active_sequences@.last().0 == cid
                        &&& blank_like(
                            final(self).active_sequences@.last().1,
                            cid,
                            old(self).tick_index + 2,
                        )
                        &&& emission_shape(
                            *old(self),
                            *final(self),
                            r,
                            cid,
                            seq0,
                            old(self).previous_ticks@,
                            old(self).tick_index as int,
                        )
                    },
                }
            } else {
                &&& r is Ok
                &&& final(self).active_sequences@ == old(self).active_sequences@
                &&& final(self).completed_sequences@ == old(self).completed_sequences@
            }),
    {
        if cid == -1 {
            return Ok(());
        }
        if self.config.cut_rescue && cmd == String::from_str("r") {
            return self.complete_active_sequence(cid, false);
        }
        Ok(())
    }

    /// End of stream: close every remaining active sequence, dropping the
    /// players, and mark the parser finished.
    pub fn handle_eos(&mut self) -> (r: Result<(), ParseError>)
        requires
            old(self).wf(),
        ensures
            final(self).wf(),
            final(self).chunk_index == old(self).chunk_index,
            eos_post(*old(self), *final(self), r),
    {
        self.finished = true;
        let mut cids: Vec<i32> = Vec::new();
        let entries = self.active_sequences.entries();
        let n = entries.len();
        for i in 0..n
            invariant
                n == entries@.len(),
                entries@ == self.active_sequences@,
                cids@.len() == i,
                forall|j: int| 0 <= j < i ==> cids@[j] == entries@[j].0,
        {
            cids.push(entries[i].0);
        }
        let m = cids.len();
        let ghost mid = *self;
        let ghost h = mid.previous_ticks@;
        let ghost e = mid.tick_index as int;
        let ghost ms = mid.config.max_step;
        let ghost mut emitted_pairs: Seq<(i32, DDNetSequence)> = Seq::empty();
        let ghost mut emitted_seqs: Seq<DDNetSequence> = Seq::empty();
        proof {
            assert(mid.active_sequences@.subrange(0, 0) =~= Seq::<(i32, DDNetSequence)>::empty());
            assert(emitting_entries(mid.active_sequences@.subrange(0, 0), h, e, ms)
                =~= Seq::<(i32, DDNetSequence)>::empty());
            assert(self.completed_sequences@ =~= mid.completed_sequences@ + emitted_seqs);
            assert forall|k: i32| #[trigger] value_of(self.current_tick.player_positions@, k)
                == (if has_key(mid.active_sequences@.subrange(0, 0), k) {
                None::<(i32, i32)>
            } else {
                value_of(mid.current_tick.player_positions@, k)
            }) by {
                lemma_key_index(mid.active_sequences@.subrange(0, 0), k);
            }
        }
        for i in 0..m
            invariant
                m == cids@.len(),
                m == mid.active_sequences@.len(),
                forall|j: int| 0 <= j < m ==> cids@[j] == mid.active_sequences@[j].0,
                self.wf(),
                self.finished,
                self.tick_index == mid.tick_index,
                self.chunk_index == mid.chunk_index,
                self.last_cid == mid.last_cid,
                self.previous_ticks@ == mid.previous_ticks@,
                self.current_tick.input_vectors@ == mid.current_tick.input_vectors@,
                self.player_names@ == mid.player_names@,
                self.timeout_codes@ == mid.timeout_codes@,
                self.game_info == mid.game_info,
                self.config == mid.config,
                self.active_sequences@ == mid.active_sequences@.subrange(i as int, m as int),
                forall|j: int| 0 <= j < mid.completed_sequences@.len()
                    ==> self.completed_sequences@[j] == mid.completed_sequences@[j],
                mid.wf(),
                mid == (Parser { finished: true, ..*old(self) }),
                mid.finished,
                h == mid.previous_ticks@,
                e == mid.tick_index as int,
                ms == mid.config.max_step,
                forall|j: int| 0 <= j < i ==> !span_faulty(
                    h,
                    (#[trigger] mid.active_sequences@[j]).0,
                    mid.active_sequences@[j].1.start_tick as int,
                    e,
                    ms,
                ),
                emitted_pairs == emitting_entries(
                    mid.active_sequences@.subrange(0, i as int),
                    h,
                    e,
                    ms,
                ),
                self.completed_sequences@ == mid.completed_sequences@ + emitted_seqs,
                emitted_seqs.len() == emitted_pairs.len(),
                forall|j: int| 0 <= j < emitted_seqs.len() ==> emitted_like(
                    #[trigger] emitted_seqs[j],
                    emitted_pairs[j].0,
                    first_input_tick(h, emitted_pairs[j].0, emitted_pairs[j].1.start_tick as int, e),
                    e,
                    h,
                    mid,
                ),
                forall|k: i32| #[trigger] value_of(self.current_tick.player_positions@, k)
                    == (if has_key(mid.active_sequences@.subrange(0, i as int), k) {
                    None::<(i32, i32)>
                } else {
                    value_of(mid.current_tick.player_positions@, k)
                }),
        {
            proof {
                assert(self.active_sequences@[0] == mid.active_sequences@[i as int]);
                lemma_entry_found(self.active_sequences@, 0);
            }
            let ghost before = *self;
            let ghost entry = mid.active_sequences@[i as int];
            match self.complete_active_sequence(cids[i], true) {
                Ok(()) => {},
                Err(err) => {
                    proof {
                        assert(span_faulty(h, entry.0, entry.1.start_tick as int, e, ms));
                    }
                    return Err(err);
                },
            }
            proof {
                lemma_spec_remove(before.active_sequences@, cids@[i as int]);
                lemma_spec_remove(before.current_tick.player_positions@, cids@[i as int]);
                assert(self.active_sequences@ =~= mid.active_sequences@.subrange(
                    i + 1,
                    m as int,
                ));
                assert(!span_faulty(h, entry.0, entry.1.start_tick as int, e, ms));
                let prefix0 = mid.active_sequences@.subrange(0, i as int);
                let prefix1 = mid.active_sequences@.subrange(0, i + 1);
                assert(prefix1 =~= prefix0.push(entry));
                assert(prefix1.drop_last() =~= prefix0);
                assert(prefix1.last() == entry);
                if span_emits(h, entry.0, entry.1.start_tick as int, e, ms) {
                    assert(self.completed_sequences@.drop_last()
                        == before.completed_sequences@);
                    assert(emitted_like(
                        self.completed_sequences@.last(),
                        entry.0,
                        first_input_tick(h, entry.0, entry.1.start_tick as int, e),
                        e,
                        h,
                        mid,
                    ));
                    let es0 = emitted_seqs;
                    emitted_pairs = emitted_pairs.push(entry);
                    emitted_seqs = emitted_seqs.push(self.completed_sequences@.last());
                    assert(emitting_entries(prefix1, h, e, ms) == emitted_pairs);
                    assert(before.completed_sequences@ == mid.completed_sequences@ + es0);
                    let cur = self.completed_sequences@;
                    let want = mid.completed_sequences@ + es0.push(cur.last());
                    assert(cur.len() == want.len());
                    assert forall|x: int| 0 <= x < cur.len() implies cur[x] == want[x] by {
                        if x < cur.len() - 1 {
                            assert(cur[x] == cur.drop_last()[x]);
                            assert(cur.drop_last()[x] == before.completed_sequences@[x]);
                            assert(before.completed_sequences@[x] == (
                            mid.completed_sequences@ + es0)[x]);
                        } else {
                            assert(want[x] == es0.push(cur.last())[es0.len() as int]);
                        }
                    }
                    assert(cur =~= want);
                } else {
                    assert(emitting_entries(prefix1, h, e, ms) == emitted_pairs);
                    assert(self.completed_sequences@ == before.completed_sequences@);
                }
                assert forall|k: i32| #[trigger] value_of(
                    self.current_tick.player_positions@,
                    k,
                ) == (if has_key(prefix1, k) {
                    None::<(i32, i32)>
                } else {
                    value_of(mid.current_tick.player_positions@, k)
                }) by {
                    lemma_has_key_push(prefix0, entry, k);
                    if k == entry.0 {
                        assert(value_of(self.current_tick.player_positions@, k) is None);
                        assert(has_key(prefix1, k));
                    } else {
                        assert(value_of(self.current_tick.player_positions@, k) == value_of(
                            before.current_tick.player_positions@,
                            k,
                        ));
                        assert(value_of(before.current_tick.player_positions@, k) == (
                        if has_key(prefix0, k) {
                            None::<(i32, i32)>
                        } else {
                            value_of(mid.current_tick.player_positions@, k)
                        }));
                        assert(has_key(prefix1, k) == has_key(prefix0, k));
                    }
                }
            }
        }
        proof {
            assert(mid.active_sequences@.subrange(0, m as int) =~= mid.active_sequences@);
            let em = emitting_entries(old(self).active_sequences@, h, e, ms);
            assert(em == emitted_pairs);
            assert forall|j: int| 0 <= j < em.len() implies emitted_like(
                self.completed_sequences@[old(self).completed_sequences@.len() + j],
                (#[trigger] em[j]).0,
                first_input_tick(h, em[j].0, em[j].1.start_tick as int, e),
                e,
                h,
                *old(self),
            ) by {
                assert(self.completed_sequences@[mid.completed_sequences@.len() + j]
                    == emitted_seqs[j]);
                assert(emitted_like(
                    emitted_seqs[j],
                    emitted_pairs[j].0,
                    first_input_tick(h, emitted_pairs[j].0, emitted_pairs[j].1.start_tick as int, e),
                    e,
                    h,
                    mid,
                ));
            }
        }
        Ok(())
    }

    /// Check that the machine limits the replay arithmetic needs hold for
    /// this chunk in the current state.
    pub fn chunk_admissible(&self, chunk: &Chunk) -> (b: bool)
        ensures
            b == chunk_ok(*self, *chunk),
    {
        if self.chunk_index >= u32::MAX {
            return false;
        }
        let tick = self.tick_index as i64;
        let max = i32::MAX as i64;
        match chunk {
            Chunk::TickSkip { dt } => *dt >= 0 && tick + (*dt as i64) + 1 <= max,
            Chunk::PlayerNew { .. } => tick + 1 <= max,
            Chunk::PlayerOld { .. } => tick + 1 <= max,
            Chunk::PlayerDiff { cid, dx, dy } => {
                if tick + 3 > max {
                    return false;
                }
                match self.current_tick.player_positions.get(*cid) {
                    Some(p) => {
                        let min64 = i32::MIN as i64;
                        let nx = (p.0 as i64) + (*dx as i64);
                        let ny = (p.1 as i64) + (*dy as i64);
                        min64 <= nx && nx <= max && min64 <= ny && ny <= max
                    },
                    None => true,
                }
            },
            Chunk::NetMessage { .. } => tick + 2 <= max,
            Chunk::ConsoleCommand { .. } => tick + 2 <= max,
            _ => true,
        }
    }

    /// Dispatch one chunk of the stream.  The chunk counter advances on
    /// success; a fatal chunk leaves the state untouched and reports why.
    pub fn parse_chunk(&mut self, chunk: Chunk) -> (r: Result<(), ParseError>)
        requires
            old(self).wf(),
            !old(self).finished,
            chunk_ok(*old(self), chunk),
        ensures
            final(self).wf(),
            parse_chunk_post(*old(self), *final(self), r, chunk),
    {
        let result: Result<(), ParseError> = match chunk {
            Chunk::TickSkip { dt } => {
                self.handle_tick_skip(dt, false);
                Ok(())
            },
            Chunk::InputNew { cid, input } => {
                self.handle_input_new(cid, input);
                Ok(())
            },
            Chunk::InputDiff { cid, dinput } => {
                self.handle_input_diff(cid, dinput);
                Ok(())
            },
            Chunk::NetMessage { cid, msg } => self.handle_net_message(cid, msg),
            Chunk::PlayerDiff { cid, dx, dy } => self.handle_player_diff(cid, dx, dy),
            Chunk::Eos => self.handle_eos(),
            Chunk::ConsoleCommand { cid, cmd, args } => self.handle_console_command(
                cid,
                cmd,
                args,
            ),
            Chunk::PlayerOld { cid } => self.handle_player_old(cid),
            Chunk::PlayerNew { cid, x, y } => self.handle_player_new(cid, x, y),
            Chunk::Drop { cid } => {
                self.handle_drop(cid);
                Ok(())
            },
            Chunk::PlayerSwap => Err(
                ParseError::UnhandledChunkError("player swap".to_string()),
            ),
            Chunk::RejoinVer6 => Err(ParseError::UnhandledChunkError("rejoin".to_string())),
            Chunk::TeamLoadSuccess => Err(
                ParseError::UnhandledChunkError("team load".to_string()),
            ),
            Chunk::Join { .. } | Chunk::PlayerReady { .. } | Chunk::JoinVer6 | Chunk::JoinVer7
                | Chunk::DdnetVersion | Chunk::DdnetVersionOld | Chunk::PlayerTeam
                | Chunk::TeamPractice | Chunk::AuthInit | Chunk::TeamSaveSuccess
                | Chunk::Unknown => Ok(()),
        };
        match result {
            Ok(()) => {
                self.chunk_index = self.chunk_index + 1;
                Ok(())
            },
            Err(err) => Err(err),
        }
    }

}

/// Walk `h[start0..end)` for `cid`: skip the leading ticks that still
/// miss an input vector (the stream may delay the first input after a
/// player appears), then copy one input vector and one position per tick
/// and check every consecutive position step against `max_step`.
/// `Ok(None)` stands for a span that kept fewer than three input vectors.
#[verifier::rlimit(100)]
#[verifier::spinoff_prover]
fn extract_span(h: &Vec<Tick>, cid: i32, start0: usize, end: usize, max_step: i32) -> (r: Result<
    Option<(Vec<InputVector>, Vec<(i32, i32)>, usize)>,
    ParseError,
>)
    requires
        start0 <= end <= h@.len(),
        max_step >= 0,
    ensures
        ({
            let fs = first_input_tick(h@, cid, start0 as int, end as int);
            match r {
                Ok(opt) => match opt {
                    None => end - fs < 3,
                    Some(triple) => {
                        &&& triple.2 as int == fs
                        &&& end - fs >= 3
                        &&& triple.0@.len() == end - fs
                        &&& triple.1@.len() == end - fs
                        &&& forall|j: int| 0 <= j < end - fs ==> input_at(h@, cid, fs + j)
                            == Some(#[trigger] triple.0@[j])
                        &&& forall|j: int| 0 <= j < end - fs ==> position_at(h@, cid, fs + j)
                            == Some(#[trigger] triple.1@[j])
                        &&& forall|i: int| 0 < i < triple.1@.len() ==> step_ok(
                            triple.1@[i - 1],
                            #[trigger] triple.1@[i],
                            max_step,
                        )
                        &&& inputs_present(h@, cid, fs, end as int)
                        &&& positions_present(h@, cid, fs, end as int)
                        &&& history_deltas_ok(h@, cid, fs, end as int, max_step)
                    },
                },
                Err(err) => {
                    &&& err is UnexpectedParserState
                    &&& end - fs >= 3
                    &&& !(inputs_present(h@, cid, fs, end as int) && positions_present(
                        h@,
                        cid,
                        fs,
                        end as int,
                    ) && history_deltas_ok(h@, cid, fs, end as int, max_step))
                },
            }
        }),
{
    let mut s = start0;
    let mut found = false;
    while !found && s < end
        invariant
            start0 <= s <= end <= h@.len(),
            found ==> s < end && input_at(h@, cid, s as int) is Some,
            forall|t: int| start0 <= t < s ==> input_at(h@, cid, t) is None,
        decreases end - s + (if found { 0int } else { 1int }),
    {
        if h[s].input_vectors.contains(cid) {
            found = true;
        } else {
            proof {
                lemma_key_index(h@[s as int].input_vectors@, cid);
            }
            s += 1;
        }
    }
    proof {
        lemma_first_input_tick_of(h@, cid, start0 as int, s as int, end as int);
    }
    let ghost fs = s as int;
    if end - s < 3 {
        return Ok(None);
    }
    let mut inputs: Vec<InputVector> = Vec::new();
    let mut positions: Vec<(i32, i32)> = Vec::new();
    let mut t = s;
    while t < end
        invariant
            s <= t <= end <= h@.len(),
            fs == s as int,
            end - fs >= 3,
            fs == first_input_tick(h@, cid, start0 as int, end as int),
            inputs@.len() == t - s,
            positions@.len() == t - s,
            forall|j: int| 0 <= j < t - s ==> input_at(h@, cid, s + j) == Some(
                #[trigger] inputs@[j],
            ),
            forall|j: int| 0 <= j < t - s ==> position_at(h@, cid, s + j) == Some(
                #[trigger] positions@[j],
            ),
        decreases end - t,
    {
        let iv = match h[t].input_vectors.get(cid) {
            Some(v) => *v,
            None => {
                proof {
                    assert(input_at(h@, cid, t as int) is None);
                    assert(!inputs_present(h@, cid, fs, end as int));
                }
                return Err(
                    ParseError::UnexpectedParserState(
                        "input vector missing inside a completed span".to_string(),
                    ),
                );
            },
        };
        let pp = match h[t].player_positions.get(cid) {
            Some(p) => *p,
            None => {
                proof {
                    assert(position_at(h@, cid, t as int) is None);
                    assert(!positions_present(h@, cid, fs, end as int));
                }
                return Err(
                    ParseError::UnexpectedParserState(
                        "player position missing inside a completed span".to_string(),
                    ),
                );
            },
        };
        inputs.push(iv);
        positions.push(pp);
        t += 1;
    }
    let mut i: usize = 1;
    while i < positions.len()
        invariant
            1 <= i <= positions@.len(),
            fs == s as int,
            s <= end <= h@.len(),
            end - fs >= 3,
            max_step >= 0,
            fs == first_input_tick(h@, cid, start0 as int, end as int),
            inputs@.len() == end - fs,
            positions@.len() == end - fs,
            forall|j: int| 0 <= j < end - fs ==> input_at(h@, cid, fs + j) == Some(
                #[trigger] inputs@[j],
            ),
            forall|j: int| 0 <= j < end - fs ==> position_at(h@, cid, fs + j) == Some(
                #[trigger] positions@[j],
            ),
            forall|j: int| 0 < j < i ==> step_ok(
                positions@[j - 1],
                #[trigger] positions@[j],
                max_step,
            ),
        decreases positions@.len() - i,
    {
        let a = positions[i - 1];
        let b = positions[i];
        let dx = (b.0 as i64) - (a.0 as i64);
        let dy = (b.1 as i64) - (a.1 as i64);
        let m = max_step as i64;
        if dx > m || dx < -m || dy > m || dy < -m {
            proof {
                assert(!step_ok(positions@[i - 1], positions@[i as int], max_step));
                assert(position_at(h@, cid, fs + (i - 1)) == Some(positions@[i - 1]));
                assert(position_at(h@, cid, fs + (i as int)) == Some(positions@[i as int]));
                assert(!history_deltas_ok(h@, cid, fs, end as int, max_step));
            }
            return Err(
                ParseError::UnexpectedParserState(
                    "position delta too large in completed sequence".to_string(),
                ),
            );
        }
        i += 1;
    }
    proof {
        assert forall|t2: int| fs <= t2 < end as int implies input_at(h@, cid, t2) is Some by {
            assert(input_at(h@, cid, fs + (t2 - fs)) == Some(inputs@[t2 - fs]));
        }
        assert forall|t2: int| fs <= t2 < end as int implies position_at(h@, cid, t2) is Some by {
            assert(position_at(h@, cid, fs + (t2 - fs)) == Some(positions@[t2 - fs]));
        }
        assert forall|t2: int| fs < t2 < end as int implies step_ok(
            position_at(h@, cid, t2 - 1)->Some_0,
            (#[trigger] position_at(h@, cid, t2))->Some_0,
            max_step,
        ) by {
            let j = t2 - fs;
            assert(position_at(h@, cid, fs + (j - 1)) == Some(positions@[j - 1]));
            assert(position_at(h@, cid, fs + j) == Some(positions@[j]));
            assert(step_ok(positions@[j - 1], positions@[j], max_step));
        }
    }
    Ok(Some((inputs, positions, s)))
}

/// The value the net-message sub-decoder yields for a raw client message,
/// reduced to the events the replay reacts to; `None` stands for a decode
/// failure.  The decode depends on the message bytes alone.
pub uninterp spec fn decoded_net_event(msg: Seq<u8>) -> Option<NetEvent>;

/// Relies on twgame_core::net_msg::parse_net_msg, fixed to protocol
/// version 0.6: a pure parse of the message bytes, whose relevant
/// variants are start-info, kill, set-team and command.
#[verifier::external_body]
fn decode_net_msg(msg: &Vec<u8>) -> (r: Option<NetEvent>)
    ensures
        r == decoded_net_event(msg@),
{
    match parse_net_msg(msg, &mut NetVersion::V06) {
        Ok(ClNetMessage::ClStartInfo(info)) => Some(NetEvent::StartInfo {
            name: String::from_utf8_lossy(info.name).to_string(),
        }),
        Ok(ClNetMessage::ClKill) => Some(NetEvent::Kill),
        Ok(ClNetMessage::ClSetTeam(_)) => Some(NetEvent::SetTeam),
        Ok(ClNetMessage::ClCommand(c)) => Some(NetEvent::Command {
            name: String::from_utf8_lossy(c.name).to_string(),
            arguments: String::from_utf8_lossy(c.arguments).to_string(),
        }),
        Ok(_) => Some(NetEvent::Other),
        Err(_) => None,
    }
}

/// Every completed sequence holds exactly one input vector and one
/// position per tick of its span.
pub proof fn lemma_completed_lengths(p: Parser, i: int)
    requires
        p.wf(),
        0 <= i < p.completed_sequences@.len(),
    ensures
        ({
            let s = p.completed_sequences@[i];
            s.end_tick matches Some(e) && {
                &&& s.input_vectors@.len() == e - s.start_tick
                &&& s.player_positions@.len() == e - s.start_tick
            }
        }),
{
}

/// No two consecutive positions inside a completed sequence are further
/// apart than the configured step threshold, in either axis.
pub proof fn lemma_completed_steps(p: Parser, i: int)
    requires
        p.wf(),
        0 <= i < p.completed_sequences@.len(),
    ensures
        ({
            let s = p.completed_sequences@[i];
            forall|t: int| 0 < t < s.player_positions@.len() ==> step_ok(
                s.player_positions@[t - 1],
                #[trigger] s.player_positions@[t],
                p.config.max_step,
            )
        }),
{
}

/// Every tick of a completed sequence's span had the player present in
/// the recorded state: both its input vector and its position were
/// recoverable from the tick history.
pub proof fn lemma_completed_presence(p: Parser, i: int)
    requires
        p.wf(),
        0 <= i < p.completed_sequences@.len(),
    ensures
        ({
            let s = p.completed_sequences@[i];
            let e = s.end_tick->Some_0;
            &&& inputs_present(p.previous_ticks@, s.cid, s.start_tick as int, e as int)
            &&& positions_present(p.previous_ticks@, s.cid, s.start_tick as int, e as int)
        }),
{
    let s = p.completed_sequences@[i];
    let e = s.end_tick->Some_0;
    let h = p.previous_ticks@;
    assert(matches_history(s, h));
    assert forall|t: int| s.start_tick <= t < e implies input_at(h, s.cid, t) is Some
        && position_at(h, s.cid, t) is Some by {
        let j = t - s.start_tick;
        assert(input_at(h, s.cid, s.start_tick + j) == Some(s.input_vectors@[j]));
        assert(position_at(h, s.cid, s.start_tick + j) == Some(s.player_positions@[j]));
    }
}

} // verus!

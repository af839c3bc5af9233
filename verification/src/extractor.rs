//! Conversion of raw parsed sequences into the domain representation with
//! named columns, and the per-file extraction driver.

use vstd::prelude::*;
use vstd::string::StringExecFns;

use crate::parser::{
    chunk_ok, parse_chunk_post, wf_completed, Chunk, DDNetSequence, GameInfo, ParseError,
    Parser, ParserConfig,
};

verus! {

/// Simplified and more human-readable representation of a parsed
/// sequence: the ten-slot input vector decomposed into named columns.
pub struct Sequence {
    pub start_tick: usize,
    pub tick_count: usize,
    pub player_name: String,
    pub map_name: String,
    pub teehist_name: String,
    pub timeout_code: String,
    pub pos_x: Vec<i32>,
    pub pos_y: Vec<i32>,
    pub move_dir: Vec<i32>,
    pub target_x: Vec<i32>,
    pub target_y: Vec<i32>,
    pub jump: Vec<bool>,
    pub fire: Vec<bool>,
    pub hook: Vec<bool>,
}

impl Sequence {
    /// Every tick column has exactly one entry per tick.
    pub open spec fn wf(&self) -> bool {
        &&& self.pos_x@.len() == self.tick_count
        &&& self.pos_y@.len() == self.tick_count
        &&& self.move_dir@.len() == self.tick_count
        &&& self.target_x@.len() == self.tick_count
        &&& self.target_y@.len() == self.tick_count
        &&& self.jump@.len() == self.tick_count
        &&& self.fire@.len() == self.tick_count
        &&& self.hook@.len() == self.tick_count
        &&& self.start_tick + self.tick_count <= usize::MAX
    }
}

/// The movement direction, coerced to the valid range.
pub open spec fn clamp_dir(v: i32) -> i32 {
    if v < -1 {
        -1i32
    } else if v > 1 {
        1i32
    } else {
        v
    }
}

/// Whether the fire slot means a held fire button: an odd (positive)
/// click counter.
pub open spec fn is_firing(v: i32) -> bool {
    v >= 1 && v % 2 == 1
}

/// Whether a player name passes the caller's whitelist: with no whitelist
/// every name passes.
pub open spec fn name_allowed(name: Seq<char>, filter: Option<Vec<String>>) -> bool {
    match filter {
        None => true,
        Some(list) => exists|i: int| 0 <= i < list@.len() && (#[trigger] list@[i])@ == name,
    }
}

/// The named columns of one converted tick, against the raw sequence.
pub open spec fn columns_match(s: Sequence, dd: DDNetSequence, i: int) -> bool {
    &&& s.pos_x@[i] == dd.player_positions@[i].0
    &&& s.pos_y@[i] == dd.player_positions@[i].1
    &&& s.move_dir@[i] == clamp_dir(dd.input_vectors@[i][0])
    &&& s.target_x@[i] == dd.input_vectors@[i][1]
    &&& s.target_y@[i] == dd.input_vectors@[i][2]
    &&& s.jump@[i] == (dd.input_vectors@[i][3] == 1)
    &&& s.fire@[i] == is_firing(dd.input_vectors@[i][4])
    &&& s.hook@[i] == (dd.input_vectors@[i][5] == 1)
}

/// Why a raw sequence was not converted; each variant is a counted drop
/// reason.
pub enum ConversionResult {
    Converted(Sequence),
    /// no timeout code was ever seen for the sequence's cid
    MissingTimeout,
    /// the player name is absent or fails the caller's whitelist
    InvalidName(String),
}

impl Sequence {
    /// Convert a completed raw sequence into named columns.  A sequence
    /// without a timeout code or with a name that the whitelist refuses
    /// is dropped with its reason.
    pub fn from_ddnet_sequence(dd: &DDNetSequence, filter: &Option<Vec<String>>) -> (r:
        ConversionResult)
        requires
            dd.end_tick matches Some(e) && 0 <= dd.start_tick <= e,
            dd.input_vectors@.len() == dd.end_tick->Some_0 - dd.start_tick,
            dd.player_positions@.len() == dd.end_tick->Some_0 - dd.start_tick,
            dd.teehist_path is Some,
        ensures
            (match r {
                ConversionResult::MissingTimeout => dd.timeout_code is None,
                ConversionResult::InvalidName(name) => {
                    &&& dd.timeout_code is Some
                    &&& match dd.player_name {
                        None => name@ == Seq::<char>::empty(),
                        Some(n) => name@ == n@ && !name_allowed(n@, *filter),
                    }
                },
                ConversionResult::Converted(s) => {
                    &&& dd.timeout_code is Some
                    &&& dd.player_name matches Some(n) && name_allowed(n@, *filter)
                    &&& s.wf()
                    &&& s.start_tick == dd.start_tick as int
                    &&& s.tick_count == dd.end_tick->Some_0 - dd.start_tick
                    &&& s.player_name@ == dd.player_name->Some_0@
                    &&& s.timeout_code@ == dd.timeout_code->Some_0@
                    &&& s.teehist_name@ == dd.teehist_path->Some_0@
                    &&& s.map_name@ == (match dd.map_name {
                        Some(m) => m@,
                        None => Seq::<char>::empty(),
                    })
                    &&& forall|i: int| 0 <= i < s.tick_count ==> columns_match(s, *dd, i)
                },
            }),
    {
        let timeout_code = match &dd.timeout_code {
            Some(c) => c.clone(),
            None => {
                return ConversionResult::MissingTimeout;
            },
        };
        let player_name = match &dd.player_name {
            Some(n) => n.clone(),
            None => {
                return ConversionResult::InvalidName(String::new());
            },
        };
        let allowed = match filter {
            None => true,
            Some(list) => {
                let mut found = false;
                let n = list.len();
                for i in 0..n
                    invariant
                        n == list@.len(),
                        found == exists|j: int|
                            0 <= j < i && (#[trigger] list@[j])@ == player_name@,
                        player_name@ == dd.player_name->Some_0@,
                {
                    if player_name.eq(&list[i]) {
                        found = true;
                    }
                }
                found
            },
        };
        if !allowed {
            return ConversionResult::InvalidName(player_name);
        }
        let start_tick = dd.start_tick as usize;
        let end_tick = match dd.end_tick {
            Some(e) => e as usize,
            None => 0,
        };
        let tick_count = end_tick - start_tick;
        let mut pos_x: Vec<i32> = Vec::new();
        let mut pos_y: Vec<i32> = Vec::new();
        let mut move_dir: Vec<i32> = Vec::new();
        let mut target_x: Vec<i32> = Vec::new();
        let mut target_y: Vec<i32> = Vec::new();
        let mut jump: Vec<bool> = Vec::new();
        let mut fire: Vec<bool> = Vec::new();
        let mut hook: Vec<bool> = Vec::new();
        for i in 0..tick_count
            invariant
                tick_count == dd.input_vectors@.len(),
                tick_count == dd.player_positions@.len(),
                pos_x@.len() == i,
                pos_y@.len() == i,
                move_dir@.len() == i,
                target_x@.len() == i,
                target_y@.len() == i,
                jump@.len() == i,
                fire@.len() == i,
                hook@.len() == i,
                forall|j: int| 0 <= j < i ==> #[trigger] pos_x@[j]
                    == dd.player_positions@[j].0,
                forall|j: int| 0 <= j < i ==> #[trigger] pos_y@[j]
                    == dd.player_positions@[j].1,
                forall|j: int| 0 <= j < i ==> #[trigger] move_dir@[j] == clamp_dir(
                    dd.input_vectors@[j][0],
                ),
                forall|j: int| 0 <= j < i ==> #[trigger] target_x@[j]
                    == dd.input_vectors@[j][1],
                forall|j: int| 0 <= j < i ==> #[trigger] target_y@[j]
                    == dd.input_vectors@[j][2],
                forall|j: int| 0 <= j < i ==> #[trigger] jump@[j] == (dd.input_vectors@[j][3]
                    == 1),
                forall|j: int| 0 <= j < i ==> #[trigger] fire@[j] == is_firing(
                    dd.input_vectors@[j][4],
                ),
                forall|j: int| 0 <= j < i ==> #[trigger] hook@[j] == (dd.input_vectors@[j][5]
                    == 1),
        {
            let position = dd.player_positions[i];
            let input = dd.input_vectors[i];
            pos_x.push(position.0);
            pos_y.push(position.1);
            let dir = input[0];
            move_dir.push(if dir < -1 { -1 } else if dir > 1 { 1 } else { dir });
            target_x.push(input[1]);
            target_y.push(input[2]);
            jump.push(input[3] == 1);
            fire.push(input[4] >= 1 && input[4] % 2 == 1);
            hook.push(input[5] == 1);
        }
        let teehist_name = match &dd.teehist_path {
            Some(t) => t.clone(),
            None => String::new(),
        };
        let map_name = match &dd.map_name {
            Some(m) => m.clone(),
            None => String::new(),
        };
        let s = Sequence {
            start_tick,
            tick_count,
            player_name,
            map_name,
            teehist_name,
            timeout_code,
            pos_x,
            pos_y,
            move_dir,
            target_x,
            target_y,
            jump,
            fire,
            hook,
        };
        ConversionResult::Converted(s)
    }
}

/// Per-file extraction driver: replays a stream of chunks and collects
/// the completed sequences.
pub struct Extractor;

/// A freshly constructed parser, before any chunk: everything empty, the
/// header metadata installed.
pub open spec fn initial_parser(p: Parser, game_info: Option<GameInfo>, config: ParserConfig) -> bool {
    &&& !p.finished
    &&& p.tick_index == 0
    &&& p.chunk_index == 0
    &&& p.last_cid is None
    &&& p.current_tick.input_vectors@.len() == 0
    &&& p.current_tick.player_positions@.len() == 0
    &&& p.previous_ticks@.len() == 0
    &&& p.active_sequences@.len() == 0
    &&& p.completed_sequences@.len() == 0
    &&& p.player_names@.len() == 0
    &&& p.timeout_codes@.len() == 0
    &&& p.game_info == game_info
    &&& p.config == config
}

/// A trace of parser states under a prefix of the chunk stream: every
/// step follows the chunk transition relation, and only the last step
/// may have failed.
pub open spec fn replay_steps(
    states: Seq<Parser>,
    results: Seq<Result<(), ParseError>>,
    chunks: Seq<Chunk>,
) -> bool {
    &&& states.len() == results.len() + 1
    &&& results.len() <= chunks.len()
    &&& (forall|i: int| 0 <= i < results.len() ==> !(#[trigger] states[i]).finished && chunk_ok(
        states[i],
        chunks[i],
    ) && parse_chunk_post(states[i], states[i + 1], results[i], chunks[i]))
    &&& (forall|i: int| 0 <= i < results.len() - 1 ==> (#[trigger] results[i]) is Ok)
}

/// Why a replay stopped where it did: the stream was exhausted, the end
/// of stream was parsed, a chunk failed the machine limits, or the last
/// step reported an error.
pub open spec fn replay_stopped(
    states: Seq<Parser>,
    results: Seq<Result<(), ParseError>>,
    chunks: Seq<Chunk>,
) -> bool {
    ||| (results.len() > 0 && results.last() is Err)
    ||| results.len() == chunks.len()
    ||| states.last().finished
    ||| !chunk_ok(states.last(), chunks[results.len() as int])
}

/// A complete truncating replay of a chunk stream.
pub open spec fn replay_run(
    states: Seq<Parser>,
    results: Seq<Result<(), ParseError>>,
    chunks: Seq<Chunk>,
) -> bool {
    &&& replay_steps(states, results, chunks)
    &&& replay_stopped(states, results, chunks)
}

/// One returned sequence: the parsed sequence verbatim, with the source
/// file's stem stamped on.
pub open spec fn stamped_like(out: DDNetSequence, src: DDNetSequence, stem: Seq<char>) -> bool {
    &&& out.cid == src.cid
    &&& out.start_tick == src.start_tick
    &&& out.end_tick == src.end_tick
    &&& out.player_name == src.player_name
    &&& out.input_vectors@ == src.input_vectors@
    &&& out.player_positions@ == src.player_positions@
    &&& out.map_name == src.map_name
    &&& out.timeout_code == src.timeout_code
    &&& out.teehist_path matches Some(t) && t@ == stem
}

impl Extractor {
    /// Replay `chunks` in order and return every completed sequence,
    /// each stamped with the source file's stem.  Parsing never fails
    /// outward: a fatal chunk, a decode failure or an inadmissible chunk
    /// truncates the file and keeps what was completed so far.  The
    /// result is exactly the completed list of a truncating replay of
    /// the stream from a fresh parser.
    #[verifier::rlimit(100)]
    #[verifier::spinoff_prover]
    pub fn extract_from_chunks(
        game_info: Option<GameInfo>,
        chunks: Vec<Chunk>,
        config: &ParserConfig,
        teehist_name: &str,
    ) -> (r: Vec<DDNetSequence>)
        requires
            config.max_step >= 0,
        ensures
            forall|i: int| 0 <= i < r@.len() ==> {
                &&& wf_completed(#[trigger] r@[i], config.max_step)
                &&& r@[i].teehist_path matches Some(t) && t@ == teehist_name@
            },
            exists|states: Seq<Parser>, results: Seq<Result<(), ParseError>>| {
                &&& #[trigger] replay_run(states, results, chunks@)
                &&& initial_parser(states[0], game_info, *config)
                &&& r@.len() == states.last().completed_sequences@.len()
                &&& (forall|i: int| 0 <= i < r@.len() ==> stamped_like(
                    #[trigger] r@[i],
                    states.last().completed_sequences@[i],
                    teehist_name@,
                ))
            },
    {
        let ghost all_chunks = chunks@;
        let mut parser = Parser::new(*config);
        match game_info {
            Some(gi) => parser.parse_header(gi),
            None => {},
        }
        let ghost mut states: Seq<Parser> = Seq::empty().push(parser);
        let ghost mut results: Seq<Result<(), ParseError>> = Seq::empty();
        let mut chunks = chunks;
        loop
            invariant_except_break
                chunks@ == all_chunks.skip(results.len() as int),
                forall|i: int| 0 <= i < results.len() ==> (#[trigger] results[i]) is Ok,
            invariant
                parser.wf(),
                parser.config == *config,
                states.len() == results.len() + 1,
                states.last() == parser,
                initial_parser(states[0], game_info, *config),
                replay_steps(states, results, all_chunks),
            ensures
                parser.wf(),
                parser.config == *config,
                states.last() == parser,
                initial_parser(states[0], game_info, *config),
                replay_steps(states, results, all_chunks),
                replay_stopped(states, results, all_chunks),
            decreases chunks@.len(),
        {
            if chunks.len() == 0 || parser.finished {
                proof {
                    if !parser.finished {
                        assert(all_chunks.skip(results.len() as int).len() == 0);
                        assert(results.len() == all_chunks.len());
                    }
                }
                break ;
            }
            let chunk = chunks.remove(0);
            proof {
                assert(all_chunks.skip(results.len() as int)[0] == all_chunks[results.len() as int]);
                assert(chunks@ =~= all_chunks.skip(results.len() as int + 1));
            }
            if !parser.chunk_admissible(&chunk) {
                proof {
                    assert(!chunk_ok(parser, all_chunks[results.len() as int]));
                }
                break ;
            }
            let ghost pre = parser;
            let res = parser.parse_chunk(chunk);
            proof {
                let ghost k = results.len() as int;
                states = states.push(parser);
                results = results.push(res);
                assert(parse_chunk_post(pre, parser, res, all_chunks[k]));
                assert forall|i: int| 0 <= i < results.len() implies !(#[trigger] states[i]).finished
                    && chunk_ok(states[i], all_chunks[i]) && parse_chunk_post(
                    states[i],
                    states[i + 1],
                    results[i],
                    all_chunks[i],
                ) by {
                    if i < k {
                        assert(states[i] == states.drop_last()[i]);
                        assert(states[i + 1] == states.drop_last()[i + 1]);
                        assert(results[i] == results.drop_last()[i]);
                    }
                }
            }
            match res {
                Ok(()) => {},
                Err(_) => {
                    proof {
                        assert(results.last() is Err);
                    }
                    break ;
                },
            }
        }
        proof {
            assert(replay_run(states, results, all_chunks));
        }
        let ghost last = parser;
        let mut completed = parser.completed_sequences;
        let ghost max_step = config.max_step;
        let ghost all = completed@;
        let total = completed.len();
        proof {
            assert(all.len() == total as int);
            assert(all == last.completed_sequences@);
        }
        let mut out: Vec<DDNetSequence> = Vec::new();
        let mut taken: usize = 0;
        while completed.len() > 0
            invariant
                all.len() <= usize::MAX,
                taken + completed@.len() == all.len(),
                completed@ == all.subrange(taken as int, all.len() as int),
                forall|i: int| 0 <= i < all.len() ==> wf_completed(#[trigger] all[i], max_step),
                out@.len() == taken,
                forall|i: int| 0 <= i < out@.len() ==> {
                    &&& wf_completed(#[trigger] out@[i], max_step)
                    &&& stamped_like(out@[i], all[i], teehist_name@)
                },
            decreases completed@.len(),
        {
            let mut s0 = completed.remove(0);
            proof {
                assert(completed@ =~= all.subrange(taken + 1, all.len() as int));
            }
            s0.teehist_path = Some(String::from_str(teehist_name));
            out.push(s0);
            taken = taken + 1;
        }
        out
    }
}

} // verus!

use teehistorian_extractor::extractor::{ConversionResult, Extractor, Sequence};
use teehistorian_extractor::parser::{
    Chunk, GameInfo, NetEvent, ParseError, Parser, ParserConfig,
};

fn config() -> ParserConfig {
    ParserConfig::new(false, false, 500)
}

fn game_info() -> GameInfo {
    GameInfo {
        server_name: "server".to_string(),
        map_name: "Sunny Side Up".to_string(),
    }
}

fn input(slot0: i32, slot1: i32) -> [i32; 10] {
    let mut v = [0i32; 10];
    v[0] = slot0;
    v[1] = slot1;
    v
}

/// A stream long enough to clear the three-input minimum: one player,
/// five explicit ticks, then a clean leave.
#[test]
fn simple_sequence_is_reconstructed() {
    let mut parser = Parser::new(config());
    parser.parse_header(game_info());
    parser
        .apply_net_event(
            0,
            NetEvent::Command {
                name: "timeout".to_string(),
                arguments: "CODE".to_string(),
            },
        )
        .unwrap();
    let chunks = vec![
        Chunk::PlayerNew { cid: 0, x: 10, y: 20 },
        Chunk::InputNew { cid: 0, input: input(1, 0) },
        Chunk::TickSkip { dt: 0 },
        Chunk::InputDiff { cid: 0, dinput: input(0, 5) },
        Chunk::PlayerDiff { cid: 0, dx: 2, dy: -1 },
        Chunk::TickSkip { dt: 0 },
        Chunk::PlayerDiff { cid: 0, dx: 1, dy: 1 },
        Chunk::TickSkip { dt: 0 },
        Chunk::PlayerDiff { cid: 0, dx: 0, dy: 3 },
        Chunk::TickSkip { dt: 0 },
        Chunk::PlayerOld { cid: 0 },
        Chunk::Eos,
    ];
    for c in chunks {
        parser.parse_chunk(c).unwrap();
    }
    assert!(parser.finished);
    assert_eq!(parser.completed_sequences.len(), 1);
    let seq = &parser.completed_sequences[0];
    assert_eq!(seq.cid, 0);
    assert_eq!(seq.start_tick, 0);
    assert_eq!(seq.end_tick, Some(4));
    // one input vector and one position per tick of the span
    assert_eq!(seq.input_vectors.len(), 4);
    assert_eq!(seq.player_positions.len(), 4);
    assert_eq!(
        seq.player_positions,
        vec![(10, 20), (12, 19), (13, 20), (13, 23)]
    );
    // input slot 1 moves from 0 to 5 after the diff and stays
    assert_eq!(seq.input_vectors[0][1], 0);
    assert_eq!(seq.input_vectors[1][1], 5);
    assert_eq!(seq.input_vectors[2][1], 5);
    assert_eq!(seq.input_vectors[3][1], 5);
    assert_eq!(seq.map_name.as_deref(), Some("Sunny Side Up"));
    assert_eq!(seq.timeout_code.as_deref(), Some("CODE"));
    // every consecutive position step stays within the threshold
    for w in seq.player_positions.windows(2) {
        assert!((w[1].0 - w[0].0).abs() <= 500);
        assert!((w[1].1 - w[0].1).abs() <= 500);
    }
}

/// A span of only two ticks is discarded silently (respawn spam).
#[test]
fn short_sequence_is_discarded() {
    let mut parser = Parser::new(config());
    let chunks = vec![
        Chunk::PlayerNew { cid: 0, x: 10, y: 20 },
        Chunk::InputNew { cid: 0, input: input(1, 0) },
        Chunk::TickSkip { dt: 0 },
        Chunk::TickSkip { dt: 0 },
        Chunk::PlayerOld { cid: 0 },
        Chunk::Eos,
    ];
    for c in chunks {
        parser.parse_chunk(c).unwrap();
    }
    assert_eq!(parser.completed_sequences.len(), 0);
}

/// The implicit-tick rule: a second player event with a cid less than or
/// equal to the last one advances the tick by exactly one.
#[test]
fn implicit_tick_advances_once() {
    let mut parser = Parser::new(config());
    parser
        .parse_chunk(Chunk::PlayerNew { cid: 0, x: 0, y: 0 })
        .unwrap();
    parser
        .parse_chunk(Chunk::PlayerNew { cid: 1, x: 0, y: 0 })
        .unwrap();
    assert_eq!(parser.tick_index, 0);
    parser
        .parse_chunk(Chunk::PlayerDiff { cid: 0, dx: 1, dy: 0 })
        .unwrap();
    assert_eq!(parser.tick_index, 1);
    parser
        .parse_chunk(Chunk::PlayerDiff { cid: 0, dx: 1, dy: 0 })
        .unwrap();
    assert_eq!(parser.tick_index, 2);
}

/// An explicit skip advances the tick index by `dt + 1` and records that
/// many history snapshots.
#[test]
fn tick_skip_advances_and_snapshots() {
    let mut parser = Parser::new(config());
    parser.parse_chunk(Chunk::TickSkip { dt: 0 }).unwrap();
    assert_eq!(parser.tick_index, 1);
    assert_eq!(parser.previous_ticks.len(), 1);
    parser.parse_chunk(Chunk::TickSkip { dt: 4 }).unwrap();
    assert_eq!(parser.tick_index, 6);
    assert_eq!(parser.previous_ticks.len(), 6);
}

/// Input diffs add element-wise and wrap on 32-bit overflow.
#[test]
fn input_diff_wraps_on_overflow() {
    let mut parser = Parser::new(config());
    parser
        .parse_chunk(Chunk::PlayerNew { cid: 0, x: 0, y: 0 })
        .unwrap();
    parser
        .parse_chunk(Chunk::InputNew { cid: 0, input: input(i32::MAX, 3) })
        .unwrap();
    parser
        .parse_chunk(Chunk::InputDiff { cid: 0, dinput: input(1, 4) })
        .unwrap();
    parser
        .parse_chunk(Chunk::InputDiff { cid: 0, dinput: input(0, 5) })
        .unwrap();
    parser.parse_chunk(Chunk::TickSkip { dt: 0 }).unwrap();
    let tick = &parser.previous_ticks[0];
    let entries = tick.input_vectors.entries();
    assert_eq!(entries.len(), 1);
    assert_eq!(entries[0].0, 0);
    // i32::MAX + 1 wraps; 3 + 4 + 5 stays plain
    assert_eq!(entries[0].1[0], i32::MIN);
    assert_eq!(entries[0].1[1], 12);
}

/// A jump beyond the threshold inside the active span is a teleport: it
/// closes the sequence and reopens one two ticks later, and the closed
/// sequence keeps only the pre-teleport positions.
#[test]
fn teleport_cut_closes_sequence() {
    let mut parser = Parser::new(config());
    parser
        .parse_chunk(Chunk::PlayerNew { cid: 0, x: 0, y: 0 })
        .unwrap();
    parser
        .parse_chunk(Chunk::InputNew { cid: 0, input: input(0, 0) })
        .unwrap();
    for _ in 0..5 {
        parser.parse_chunk(Chunk::TickSkip { dt: 0 }).unwrap();
        parser
            .parse_chunk(Chunk::PlayerDiff { cid: 0, dx: 1, dy: 0 })
            .unwrap();
    }
    parser.parse_chunk(Chunk::TickSkip { dt: 0 }).unwrap();
    assert_eq!(parser.completed_sequences.len(), 0);
    parser
        .parse_chunk(Chunk::PlayerDiff { cid: 0, dx: 600, dy: 0 })
        .unwrap();
    assert_eq!(parser.completed_sequences.len(), 1);
    let seq = &parser.completed_sequences[0];
    assert_eq!(seq.end_tick, Some(6));
    for w in seq.player_positions.windows(2) {
        assert!((w[1].0 - w[0].0).abs() <= 500);
    }
}

/// A kill net-message closes the active sequence when the kill cut is
/// enabled, exercising the real net-message decoder end to end.
#[test]
fn kill_message_cuts_when_enabled() {
    let kill_bytes =
        twgame_core::net_msg::ClNetMessage::ClKill.serialize_ddnet06();
    let mut parser = Parser::new(ParserConfig::new(true, false, 500));
    parser
        .parse_chunk(Chunk::PlayerNew { cid: 0, x: 0, y: 0 })
        .unwrap();
    parser
        .parse_chunk(Chunk::InputNew { cid: 0, input: input(1, 0) })
        .unwrap();
    for _ in 0..5 {
        parser.parse_chunk(Chunk::TickSkip { dt: 0 }).unwrap();
    }
    parser
        .parse_chunk(Chunk::NetMessage { cid: 0, msg: kill_bytes })
        .unwrap();
    assert_eq!(parser.completed_sequences.len(), 1);
    assert_eq!(parser.completed_sequences[0].end_tick, Some(5));
}

/// A start-info net-message records the player's name, exercising the
/// real decoder.
#[test]
fn start_info_records_player_name() {
    let info = twgame_core::net_msg::ClPlayerInfo {
        name: b"Alice",
        clan: b"",
        country: -1,
        skin: twgame_core::net_msg::Skin::V6(twgame_core::net_msg::Skin06 {
            skin: b"default",
            use_custom_color: false,
            color_body: 0,
            color_feet: 0,
        }),
    };
    let bytes =
        twgame_core::net_msg::ClNetMessage::ClStartInfo(info).serialize_ddnet06();
    let mut parser = Parser::new(config());
    parser
        .parse_chunk(Chunk::NetMessage { cid: 0, msg: bytes })
        .unwrap();
    parser
        .apply_net_event(
            0,
            NetEvent::Command {
                name: "timeout".to_string(),
                arguments: "T".to_string(),
            },
        )
        .unwrap();
    parser
        .parse_chunk(Chunk::PlayerNew { cid: 0, x: 0, y: 0 })
        .unwrap();
    parser
        .parse_chunk(Chunk::InputNew { cid: 0, input: input(1, 0) })
        .unwrap();
    for _ in 0..4 {
        parser.parse_chunk(Chunk::TickSkip { dt: 0 }).unwrap();
    }
    parser.parse_chunk(Chunk::Eos).unwrap();
    assert_eq!(parser.completed_sequences.len(), 1);
    assert_eq!(
        parser.completed_sequences[0].player_name.as_deref(),
        Some("Alice")
    );
}

/// The console command `r` closes the active sequence when the rescue
/// cut is enabled; the remainder after the cut is too short and is
/// dropped.
#[test]
fn rescue_cut_closes_sequence() {
    let mut parser = Parser::new(ParserConfig::new(false, true, 500));
    parser
        .parse_chunk(Chunk::PlayerNew { cid: 0, x: 0, y: 0 })
        .unwrap();
    parser
        .parse_chunk(Chunk::InputNew { cid: 0, input: input(1, 0) })
        .unwrap();
    for _ in 0..5 {
        parser.parse_chunk(Chunk::TickSkip { dt: 0 }).unwrap();
    }
    parser
        .parse_chunk(Chunk::ConsoleCommand {
            cid: 0,
            cmd: "r".to_string(),
            args: vec![],
        })
        .unwrap();
    assert_eq!(parser.completed_sequences.len(), 1);
    assert_eq!(parser.completed_sequences[0].end_tick, Some(5));
    parser.parse_chunk(Chunk::TickSkip { dt: 0 }).unwrap();
    parser.parse_chunk(Chunk::Eos).unwrap();
    assert_eq!(parser.completed_sequences.len(), 1);
}

/// Server console commands are ignored.
#[test]
fn server_console_command_is_ignored() {
    let mut parser = Parser::new(ParserConfig::new(false, true, 500));
    parser
        .parse_chunk(Chunk::ConsoleCommand {
            cid: -1,
            cmd: "r".to_string(),
            args: vec![],
        })
        .unwrap();
    assert_eq!(parser.completed_sequences.len(), 0);
}

/// Chunks that would silently corrupt the replay stop the file.
#[test]
fn player_swap_is_fatal() {
    let mut parser = Parser::new(config());
    let r = parser.parse_chunk(Chunk::PlayerSwap);
    assert!(matches!(r, Err(ParseError::UnhandledChunkError(_))));
}

/// Closing a sequence that was never opened breaks the replay invariant.
#[test]
fn player_old_without_active_errors() {
    let mut parser = Parser::new(config());
    let r = parser.parse_chunk(Chunk::PlayerOld { cid: 3 });
    assert!(matches!(r, Err(ParseError::UnexpectedParserState(_))));
}

/// Bytes the net-message sub-decoder rejects stop the file.
#[test]
fn garbage_net_message_errors() {
    let mut parser = Parser::new(config());
    let r = parser.parse_chunk(Chunk::NetMessage { cid: 0, msg: vec![0xff, 0xff, 0xff, 0xff] });
    assert!(matches!(r, Err(ParseError::NetMsgParseError)));
}

/// A drop clears the input vector but leaves the position alone.
#[test]
fn drop_clears_input_only() {
    let mut parser = Parser::new(config());
    parser
        .parse_chunk(Chunk::PlayerNew { cid: 0, x: 5, y: 6 })
        .unwrap();
    parser
        .parse_chunk(Chunk::InputNew { cid: 0, input: input(1, 0) })
        .unwrap();
    parser.parse_chunk(Chunk::Drop { cid: 0 }).unwrap();
    assert_eq!(parser.current_tick.input_vectors.entries().len(), 0);
    assert_eq!(parser.current_tick.player_positions.entries().len(), 1);
}

/// The extraction driver truncates on a fatal chunk and keeps what was
/// completed, stamping each sequence with the file stem.
#[test]
fn extractor_truncates_and_stamps() {
    let mut chunks = vec![
        Chunk::PlayerNew { cid: 0, x: 0, y: 0 },
        Chunk::InputNew { cid: 0, input: input(1, 0) },
    ];
    for _ in 0..5 {
        chunks.push(Chunk::TickSkip { dt: 0 });
    }
    chunks.push(Chunk::PlayerOld { cid: 0 });
    chunks.push(Chunk::PlayerSwap);
    chunks.push(Chunk::PlayerNew { cid: 1, x: 0, y: 0 });
    let seqs = Extractor::extract_from_chunks(
        Some(game_info()),
        chunks,
        &config(),
        "run_2024",
    );
    assert_eq!(seqs.len(), 1);
    assert_eq!(seqs[0].teehist_path.as_deref(), Some("run_2024"));
    assert_eq!(seqs[0].end_tick, Some(5));
}

/// The builder decomposes the input vector into named columns; a fire
/// counter is a held button exactly when it is odd and positive, and the
/// movement direction is clamped to the valid range.
#[test]
fn builder_decomposes_columns() {
    let mut dd = teehistorian_extractor::parser::DDNetSequence::new(0, 0);
    dd.end_tick = Some(3);
    dd.player_name = Some("Bob".to_string());
    dd.map_name = Some("m".to_string());
    dd.timeout_code = Some("T".to_string());
    dd.teehist_path = Some("f".to_string());
    let mut v1 = [0i32; 10];
    v1[0] = 5;
    v1[3] = 1;
    v1[4] = 3;
    v1[5] = 1;
    let mut v2 = [0i32; 10];
    v2[0] = -7;
    v2[4] = -3;
    let mut v3 = [0i32; 10];
    v3[0] = 1;
    v3[4] = 2;
    dd.input_vectors = vec![v1, v2, v3];
    dd.player_positions = vec![(1, 2), (3, 4), (5, 6)];
    match Sequence::from_ddnet_sequence(&dd, &None) {
        ConversionResult::Converted(s) => {
            assert_eq!(s.tick_count, 3);
            assert_eq!(s.move_dir, vec![1, -1, 1]);
            assert_eq!(s.jump, vec![true, false, false]);
            assert_eq!(s.fire, vec![true, false, false]);
            assert_eq!(s.hook, vec![true, false, false]);
            assert_eq!(s.pos_x, vec![1, 3, 5]);
            assert_eq!(s.pos_y, vec![2, 4, 6]);
            assert_eq!(s.player_name, "Bob");
        },
        _ => panic!("expected a converted sequence"),
    }
}

/// A sequence without a timeout code is dropped with its reason.
#[test]
fn builder_reports_missing_timeout() {
    let mut dd = teehistorian_extractor::parser::DDNetSequence::new(0, 0);
    dd.end_tick = Some(0);
    dd.player_name = Some("Bob".to_string());
    dd.teehist_path = Some("f".to_string());
    assert!(matches!(
        Sequence::from_ddnet_sequence(&dd, &None),
        ConversionResult::MissingTimeout
    ));
}

/// A name outside the whitelist is dropped with the offending name.
#[test]
fn builder_reports_invalid_name() {
    let mut dd = teehistorian_extractor::parser::DDNetSequence::new(0, 0);
    dd.end_tick = Some(0);
    dd.player_name = Some("Mallory".to_string());
    dd.timeout_code = Some("T".to_string());
    dd.teehist_path = Some("f".to_string());
    let filter = Some(vec!["Alice".to_string(), "Bob".to_string()]);
    match Sequence::from_ddnet_sequence(&dd, &filter) {
        ConversionResult::InvalidName(n) => assert_eq!(n, "Mallory"),
        _ => panic!("expected an invalid-name drop"),
    }
}

/// Two overlapping players: each sequence sees only its own state.
#[test]
fn overlapping_players_are_separated() {
    let mut parser = Parser::new(config());
    parser
        .parse_chunk(Chunk::PlayerNew { cid: 0, x: 100, y: 0 })
        .unwrap();
    parser
        .parse_chunk(Chunk::PlayerNew { cid: 1, x: 200, y: 0 })
        .unwrap();
    parser
        .parse_chunk(Chunk::InputNew { cid: 0, input: input(1, 0) })
        .unwrap();
    parser
        .parse_chunk(Chunk::InputNew { cid: 1, input: input(-1, 0) })
        .unwrap();
    for _ in 0..4 {
        parser.parse_chunk(Chunk::TickSkip { dt: 0 }).unwrap();
        parser
            .parse_chunk(Chunk::PlayerDiff { cid: 0, dx: 1, dy: 0 })
            .unwrap();
        parser
            .parse_chunk(Chunk::PlayerDiff { cid: 1, dx: -1, dy: 0 })
            .unwrap();
    }
    parser.parse_chunk(Chunk::TickSkip { dt: 0 }).unwrap();
    parser.parse_chunk(Chunk::Eos).unwrap();
    assert_eq!(parser.completed_sequences.len(), 2);
    let a = &parser.completed_sequences[0];
    let b = &parser.completed_sequences[1];
    assert_eq!(a.cid, 0);
    assert_eq!(b.cid, 1);
    assert_eq!(a.player_positions[0], (100, 0));
    assert_eq!(b.player_positions[0], (200, 0));
    assert!(a.player_positions.iter().all(|p| p.0 >= 100 && p.0 < 200));
    assert!(b.player_positions.iter().all(|p| p.0 > 190));
}

/// A position diff for a player that has no recorded position is
/// tolerated and dropped.
#[test]
fn position_diff_without_position_is_dropped() {
    let mut parser = Parser::new(config());
    parser
        .parse_chunk(Chunk::PlayerDiff { cid: 4, dx: 1, dy: 1 })
        .unwrap();
    assert_eq!(parser.current_tick.player_positions.entries().len(), 0);
}

/// A replayed initial input overwrites the previous one instead of
/// losing the rest of the file.
#[test]
fn input_new_overwrites() {
    let mut parser = Parser::new(config());
    parser
        .parse_chunk(Chunk::InputNew { cid: 0, input: input(1, 10) })
        .unwrap();
    parser
        .parse_chunk(Chunk::InputNew { cid: 0, input: input(2, 20) })
        .unwrap();
    let entries = parser.current_tick.input_vectors.entries();
    assert_eq!(entries.len(), 1);
    assert_eq!(entries[0].1[0], 2);
    assert_eq!(entries[0].1[1], 20);
}

/// Known-but-ignored chunks have no effect beyond the chunk counter.
#[test]
fn ignored_chunks_have_no_effect() {
    let mut parser = Parser::new(config());
    for c in [
        Chunk::JoinVer6,
        Chunk::JoinVer7,
        Chunk::DdnetVersion,
        Chunk::DdnetVersionOld,
        Chunk::PlayerTeam,
        Chunk::TeamPractice,
        Chunk::AuthInit,
        Chunk::TeamSaveSuccess,
        Chunk::Join { cid: 2 },
        Chunk::PlayerReady { cid: 2 },
        Chunk::Unknown,
    ] {
        parser.parse_chunk(c).unwrap();
    }
    assert_eq!(parser.tick_index, 0);
    assert_eq!(parser.chunk_index, 11);
    assert_eq!(parser.previous_ticks.len(), 0);
    assert!(!parser.finished);
}

use teehistorian_extractor::extractor::Sequence;
use teehistorian_extractor::preprocess::{clean, get_top_k_players, Duration};

fn sequence_with_moves(move_dir: Vec<i32>) -> Sequence {
    let n = move_dir.len();
    Sequence {
        start_tick: 0,
        tick_count: n,
        player_name: "Alice".to_string(),
        map_name: "m".to_string(),
        teehist_name: "f".to_string(),
        timeout_code: "T".to_string(),
        pos_x: vec![0; n],
        pos_y: vec![0; n],
        move_dir,
        target_x: vec![0; n],
        target_y: vec![0; n],
        jump: vec![false; n],
        fire: vec![false; n],
        hook: vec![false; n],
    }
}

#[test]
fn duration_tick_count_is_inclusive() {
    let d = Duration::new(3, 7);
    assert_eq!(d.tick_count(), 5);
}

/// Cutting slices back-to-back pieces from the duration's start and
/// discards the remainder.
#[test]
fn cut_duration_slices_from_start() {
    let d = Duration::new(10, 34);
    let cuts = d.cut_duration(10);
    assert_eq!(cuts.len(), 2);
    assert_eq!((cuts[0].start, cuts[0].end), (10, 19));
    assert_eq!((cuts[1].start, cuts[1].end), (20, 29));
}

/// Padding extends on both sides, clamps to the sequence bounds, and
/// resolves overlaps in order.
#[test]
fn pad_durations_clamps_and_resolves_overlap() {
    let ds = vec![Duration::new(2, 5), Duration::new(9, 12), Duration::new(20, 95)];
    let padded = Duration::pad_durations(ds, 99, 5);
    assert_eq!(padded.len(), 3);
    // clamped to 0 on the left, capped below the next unpadded start
    assert_eq!((padded[0].start, padded[0].end), (0, 8));
    // start pushed past the previous adjusted end
    assert_eq!((padded[1].start, padded[1].end), (9, 17));
    assert_eq!((padded[2].start, padded[2].end), (18, 99));
}

/// The AFK walk: movement bursts at the start and the middle close once
/// the gap exceeds the threshold; the final burst stays open to the end.
#[test]
fn afk_detection_closes_runs() {
    let mut moves = vec![1; 10];
    moves.extend(vec![0; 200]);
    moves.extend(vec![1; 10]);
    moves.extend(vec![0; 600]);
    moves.extend(vec![1; 180]);
    let seq = sequence_with_moves(moves);
    let runs = Duration::get_non_afk_durations(&seq, 150);
    assert_eq!(runs.len(), 3);
    assert_eq!((runs[0].start, runs[0].end), (0, 9));
    assert_eq!((runs[1].start, runs[1].end), (210, 219));
    assert_eq!((runs[2].start, runs[2].end), (820, 999));
}

/// The full cleaning pass over the same series: pad, cut to fixed
/// length, extract.
#[test]
fn full_cleaning_pass() {
    let mut moves = vec![1; 10];
    moves.extend(vec![0; 200]);
    moves.extend(vec![1; 10]);
    moves.extend(vec![0; 600]);
    moves.extend(vec![1; 180]);
    let seq = sequence_with_moves(moves);
    let runs = Duration::get_non_afk_durations(&seq, 150);
    let padded = Duration::pad_durations(runs, seq.tick_count - 1, 5);
    assert_eq!(padded.len(), 3);
    assert_eq!((padded[0].start, padded[0].end), (0, 14));
    assert_eq!((padded[1].start, padded[1].end), (205, 224));
    assert_eq!((padded[2].start, padded[2].end), (815, 999));
    let mut cuts: Vec<Duration> = Vec::new();
    for d in &padded {
        cuts.extend(d.cut_duration(100));
    }
    assert_eq!(cuts.len(), 1);
    assert_eq!((cuts[0].start, cuts[0].end), (815, 914));
    let subs = Duration::extract_sub_sequences(&seq, cuts);
    assert_eq!(subs.len(), 1);
    assert_eq!(subs[0].start_tick, 815);
    assert_eq!(subs[0].tick_count, 100);
    assert_eq!(subs[0].player_name, "Alice");
}

/// Cleaner outputs are verbatim slices: applying the extraction twice
/// yields contents that are a subset of the original's.
#[test]
fn sub_sequences_are_slices() {
    let mut moves: Vec<i32> = Vec::new();
    for i in 0..40 {
        moves.push(i);
    }
    let seq = sequence_with_moves(moves);
    let subs = Duration::extract_sub_sequences(&seq, vec![Duration::new(5, 24)]);
    assert_eq!(subs[0].move_dir, (5..25).collect::<Vec<i32>>());
    let subs2 = Duration::extract_sub_sequences(&subs[0], vec![Duration::new(3, 9)]);
    assert_eq!(subs2[0].move_dir, (8..15).collect::<Vec<i32>>());
    assert_eq!(subs2[0].start_tick, 8);
}

/// Ranking counts whole sequences or ticks and keeps the top `k`.
#[test]
fn top_k_players_ranks_by_weight() {
    let mut a1 = sequence_with_moves(vec![0; 10]);
    a1.player_name = "Alice".to_string();
    let mut a2 = sequence_with_moves(vec![0; 10]);
    a2.player_name = "Alice".to_string();
    let mut b = sequence_with_moves(vec![0; 50]);
    b.player_name = "Bob".to_string();
    let seqs = vec![a1, a2, b];
    let by_count = get_top_k_players(&seqs, 2, false);
    assert_eq!(by_count.len(), 2);
    assert_eq!(by_count[0], ("Alice".to_string(), 2));
    assert_eq!(by_count[1], ("Bob".to_string(), 1));
    let by_ticks = get_top_k_players(&seqs, 1, true);
    assert_eq!(by_ticks.len(), 1);
    assert_eq!(by_ticks[0], ("Bob".to_string(), 50));
}

/// The composed cleaning pass gives the same pieces as its stages.
#[test]
fn clean_composes_the_stages() {
    let mut moves = vec![1; 10];
    moves.extend(vec![0; 200]);
    moves.extend(vec![1; 10]);
    moves.extend(vec![0; 600]);
    moves.extend(vec![1; 180]);
    let seq = sequence_with_moves(moves);
    let subs = clean(&seq, 150, 5, 100);
    assert_eq!(subs.len(), 1);
    assert_eq!(subs[0].start_tick, 815);
    assert_eq!(subs[0].tick_count, 100);
    // a sequence that never moves yields nothing
    let idle = sequence_with_moves(vec![0; 500]);
    assert_eq!(clean(&idle, 150, 5, 100).len(), 0);
}

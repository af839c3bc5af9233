use teehistorian_extractor::export::{weighted_jaccard, ExportConfig, Exporter};
use teehistorian_extractor::extractor::Sequence;
use teehistorian_extractor::names::NameMap;

fn config(dry_run: bool) -> ExportConfig {
    ExportConfig {
        seq_length: 100,
        afk_ticks: 150,
        afk_padding: 5,
        use_vel: true,
        use_rel_target: false,
        use_aim_angle: true,
        use_aim_distance: true,
        dry_run,
    }
}

fn seq(player: &str, code: &str, ticks: usize) -> Sequence {
    Sequence {
        start_tick: 0,
        tick_count: ticks,
        player_name: player.to_string(),
        map_name: "m".to_string(),
        teehist_name: "f".to_string(),
        timeout_code: code.to_string(),
        pos_x: vec![0; ticks],
        pos_y: vec![0; ticks],
        move_dir: vec![0; ticks],
        target_x: vec![0; ticks],
        target_y: vec![0; ticks],
        jump: vec![false; ticks],
        fire: vec![false; ticks],
        hook: vec![false; ticks],
    }
}

/// The column names follow the enabled features in emission order.
#[test]
fn column_names_follow_features() {
    let names = Exporter::get_column_names(true, false, true, true);
    assert_eq!(
        names,
        vec![
            "move_dir".to_string(),
            "jump".to_string(),
            "fire".to_string(),
            "hook".to_string(),
            "vel_x".to_string(),
            "vel_y".to_string(),
            "aim_angle".to_string(),
            "aim_distance".to_string(),
        ]
    );
    let base = Exporter::get_column_names(false, false, false, false);
    assert_eq!(base.len(), 4);
    let rel = Exporter::get_column_names(false, true, false, false);
    assert_eq!(rel[4], "target_rel_x".to_string());
    assert_eq!(rel[5], "target_rel_y".to_string());
}

/// The same player in two batches keeps one identifier; sequence
/// identifiers grow in batch order.
#[test]
fn player_id_is_stable_across_batches() {
    let mut exporter = Exporter::new(config(false));
    let rows1 = exporter.add_to_dataset(&[seq("Alice", "T1", 10)]);
    let rows2 = exporter.add_to_dataset(&[seq("Alice", "T2", 10), seq("Bob", "T3", 10)]);
    assert_eq!(exporter.player_count, 2);
    assert_eq!(exporter.sequence_count, 3);
    assert_eq!(rows1.len(), 1);
    assert_eq!(rows1[0].seq_id, 0);
    assert_eq!(rows1[0].player_id, 0);
    assert_eq!(rows2[0].seq_id, 1);
    assert_eq!(rows2[0].player_id, 0);
    assert_eq!(rows2[0].player, "Alice".to_string());
    assert_eq!(rows2[1].seq_id, 2);
    assert_eq!(rows2[1].player_id, 1);
    let entries = exporter.players.entries();
    assert_eq!(entries[0].0, "Alice".to_string());
    assert_eq!(entries[0].1.player_id, 0);
    assert_eq!(entries[0].1.seq_count, 2);
    assert_eq!(entries[1].0, "Bob".to_string());
    assert_eq!(entries[1].1.player_id, 1);
    assert_eq!(entries[1].1.seq_count, 1);
}

/// Determinism: two exporters fed the same ordered batches agree on
/// every identifier and every row.
#[test]
fn export_accounting_is_deterministic() {
    let batch1 = [seq("Alice", "T1", 10), seq("Bob", "T2", 10)];
    let batch2 = [seq("Carol", "T3", 10), seq("Alice", "T1", 10)];
    let mut e1 = Exporter::new(config(false));
    let mut e2 = Exporter::new(config(false));
    let r1a = e1.add_to_dataset(&batch1);
    let r2a = e2.add_to_dataset(&batch1);
    let r1b = e1.add_to_dataset(&batch2);
    let r2b = e2.add_to_dataset(&batch2);
    assert_eq!(e1.player_count, e2.player_count);
    assert_eq!(e1.sequence_count, e2.sequence_count);
    for (a, b) in r1a.iter().zip(r2a.iter()).chain(r1b.iter().zip(r2b.iter())) {
        assert_eq!(a.seq_id, b.seq_id);
        assert_eq!(a.player_id, b.player_id);
        assert_eq!(a.player, b.player);
    }
    let p1 = e1.players.entries();
    let p2 = e2.players.entries();
    assert_eq!(p1.len(), p2.len());
    for (a, b) in p1.iter().zip(p2.iter()) {
        assert_eq!(a.0, b.0);
        assert_eq!(a.1.player_id, b.1.player_id);
        assert_eq!(a.1.seq_count, b.1.seq_count);
    }
}

/// A dry run accounts exactly like a real run: the summary statistics
/// are identical, only the caller suppresses the writes.
#[test]
fn dry_run_accounts_identically() {
    let batch = [seq("Alice", "T1", 10), seq("Bob", "T2", 10), seq("Alice", "T2", 10)];
    let mut wet = Exporter::new(config(false));
    let mut dry = Exporter::new(config(true));
    let _ = wet.add_to_dataset(&batch);
    let _ = dry.add_to_dataset(&batch);
    assert_eq!(wet.player_count, dry.player_count);
    assert_eq!(wet.sequence_count, dry.sequence_count);
    let pw = wet.players.entries();
    let pd = dry.players.entries();
    for (a, b) in pw.iter().zip(pd.iter()) {
        assert_eq!(a.0, b.0);
        assert_eq!(a.1.seq_count, b.1.seq_count);
        let ha = a.1.timeout_codes.entries();
        let hb = b.1.timeout_codes.entries();
        assert_eq!(ha.len(), hb.len());
        for (x, y) in ha.iter().zip(hb.iter()) {
            assert_eq!(x.0, y.0);
            assert_eq!(x.1, y.1);
        }
    }
}

/// The timeout-code histogram counts every accounted sequence.
#[test]
fn histogram_counts_codes() {
    let mut exporter = Exporter::new(config(false));
    let _ = exporter.add_to_dataset(&[
        seq("Alice", "T1", 10),
        seq("Alice", "T1", 10),
        seq("Alice", "T2", 10),
    ]);
    let entries = exporter.players.entries();
    let hist = entries[0].1.timeout_codes.entries();
    assert_eq!(hist.len(), 2);
    assert_eq!(hist[0], ("T1".to_string(), 2));
    assert_eq!(hist[1], ("T2".to_string(), 1));
}

/// The weighted-Jaccard overlap on concrete histograms:
/// a = {x: 2, y: 1}, b = {x: 1, z: 3} gives min-sum 1, max-sum 6,
/// one shared code.
#[test]
fn weighted_jaccard_concrete() {
    let mut a: NameMap<usize> = NameMap::new();
    a.insert("x".to_string(), 2);
    a.insert("y".to_string(), 1);
    let mut b: NameMap<usize> = NameMap::new();
    b.insert("x".to_string(), 1);
    b.insert("z".to_string(), 3);
    let (num, den, shared) = weighted_jaccard(&a, &b);
    assert_eq!(num, 1);
    assert_eq!(den, 6);
    assert_eq!(shared, 1);
    // two empty histograms have an empty denominator: similarity zero
    let e1: NameMap<usize> = NameMap::new();
    let e2: NameMap<usize> = NameMap::new();
    assert_eq!(weighted_jaccard(&e1, &e2), (0, 0, 0));
}

/// Alias candidates among the top players: identical histograms pass any
/// threshold, disjoint ones pass none.
#[test]
fn alias_candidates_report_overlap() {
    let mut exporter = Exporter::new(config(false));
    let _ = exporter.add_to_dataset(&[
        seq("Alice", "SHARED", 10),
        seq("Alice2", "SHARED", 10),
        seq("Bob", "OTHER", 10),
    ]);
    // similarity threshold 1/2, at least one shared code
    let (ranked, pairs) = exporter.alias_candidates(10, 1, 1, 2);
    assert_eq!(ranked.len(), 3);
    assert_eq!(pairs.len(), 1);
    assert_eq!(pairs[0].name_a, "Alice".to_string());
    assert_eq!(pairs[0].name_b, "Alice2".to_string());
    assert_eq!(pairs[0].wj_num, 1);
    assert_eq!(pairs[0].wj_den, 1);
    assert_eq!(pairs[0].shared, 1);
}

/// Greedy deduplication keeps the first of two colliding players and
/// records the drop.
#[test]
fn distinct_top_k_drops_collisions() {
    let mut exporter = Exporter::new(config(false));
    let _ = exporter.add_to_dataset(&[
        seq("Alice", "SHARED", 10),
        seq("Alice", "SHARED", 10),
        seq("Alice2", "SHARED", 10),
        seq("Bob", "OTHER", 10),
    ]);
    // collision threshold 1/10
    let (ranked, kept, drops) = exporter.distinct_top_k_player_names_with_drops(10, 1, 10);
    // kept and drops together partition the ranking
    assert_eq!(ranked.len(), kept.len() + drops.len());
    assert_eq!(kept, vec!["Alice".to_string(), "Bob".to_string()]);
    assert_eq!(drops.len(), 1);
    assert_eq!(drops[0].dropped, "Alice2".to_string());
    assert_eq!(drops[0].kept, "Alice".to_string());
    assert_eq!(drops[0].colliding_sequences, 1);
}

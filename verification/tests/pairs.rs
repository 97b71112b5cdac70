use snek_train::pairs::{
    after_match, arena_args, arena_log_name, before_match, done_summary, eval_cores, file_match,
    games_played, interim_summary, least_played, match_file_name, next_seq, opponents,
    out_file_name, pick_pairing, player_rows, prune_match_files, rated_players, tally_player,
    win_table, ArenaSummary, BeforeMatch, EvalSummary, GameEvent, LiveMatch, MatchEnd, MatchSetup,
};

fn m(seq: u64, gen: u32, opponent_gen: u32, wins: u32, losses: u32, draws: u32) -> EvalSummary<f64> {
    interim_summary(seq, gen, opponent_gen, wins, losses, draws, 0, 0.0)
}

fn chars(v: &[&str]) -> Vec<Vec<char>> {
    v.iter().map(|s| s.chars().collect()).collect()
}

/// Fits ratings to the library's win table, in quarters of a win.
fn fit_ratings(pool: &Vec<u32>, matches: &Vec<EvalSummary<f64>>) -> Vec<(u32, f64)> {
    let gens = rated_players(pool, matches);
    if gens.len() < 2 {
        return gens.into_iter().map(|g| (g, 0.0)).collect();
    }
    let table = win_table(&gens, matches);
    let n = gens.len();
    let wins: Vec<Vec<f64>> =
        table.iter().map(|r| r.iter().map(|&q| q as f64 / 4.0).collect()).collect();
    let mut p = vec![1.0f64; n];
    for _ in 0..200 {
        let mut next = p.clone();
        for i in 0..n {
            let total: f64 = wins[i].iter().sum();
            let denom: f64 = (0..n)
                .filter(|&j| j != i)
                .map(|j| (wins[i][j] + wins[j][i]) / (p[i] + p[j]))
                .sum();
            if denom > 0.0 && total > 0.0 {
                next[i] = total / denom;
            }
        }
        let mean = next.iter().sum::<f64>() / n as f64;
        for v in &mut next {
            *v /= mean;
        }
        p = next;
    }
    let anchor = p[0];
    gens.iter().enumerate().map(|(i, &g)| (g, 400.0 * (p[i] / anchor).log10())).collect()
}

fn elo_of(elo: &[(u32, f64)], g: u32) -> f64 {
    elo.iter().find(|e| e.0 == g).unwrap().1
}

#[test]
fn fit_orders_transitively_and_anchors_at_zero() {
    let pool = vec![0, 5, 10];
    let matches =
        vec![m(0, 5, 0, 8, 2, 0), m(1, 10, 5, 8, 2, 0), m(2, 10, 0, 9, 1, 0)];
    let elo = fit_ratings(&pool, &matches);
    assert_eq!(elo_of(&elo, 0), 0.0);
    assert!(elo_of(&elo, 5) > 50.0, "gen 5 should clearly beat the anchor: {elo:?}");
    assert!(elo_of(&elo, 10) > elo_of(&elo, 5), "gen 10 should rank above gen 5: {elo:?}");
}

#[test]
fn fit_stays_finite_on_perfect_records() {
    let pool = vec![0, 5];
    let matches = vec![m(0, 5, 0, 10, 0, 0)];
    let elo = fit_ratings(&pool, &matches);
    let e = elo_of(&elo, 5);
    assert!(e.is_finite() && e > 0.0 && e < 2000.0, "{elo:?}");
}

#[test]
fn fit_rates_unplayed_pool_members_via_virtual_draws() {
    let pool = vec![0, 5, 10];
    let matches = vec![m(0, 5, 0, 6, 4, 0)];
    let elo = fit_ratings(&pool, &matches);
    assert!(elo_of(&elo, 10).is_finite(), "{elo:?}");
}

#[test]
fn pairing_picks_least_played_and_a_distinct_opponent() {
    let pool = vec![0, 5, 10, 15];
    let matches =
        vec![m(0, 5, 0, 2, 2, 0), m(1, 10, 5, 2, 2, 0), m(2, 10, 0, 2, 2, 0)];
    for seq in 0..20 {
        let (a, b) = pick_pairing(&pool, &matches, seq % 3).unwrap();
        assert_eq!(a, 15, "least-played (newest) member goes first");
        assert_ne!(a, b);
        assert!(pool.contains(&b));
    }
    assert_eq!(pick_pairing(&pool, &matches, 3), None);
    assert_eq!(pick_pairing::<f64>(&vec![], &vec![], 0), None);
}

#[test]
fn the_newest_of_the_least_played_goes_first() {
    let matches = vec![m(0, 5, 0, 2, 2, 0), m(1, 7, 7, 1, 0, 0)];
    assert_eq!(games_played(&matches, 0), 4);
    assert_eq!(games_played(&matches, 7), 2, "a match against itself counts twice");
    assert_eq!(least_played(&vec![5, 0, 9, 8], &matches), 9);
    assert_eq!(opponents(&vec![5, 0, 9], 0), vec![5, 9]);
}

#[test]
fn win_table_counts_quarters() {
    let matches = vec![m(0, 5, 0, 8, 2, 1)];
    let gens = rated_players(&vec![0, 9], &matches);
    assert_eq!(gens, vec![0, 5, 9]);
    let t = win_table(&gens, &matches);
    assert_eq!(t[1][0], 4 * 8 + 2 + 1);
    assert_eq!(t[0][1], 4 * 2 + 2 + 1);
    assert_eq!((t[1][2], t[2][1], t[0][2]), (1, 1, 0));
    assert_eq!(t[0][1] + t[1][0] - 2, 4 * 11);
}

#[test]
fn tallies_are_mirrored() {
    let matches = vec![m(0, 5, 0, 8, 2, 1)];
    let a = tally_player(&matches, 5);
    let b = tally_player(&matches, 0);
    assert_eq!((a.games, a.wins, a.losses, a.draws), (11, 8, 2, 1));
    assert_eq!((b.games, b.wins, b.losses, b.draws), (11, 2, 8, 1));
}

#[test]
fn old_match_files_are_pruned_together() {
    let files = chars(&[
        "match_000001_0000_vs_0005.json",
        "out_000001.json",
        "arena_000001.log",
        "match_000002_0000_vs_0005.json",
        "out_000003.json",
        "ratings.json",
        "match_x.json",
    ]);
    assert_eq!(file_match(&files[0]), Some(1));
    assert_eq!(file_match(&files[5]), None);
    assert_eq!(file_match(&files[6]), None);
    assert_eq!(prune_match_files(&files, 2), vec![0, 1, 2]);
    assert!(prune_match_files(&files, 3).is_empty());
    assert_eq!(prune_match_files(&files, 1), vec![0, 1, 2, 3]);
}

#[test]
fn sides_get_their_own_cores() {
    assert_eq!(eval_cores(2, 8), ("4,5".to_string(), "6,7".to_string()));
    assert_eq!(eval_cores(9, 6), ("0,1,2".to_string(), "3,4,5".to_string()));
    assert_eq!(eval_cores(0, 4), ("2".to_string(), "3".to_string()));
    assert_eq!(eval_cores(1, 1), ("".to_string(), "0".to_string()));
    assert_eq!(eval_cores(1, 12).1, "11");
}

#[test]
fn files_of_a_match_go_with_it() {
    assert_eq!(out_file_name(12), "out_000012.json");
    assert_eq!(arena_log_name(1_234_567), "arena_1234567.log");
    let of = |seq: u64| [match_file_name(seq, 3, 4), out_file_name(seq), arena_log_name(seq)];
    let all: Vec<Vec<char>> =
        [12, 1_234_567].iter().flat_map(|&s| of(s)).map(|s| s.chars().collect()).collect();
    let read: Vec<u64> = all.iter().filter_map(file_match).collect();
    assert_eq!(read, vec![12, 12, 12, 1_234_567, 1_234_567, 1_234_567]);
    assert_eq!(prune_match_files(&all, 1), vec![0, 1, 2]);
}

#[test]
fn arena_gets_its_arguments() {
    assert_eq!(match_file_name(12, 3, 45678), "match_000012_0003_vs_45678.json");
    let args = arena_args(&MatchSetup {
        gen_a: 3,
        gen_b: 5,
        seq: 2,
        sims: 64,
        snakes: 4,
        board: 11,
        net_a: "a.st".into(),
        net_b: "b.st".into(),
        cores_a: "0,1".into(),
        cores_b: "2,3".into(),
        record: "r.json".into(),
        out: "o.json".into(),
    });
    assert_eq!(
        args.join(" "),
        "--a a.st --b b.st --name-a gen_0003 --name-b gen_0005 --games 2 --sims 64 --snakes 4 \
         --board 11 --cores-a 0,1 --cores-b 2,3 --seed 2000006 --record-gen 3 --record r.json \
         --out o.json --events"
    );
}

fn event(name: &str, index: u32, turn: u32, winner: Option<&str>) -> GameEvent {
    GameEvent { event: name.into(), index, turn, winner: winner.map(|s| s.to_string()) }
}

#[test]
fn events_move_the_live_match() {
    let mut l = LiveMatch::new();
    assert!(!l.apply_event(&event("turn", 1, 3, None)));
    assert!(!l.apply_event(&event("turn", 0, 2, None)));
    assert!(!l.apply_event(&event("turn", 1, 4, None)));
    assert_eq!(l.games.iter().map(|g| (g.index, g.turn)).collect::<Vec<_>>(), vec![(0, 2), (1, 4)]);
    assert!(l.apply_event(&event("game", 1, 0, Some("A"))));
    assert!(l.apply_event(&event("game", 0, 0, Some("B"))));
    assert!(l.apply_event(&event("game", 5, 0, None)));
    assert!(l.apply_event(&event("game", 5, 0, Some("a"))));
    assert!(!l.apply_event(&event("other", 5, 0, None)));
    assert_eq!((l.wins, l.losses, l.draws), (1, 1, 2));
    assert!(l.games.is_empty());
}

#[test]
fn a_match_leads_to_the_next() {
    assert_eq!(after_match(MatchEnd::Done, 4).seq, 5);
    assert!(after_match(MatchEnd::Done, 4).record);
    assert!(after_match(MatchEnd::Stopped, 4).leave);
    let f = after_match(MatchEnd::Failed, 4);
    assert_eq!((f.seq, f.record, f.leave, f.nap_secs), (5, false, false, 30));
    let out = ArenaSummary {
        a_wins: 1,
        b_wins: 0,
        draws: 1,
        score_a: 0.75,
        score_ci95: 0.1,
        elo_a_minus_b: 190.0,
        elo_ci95: [-10.0, 400.0],
        wall_seconds: 12.5,
    };
    let s = done_summary(7, 10, 5, &out, 64, 4, 99);
    assert_eq!((s.games, s.wins, s.losses, s.draws), (2, 1, 0, 1));
    assert_eq!((s.elo_lo, s.elo_hi), (-10.0, 400.0));
}

#[test]
fn the_league_waits_for_what_it_needs() {
    assert_eq!(before_match(false, 9, true), BeforeMatch::Nap { secs: 30 });
    assert_eq!(before_match(true, 1, true), BeforeMatch::Nap { secs: 15 });
    assert_eq!(before_match(true, 2, false), BeforeMatch::Nap { secs: 30 });
    assert_eq!(before_match(true, 2, true), BeforeMatch::Play);
    assert_eq!(next_seq::<f64>(&Vec::new()), 0);
    assert_eq!(next_seq(&vec![m(4, 0, 5, 1, 0, 0), m(2, 0, 5, 1, 0, 0)]), 5);
}

#[test]
fn only_players_with_games_are_listed() {
    let matches = vec![m(0, 10, 5, 2, 1, 0)];
    let rows = player_rows(&vec![0, 5, 10], &matches);
    assert_eq!(rows.iter().map(|r| r.gen).collect::<Vec<_>>(), vec![5, 10]);
    assert_eq!((rows[0].tally.wins, rows[0].tally.losses, rows[0].tally.games), (1, 2, 3));
    assert!(player_rows::<f64>(&vec![3], &Vec::new()).is_empty());
}

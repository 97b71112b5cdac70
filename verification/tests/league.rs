use std::collections::HashMap;

use rand::{Rng, SeedableRng};
use rand_xoshiro::Xoshiro256PlusPlus;
use snek_train::burst::MatchRecord;
use snek_train::league::{
    career_counts, counts_with, externals_of, full_pool, game_file_name, game_seed, history_order, newest_checkpoint, next_seq,
    participants, plan_slots, pool_members, prune_game_files, rated_gens, rating_rows,
    record_placements, slot_action, sole_winner, virtual_ties, Draft, GameEnd, SeatResult,
    SlotAction, SlotEvent,
};
use snek_train::live::LiveEval;
use snek_train::placing::Placement;
use snek_train::rankings::{permutations_capped, rankings_of};
use snek_train::registry::{
    is_external, load_external_registry, player_name, ExternalPlayer, ExternalRegistry,
    API_GEN_START, EXTERNAL_GEN_MIN, HEURISTIC_GEN, VORONOI_GEN,
};
use snek_train::state::checkpoint_file_name;

const EXTERNAL_PLAY_PROB: f64 = 1.0 / 3.0;
const LEADER_ATTENTION_FLOOR: f64 = 0.1;

fn names(v: &[&str]) -> Vec<Vec<char>> {
    v.iter().map(|s| s.chars().collect()).collect()
}

fn game(seq: u64, order: &[u32]) -> MatchRecord<f64> {
    MatchRecord {
        seq,
        placements: order
            .iter()
            .enumerate()
            .map(|(i, &gen)| Placement { gen, seat: i as u32, rank: i as u32 + 1, death_turn: None })
            .collect(),
        turns: 100,
        sims: 0,
        wall_seconds: 0.0,
        finished_unix_ms: 0,
    }
}

fn head_to_head(gen: u32, opponent: u32, wins: u32, losses: u32) -> Vec<MatchRecord<f64>> {
    let mut records: Vec<MatchRecord<f64>> =
        (0..wins).map(|i| game(i as u64, &[gen, opponent])).collect();
    records.extend((0..losses).map(|i| game((wins + i) as u64, &[opponent, gen])));
    records
}

/// Fits ratings to the orderings that the library makes of the records.
fn fit_ratings(pool: &Vec<u32>, records: &Vec<MatchRecord<f64>>) -> HashMap<u32, f64> {
    let mut rankings: Vec<(f64, Vec<u32>)> = Vec::new();
    for r in records {
        let orders = rankings_of(&r.placements);
        let w = 1.0 / orders.len() as f64;
        rankings.extend(orders.into_iter().map(|o| (w, o)));
    }
    for (a, b) in virtual_ties(pool) {
        rankings.push((0.25, vec![a, b]));
    }
    let gens = rated_gens(pool, records);
    if gens.len() < 2 {
        return gens.into_iter().map(|g| (g, 0.0)).collect();
    }
    let index: HashMap<u32, usize> = gens.iter().enumerate().map(|(i, &g)| (g, i)).collect();
    let n = gens.len();
    let mut p = vec![1.0f64; n];
    for _ in 0..200 {
        let mut wins = vec![0.0f64; n];
        let mut denom = vec![0.0f64; n];
        for (w, order) in &rankings {
            let mut remaining: f64 = order.iter().map(|g| p[index[g]]).sum();
            for k in 0..order.len().saturating_sub(1) {
                let winner = index[&order[k]];
                wins[winner] += w;
                for g in &order[k..] {
                    denom[index[g]] += w / remaining;
                }
                remaining -= p[winner];
            }
        }
        for i in 0..n {
            if wins[i] > 0.0 && denom[i] > 0.0 {
                p[i] = wins[i] / denom[i];
            }
        }
        let mean = p.iter().sum::<f64>() / n as f64;
        for v in &mut p {
            *v /= mean;
        }
    }
    let anchor = p[0];
    gens.iter().enumerate().map(|(i, &g)| (g, 400.0 * (p[i] / anchor).log10())).collect()
}

fn sample(rng: &mut Xoshiro256PlusPlus, cands: &[u32], weights: &[f64]) -> u32 {
    let total: f64 = weights.iter().sum();
    let mut pick = rng.gen_range(0.0..total.max(f64::MIN_POSITIVE));
    for (i, w) in weights.iter().enumerate() {
        pick -= w;
        if pick <= 0.0 {
            return cands[i];
        }
    }
    *cands.last().unwrap()
}

/// Runs the library's draft with weighted draws.
fn pick_players(
    pool: &Vec<u32>,
    records: &Vec<MatchRecord<f64>>,
    ratings: &HashMap<u32, f64>,
    seats: usize,
    seq: u64,
) -> Vec<u32> {
    let counts = counts_with(pool, records, &HashMap::new());
    let games: HashMap<u32, u64> = pool.iter().copied().zip(counts).collect();
    let elo = |g: u32| ratings.get(&g).copied().unwrap_or(0.0);
    let mut nets: Vec<u32> = pool.iter().copied().filter(|&g| !is_external(g)).collect();
    nets.sort_by(|&a, &b| elo(a).partial_cmp(&elo(b)).unwrap());
    let attention = |g: u32| {
        let pct = match nets.iter().position(|&x| x == g) {
            Some(i) if nets.len() > 1 => i as f64 / (nets.len() - 1) as f64,
            Some(_) => 1.0,
            None => 0.0,
        };
        1.0 / (1.0 + games[&g] as f64) + LEADER_ATTENTION_FLOOR * pct * pct
    };
    let info = |a: u32, b: u32| {
        let p = 1.0 / (1.0 + 10f64.powf((elo(b) - elo(a)) / 400.0));
        p * (1.0 - p)
    };
    let mut rng = Xoshiro256PlusPlus::seed_from_u64(seq.wrapping_mul(0x9E37_79B9_7F4A_7C15));
    let externals = externals_of(pool);
    let mut forced = None;
    if !externals.is_empty() && rng.gen_bool(EXTERNAL_PLAY_PROB) {
        forced = Some(externals[rng.gen_range(0..externals.len())]);
    }
    let mut draft = Draft::new(pool.clone(), seats, forced);
    while let Some(cands) = draft.candidates() {
        let weights: Vec<f64> = cands
            .iter()
            .map(|&c| {
                if draft.selected.is_empty() {
                    attention(c)
                } else {
                    draft
                        .selected
                        .iter()
                        .map(|&s| info(c, s) * (attention(c) + attention(s)))
                        .sum::<f64>()
                }
            })
            .collect();
        let g = sample(&mut rng, &cands, &weights);
        draft.pick(g);
    }
    draft.seat_order(seq)
}

fn sample_order(strengths: &[(u32, f64)], rng: &mut Xoshiro256PlusPlus) -> Vec<u32> {
    let mut remaining = strengths.to_vec();
    let mut order = Vec::with_capacity(remaining.len());
    while !remaining.is_empty() {
        let total: f64 = remaining.iter().map(|&(_, s)| s).sum();
        let mut pick = rng.gen_range(0.0..total);
        let mut chosen = remaining.len() - 1;
        for (i, &(_, s)) in remaining.iter().enumerate() {
            pick -= s;
            if pick <= 0.0 {
                chosen = i;
                break;
            }
        }
        order.push(remaining.remove(chosen).0);
    }
    order
}

fn shuffled(gens: &[u32], rng: &mut Xoshiro256PlusPlus) -> Vec<u32> {
    let mut v = gens.to_vec();
    for i in (1..v.len()).rev() {
        v.swap(i, rng.gen_range(0..=i));
    }
    v
}

#[test]
fn two_player_fit_matches_bradley_terry_closed_form() {
    let pool = vec![0, 5];
    let records = head_to_head(5, 0, 8, 2);
    let elo = fit_ratings(&pool, &records);
    let expected = 400.0 * (8.25f64 / 2.25).log10();
    assert!(
        (elo[&5] - expected).abs() < 0.5,
        "fitted {} vs closed form {expected}",
        elo[&5]
    );
}

#[test]
fn fit_recovers_known_strengths_from_simulated_games() {
    let true_elo = [(0u32, 0.0f64), (10, 100.0), (20, 200.0), (30, 300.0)];
    let strengths: Vec<(u32, f64)> =
        true_elo.iter().map(|&(g, e)| (g, 10f64.powf(e / 400.0))).collect();
    let mut rng = Xoshiro256PlusPlus::seed_from_u64(7);
    let records: Vec<MatchRecord<f64>> =
        (0..3000).map(|seq| game(seq, &sample_order(&strengths, &mut rng))).collect();
    let pool: Vec<u32> = true_elo.iter().map(|&(g, _)| g).collect();
    let elo = fit_ratings(&pool, &records);
    for &(g, expected) in &true_elo {
        assert!(
            (elo[&g] - expected).abs() < 25.0,
            "gen {g}: fitted {:.1} vs true {expected}",
            elo[&g]
        );
    }
}

#[test]
fn fit_is_converged_and_scale_invariant() {
    let strengths = [(0u32, 1.0f64), (10, 1.6), (20, 2.6), (30, 4.2)];
    let mut rng = Xoshiro256PlusPlus::seed_from_u64(11);
    let orders: Vec<Vec<u32>> = (0..600).map(|_| sample_order(&strengths, &mut rng)).collect();
    let records: Vec<MatchRecord<f64>> =
        orders.iter().enumerate().map(|(i, o)| game(i as u64, o)).collect();
    let doubled: Vec<MatchRecord<f64>> =
        orders.iter().chain(orders.iter()).enumerate().map(|(i, o)| game(i as u64 % 600, o)).collect();
    let pool = vec![0, 10, 20, 30];
    let once = fit_ratings(&pool, &records);
    let twice = fit_ratings(&pool, &doubled);
    for g in &pool {
        assert!(
            (once[g] - twice[g]).abs() < 3.0,
            "gen {g}: {:.2} vs doubled {:.2}",
            once[g],
            twice[g]
        );
    }
}

#[test]
fn duplicate_seats_in_one_game_read_as_repeated_comparisons() {
    let pool = vec![0, HEURISTIC_GEN];
    let records: Vec<MatchRecord<f64>> = (0..5)
        .map(|seq| {
            let mut r = game(seq, &[HEURISTIC_GEN, HEURISTIC_GEN, 0, 0]);
            r.placements[1].rank = 1;
            r
        })
        .collect();
    let elo = fit_ratings(&pool, &records);
    assert!(elo[&0].is_finite() && elo[&HEURISTIC_GEN].is_finite(), "{elo:?}");
    assert!(elo[&HEURISTIC_GEN] > 100.0, "floodfill swept every game: {elo:?}");
}

#[test]
fn plackett_luce_rates_the_full_finishing_order_not_the_win_rate() {
    let pool = vec![0, 10, 20, 99];
    let mut rng = Xoshiro256PlusPlus::seed_from_u64(3);
    let records: Vec<MatchRecord<f64>> = (0..1200)
        .map(|seq| {
            let others = shuffled(&[0, 10, 20], &mut rng);
            let order: Vec<u32> = if rng.gen_bool(0.5) {
                std::iter::once(99).chain(others).collect()
            } else {
                others.into_iter().chain(std::iter::once(99)).collect()
            };
            game(seq, &order)
        })
        .collect();
    let elo = fit_ratings(&pool, &records);
    for g in [0, 10, 20] {
        assert!(
            elo[&99] < elo[&g] - 20.0,
            "win-or-die player must rate below steady equals: {elo:?}"
        );
    }
    assert!(elo[&99] > -160.0, "penalty should stay near the analytic ~-74: {elo:?}");
}

#[test]
fn fit_matches_bradley_terry_for_two_players() {
    let pool = vec![0, 5];
    let records = head_to_head(5, 0, 8, 2);
    let elo = fit_ratings(&pool, &records);
    assert_eq!(elo[&0], 0.0);
    assert!(elo[&5] > 100.0 && elo[&5] < 400.0, "{elo:?}");
}

#[test]
fn fit_orders_multiplayer_rankings_transitively() {
    let pool = vec![0, 5, 10, 15];
    let records: Vec<MatchRecord<f64>> = (0..6).map(|s| game(s, &[15, 10, 5, 0])).collect();
    let elo = fit_ratings(&pool, &records);
    assert_eq!(elo[&0], 0.0);
    assert!(elo[&5] > elo[&0], "{elo:?}");
    assert!(elo[&10] > elo[&5], "{elo:?}");
    assert!(elo[&15] > elo[&10], "{elo:?}");
}

#[test]
fn fit_stays_finite_with_ties_and_perfect_records() {
    let pool = vec![0, 5, 10];
    let mut tied = game(0, &[10, 5, 0]);
    tied.placements[2].rank = 2;
    let records = vec![tied, game(1, &[10, 5, 0])];
    let elo = fit_ratings(&pool, &records);
    for g in &pool {
        assert!(elo[g].is_finite() && elo[g].abs() < 2000.0, "{elo:?}");
    }
}

#[test]
fn picks_distinct_players_and_prioritizes_the_unrated() {
    let pool = vec![0, 5, 10, 15, 20];
    let records: Vec<MatchRecord<f64>> = (0..5).map(|s| game(s, &[15, 10, 5, 0])).collect();
    let ratings = fit_ratings(&pool, &records);
    let mut with_new = 0;
    for seq in 0..20 {
        let players = pick_players(&pool, &records, &ratings, 4, seq);
        assert_eq!(players.len(), 4);
        let mut dedup = players.clone();
        dedup.sort_unstable();
        dedup.dedup();
        assert_eq!(dedup.len(), 4, "players must be distinct: {players:?}");
        if players.contains(&20) {
            with_new += 1;
        }
    }
    assert!(with_new > 12, "unrated entrant only drawn {with_new}/20 times");
}

#[test]
fn heuristic_baseline_plays_regularly() {
    let pool = vec![0, 5, 10, 15, HEURISTIC_GEN];
    let mut records: Vec<MatchRecord<f64>> = (0..5).map(|s| game(s, &[15, 10, 5, 0])).collect();
    records.extend((5..10).map(|s| game(s, &[15, HEURISTIC_GEN, 5, 0])));
    let ratings = fit_ratings(&pool, &records);
    let with_baseline = (0..60)
        .filter(|&seq| pick_players(&pool, &records, &ratings, 4, seq).contains(&HEURISTIC_GEN))
        .count();
    assert!(with_baseline > 15, "floodfill baseline only drawn {with_baseline}/60 times");
}

#[test]
fn forced_external_rotates_between_baselines() {
    let pool = vec![0, 5, 10, 15, HEURISTIC_GEN, VORONOI_GEN];
    let mut records: Vec<MatchRecord<f64>> = (0..5).map(|s| game(s, &[15, 10, 5, 0])).collect();
    records.extend((5..10).map(|s| game(s, &[15, HEURISTIC_GEN, VORONOI_GEN, 0])));
    let ratings = fit_ratings(&pool, &records);
    let (mut with_ff, mut with_vor) = (0, 0);
    for seq in 0..120 {
        let players = pick_players(&pool, &records, &ratings, 4, seq);
        with_ff += players.contains(&HEURISTIC_GEN) as u32;
        with_vor += players.contains(&VORONOI_GEN) as u32;
    }
    assert!(with_ff > 15, "floodfill only drawn {with_ff}/120");
    assert!(with_vor > 15, "voronoi only drawn {with_vor}/120");
}

#[test]
fn small_pools_use_every_member() {
    let pool = vec![0, 5];
    let records = Vec::new();
    let ratings = fit_ratings(&pool, &records);
    let players = pick_players(&pool, &records, &ratings, 4, 0);
    let mut sorted = players.clone();
    sorted.sort_unstable();
    assert_eq!(sorted, vec![0, 5]);
}

#[test]
fn api_player_ids_are_stable_across_restarts_and_reorders() {
    let mut entries: Vec<String> = vec![
        "alpha=http://10.0.0.1:8000".into(),
        "beta=http://10.0.0.2:8000/".into(),
        "broken-entry-no-url".into(),
    ];
    let (reg, errors) = load_external_registry(&entries, &Vec::new());
    assert_eq!(errors.len(), 1);
    let alpha = reg.active.iter().find(|p| p.name == "alpha").unwrap().gen;
    let beta = reg.active.iter().find(|p| p.name == "beta").unwrap().gen;
    assert!(is_external(alpha) && is_external(beta));
    assert_ne!(alpha, beta);
    assert_eq!(
        reg.active.iter().find(|p| p.name == "beta").unwrap().spec,
        "http://10.0.0.2:8000",
        "trailing slash trimmed"
    );
    assert!(reg.active.iter().any(|p| p.gen == HEURISTIC_GEN));
    assert!(reg.active.iter().any(|p| p.gen == VORONOI_GEN));

    entries = vec!["beta=http://10.0.0.2:9999".into()];
    let (reg2, _) = load_external_registry(&entries, &reg.known);
    assert_eq!(reg2.active.iter().find(|p| p.name == "beta").unwrap().gen, beta);
    assert!(!reg2.active.iter().any(|p| p.name == "alpha"));
    assert_eq!(reg2.name(alpha), Some("alpha"));

    entries = vec!["beta=http://10.0.0.2:9999".into(), "alpha=http://10.0.0.1:8000".into()];
    let (reg3, _) = load_external_registry(&entries, &reg2.known);
    assert_eq!(reg3.active.iter().find(|p| p.name == "alpha").unwrap().gen, alpha);
}

#[test]
fn roster_errors_name_the_entry() {
    let entries: Vec<String> =
        vec!["no \"pair\"".into(), "=http://x".into(), "a=http://x".into(), "a=http://y".into()];
    let (reg, errors) = load_external_registry(&entries, &Vec::new());
    assert_eq!(errors.len(), 3);
    assert!(errors[0].message().contains("\"no \\\"pair\\\"\""), "{}", errors[0].message());
    assert!(errors[1].message().contains("=http://x"));
    assert!(errors[2].message().contains("a"));
    let a = reg.active.iter().find(|p| p.name == "a").unwrap();
    assert_eq!(a.spec, "http://x");
    assert_eq!(a.gen, API_GEN_START);
}

#[test]
fn players_have_names() {
    assert!(!is_external(EXTERNAL_GEN_MIN - 1));
    assert!(is_external(EXTERNAL_GEN_MIN));
    assert_eq!(player_name(7), "gen_0007");
    assert_eq!(player_name(HEURISTIC_GEN), "floodfill");
    assert_eq!(player_name(VORONOI_GEN), "voronoi");
    let (reg, _) = load_external_registry(&vec!["a=http://x".to_string()], &Vec::new());
    assert_eq!(reg.display(API_GEN_START), "a");
    assert_eq!(reg.display(12345), "gen_12345");
    assert_eq!(reg.spec(API_GEN_START), Some("http://x"));
    assert_eq!(reg.spec(1), None);
}

#[test]
fn recordings_are_found_by_the_names_they_get() {
    assert_eq!(game_file_name(7), "game_000007.json");
    assert_eq!(game_file_name(12_345_678), "game_12345678.json");
    let files: Vec<Vec<char>> =
        [12_345_678u64, 7].iter().map(|&s| game_file_name(s).chars().collect()).collect();
    assert_eq!(prune_game_files(&files, 1), vec![1]);
    let nets = names(&[checkpoint_file_name(20).as_str(), checkpoint_file_name(10).as_str()]);
    assert_eq!(pool_members(&nets, 10), vec![10, 20]);
}

#[test]
fn planned_games_count_in_the_draw() {
    let records = vec![game(1, &[3, 5]), game(2, &[3, 3])];
    let extra: HashMap<u32, u32> = [(5, 4), (9, 9)].into_iter().collect();
    assert_eq!(counts_with(&vec![5, 3, 7], &records, &extra), vec![5, 2, 0]);
}

#[test]
fn prune_keeps_newest_game_files() {
    let mut all: Vec<String> = (0..10u64).map(|seq| format!("game_{seq:06}.json")).collect();
    all.push("summary.jsonl".to_string());
    let files: Vec<Vec<char>> = all.iter().map(|s| s.chars().collect()).collect();
    let gone = prune_game_files(&files, 3);
    let mut left: Vec<&str> = (0..all.len()).filter(|i| !gone.contains(i)).map(|i| all[i].as_str()).collect();
    left.sort();
    assert_eq!(
        left,
        vec!["game_000007.json", "game_000008.json", "game_000009.json", "summary.jsonl"]
    );
    assert!(prune_game_files(&files, 10).is_empty());
}

#[test]
fn pool_holds_every_nth_checkpoint() {
    let files = names(&[
        "net_0010.safetensors",
        "net_0003.safetensors",
        "net_0000.safetensors",
        "net_0005.safetensors",
        "net_+005.safetensors",
        "net_x.safetensors",
        "other",
    ]);
    assert_eq!(pool_members(&files, 5), vec![0, 5, 10]);
    assert_eq!(pool_members(&files, 1), vec![0, 3, 5, 10]);
    let ext = vec![ExternalPlayer { gen: HEURISTIC_GEN, name: "f".into(), spec: "f".into() }];
    assert_eq!(full_pool(&vec![0, 5], &ext), vec![0, 5, HEURISTIC_GEN]);
    assert_eq!(externals_of(&vec![0, 5, HEURISTIC_GEN]), vec![HEURISTIC_GEN]);
}

#[test]
fn ties_are_averaged_over_their_orderings() {
    let mut tied = game(0, &[10, 5, 0]);
    tied.placements[2].rank = 2;
    assert_eq!(rankings_of(&tied.placements), vec![vec![10, 5, 0], vec![10, 0, 5]]);
    assert!(rankings_of(&Vec::new()).is_empty());
    assert_eq!(permutations_capped(&vec![1, 2, 3]).len(), 6);
    let five = permutations_capped(&vec![1, 2, 3, 4, 5]);
    assert_eq!(five.len(), 5);
    assert_eq!(five[1], vec![2, 3, 4, 5, 1]);
}

#[test]
fn virtual_ties_join_neighbours() {
    assert_eq!(virtual_ties(&vec![0, 5, 10]), vec![(0, 5), (5, 0), (5, 10), (10, 5)]);
    assert!(virtual_ties(&vec![3]).is_empty());
}

#[test]
fn rating_rows_count_finishes() {
    let mut second = game(1, &[5, 0, 10]);
    second.placements[1].rank = 1;
    let records = vec![game(0, &[10, 5, 0]), second];
    let reg = ExternalRegistry { active: Vec::new(), known: Vec::new() };
    let rows = rating_rows(&vec![0, 5, 7], &records, &reg);
    assert_eq!(rows.len(), 2);
    assert_eq!(rows[0].name, "gen_0000");
    assert_eq!(rows[0].games, 2);
    assert_eq!(rows[0].wins, 1);
    assert_eq!(rows[0].rank_sum, 4);
    assert_eq!(rows[0].placements, vec![1, 0, 1]);
    assert_eq!(rows[1].placements, vec![1, 1]);
    assert_eq!(rows[1].gen, 5);
    assert!(rating_rows::<f64>(&vec![7], &Vec::new(), &reg).is_empty());
}

#[test]
fn history_is_read_in_order() {
    let records = vec![game(7, &[1, 2]), game(3, &[]), game(5, &[2, 1])];
    assert_eq!(history_order(&records), vec![2, 0]);
    assert_eq!(next_seq(&records), 8);
    assert_eq!(next_seq::<f64>(&Vec::new()), 0);
    assert_eq!(participants(&game(0, &[9, 2, 9]).placements), vec![2, 9]);
    assert_eq!(career_counts(&records).get(&1), Some(&2));
}

#[test]
fn a_finished_game_becomes_placements() {
    let results = vec![
        SeatResult { player: 1, seat: 0, rank: 2, death_turn: Some(9) },
        SeatResult { player: 0, seat: 1, rank: 1, death_turn: None },
        SeatResult { player: 8, seat: 2, rank: 3, death_turn: Some(2) },
    ];
    let ps = record_placements(&results, &vec![40, 50]);
    assert_eq!(ps.iter().map(|p| p.gen).collect::<Vec<_>>(), vec![50, 40, 0]);
    assert_eq!(sole_winner(&ps), Some(1));
    assert_eq!(sole_winner(&Vec::new()), None);
    assert_eq!(newest_checkpoint(&vec![3, HEURISTIC_GEN, 9]), 9);
    assert_eq!(game_seed(2), 2_000_006);
}

#[test]
fn slots_follow_the_configuration() {
    let p = plan_slots(5, 4, 1);
    assert_eq!((p.want, p.spawn, p.retire, p.active), (4, 3, 0, true));
    let p = plan_slots(0, 4, 3);
    assert_eq!((p.want, p.spawn, p.retire, p.active), (0, 0, 3, false));
    let p = plan_slots(5, 0, 0);
    assert_eq!((p.want, p.spawn), (1, 1));
    assert!(matches!(
        slot_action(SlotEvent::Played { outcome: GameEnd::Finished }),
        SlotAction::Record
    ));
    assert!(matches!(
        slot_action(SlotEvent::Played { outcome: GameEnd::Panicked }),
        SlotAction::Nap { secs: 30 }
    ));
}

#[test]
fn live_games_come_and_go_in_order() {
    let mut l: LiveEval<&str, u32> = LiveEval::new();
    assert!(l.set_active(true, 1));
    assert!(!l.set_active(true, 2));
    assert_eq!(l.updated_unix_ms, 1);
    l.begin(7, "a", 3);
    l.begin(2, "b", 4);
    l.begin(5, "c", 5);
    assert_eq!(l.games.iter().map(|g| g.seq).collect::<Vec<_>>(), vec![2, 5, 7]);
    l.update(5, 31, Some(9), 6);
    l.update(99, 1, None, 7);
    assert_eq!((l.games[1].turn, l.games[1].frame), (31, Some(9)));
    assert_eq!((l.games[0].turn, l.games[0].frame), (0, None));
    l.end(2, 8);
    assert_eq!(l.games.iter().map(|g| g.seq).collect::<Vec<_>>(), vec![5, 7]);
    l.stop(9);
    assert!(!l.active && l.games.is_empty());
    assert_eq!(l.updated_unix_ms, 9);
}

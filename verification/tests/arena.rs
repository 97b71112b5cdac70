use std::collections::HashMap;

use rand::SeedableRng;
use rand_xoshiro::Xoshiro256PlusPlus;
use snek_train::arena::{
    claim_recording, final_frame, heuristic_slots, note_deaths, repeated, seat_row, thaw,
    CarriedGame, FinishedGame, Worker,
};
use snek_train::board::{Board, EliminatedCause, Point, Snake};
use snek_train::burst::{commit, copy_placements, plan_burst, round_robin, worker_seed};
use snek_train::chance::draw_one;
use snek_train::groups::{find_last, player_at, release, rig_seats, SeatKind};
use snek_train::lists::{copy_u32s, excess, has_u32, position_of};
use snek_train::matchup::{complete_draft, draft_step, settle};
use snek_train::order::{descending_set, search_sorted, sorted_list, sorted_set, stable_order};
use snek_train::placing::Placement;
use snek_train::rankings::{permute, rotate_left};
use snek_train::stations::{count_for, count_up, find_least_played, reconcile};
use snek_train::text::{
    chars_of, copy_range, copy_str, dec_chars, find_char, has_prefix, has_suffix, nonblank_lines,
    occurs_at, parse_range, parse_u32, push_dec, same_text, string_of, trim_end_slashes, trim_range,
    white,
};

fn board(alive: &[bool]) -> Board {
    let mut b = Board::new(7, 7);
    b.snakes = alive
        .iter()
        .enumerate()
        .map(|(i, &a)| Snake {
            body: vec![Point { x: i as i8, y: 0 }],
            health: 100,
            eliminated: if a { None } else { Some(EliminatedCause::OutOfHealth) },
        })
        .collect();
    b
}

fn carried(players: Vec<u32>, rotation: usize, record: bool) -> CarriedGame<f64> {
    CarriedGame {
        players,
        rotation,
        board: board(&[true; 4]),
        turn: 0,
        death_turn: vec![None; 4],
        frames: Vec::new(),
        record,
        prior_seconds: 0.0,
    }
}

#[test]
fn games_are_seated_played_and_finished() {
    let mut w: Worker<f64> = Worker::new(2, 4, vec![10, 20], vec![99]);
    assert!(w.seat_game(0, carried(vec![10, 20], 1, true)));
    assert!(w.seat_game(1, carried(vec![20, 99], 0, false)));
    w.record_turn(0, final_frame(&board(&[true; 4]), 4, 0.0));
    assert!(w.advance(0, board(&[true, false, true, true]), 500));
    assert!(!w.advance(0, board(&[true, false, true, false]), 500), "one player is left");
    let f = w.finish(0, 500, 3, 2.5, 0.0);
    assert_eq!(f.finished_order, 3);
    assert_eq!(f.turns, 2);
    assert_eq!(f.placements.iter().map(|p| p.gen).collect::<Vec<_>>(), vec![20, 10, 20, 10]);
    assert_eq!(f.placements.iter().map(|p| p.rank).collect::<Vec<_>>(), vec![1, 4, 1, 3]);
    assert_eq!(f.frames.unwrap().len(), 2);
    let g = w.vacate(1);
    assert_eq!(g.players, vec![20, 99]);
    assert!(w.seat_game(1, g));
    let slots = w.freeze();
    assert!(slots[0].is_none() && slots[1].is_some());
}

#[test]
fn games_without_their_players_are_abandoned() {
    let mut slots =
        vec![Some(carried(vec![10, 20], 0, false)), Some(carried(vec![10, 30], 0, false)), None];
    let (on, gone) = thaw(&mut slots, 4, 7, 4, &vec![10, 20], &vec![]);
    assert_eq!((on, gone), (1, 1));
    assert_eq!(slots.len(), 4);
    assert!(slots[0].is_some() && slots[1].is_none());
}

#[test]
fn groups_are_claimed_and_given_back() {
    let mut free = vec![vec![0, 1], vec![0]];
    let seats = rig_seats(&vec![10, 20, 99], 0, 4, &vec![10, 20], &vec![99], &mut free).unwrap();
    assert_eq!(seats.len(), 4);
    assert!(matches!(seats[2], SeatKind::Heuristic { index: Some(0) }));
    assert_eq!(free, vec![Vec::<usize>::new(), vec![]]);
    assert!(rig_seats(&vec![10], 0, 1, &vec![10, 20], &vec![99], &mut free).is_none());
    release(&mut free, &seats);
    assert_eq!((free[0].len(), free[1].len()), (2, 1));
    assert_eq!(find_last(&vec![5, 6, 5], 5), Some(2));
    assert_eq!(player_at(&vec![10, 20, 30], 2, 2), 20);
    assert_eq!(seat_row(1, 2, 8, 4), (8 + 2) * 4);
}

#[test]
fn a_draft_is_completed_to_a_seatable_game() {
    let stations = vec![10, 20, 30];
    let free = vec![vec![0, 1, 2, 3], vec![0, 1, 2, 3], vec![]];
    let cands = draft_step(4, &stations, &free, &vec![]).unwrap();
    assert!(!cands.is_empty() && !cands.contains(&30));
    let s = settle(vec![10, 20], 0, 4, &stations, &free);
    assert!(!s.is_empty() && s.iter().all(|p| stations.contains(p)));
    let mut rng = Xoshiro256PlusPlus::seed_from_u64(9);
    let (players, rotation) = complete_draft(&mut rng, vec![10, 20], &vec![], &stations, &free, 1, 4);
    assert!(!players.is_empty());
    let mut f = free.clone();
    assert!(rig_seats(&players, rotation, 4, &stations, &vec![], &mut f).is_some());
}

#[test]
fn stations_hold_the_newest_and_the_leaders() {
    let mut career: HashMap<u32, u32> = HashMap::new();
    count_up(&mut career, &vec![1, 2, 2, 3]);
    assert_eq!((count_for(&career, 2), count_for(&career, 9)), (2, 0));
    assert_eq!(find_least_played(&vec![1, 2, 3, 9], &vec![9], &career), Some(1));
    let pool: Vec<u32> = (1..=12).collect();
    for g in 1..=11 {
        career.insert(g, 5);
    }
    let r = reconcile(&vec![1, 2, 99], &pool, &vec![4, 5], &career);
    assert_eq!(r.len(), 8);
    assert!(r.contains(&12) && !r.contains(&99));
    assert!(r.windows(2).all(|w| w[0] < w[1]));
}

#[test]
fn deaths_are_noted_once() {
    let mut d = vec![None, Some(2)];
    note_deaths(&mut d, &board(&[false, false]), 7);
    assert_eq!(d, vec![Some(7), Some(2)]);
    assert_eq!(repeated(5, 3), vec![5, 5, 5]);
    assert_eq!(claim_recording(7), (true, 8));
    assert_eq!(claim_recording(8), (false, 8));
    assert_eq!((heuristic_slots(3), heuristic_slots(64)), (1, 4));
}

fn placed(gen: u32, rank: u32) -> Placement {
    Placement { gen, seat: 0, rank, death_turn: None }
}

#[test]
fn a_burst_is_committed_in_finishing_order() {
    let p = plan_burst(0, 64, 100, 0, None);
    assert_eq!((p.sims, p.slots, p.target, p.workers), (64, 100, 1, 2));
    assert!(p.chunk * p.workers >= p.slots);
    assert_eq!(worker_seed(0, 0), 0x0DDB_1A5E_5BAD_5EED);
    assert_eq!(worker_seed(1, 1) ^ worker_seed(0, 0), 0x0001_0000_0000_0001);
    let fin = |order: usize, turns: u32| -> FinishedGame<f64> {
        FinishedGame {
            finished_order: order,
            players: vec![1],
            placements: vec![placed(1, 1)],
            turns,
            wall_seconds: 1.0,
            frames: if order == 5 { Some(Vec::new()) } else { None },
        }
    };
    let c = commit(&vec![fin(5, 10), fin(2, 20)], 100, 64, &vec![7, 8]);
    assert_eq!(c.order, vec![1, 0]);
    assert_eq!(c.records.iter().map(|r| (r.seq, r.turns)).collect::<Vec<_>>(), vec![(100, 20), (101, 10)]);
    assert_eq!(c.turns, 30);
    assert_eq!(copy_placements(&vec![placed(1, 2)]), vec![placed(1, 2)]);
    let t = round_robin(&vec![vec![placed(1, 1), placed(2, 2)], vec![placed(2, 1)]], &vec![1, 2]);
    assert_eq!((t.games, t.wins, t.rank_sum), (vec![1, 2], vec![1, 1], vec![1, 3]));
    assert_eq!(t.beats, vec![vec![0, 1], vec![0, 0]]);
}

#[test]
fn lists_are_ordered_and_searched() {
    assert_eq!(sorted_set(&vec![5, 1, 5, 3]), vec![1, 3, 5]);
    assert_eq!(descending_set(&vec![5, 1, 5, 3]), vec![5, 3, 1]);
    assert_eq!(search_sorted(&vec![1, 3, 5], 3), Ok(1));
    assert_eq!(search_sorted(&vec![1, 3, 5], 4), Err(2));
    assert_eq!(stable_order(&vec![3u64, 1, 3, 2]), vec![1, 3, 0, 2]);
    assert_eq!(excess(&vec![3u64, 1, 2], 1), vec![1, 2]);
    assert!(has_u32(&vec![1, 2], 2) && !has_u32(&vec![1, 2], 3));
    assert_eq!(position_of(&vec![4, 5, 5], 5), Some(1));
    assert_eq!(copy_u32s(&vec![4, 5]), vec![4, 5]);
    assert_eq!(rotate_left(&vec![1, 2, 3], 1), vec![2, 3, 1]);
    let mut out = Vec::new();
    permute(&mut vec![1, 2], 0, &mut out);
    assert_eq!(out, vec![vec![1, 2], vec![2, 1]]);
}

#[test]
fn texts_are_read_and_written() {
    let mut s = String::new();
    push_dec(&mut s, 42, 6);
    assert_eq!(s, "000042");
    assert_eq!(string_of(&dec_chars(u64::MAX)), u64::MAX.to_string());
    let t = chars_of("  gen_7.json \n\n  x ");
    assert_eq!(trim_range(&t, 0, t.len()), (2, t.len() - 1));
    let lines: Vec<String> = nonblank_lines(&t).iter().map(|l| string_of(l)).collect();
    assert_eq!(lines, vec!["gen_7.json", "x"]);
    let g = chars_of("gen_7.json");
    assert!(has_prefix(&g, "gen_") && has_suffix(&g, ".json") && !has_prefix(&g, "gen_8"));
    assert!(occurs_at(&g, 4, &['7', '.']));
    assert_eq!(parse_range(&g, 4, 5, 100), Some(7));
    assert_eq!(parse_u32(&chars_of("+12")), Some(12));
    assert_eq!(parse_u32(&chars_of("4294967296")), None);
    assert_eq!(parse_u32(&chars_of("")), None);
    assert_eq!(find_char(&g, '.'), Some(5));
    let u = chars_of("http://x//");
    assert_eq!(trim_end_slashes(&u, 0, u.len()), 8);
    assert_eq!(copy_str("abc"), "abc");
    assert!(same_text(&copy_range(&g, 0, 3), &chars_of("gen")));
    assert!(white('\u{3000}') && white('\t') && !white('a'));
}

#[test]
fn a_matchup_is_cut_down_to_one_player() {
    let stations = vec![10, 20];
    let free = vec![vec![0, 1, 2, 3], vec![5]];
    assert_eq!(settle(vec![10, 20], 0, 4, &stations, &free), vec![10]);
    let wide = vec![vec![0, 1], vec![2, 3]];
    assert_eq!(settle(vec![10, 20], 0, 4, &stations, &wide), vec![10, 20]);
}

#[test]
fn sorting_keeps_what_is_there() {
    assert_eq!(sorted_list(&vec![3, 1, 3, 2]), vec![1, 2, 3, 3]);
    assert_eq!(sorted_set(&vec![3, 1, 3, 2]), vec![1, 2, 3]);
}

#[test]
fn the_leaders_defend_their_stations() {
    let pool: Vec<u32> = (1..=12).collect();
    let mut career: HashMap<u32, u32> = HashMap::new();
    for g in 1..=12 {
        career.insert(g, g);
    }
    let r = reconcile(&vec![], &pool, &vec![2, 1], &career);
    assert!(r.contains(&1) && r.contains(&2));
    let small: Vec<u32> = (1..=5).collect();
    assert_eq!(reconcile(&vec![], &small, &vec![5, 4], &career), small);
}

#[test]
fn the_newest_plays_among_equals() {
    let pool: Vec<u32> = (0..=9).collect();
    let career: HashMap<u32, u32> = pool.iter().map(|&g| (g, 5)).collect();
    let by_elo = vec![8, 0, 1, 2, 3, 4, 5, 6, 7, 9];
    let r = reconcile(&(0..8).collect(), &pool, &by_elo, &career);
    assert_eq!(r.len(), 8);
    assert!(r.contains(&9) && r.contains(&8) && r.contains(&0));
}

#[test]
fn a_well_played_leader_defends() {
    let pool: Vec<u32> = (0..=10).collect();
    let mut career: HashMap<u32, u32> = pool.iter().map(|&g| (g, 5)).collect();
    career.insert(8, 100);
    career.insert(9, 0);
    let r = reconcile(&(0..8).collect(), &pool, &vec![8, 0], &career);
    assert_eq!(r.len(), 8);
    assert!(r.contains(&10) && r.contains(&8) && r.contains(&0) && r.contains(&9));
}

#[test]
fn an_uneven_arena_still_seats_a_game() {
    let stations = vec![1, 2, 3];
    let free: Vec<Vec<usize>> = [9, 4, 3].iter().map(|&f| (0..f).collect()).collect();
    let mut rng = Xoshiro256PlusPlus::seed_from_u64(4);
    let mut spread = 0;
    for idx in 0..40 {
        let (players, rotation) =
            complete_draft(&mut rng, vec![1, 2, 3], &vec![], &stations, &free, idx, 10);
        if players.len() == 10 {
            spread += 1;
            assert_eq!(rotation, 0);
            assert_eq!(players, vec![1, 1, 1, 1, 1, 1, 2, 1, 2, 3]);
        }
        let mut f = free.clone();
        assert!(rig_seats(&players, rotation, 10, &stations, &vec![], &mut f).is_some());
    }
    assert!(spread > 0 && spread < 40);
}

#[test]
fn slots_stay_full() {
    let mut rng = Xoshiro256PlusPlus::seed_from_u64(8);
    let mut w: Worker<f64> = Worker::new(3, 4, vec![10, 20, 30], vec![]);
    for idx in 0..3 {
        let mut selected = Vec::new();
        while let Some(c) = draft_step(4, &w.stations, &w.free, &selected) {
            selected.push(c[0]);
        }
        w.refill(&mut rng, idx, selected, board(&[true; 4]), idx == 0, 0.0);
    }
    assert!(w.live.iter().all(|s| s.is_some()));
    assert!(!w.advance(1, board(&[true, false, false, false]), 500));
    w.finish(1, 500, 0, 1.0, 0.0);
    w.refill(&mut rng, 1, vec![20], board(&[true; 4]), false, 0.0);
    let slots = w.freeze();
    assert!(slots.iter().all(|s| s.is_some()));
    assert!(slots[0].as_ref().unwrap().record);
    assert_eq!(slots[1].as_ref().unwrap().turn, 0);
}

#[test]
fn a_draw_is_one_of_the_list() {
    let mut rng = Xoshiro256PlusPlus::seed_from_u64(5);
    let list = vec![7, 9, 11];
    let mut seen = Vec::new();
    for _ in 0..100 {
        seen.push(draw_one(&mut rng, &list));
    }
    assert_eq!(sorted_set(&seen), list);
}

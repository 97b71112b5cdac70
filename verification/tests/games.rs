use snek_train::batching::{
    batches, build_depth, chunk_boards, chunk_rows, padded_rows, Stage, STAGE_STEP,
};
use snek_train::bench::{self, BenchEvent, Sweep};
use snek_train::board::{Board, EliminatedCause, Move, Point, Snake};
use snek_train::bouts::{sure_of, Readout, Step};
use snek_train::burst::MatchRecord;
use snek_train::h2h::{b_owns, H2hMatch};
use snek_train::heldout::{
    eval_records, players_by_seat, prune_eval_game_files, HeldOut, Mover,
};
use snek_train::league::SeatResult;
use snek_train::placing::{outlived, rank, survival_placements, Placement};
use snek_train::pretrain::{
    archive_files, concurrency, epoch_plan, eval_seed, game_winner, head_to_head, is_first,
    round_robin, round_robin_seed, split_games, worker_games, EarlyStop, EpochEnd, PlayEval,
};
use snek_train::rules::prior_support;
use snek_train::sample::{generation_file_name, prune, FrameJson, GameJson, SnakeJson};

fn snake(x: i8, alive: bool) -> Snake {
    Snake {
        body: vec![Point { x, y: 1 }, Point { x, y: 0 }],
        health: 90,
        eliminated: if alive { None } else { Some(EliminatedCause::Collision) },
    }
}

fn board(turn: u32, alive: &[bool]) -> Board {
    let mut b = Board::new(7, 7);
    b.turn = turn;
    b.snakes = alive.iter().enumerate().map(|(i, &a)| snake(i as i8, a)).collect();
    b
}

fn readout(n: usize) -> Readout<f64> {
    Readout {
        policy: (0..n * 4).map(|i| i as f64).collect(),
        values: vec![0.5; n],
        plays: vec![vec![0.25; 4]; n],
        moves: vec![Move::Left; n],
    }
}

#[test]
fn a_held_out_game_ends_when_the_net_dies() {
    let starts = vec![board(0, &[true, true, true]), board(0, &[true, true, true])];
    let mut h: HeldOut<f64> = HeldOut::new(starts, 3, 70, 80, 1);
    assert_eq!(h.live(), vec![0, 1]);
    assert_eq!(h.mover(0, 0, 10), Mover::Net);
    assert_eq!(h.mover(0, 1, 10), Mover::Strong);
    assert_eq!(h.mover(1, 0, 0), Mover::Greedy);
    let plays = h.plays(1, &readout(3).policy, &vec![Move::Up, Move::Down, Move::Right], 0.0, 1.0);
    assert_eq!(plays[1], vec![4.0, 5.0, 6.0, 7.0]);
    assert_eq!(plays[0], vec![1.0, 0.0, 0.0, 0.0]);
    assert_eq!(plays[2], vec![0.0, 0.0, 0.0, 1.0]);

    let step = Step { board: board(1, &[false, true, true]), over: false, winner: None };
    assert!(h.play_turn(0, &readout(3), step, 0.0), "the net is out");
    let step = Step { board: board(1, &[false, true, true]), over: false, winner: None };
    assert!(!h.play_turn(1, &readout(3), step, 0.0), "the net lives");
    assert_eq!(h.live(), vec![1]);
    assert_eq!(h.mover(1, 0, 0), Mover::Nobody);
    let step = Step { board: board(2, &[false, true, false]), over: true, winner: Some(1) };
    assert!(h.play_turn(1, &readout(3), step, 0.0));
    assert_eq!(h.wins(), 1);
    assert_eq!(h.net_won, vec![false, true]);

    let r = h.take_records();
    assert_eq!(r.len(), 1);
    assert_eq!(r[0].frames.len(), 2, "the position before and the last one");
    assert_eq!(r[0].frames[0].snakes[0].policy, vec![0.0, 1.0, 2.0, 3.0]);
    assert_eq!(r[0].frames[1].snakes[0].policy, vec![0.0; 4]);
    assert!(!r[0].frames[1].snakes[0].alive);
    assert_eq!(r[0].turns, 1);
    assert_eq!(r[0].winner, None);
    let ps: Vec<(u32, u32, Option<u32>)> =
        r[0].placements.iter().map(|p| (p.gen, p.rank, p.death_turn)).collect();
    assert_eq!(ps, vec![(70, 3, Some(1)), (80, 1, None), (80, 1, None)]);

    let history = vec![MatchRecord {
        seq: 41,
        placements: Vec::new(),
        turns: 1,
        sims: 1,
        wall_seconds: 0.0,
        finished_unix_ms: 0,
    }];
    let recs = eval_records(&history, &r, 64, 99, 0.0);
    assert_eq!((recs[0].seq, recs[0].turns, recs[0].sims, recs[0].finished_unix_ms), (42, 1, 64, 99));
    assert_eq!(players_by_seat(&recs[0].placements), vec![70, 80, 80]);
}

#[test]
fn the_net_takes_every_seat_in_turn() {
    let n = 4;
    let starts: Vec<Board> = (0..8).map(|_| board(0, &[true; 4])).collect();
    let h: HeldOut<f64> = HeldOut::new(starts, n, 1, 2, 0);
    for s in 0..n {
        let times = (0..8).filter(|&g| h.mover(g, s, 1) == Mover::Net).count();
        assert_eq!(times, 2);
    }
}

#[test]
fn eval_files_are_pruned_by_number() {
    let files: Vec<Vec<char>> = ["game_000010.json", "game_000002.json", "x.json", "game_000007.json"]
        .iter()
        .map(|s| s.chars().collect())
        .collect();
    assert_eq!(prune_eval_game_files(&files, 1), vec![1, 3]);
    assert!(prune_eval_game_files(&files, 64).is_empty());
}

#[test]
fn head_to_head_counts_for_the_owner() {
    for s in 0..4 {
        assert_eq!((0..10).filter(|&g| b_owns(g, s)).count(), 5);
    }
    let starts: Vec<Board> = (0..3).map(|_| board(0, &[true, true])).collect();
    let mut m: H2hMatch<f64> = H2hMatch::new(starts, 2, 10, 20, 2);
    let mut a = readout(2);
    a.moves = vec![Move::Up, Move::Down];
    let mut b = readout(2);
    b.moves = vec![Move::Right, Move::Left];
    b.values = vec![-1.0, -2.0];
    let o = m.owned(0, &a, &b, 0.0, 1.0);
    assert_eq!(o.moves, vec![Move::Right, Move::Down]);
    assert_eq!(o.values, vec![-1.0, 0.5]);
    assert_eq!(o.plays[0], vec![0.0, 0.0, 0.0, 1.0]);
    for (g, winner) in [(0, Some(0)), (1, Some(0)), (2, None)] {
        let alive: Vec<bool> = (0..2).map(|s| winner == Some(s)).collect();
        let step = Step { board: board(5, &alive), over: true, winner };
        assert!(m.play_turn(g, &o, step, 0.0));
    }
    assert!(m.live().is_empty());
    let out = m.take_outcome();
    assert_eq!((out.a_wins, out.b_wins, out.draws), (1, 1, 1));
    assert_eq!(out.recorded.len(), 2);
    assert_eq!(out.recorded[0].placements.iter().map(|p| p.gen).collect::<Vec<_>>(), vec![20, 10]);
    assert_eq!(out.recorded[1].placements.iter().map(|p| p.gen).collect::<Vec<_>>(), vec![10, 20]);
    assert_eq!(out.recorded[1].winner, Some(0));
    assert_eq!(sure_of(Move::Down, 0, 1), vec![0, 1, 0, 0]);
}

#[test]
fn survivors_share_the_first_place() {
    let deaths = vec![Some(5), None, Some(9), None, Some(5)];
    assert!(outlived(None, Some(5)) && !outlived(Some(5), Some(5)) && !outlived(Some(9), None));
    assert_eq!(rank(&deaths, 0), 4);
    let ps = survival_placements(&vec![1, 2, 3, 4, 5], &deaths);
    assert_eq!(ps.iter().map(|p| p.rank).collect::<Vec<_>>(), vec![4, 1, 3, 1, 4]);
    assert_eq!(ps[2], Placement { gen: 3, seat: 2, rank: 3, death_turn: Some(9) });
}

#[test]
fn batches_are_padded_to_whole_chunks() {
    assert_eq!(chunk_boards(448, 4), 112);
    assert_eq!(chunk_boards(3, 4), 1);
    assert_eq!(chunk_boards(0, 4), 0);
    assert_eq!(chunk_rows(0, 4), 4);
    assert_eq!(chunk_rows(450, 4), 448);
    assert_eq!(padded_rows(0, 8), 0);
    assert_eq!(padded_rows(8, 8), 8);
    assert_eq!(padded_rows(9, 8), 16);
    let mut s = Stage::new();
    assert!(!s.reserve(0));
    assert!(s.reserve(1));
    assert_eq!(s.cap, STAGE_STEP);
    assert!(!s.reserve(STAGE_STEP));
    assert!(s.reserve(STAGE_STEP + 1));
    assert_eq!(s.cap, 2 * STAGE_STEP);
    assert_eq!(build_depth(0, 2), 2);
    assert_eq!(build_depth(3, 2), 1);
    assert_eq!(build_depth(0, 0), 1);
    assert_eq!(batches(5, 2), vec![(0, 2), (2, 4), (4, 5)]);
    assert!(batches(0, 2).is_empty());
}

#[test]
fn a_sweep_keeps_the_fastest() {
    assert_eq!(bench::batches().len(), 7);
    assert_eq!(bench::chunks()[0], 128);
    assert_eq!(bench::input_len(64, 14, 11), 64 * 14 * 121);
    let mut s = Sweep::new(vec![64, 128, 256]);
    assert_eq!(s.best_size(), 0);
    assert_eq!(s.next(), Some(64));
    s.note(false);
    assert_eq!(s.best_size(), 64);
    s.note(true);
    s.note(false);
    assert_eq!(s.next(), None);
    assert_eq!(s.best_size(), 128);
    let e: BenchEvent<f64> = BenchEvent::Done { best_batch: s.best_size() };
    assert!(matches!(e, BenchEvent::Done { best_batch: 128 }));
}

fn game_of(w: i32, n: usize) -> GameJson<f64> {
    GameJson {
        frames: vec![FrameJson {
            turn: 0,
            width: w,
            height: w,
            food: Vec::new(),
            hazards: Vec::new(),
            snakes: (0..n)
                .map(|_| SnakeJson {
                    alive: true,
                    body: Vec::new(),
                    health: 100,
                    chosen_move: 0,
                    policy: Vec::new(),
                    play_policy: Vec::new(),
                    value: 0.0,
                })
                .collect(),
        }],
        winner: None,
        num_turns: 1,
        heur_mask: 0,
        temp: 0.0,
    }
}

#[test]
fn archives_are_split_by_game() {
    let files: Vec<Vec<char>> = ["b.json.zst", "a.json", "a.json.zst"]
        .iter()
        .map(|s| s.chars().collect())
        .collect();
    assert_eq!(archive_files(&files), vec![2, 0]);
    let games = vec![game_of(11, 4), game_of(7, 4), game_of(11, 4), game_of(11, 2), game_of(11, 4)];
    let s = split_games(&games, 11, 4, &vec![false, true, false]);
    assert_eq!(s.train, vec![0, 4]);
    assert_eq!(s.val, vec![2]);
    assert_eq!(s.skipped, 2);
}

#[test]
fn training_stops_after_two_flat_epochs() {
    let mut e = EarlyStop::new();
    assert_eq!(e.note(0, true), EpochEnd::Save);
    assert_eq!(e.note(1, false), EpochEnd::Wait);
    assert_eq!(e.note(2, true), EpochEnd::Save);
    assert_eq!(e.note(3, false), EpochEnd::Wait);
    assert_eq!(e.note(4, false), EpochEnd::Stop);
    assert_eq!(e.best_epoch, 2);
    assert_eq!(epoch_plan(1000, 256), (256, 3));
    assert_eq!(epoch_plan(10, 256), (10, 1));
}

fn seat(player: u32, rank: u32) -> SeatResult {
    SeatResult { player, seat: player, rank, death_turn: None }
}

#[test]
fn a_round_robin_is_tallied() {
    let games = vec![
        vec![seat(0, 2), seat(1, 1), seat(2, 3)],
        vec![seat(0, 1), seat(1, 1), seat(2, 3)],
    ];
    let t = round_robin(&games, 3);
    assert_eq!(t.rank_sum, vec![3, 2, 6]);
    assert_eq!(t.wins, vec![1, 2, 0]);
    assert_eq!(t.beats[1], vec![1, 0, 2]);
    assert_eq!(t.beats[0], vec![0, 0, 2]);
    let h = head_to_head(&t, 0, 1);
    assert_eq!((h.later_wins, h.decisive), (1, 1));
    assert_eq!(game_winner(&games[0], &vec![10, 20, 30]), 20);
    assert_eq!(game_winner(&vec![], &vec![10, 20, 30]), 0);
    assert!(is_first(&games[1], 0) && !is_first(&games[0], 0));
    let mut e = PlayEval::new();
    e.note(Some(&games[0]));
    e.note(None);
    e.note(Some(&games[1]));
    assert_eq!((e.wins, e.played), (1, 2));
}

#[test]
fn workers_share_games_out() {
    assert_eq!(concurrency(0, 10), 1);
    assert_eq!(concurrency(16, 3), 3);
    let c = 3;
    let mut all: Vec<usize> = (0..c).flat_map(|w| worker_games(w, c, 10)).collect();
    assert_eq!(worker_games(1, c, 10), vec![1, 4, 7]);
    all.sort_unstable();
    assert_eq!(all, (0..10).collect::<Vec<_>>());
    assert_eq!(eval_seed(1), 1_000_003 + 0xABC);
    assert_eq!(round_robin_seed(2), 5_308_871_523);
}

#[test]
fn a_prior_without_mass_spares_no_certain_death() {
    let b = board(3, &[true]);
    assert_eq!(prior_support(&b, 0, &vec![0, 2]), vec![true, false]);
    assert_eq!(prior_support(&b, 0, &vec![2]), vec![true]);
    assert_eq!(prior_support(&b, 0, &vec![]), Vec::<bool>::new());
}

#[test]
fn the_newest_recordings_stay() {
    let mut names: Vec<String> = [10u32, 2, 999, 9].iter().map(|&g| generation_file_name(g)).collect();
    assert_eq!(names[1], "gen_0002.json");
    names.push("notes.txt".to_string());
    let entries: Vec<Vec<char>> = names.iter().map(|n| n.chars().collect()).collect();
    let mut gone = prune(&entries, 2);
    gone.sort();
    assert_eq!(gone, vec![1, 3]);
    assert!(prune(&entries, 4).is_empty());
    assert!(prune(&entries, 0).is_empty());
}

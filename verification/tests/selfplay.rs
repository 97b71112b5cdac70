use rand::SeedableRng;
use rand_xoshiro::Xoshiro256PlusPlus;
use snek_train::board::{copy_points, Board, EliminatedCause, Move, Point, Snake};
use snek_train::materialize::{
    board_from_frame, game_matches_shape, game_sample_count, in_flight_matches_shape,
    materialize_game, points_of, rank_outcomes,
};
use snek_train::rules::{
    candidates, loser_shares, obvious_immediate_death, safe_moves, terminal_value, terminal_values,
    Outcome,
};
use snek_train::sample::{
    coords, copy_slice, frame_from_board, generation_file_name, prune, FrameJson, GameJson,
};
use snek_train::selfplay::{
    close_gate, count_samples, count_turns, display_indices, display_seed, judge_le_turn, judge_turn, keep_shape,
    plan_resume, Gate, Harvest, ResumePlan, SelfPlayState, TurnEnd,
};
use snek_train::config::RunConfig;
use snek_train::session::{load_boards, pts, save_boards, to_points, BoardSnap};
use snek_train::sparring::{assign_heur_seats, is_partner, mask_of, partner_count};
use snek_train::trajectory::{materialize, merge, Target, Traj, WorkerOut};
use snek_train::tree::{Tree, Visit};

fn pt(x: i8, y: i8) -> Point {
    Point { x, y }
}

fn board_with(bodies: &[Vec<Point>]) -> Board {
    let mut b = Board::new(5, 5);
    for body in bodies {
        b.snakes.push(Snake { body: body.clone(), health: 100, eliminated: None });
    }
    b
}

fn two() -> Board {
    board_with(&[
        vec![pt(0, 0), pt(0, 1), pt(0, 2)],
        vec![pt(3, 3), pt(3, 4), pt(4, 4)],
    ])
}

fn frame(b: &Board, policy0: f64) -> FrameJson<f64> {
    let n = b.snakes.len();
    let policy: Vec<f64> = (0..n * 4).map(|i| policy0 + i as f64).collect();
    frame_from_board(b, n, &policy, &vec![0.5; n], &vec![vec![0.25; 4]; n], &vec![Move::Right; n])
}

fn kill(b: &Board, s: usize) -> Board {
    let mut c = BoardSnap::from_board(b).to_board();
    c.snakes[s].eliminated = Some(EliminatedCause::Collision);
    c.turn = b.turn + 1;
    c
}

#[test]
fn moves_lead_where_they_should() {
    for i in 0..4 {
        assert_eq!(Move::from_index(i).index(), i);
    }
    assert_eq!(Move::Up.apply(pt(1, 1)), (1, 2));
    assert_eq!(Move::Left.apply(pt(0, 1)), (-1, 1));
    let b = two();
    assert!(!b.in_bounds((-1, 1)) && b.in_bounds((4, 4)) && !b.in_bounds((5, 0)));
    assert_eq!(copy_points(&b.snakes[0].body), b.snakes[0].body);
}

#[test]
fn walls_and_bodies_are_seen_coming() {
    let b = two();
    assert!(obvious_immediate_death(&b, 0, Move::Left), "wall");
    assert!(obvious_immediate_death(&b, 0, Move::Down), "wall");
    assert!(obvious_immediate_death(&b, 0, Move::Up), "own neck");
    assert!(!obvious_immediate_death(&b, 0, Move::Right));
    assert_eq!(safe_moves(&b, 0), vec![false, false, false, true]);
    assert!(!obvious_immediate_death(&b, 9, Move::Up), "nobody there");
    let c = candidates(&b, 1);
    assert!(!c.is_empty() && c.iter().all(|&m| m < 4));
}

#[test]
fn outcomes_sum_to_zero() {
    assert_eq!(terminal_value(Some(1), 1, 4), Outcome::Win);
    assert_eq!(terminal_value(Some(1), 0, 4), Outcome::Loss { shares: loser_shares(4) });
    assert_eq!(terminal_value(None, 0, 4), Outcome::Draw);
    assert_eq!(loser_shares(4), 3);
    let v = terminal_values(Some(2), 4);
    assert_eq!(v.iter().filter(|o| **o == Outcome::Win).count(), 1);
    assert_eq!(v.len(), 4);
}

#[test]
fn frames_record_positions_and_come_back() {
    let mut b = two();
    b.food = vec![pt(2, 2)];
    b.turn = 7;
    let f = frame(&b, 0.0);
    assert_eq!((f.turn, f.width, f.height), (7, 5, 5));
    assert_eq!(f.food, vec![[2, 2]]);
    assert_eq!(f.snakes[1].policy, vec![4.0, 5.0, 6.0, 7.0]);
    assert_eq!(f.snakes[1].chosen_move, 3);
    let back = board_from_frame(&f);
    assert_eq!(back.snakes[0].body, b.snakes[0].body);
    assert_eq!((back.turn, back.food.clone()), (7, vec![pt(2, 2)]));
    assert_eq!(points_of(&coords(&b.food)), b.food);
    assert_eq!(copy_slice(&vec![1, 2, 3, 4], 1, 2), vec![2, 3]);
    assert_eq!(generation_file_name(3), "gen_0003.json");
    let names: Vec<Vec<char>> = ["gen_0002.json", "gen_0001.json", "x"]
        .iter()
        .map(|s| s.chars().collect())
        .collect();
    assert_eq!(prune(&names, 1), vec![1]);
}

#[test]
fn sessions_resume_where_they_stopped() {
    let mut b = two();
    b.hazards = vec![pt(1, 4)];
    b.turn = 12;
    b.heur_mask = 2;
    let dead = kill(&b, 0);
    let snaps = save_boards(&vec![b, dead]);
    let back = load_boards(&snaps);
    assert_eq!(back.len(), 2);
    assert_eq!((back[0].turn, back[1].turn), (12, 13));
    assert_eq!(back[0].hazards, vec![pt(1, 4)]);
    assert_eq!(back[0].heur_mask, 2, "a sparring partner keeps its seat");
    assert!(back[0].snakes[0].alive() && !back[1].snakes[0].alive());
    assert_eq!(to_points(&pts(&vec![pt(3, 4)])), vec![pt(3, 4)]);
}

fn finished_game() -> GameJson<f64> {
    let b = two();
    let end = kill(&b, 1);
    GameJson {
        frames: vec![frame(&b, 0.0), frame(&b, 10.0), frame(&end, 20.0)],
        winner: Some(0),
        num_turns: 3,
        heur_mask: 0,
        temp: 1.5,
    }
}

#[test]
fn finished_games_give_samples_for_the_living() {
    let g = finished_game();
    assert!(game_matches_shape(&g, 5, 2));
    assert!(!game_matches_shape(&g, 7, 2) && !game_matches_shape(&g, 5, 3));
    let count = game_sample_count(&g, 2);
    let out = materialize_game(&g, 2, 0.0);
    assert_eq!(out.len(), count);
    assert_eq!(count, 4, "the last frame is not trained on");
    assert_eq!((out[3].frame, out[3].seat), (1, 1));
    assert_eq!(out[3].pol, vec![14.0, 15.0, 16.0, 17.0]);
    assert_eq!(out[0].outcome, Outcome::Win);
    assert_eq!(out[1].outcome, Outcome::Loss { shares: 1 });
    assert_eq!((out[0].bootstrap, out[0].temp), (0.5, 1.5));
    assert_eq!(rank_outcomes(&g.frames, 2), vec![2, 0]);
    assert!(in_flight_matches_shape(&two(), &g.frames, 5, 2));
    assert!(!in_flight_matches_shape::<f64>(&two(), &vec![], 5, 3));
    assert_eq!(count_samples(&vec![finished_game(), finished_game()], 2), 8);
    assert_eq!(keep_shape(vec![finished_game()], 7, 2).len(), 0);
}

#[test]
fn a_game_is_played_recorded_and_replaced() {
    let mut s: SelfPlayState<f64> = SelfPlayState::new();
    s.launch(two(), 2.0);
    s.launch(two(), 3.0);
    let f = frame(&s.boards[0], 0.0);
    s.play_turn(0, f, two());
    assert_eq!((s.turns[0], s.rec[0].len()), (1, 1));
    let end = kill(&two(), 1);
    let last = frame(&end, 5.0);
    s.boards[0] = end;
    let added = s.complete(0, last, Some(0), 2, two(), 9.0);
    assert_eq!(added, 2);
    assert_eq!(s.finished.len(), 1);
    assert_eq!((s.finished[0].num_turns, s.finished[0].temp), (2, 2.0));
    assert_eq!((s.turns[0], s.rec[0].len(), s.temp[0]), (0, 0, 9.0));
    assert_eq!(s.pending_sample_count(2), 2);
    s.restart(1, two(), 4.0);
    assert_eq!(s.temp[1], 4.0);
    s.retain_shape(7, 2);
    assert!(s.finished.is_empty());
    s.drop_unresumable(vec![true, false], 5, 2);
    assert_eq!(s.boards.len(), 1);
    assert_eq!(s.temp, vec![4.0]);
    s.launch(two(), 5.0);
    s.launch(two(), 6.0);
    let mut rng = Xoshiro256PlusPlus::seed_from_u64(5);
    s.shrink(&mut rng, 2);
    assert_eq!((s.boards.len(), s.temp.len(), s.rec.len()), (2, 2, 2));
    s.take_out(0);
    assert_eq!(s.boards.len(), 1);
    s.temp.clear();
    s.align(&vec![7.0]);
    assert_eq!(s.temp, vec![7.0]);
}

#[test]
fn turns_end_games_in_their_ways() {
    assert_eq!(judge_turn(false, false, 5, 0, 5, 0), TurnEnd::Continue);
    assert_eq!(judge_turn(false, false, 5, 5, 5, 0), TurnEnd::Finish);
    assert_eq!(judge_turn(false, false, 5, 0, 4096, 0), TurnEnd::Finish);
    assert_eq!(judge_turn(true, false, 5, 0, 5, 5), TurnEnd::SkipDraw);
    assert_eq!(judge_turn(true, false, 5, 0, 6, 5), TurnEnd::Finish);
    assert_eq!(judge_turn(true, true, 5, 0, 5, 5), TurnEnd::Finish);
    assert!(matches!(close_gate(10, 10, false), Gate::Complete));
    assert!(matches!(close_gate(10, 10, true), Gate::Interrupted));
    assert!(matches!(close_gate(9, 10, false), Gate::Interrupted));
    assert!(matches!(plan_resume(2, 2, 1, 2, &vec![false, false]), ResumePlan::Rebuild));
    match plan_resume(2, 2, 2, 2, &vec![false, true]) {
        ResumePlan::Restart(v) => assert_eq!(v, vec![1]),
        ResumePlan::Rebuild => panic!("nothing to rebuild"),
    }
}

#[test]
fn shown_games_are_distinct() {
    let mut picked = display_indices(5, 10, 4);
    picked.sort_unstable();
    picked.dedup();
    assert_eq!(picked.len(), 4);
    assert!(picked.iter().all(|&i| i < 10));
    assert_eq!(display_indices(5, 3, 4), vec![0, 1, 2]);
    assert_eq!(display_indices(77, 10, 4), display_indices(77, 10, 4));
    let varied = (0..20).any(|s| display_indices(s, 10, 4) != display_indices(77, 10, 4));
    assert!(varied, "another seed picks other games");
    assert_eq!(display_seed(1, false), 0x5EED_D15D_1A16);
    assert_ne!(display_seed(1, true), display_seed(1, false));
}

#[test]
fn a_turn_settles_its_game() {
    let mut s: SelfPlayState<f64> = SelfPlayState::new();
    s.launch(two(), 2.0);
    let f = frame(&s.boards[0], 0.0);
    s.play_turn(0, f, two());
    let last = frame(&two(), 1.0);
    assert_eq!(s.settle_turn(0, TurnEnd::Continue, last, None, 2, two(), 9.0), 0);
    assert_eq!((s.turns[0], s.rec[0].len(), s.temp[0]), (1, 1, 2.0));
    let last = frame(&two(), 1.0);
    assert_eq!(s.settle_turn(0, TurnEnd::SkipDraw, last, None, 2, two(), 9.0), 0);
    assert_eq!((s.turns[0], s.rec[0].len(), s.temp[0], s.finished.len()), (0, 0, 9.0, 0));
    let f = frame(&s.boards[0], 0.0);
    s.play_turn(0, f, two());
    let last = frame(&two(), 1.0);
    let mut h = Harvest::new(3, 5);
    assert!(h.wants_more(false) && !h.wants_more(true));
    let added = s.settle_turn(0, TurnEnd::Finish, last, Some(1), 2, two(), 8.0);
    h.note_turn();
    h.note_game(added);
    assert_eq!(added, 2);
    assert!(!h.wants_more(false));
    assert_eq!((h.samples, h.games, h.turns, h.shown()), (5, 1, 1, 5));
    h.note_game(7);
    assert_eq!((h.samples, h.shown()), (12, 5));
    assert_eq!(s.finished[0].winner, Some(1));
    assert_eq!(count_turns(&s.finished), 2);
}

#[test]
fn trajectories_become_samples() {
    let mut t: Traj<i32> = Traj {
        obs: vec![],
        pol: vec![],
        val: vec![],
        alive: vec![],
        turn: vec![],
        steps: 0,
    };
    t.record(&vec![1, 2], &vec![0, 1, 2, 3, 4, 5, 6, 7], &vec![10, 20], &vec![true, true], 5, 2, 1);
    t.record(&vec![3, 4], &vec![8, 9, 10, 11, 12, 13, 14, 15], &vec![30, 40], &vec![false, true], 6, 2, 1);
    assert_eq!(t.steps, 2);
    let mut out: WorkerOut<i32> =
        WorkerOut { obs: vec![], pol: vec![], z: vec![], turn: vec![], turns: 2, games: 1 };
    materialize(&t, 2, 1, Some(1), false, &mut out);
    assert_eq!(out.obs, vec![1, 2, 4]);
    assert_eq!(out.turn, vec![5, 5, 6]);
    assert!(matches!(out.z[0], Target::Lost) && matches!(out.z[1], Target::Won));
    let mut searched: WorkerOut<i32> =
        WorkerOut { obs: vec![], pol: vec![], z: vec![], turn: vec![], turns: 0, games: 0 };
    materialize(&t, 2, 1, None, true, &mut searched);
    assert!(matches!(searched.z[2], Target::Searched(40)));
    let m = merge(&vec![out, searched], 4, 1);
    assert_eq!(m.z.len(), 4);
    assert_eq!(m.obs, vec![1, 2, 4, 1]);
    assert_eq!((m.turns, m.games), (2, 1));
    t.clear();
    assert_eq!((t.steps, t.obs.len()), (0, 0));
}

#[test]
fn the_tree_counts_its_descents() {
    let mut t = Tree::new(2, two(), false);
    t.begin();
    assert!(matches!(t.look(), Visit::Leaf));
    assert_eq!(t.expand(), Some(0));
    t.backup();
    t.begin();
    assert!(matches!(t.look(), Visit::Choose));
    let action = vec![0u8, 0u8];
    assert_eq!(t.joint(0, &action), 0);
    assert_eq!(t.moves_of(0, &action).len(), 2);
    assert!(!t.follow(action.clone()));
    let id = t.spawn(action.clone(), two(), true);
    assert_eq!(id, 1);
    assert!(matches!(t.look(), Visit::Terminal));
    t.backup();
    assert_eq!(t.child(0, 0), Some(1));
    let (counts, total) = t.root_visits(0);
    assert_eq!(total, 1);
    assert_eq!(counts.iter().sum::<u64>(), 1);
    t.reset(two(), false);
    assert_eq!(t.nodes.len(), 1);
}

#[test]
fn equilibrium_games_run_to_their_end() {
    assert_eq!(judge_le_turn(true), TurnEnd::Finish);
    assert_eq!(judge_le_turn(false), TurnEnd::Continue);
}

#[test]
fn sparring_partners_leave_a_seat() {
    assert_eq!((partner_count(1, 4), partner_count(9, 4), partner_count(2, 0)), (1, 3, 0));
    assert_eq!(mask_of(&vec![0, 3]), 0b1001);
    assert_eq!(assign_heur_seats(false, 3, 4, 17), 0);
    for seed in 0..20 {
        for asked in 0..6 {
            let mask = assign_heur_seats(true, asked, 4, seed);
            let taken = (0..32).filter(|&s| is_partner(mask, s)).count();
            assert_eq!(taken, asked.min(3));
            assert!(mask < 16);
            assert_eq!(mask, assign_heur_seats(true, asked, 4, seed));
        }
    }
    let c = RunConfig::default();
    assert_eq!(c.heuristic_opponent(true), Some("voronoi"));
    assert_eq!(c.heuristic_opponent(false), None);
}

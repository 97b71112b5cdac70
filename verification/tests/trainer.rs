use snek_train::config::{
    default_burst_games, default_eval_sims, default_heuristic_opponent_kind,
    default_heuristic_opponent_seats, default_heuristic_opponent_sims, default_le_depth,
    default_le_iters, default_league_entrant_gens, default_league_games, default_response_after,
    default_sample_games, default_sample_turns, RunConfig,
};
use snek_train::gate::{gate_games, promote, run_gate, sweep_winner, GateMeta};
use snek_train::metrics::{
    phase_from_u32, phase_to_u32, unix_ms, window, Counters, LogEntry, Phase, Reading,
};
use snek_train::state::{
    checkpoint_file_name, join, standalone_out_dir, RunPaths, TrainerState,
};
use snek_train::trainer::{
    device_label, gates_from_start, plan_start, seeds, serving_commit_message, BenchError, Control, CycleKnobs,
    Event, Progress, Stage, StartError, Started,
};

#[test]
fn promotion_requires_strictly_more_wins() {
    assert!(!promote(10, 10, 0), "tie keeps the incumbent");
    assert!(promote(11, 10, 0));
    assert!(!promote(11, 10, 1), "margin raises the bar");
    assert!(promote(12, 10, 1));
    assert!(!promote(0, 0, 0), "0-0 keeps the incumbent");
}

#[test]
fn gate_meta_roundtrips_and_rotates() {
    let mut meta = GateMeta::founding(1760, 42);
    assert_eq!(meta.incumbent_gen, 1760);
    assert_eq!(meta.promotions, 0);
    assert_eq!(meta.next_seed, 42);
    let r = run_gate(&mut meta, 1770, 5, 5, 16, 0);
    assert!(!r.promoted);
    assert_eq!((meta.incumbent_gen, meta.promotions, meta.failed_gates), (1760, 0, 1));
    let r = run_gate(&mut meta, 1780, 6, 5, 16, 0);
    assert!(r.promoted);
    assert_eq!((meta.incumbent_gen, meta.promotions), (1780, 1));
    assert_eq!((r.candidate_wins, r.incumbent_wins, r.games), (6, 5, 16));
}

#[test]
fn a_sweep_has_one_winner() {
    assert_eq!(sweep_winner(&vec![]), None);
    assert!(sweep_winner(&vec![3, 9, 4]) == Some(1));
    assert!(gate_games(0) >= 8);
    assert!(gate_games(200) >= 200);
}

#[test]
fn gpu_has_one_user_at_a_time() {
    let mut c = Control::new(1u32);
    assert!(c.try_begin_bench().is_ok());
    assert!(matches!(c.try_begin_bench(), Err(BenchError::BenchRunning)));
    assert!(matches!(c.start(None, "run".into(), Some(5)), Err(StartError::BenchRunning)));
    c.end_bench();
    assert_eq!(c.config, 1);
    match c.start(Some("mine".into()), "run".into(), Some(2)) {
        Ok(Started::New(id)) => assert_eq!(id, "mine"),
        _ => panic!("should start"),
    }
    assert_eq!(c.config, 2);
    assert!(matches!(c.try_begin_bench(), Err(BenchError::TrainingActive)));
    match c.start(None, "run".into(), Some(3)) {
        Ok(Started::Already(id)) => assert_eq!(id, "mine"),
        _ => panic!("already running"),
    }
    c.request_stop();
    assert!(matches!(c.start(None, "run".into(), Some(4)), Err(StartError::StillStopping)));
    assert_eq!(c.config, 2, "a request that starts nothing leaves the knobs alone");
    c.finished();
    assert!(!c.running);
    assert!(matches!(c.start(None, "run".into(), None), Ok(Started::New(_))));
    assert_eq!(c.config, 2);
    c.set_config(7);
    assert_eq!(c.config, 7);
    c.finished();
    let mut k = Counters::new();
    k.generation = 9;
    k.set_phase(Phase::Training);
    let s = c.run_state(&k);
    assert_eq!((s.phase, s.generation, s.running), (Phase::Training, 9, false));
    assert!(!StartError::BenchRunning.message().is_empty());
    assert!(!StartError::NoActiveRun.message().is_empty());
    assert!(!BenchError::TrainingActive.message().is_empty());
    assert_ne!(device_label(true), device_label(false));
}

fn knobs() -> CycleKnobs {
    CycleKnobs {
        gating: gates_from_start(true, 5),
        le_mode: true,
        gate_gens: 5,
        gate_games: 20,
        probe_gens: 50,
        burst_games: 32,
        league_entrant_gens: 5,
    }
}

#[test]
fn a_generation_goes_through_its_stages_once() {
    let k = knobs();
    let mut p = Progress { stage: Stage::Ready, generation: 4, samples_seen: 10 };
    assert!(p.step(&k, Event::Checked { stop: false }));
    assert!(!p.step(&k, Event::Checked { stop: false }), "playing takes no check");
    assert!(p.step(&k, Event::Played { samples: 7 }));
    let mut steps = 0;
    while p.stage != Stage::Ready && steps < 10 {
        if !p.step(&k, Event::Done) {
            assert!(p.step(&k, Event::Checked { stop: false }));
        }
        steps += 1;
    }
    assert_eq!(p.stage, Stage::Ready);
    assert_eq!(p.generation, 5);
    assert_eq!(p.samples_seen, 17);
}

#[test]
fn an_interruption_keeps_the_generation() {
    let k = knobs();
    let mut p = Progress { stage: Stage::Ready, generation: 4, samples_seen: 10 };
    assert!(p.step(&k, Event::Checked { stop: false }));
    assert!(p.step(&k, Event::Interrupted));
    assert_eq!(p.stage, Stage::Paused);
    assert_eq!((p.generation, p.samples_seen), (4, 10));
}

#[test]
fn start_loads_what_is_there() {
    let k = knobs();
    let fresh = plan_start(true, false, false, false, &k);
    assert!(!fresh.load_config && !fresh.load_net && !fresh.resume);
    let again = plan_start(false, true, true, true, &k);
    assert!(again.load_config && again.load_net && again.load_incumbent);
    assert!(!again.found_incumbent);
    let s = seeds(100, 3);
    let t = seeds(100, 4);
    assert_ne!(s.play, t.play);
    assert_eq!(serving_commit_message("abc", 12), "serve: abc gen 12");
}

#[test]
fn phases_survive_the_counter() {
    for p in [Phase::Idle, Phase::Playing, Phase::Training, Phase::Checkpoint, Phase::Stopping, Phase::Stopped] {
        assert_eq!(phase_from_u32(phase_to_u32(p)), p);
    }
    assert_eq!(phase_from_u32(99), Phase::Idle);
    let mut c = Counters::new();
    c.set_losses(1, 2, 3);
    assert_eq!((c.policy_loss_bits, c.value_loss_bits, c.target_entropy_bits), (1, 2, 3));
}

#[test]
fn windows_are_differences() {
    let a = Reading { inferences: 10, games: 1, turns: 5, forward_us: 100, rows: 64, requests: 2 };
    let b = Reading { inferences: 30, games: 3, turns: 9, forward_us: 400, rows: 264, requests: 6 };
    let w = window(a, b);
    assert_eq!((w.inferences, w.games, w.turns, w.forward_us, w.rows), (20, 2, 4, 300, 200));
    assert_eq!(w.batch_avg_rows, 50);
    assert_eq!(unix_ms(Some(1234)), 1234);
    assert_eq!(unix_ms(None), 0);
    let e = LogEntry { t_unix_ms: 5, message: "m".into() };
    assert_eq!(e.t_unix_ms, 5);
}

#[test]
fn run_files_have_their_places() {
    let p = RunPaths::new("runs", "abc");
    assert_eq!(p.root, "runs/abc");
    assert_eq!(p.config, "runs/abc/config.json");
    assert_eq!(p.replay, "runs/abc/buffer");
    assert_eq!(p.checkpoint_net(7), "runs/abc/checkpoints/net_0007.safetensors");
    assert_eq!(checkpoint_file_name(12345), "net_12345.safetensors");
    assert_eq!(join("runs/", "x"), "runs/x");
    assert_eq!(join("runs", "/x"), "/x");
    assert_eq!(standalone_out_dir("runs", "abc", "probe"), "runs/abc/probe");
    let s: TrainerState<f64> = TrainerState::fresh(0.0);
    assert_eq!((s.generation, s.seed, s.samples_seen), (0, 1, 0));
}

#[test]
fn defaults_fill_a_configuration() {
    let mut c = RunConfig::default();
    assert_eq!(c.eval_sims, default_eval_sims());
    assert_eq!(c.league_games, default_league_games());
    assert_eq!(c.burst_games, default_burst_games());
    assert_eq!(c.sample_games, default_sample_games());
    assert_eq!(c.sample_turns, default_sample_turns());
    assert_eq!(c.le_depth, default_le_depth());
    assert_eq!(c.le_iters, default_le_iters());
    assert_eq!(c.league_entrant_gens, default_league_entrant_gens());
    assert_eq!(c.response_after, default_response_after());
    assert_eq!(c.heuristic_opponent_kind, default_heuristic_opponent_kind());
    assert_eq!(c.heuristic_opponent_seats, default_heuristic_opponent_seats());
    assert_eq!(c.heuristic_opponent_sims, default_heuristic_opponent_sims());
    c.gpu_batch_games = 6;
    assert_eq!(c.concurrent_games(), 12);
    c.gpu_batch_games = 0;
    assert_eq!(c.concurrent_games(), 2);
    c.burst_sims = 0;
    c.eval_sims = 48;
    assert_eq!(c.effective_burst_sims(), 48);
    c.search_threads = 0;
    c.configure_search_threads(8);
    assert!(c.search_threads >= 1);
}

#[test]
fn gating_outlasts_a_change_of_knobs() {
    let k = knobs();
    assert!(k.gate_due(5, false) && !k.gate_due(6, false) && !k.gate_due(5, true));
    let off = CycleKnobs { gate_gens: 0, le_mode: false, ..k };
    assert!(off.gate_due(0, false) && !off.gate_due(5, false));
    let later = CycleKnobs { gating: gates_from_start(true, 0), ..k };
    assert!(!later.gate_due(5, false));
    assert!(!gates_from_start(false, 5));
    assert!(k.probe_due(50) && !k.probe_due(51) && !k.burst_due(5, false));
    assert_eq!((k.arena_target(50), k.arena_target(5)), (88, 56));
}

use snek_train::sample::{FrameJson, GameFileJson, GameJson, SnakeJson};
use snek_train::viewer::{
    history_rows,
    convert_game_file, game_file, game_gens, gen_from_name, low_word, metrics, points, proto_event,
    read_numbers, resolve_run, run_detail, run_list, run_path, summary, summary_with, MetricJson,
    RunFiles, RunNumbers, RunSummary, WirePoint,
};

fn chars(v: &[&str]) -> Vec<Vec<char>> {
    v.iter().map(|s| s.chars().collect()).collect()
}

fn line(generation: Option<u32>, policy_loss: f64, win_rate: Option<f64>) -> MetricJson<f64> {
    MetricJson {
        generation,
        policy_loss: Some(policy_loss),
        value_loss: None,
        win_rate,
        completed_games: Some(3),
        target_entropy: None,
        samples: None,
        turns: None,
        buffer: Some(9),
        gen_seconds: None,
        play_seconds: None,
        train_seconds: None,
        inferences_per_sec: None,
        games_per_sec: None,
        gpu_busy_pct: None,
        avg_game_turn: None,
    }
}

fn files() -> RunFiles<f64> {
    RunFiles {
        config: Some("{\"board\": 11, \"num_snakes\": 4}".into()),
        meta: Some("{\"board\": 7}".into()),
        trainer_state: None,
        status: None,
        metrics: vec![Some(line(Some(5), 1.5, None)), None, Some(line(None, 0.5, Some(0.25)))],
        games: chars(&["gen_0003.json", "gen_0012.json", "gen_3.json", "notes.txt"]),
        modified_unix_ms: 77,
    }
}

#[test]
fn only_plain_names_are_resolved() {
    assert_eq!(resolve_run("runs", "abc", true), Some("runs/abc".to_string()));
    assert_eq!(resolve_run("runs", "abc", false), None);
    for bad in ["", "a/b", "a\\b", "..", "a..b", "/etc"] {
        assert_eq!(resolve_run("runs", bad, true), None, "{bad}");
        assert_eq!(run_path("runs", bad), None);
    }
    assert_eq!(run_path("runs/", "a.b"), Some("runs/a.b".to_string()));
}

#[test]
fn missing_metrics_are_zero_and_lines_are_counted() {
    let rows = metrics(&files().metrics, 0.0);
    assert_eq!(rows.len(), 2);
    assert_eq!((rows[0].generation, rows[0].policy_loss, rows[0].value_loss), (5, 1.5, 0.0));
    assert!(!rows[0].has_win_rate);
    assert_eq!((rows[1].generation, rows[1].win_rate, rows[1].has_win_rate), (2, 0.25, true));
    assert_eq!((rows[1].completed_games, rows[1].samples, rows[1].buffer), (3, 0, 9));
}

#[test]
fn recorded_generations_are_listed_newest_first() {
    let g = game_gens(&files().games);
    assert_eq!(g.iter().map(|g| g.gen).collect::<Vec<_>>(), vec![12, 3]);
    assert_eq!(gen_from_name(&"gen_0012.json".chars().collect()), Some(12));
    let own = snek_train::sample::generation_file_name(12_345);
    assert_eq!(gen_from_name(&own.chars().collect()), Some(12_345));
    assert_eq!(gen_from_name(&"gen_.json".chars().collect()), None);
    assert_eq!(gen_from_name(&"gen_99999999999.json".chars().collect()), None);
}

#[test]
fn numbers_come_from_the_first_json_file() {
    let n = read_numbers(&files());
    assert_eq!(
        n,
        RunNumbers { generation: None, total_generations: None, board: Some(11), num_snakes: Some(4) }
    );
    let mut f = files();
    f.config = Some("not json".into());
    f.trainer_state = Some("[1]".into());
    f.status = Some("{\"generation\": 4}".into());
    let n = read_numbers(&f);
    assert_eq!(n.board, Some(7), "a broken file is passed over");
    assert_eq!(n.generation, None, "a file that is JSON is not");
    f.trainer_state = Some("{\"generation\": 4294967297, \"total_generations\": -1}".into());
    let n = read_numbers(&f);
    assert_eq!(n.generation, Some(1), "the lower bits");
    assert_eq!(n.total_generations, None);
    assert_eq!(low_word(Some(u64::MAX)), Some(u32::MAX));
    assert_eq!(low_word(None), None);
}

#[test]
fn a_summary_names_the_live_run() {
    let f = files();
    let s = summary(&f, "r1", Some("r1"), true, 0.0);
    assert!(s.live && s.running);
    assert_eq!((s.generation, s.board, s.num_snakes, s.game_gen_count), (2, 11, 4, 2));
    assert_eq!((s.policy_loss, s.has_win_rate, s.updated_unix_ms), (0.5, true, 77));
    let s = summary(&f, "r1", Some("r2"), true, 0.0);
    assert!(!s.live && !s.running);
    let n = RunNumbers { generation: Some(9), total_generations: Some(20), board: None, num_snakes: None };
    let s = summary_with(&f, &n, "r1", None, true, 0.0);
    assert_eq!((s.generation, s.total_generations, s.board), (9, 20, 0));
}

#[test]
fn details_show_the_configuration_as_it_is() {
    let mut f = files();
    let d = run_detail(&f, "r1", None, false, 0.0);
    assert_eq!(d.config_json, "{\"board\": 11, \"num_snakes\": 4}");
    assert_eq!((d.metrics.len(), d.game_gens.len()), (2, 2));
    assert_eq!(d.summary.run_id, "r1");
    f.config = None;
    assert_eq!(run_detail(&f, "r1", None, false, 0.0).config_json, "{\"board\": 7}");
    f.meta = None;
    assert_eq!(run_detail(&f, "r1", None, false, 0.0).config_json, "");
}

#[test]
fn runs_are_listed_by_their_last_change() {
    let at = |t: i64| -> RunSummary<f64> {
        let mut f = files();
        f.modified_unix_ms = t;
        summary(&f, "x", None, false, 0.0)
    };
    let runs = vec![at(5), at(-3), at(9), at(5)];
    assert_eq!(run_list(&runs), vec![2, 0, 3, 1]);
}

#[test]
fn recorded_games_are_carried_over() {
    assert_eq!(points(&vec![[1, -2]]), vec![WirePoint { x: 1, y: -2 }]);
    let file = GameFileJson {
        gen: 8,
        games: vec![GameJson {
            frames: vec![FrameJson {
                turn: 3,
                width: 11,
                height: 11,
                food: vec![[4, 5]],
                hazards: Vec::new(),
                snakes: vec![SnakeJson {
                    alive: true,
                    body: vec![[1, 2], [1, 1]],
                    health: 80,
                    chosen_move: 2,
                    policy: vec![0.1, 0.2, 0.3, 0.4],
                    play_policy: vec![0.0, 0.0, 1.0, 0.0],
                    value: -0.5,
                }],
            }],
            winner: None,
            num_turns: 0,
            heur_mask: 0,
            temp: 0.0,
        }],
    };
    let w = convert_game_file(&file, None);
    assert_eq!((w.gen, w.config_json.as_str()), (8, ""));
    assert_eq!((w.games[0].num_turns, w.games[0].winner), (1, -1));
    let f = &w.games[0].frames[0];
    assert_eq!((f.turn, f.width, f.food[0].x), (3, 11, 4));
    assert_eq!(f.snakes[0].body.len(), 2);
    assert_eq!((f.snakes[0].health, f.snakes[0].chosen_move, f.snakes[0].value), (80, 2, -0.5));
    assert_eq!(f.snakes[0].play_policy, vec![0.0, 0.0, 1.0, 0.0]);
    assert_eq!(convert_game_file(&file, Some("{}".into())).config_json, "{}");
    assert_eq!(game_file("runs/r", 7), "runs/r/games/gen_0007.json");
}

#[test]
fn events_carry_base64() {
    let e = proto_event("stats", &b"hello world~".to_vec());
    assert_eq!(e.event, "stats");
    assert_eq!(e.data, "aGVsbG8gd29ybGR+");
    assert_eq!(proto_event("x", &vec![]).data, "");
    assert_eq!(proto_event("x", &vec![0xff]).data, "/w==");
    assert_eq!(proto_event("x", &vec![0xff, 0xfe]).data, "//4=");
}

#[test]
fn a_history_is_its_json_lines() {
    let text = "{\"gen\": 1}\n\n  not json\r\n  [1, 2]  \n{\"gen\": \n7";
    assert_eq!(history_rows(text), vec!["{\"gen\": 1}", "[1, 2]", "7"]);
    assert!(history_rows("").is_empty());
}

use rand::SeedableRng;
use rand_xoshiro::Xoshiro256PlusPlus;
use snek_train::d4::{apply_d4, apply_random_d4, map_d4, move_perm};
use snek_train::replay::{index_from_end, Encoded, ReplayBuffer, Samples};
use snek_train::shards::{
    evict_count, pack_shard, prune_evicted, restore_order, shard_file_name, shard_gen, shard_meta,
    shards_for_gen, unpack_shard, ShardError,
};

fn samples(n: usize, turn0: u32) -> Samples<f64> {
    Samples {
        obs: vec![0.0; n * 4],
        pol: vec![0.25; n * 4],
        z: vec![0.5; n],
        turn: (turn0..turn0 + n as u32).collect(),
        temp: Vec::new(),
        obs_shape: [1, 2, 2],
        turns: n,
        games: 1,
    }
}

fn chars(v: &[String]) -> Vec<Vec<char>> {
    v.iter().map(|s| s.chars().collect()).collect()
}

#[test]
fn save_restore_prune_roundtrip() {
    let mut dir: Vec<String> = Vec::new();
    for gen in 0..4u32 {
        let stale = shards_for_gen(&chars(&dir), gen);
        assert!(stale.is_empty());
        dir.push(shard_file_name(gen, 10));
        let gone = prune_evicted(&chars(&dir), 25);
        dir = (0..dir.len()).filter(|i| !gone.contains(i)).map(|i| dir[i].clone()).collect();
    }
    dir.sort();
    assert_eq!(dir, ["gen_000002_n10.json.zst", "gen_000003_n10.json.zst"]);
    let load = restore_order(&chars(&dir), 3);
    let loaded: Vec<Samples<f64>> = load
        .iter()
        .map(|&i| {
            let gen = shard_gen(&dir[i].chars().collect()).unwrap();
            samples(10, gen * 100)
        })
        .collect();
    let restored = ReplayBuffer::restore(15, loaded);
    assert_eq!(restored.len(), 10);
    assert_eq!(restored.shards.front().unwrap().turn[0], 200);
}

#[test]
fn shard_names_read_back() {
    let name: Vec<char> = shard_file_name(12, 345).chars().collect();
    assert_eq!(shard_meta(&name), Some((12, 345)));
    let odd: Vec<char> = "gen_12_n3.json".chars().collect();
    assert_eq!(shard_meta(&odd), None);
    assert_eq!(evict_count(&vec![10, 10, 10], 25), 1);
    assert_eq!(evict_count(&vec![100], 25), 0);
}

#[test]
fn packed_shards_unpack_to_themselves() {
    let content: Vec<u8> = (0..2000u32).map(|i| (i % 7) as u8).collect();
    let file = pack_shard(&content).ok().unwrap();
    assert!(file.len() < content.len(), "compressed");
    assert_eq!(&file[..4], &[0x28, 0xb5, 0x2f, 0xfd]);
    assert_eq!(unpack_shard(&file).ok().unwrap(), content);
    assert!(matches!(unpack_shard(&vec![1, 2, 3, 4, 5]), Err(ShardError::Decompress)));
}

#[test]
fn the_buffer_forgets_the_oldest() {
    let mut b: ReplayBuffer<f64> = ReplayBuffer::new(25);
    b.add(samples(10, 0));
    b.add(samples(10, 100));
    assert_eq!(b.len(), 20);
    b.add(samples(10, 200));
    assert_eq!(b.len(), 20);
    assert_eq!(b.shards[0].turn[0], 100);
    assert_eq!(b.locate(0), Some((0, 0)));
    assert_eq!(b.locate(13), Some((1, 3)));
    assert_eq!(b.locate(20), None);
    b.add(samples(40, 300));
    assert_eq!(b.len(), 40, "the newest shard stays though it is too large");
    let (sum, count) = b.avg_turn();
    assert_eq!((sum, count), ((300..340).sum::<u64>(), 40));
    assert_eq!(index_from_end(10, 0), 9);
    assert_eq!(index_from_end(10, 9), 0);
    assert_eq!(index_from_end(10, 99), 0);
}

#[test]
fn samples_go_behind_those_that_are_there() {
    let mut s = samples(2, 5);
    let row = |z: f64, turn: u32| Encoded {
        obs: vec![z, 1.0, 2.0, 3.0],
        pol: vec![0.0, z, 0.0, 0.0],
        z,
        turn,
        temp: None,
    };
    s.extend(&vec![row(-1.0, 40), row(0.0, 41)]);
    assert_eq!(s.z, vec![0.5, 0.5, -1.0, 0.0]);
    assert_eq!(s.turn, vec![5, 6, 40, 41]);
    assert_eq!(s.pol[8..], [0.0, -1.0, 0.0, 0.0, 0.0, 0.0, 0.0, 0.0]);
    assert_eq!(s.obs[8..], [-1.0, 1.0, 2.0, 3.0, 0.0, 1.0, 2.0, 3.0]);
    assert!(s.temp.is_empty() && s.is_whole());
    s.extend(&vec![]);
    assert_eq!(s.len(), 4);
    s.extend(&vec![Encoded { obs: vec![9.0], pol: vec![], z: 1.0, turn: 0, temp: Some(2.0) }]);
    assert!(!s.is_whole());
    assert_eq!(s.temp, vec![2.0]);
}

#[test]
fn batches_need_whole_shards_of_one_shape() {
    let mut b: ReplayBuffer<f64> = ReplayBuffer::new(100);
    assert!(b.is_whole());
    b.add(samples(3, 0));
    assert!(b.is_whole());
    b.add(Samples::empty([2, 2, 2]));
    assert!(!b.is_whole(), "another shape");
    assert!(Samples::<f64>::empty([2, 2, 2]).is_whole());
    assert!(!Samples::<f64>::empty([1, usize::MAX, 2]).is_whole(), "a plane too large");
}

#[test]
fn batches_hold_the_samples_asked_for() {
    let mut b: ReplayBuffer<f64> = ReplayBuffer::new(100);
    let mut s = samples(2, 7);
    s.obs = vec![1.0, 2.0, 3.0, 4.0, 5.0, 6.0, 7.0, 8.0];
    b.add(s);
    let g = b.gather(&vec![1, 0, 1]).unwrap();
    assert_eq!(g.obs, vec![5.0, 6.0, 7.0, 8.0, 1.0, 2.0, 3.0, 4.0, 5.0, 6.0, 7.0, 8.0]);
    assert_eq!(g.z, vec![0.5; 3]);
    assert!(g.turn.is_empty(), "batches carry no turns");
    let mut rng = Xoshiro256PlusPlus::seed_from_u64(3);
    let t = b.sample_batch(&vec![1], &mut rng).unwrap();
    let mut seen = t.obs.clone();
    seen.sort_by(|a, b| a.partial_cmp(b).unwrap());
    assert_eq!(seen, vec![5.0, 6.0, 7.0, 8.0], "a symmetry moves numbers and loses none");
    let empty: ReplayBuffer<f64> = ReplayBuffer::new(5);
    assert!(empty.sample_batch(&vec![0], &mut rng).is_none());
}

#[test]
fn symmetries_turn_boards_and_moves_together() {
    for t in 0..8 {
        let mut hit = [false; 9];
        for y in 0..3 {
            for x in 0..3 {
                let (a, b) = map_d4(t, y, x, 3);
                assert!(!hit[a * 3 + b]);
                hit[a * 3 + b] = true;
            }
        }
        let mut p = move_perm(t).to_vec();
        p.sort_unstable();
        assert_eq!(p, vec![0, 1, 2, 3]);
    }
    let mut obs = vec![1, 2, 3, 4];
    let mut pol = vec![10, 20, 30, 40];
    apply_d4(&mut obs, &mut pol, &vec![0], [1, 2, 2]);
    assert_eq!((obs.clone(), pol.clone()), (vec![1, 2, 3, 4], vec![10, 20, 30, 40]));
    let mut rng = Xoshiro256PlusPlus::seed_from_u64(1);
    let mut moved = false;
    for _ in 0..20 {
        apply_random_d4(&mut obs, &mut pol, 1, [1, 2, 2], &mut rng);
        moved |= obs != vec![1, 2, 3, 4];
    }
    assert!(moved);
}

#[test]
fn a_buffer_restored_from_its_shards_is_the_same() {
    let once = ReplayBuffer::restore(25, vec![samples(10, 0), samples(10, 100), samples(10, 200)]);
    assert_eq!(once.len(), 20);
    let turns: Vec<u32> = once.shards.iter().map(|s| s.turn[0]).collect();
    assert_eq!(turns, vec![100, 200]);
    let again = ReplayBuffer::restore(25, turns.iter().map(|&t| samples(10, t)).collect());
    assert_eq!(again.len(), once.len());
    assert_eq!(again.shards.iter().map(|s| s.turn[0]).collect::<Vec<u32>>(), turns);
}

#[test]
fn shard_names_sort_by_generation() {
    assert!(shard_file_name(9, 5000) < shard_file_name(10, 7));
    assert!(shard_file_name(99_999, 1) < shard_file_name(100_000, 1));
    assert!(shard_file_name(1_000_000, 1) < shard_file_name(999_999, 1));
}

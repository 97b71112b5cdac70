//! Where a run keeps its files, and what it remembers of itself.

use vstd::prelude::*;
use vstd::string::*;

use crate::text;

verus! {

/// The trainer's progress.
pub struct TrainerState<F> {
    pub generation: u32,
    pub seed: u64,
    pub best_win_rate: F,
    pub samples_seen: u64,
}

impl<F> TrainerState<F> {
    /// The progress of a fresh run.
    pub fn fresh(zero: F) -> (s: TrainerState<F>)
        ensures
            s.generation == 0,
            s.seed == 1,
            s.best_win_rate == zero,
            s.samples_seen == 0,
    {
        TrainerState { generation: 0, seed: 1, best_win_rate: zero, samples_seen: 0 }
    }
}

/// The files of one run.
pub struct RunPaths {
    pub root: String,
    pub config: String,
    pub trainer_state: String,
    pub net: String,
    pub replay: String,
    pub metrics: String,
    pub games: String,
}

/// The path of `leaf` under `base`: an absolute leaf stands for itself, and a
/// separator goes between the two where it is missing.
pub open spec fn joined(base: Seq<char>, leaf: Seq<char>) -> Seq<char> {
    if leaf.len() > 0 && leaf[0] == '/' {
        leaf
    } else if base.len() == 0 || base.last() == '/' {
        base + leaf
    } else {
        base.push('/') + leaf
    }
}

/// Appends the characters `s` to a string.
fn push_chars(out: &mut String, s: &Vec<char>)
    ensures
        final(out)@ == old(out)@ + s@,
{
    let ghost start = out@;
    let mut i: usize = 0;
    assert(start + s@.take(0) =~= start);
    while i < s.len()
        invariant
            i <= s@.len(),
            out@ == start + s@.take(i as int),
        decreases s@.len() - i,
    {
        out.push(s[i]);
        i = i + 1;
        assert(out@ =~= start + s@.take(i as int));
    }
    assert(s@.take(i as int) =~= s@);
}

/// The path of `leaf` under `base`.
pub fn join(base: &str, leaf: &str) -> (p: String)
    ensures
        p@ == joined(base@, leaf@),
{
    let b = text::chars_of(base);
    let l = text::chars_of(leaf);
    let mut p = String::new();
    if l.len() > 0 && l[0] == '/' {
        push_chars(&mut p, &l);
        assert(p@ =~= l@);
        return p;
    }
    push_chars(&mut p, &b);
    assert(p@ =~= b@);
    if b.len() > 0 && b[b.len() - 1] != '/' {
        p.push('/');
    }
    push_chars(&mut p, &l);
    p
}

impl RunPaths {
    /// The files of run `run_id` under `runs_dir`.
    pub fn new(runs_dir: &str, run_id: &str) -> (p: RunPaths)
        ensures
            p.root@ == joined(runs_dir@, run_id@),
            p.config@ == joined(p.root@, "config.json"@),
            p.trainer_state@ == joined(p.root@, "trainer_state.json"@),
            p.net@ == joined(p.root@, "net.safetensors"@),
            p.replay@ == joined(p.root@, "buffer"@),
            p.metrics@ == joined(p.root@, "metrics.jsonl"@),
            p.games@ == joined(p.root@, "games"@),
    {
        let root = join(runs_dir, run_id);
        let config = join(root.as_str(), "config.json");
        let trainer_state = join(root.as_str(), "trainer_state.json");
        let net = join(root.as_str(), "net.safetensors");
        let replay = join(root.as_str(), "buffer");
        let metrics = join(root.as_str(), "metrics.jsonl");
        let games = join(root.as_str(), "games");
        RunPaths { root, config, trainer_state, net, replay, metrics, games }
    }

    /// The archived weights of a generation.
    pub fn checkpoint_net(&self, gen: u32) -> (p: String)
        ensures
            p@ == joined(joined(self.root@, "checkpoints"@), checkpoint_file(gen)),
    {
        let dir = join(self.root.as_str(), "checkpoints");
        let name = checkpoint_file_name(gen);
        join(dir.as_str(), name.as_str())
    }
}

/// The name of a checkpoint file.
pub open spec fn checkpoint_file(gen: u32) -> Seq<char> {
    "net_"@ + text::dec_padded(gen as nat, 4) + ".safetensors"@
}

/// The name of a checkpoint file.
pub fn checkpoint_file_name(gen: u32) -> (name: String)
    ensures
        name@ == checkpoint_file(gen),
{
    let mut name = String::new();
    name.append("net_");
    text::push_dec(&mut name, gen as u64, 4);
    name.append(".safetensors");
    assert(name@ =~= checkpoint_file(gen));
    name
}

/// The directory that a standalone burst writes into.
pub fn standalone_out_dir(runs_dir: &str, run_id: &str, subdir: &str) -> (p: String)
    ensures
        p@ == joined(joined(runs_dir@, run_id@), subdir@),
{
    let root = join(runs_dir, run_id);
    join(root.as_str(), subdir)
}

/// A relative leaf stays under a base that is not empty: its path begins with
/// the base and goes on with a separator.
pub proof fn joined_stays_inside(base: Seq<char>, leaf: Seq<char>)
    requires
        base.len() > 0,
        leaf.len() > 0,
        leaf[0] != '/',
    ensures
        text::starts_with(joined(base, leaf), base),
        joined(base, leaf).len() > base.len(),
        base.last() == '/' || joined(base, leaf)[base.len() as int] == '/',
        text::ends_with(joined(base, leaf), leaf),
{
    let p = joined(base, leaf);
    assert(p.take(base.len() as int) =~= base);
    assert(p.skip(p.len() - leaf.len()) =~= leaf);
}

} // verus!

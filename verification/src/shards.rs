//! The replay buffer's files: one compressed shard per generation.

use vstd::prelude::*;
use vstd::string::*;

use crate::lists;
use crate::order::{self, SortKey};
use crate::text;

verus! {

/// The compression level of a shard.
pub const SHARD_LEVEL: i32 = 3;

/// The name of the shard of generation `gen` with `len` samples.
pub open spec fn shard_name(gen: u32, len: usize) -> Seq<char> {
    "gen_"@ + text::dec_padded(gen as nat, 6) + "_n"@ + text::dec(len as nat) + ".json.zst"@
}

/// The name of the shard of generation `gen` with `len` samples.
pub fn shard_file_name(gen: u32, len: usize) -> (name: String)
    ensures
        name@ == shard_name(gen, len),
{
    let mut name = String::new();
    name.append("gen_");
    text::push_dec(&mut name, gen as u64, 6);
    name.append("_n");
    text::push_dec(&mut name, len as u64, 0);
    name.append(".json.zst");
    assert(name@ =~= shard_name(gen, len));
    name
}

/// Whether `_n` stands at place `i` of `s`.
pub open spec fn mark_at(s: Seq<char>, i: int) -> bool {
    0 <= i && i + 1 < s.len() && s[i] == '_' && s[i + 1] == 'n'
}

/// The first place of `_n` among the first `k` of `s`.
pub open spec fn first_mark(s: Seq<char>, k: nat) -> Option<int>
    decreases k,
{
    if k == 0 {
        None
    } else {
        match first_mark(s, (k - 1) as nat) {
            Some(i) => Some(i),
            None => if mark_at(s, k - 1) {
                Some(k - 1)
            } else {
                None
            },
        }
    }
}

/// Generation and sample count of a shard, from what stands between `gen_` and
/// `.json.zst` in its name: two numbers around the first `_n`.
pub open spec fn parse_middle(rest: Seq<char>) -> Option<(u32, usize)> {
    match first_mark(rest, rest.len()) {
        Some(i) => match (
            text::parse_bounded(rest.take(i), u32::MAX as nat),
            text::parse_bounded(rest.skip(i + 2), usize::MAX as nat),
        ) {
            (Some(g), Some(n)) => Some((g as u32, n as usize)),
            _ => None,
        },
        None => None,
    }
}

/// Generation and sample count of a shard, from its name; `None` for any other
/// file.
pub open spec fn parse_shard(name: Seq<char>) -> Option<(u32, usize)> {
    if text::starts_with(name, "gen_"@) && text::ends_with(name.skip(4), ".json.zst"@) {
        parse_middle(name.subrange(4, name.len() - 9))
    } else {
        None
    }
}

/// Generation and sample count of a shard, from its name.
pub fn shard_meta(name: &Vec<char>) -> (r: Option<(u32, usize)>)
    ensures
        r == parse_shard(name@),
{
    proof {
        reveal_strlit("gen_");
        reveal_strlit(".json.zst");
    }
    if !text::has_prefix(name, "gen_") {
        return None;
    }
    let len: usize = name.len();
    let tail = text::copy_range(name, 4, len);
    assert(tail@ =~= name@.skip(4));
    if !text::has_suffix(&tail, ".json.zst") {
        return None;
    }
    let rest = text::copy_range(name, 4, len - 9);
    assert(rest@ == name@.subrange(4, name@.len() - 9));
    let mut i: usize = 0;
    let m: usize = rest.len();
    while i < m
        invariant
            i <= m,
            m == rest@.len(),
            parse_shard(name@) == parse_middle(rest@),
            first_mark(rest@, i as nat) is None,
        decreases m - i,
    {
        if i + 1 < m && rest[i] == '_' && rest[i + 1] == 'n' {
            proof {
                lemma_first_mark(rest@, (i + 1) as nat, rest@.len());
            }
            assert(rest@.subrange(0, i as int) =~= rest@.take(i as int));
            assert(rest@.subrange(i + 2, m as int) =~= rest@.skip(i + 2));
            let gen: Option<u64> = text::parse_range(&rest, 0, i, u32::MAX as u64);
            let n: Option<u64> = text::parse_range(&rest, i + 2, m, usize::MAX as u64);
            return match (gen, n) {
                (Some(g), Some(k)) => Some((g as u32, k as usize)),
                _ => None,
            };
        }
        i = i + 1;
    }
    None
}

proof fn lemma_first_mark(s: Seq<char>, a: nat, b: nat)
    requires
        a <= b,
        first_mark(s, a) is Some,
    ensures
        first_mark(s, b) == first_mark(s, a),
    decreases b,
{
    if a < b {
        lemma_first_mark(s, a, (b - 1) as nat);
    }
}

proof fn lemma_no_mark(s: Seq<char>, k: nat)
    requires
        forall|i: int| 0 <= i < k ==> !#[trigger] mark_at(s, i),
    ensures
        first_mark(s, k) is None,
    decreases k,
{
    if k > 0 {
        lemma_no_mark(s, (k - 1) as nat);
    }
}

/// A shard's name reads back as the generation and the count that it was made
/// of.
pub proof fn shard_name_reads_back(gen: u32, len: usize)
    ensures
        parse_shard(shard_name(gen, len)) == Some((gen, len)),
{
    reveal_strlit("gen_");
    reveal_strlit("_n");
    reveal_strlit(".json.zst");
    let name = shard_name(gen, len);
    let (g, n) = (text::dec_padded(gen as nat, 6), text::dec(len as nat));
    text::dec_padded_reads_back(gen as nat, 6);
    text::dec_padded_reads_back(len as nat, 0);
    assert(text::dec_padded(len as nat, 0) == n);
    assert(name.take(4) =~= "gen_"@);
    assert(name.skip(4).skip(name.skip(4).len() - 9) =~= ".json.zst"@);
    let rest = name.subrange(4, name.len() - 9);
    assert(rest =~= g + "_n"@ + n);
    assert forall|i: int| 0 <= i < g.len() implies !#[trigger] mark_at(rest, i) by {
        assert(rest[i] == g[i]);
        assert(text::is_digit(g[i]));
    }
    lemma_no_mark(rest, g.len());
    assert(rest[g.len() as int] == '_');
    assert(rest[g.len() as int + 1] == 'n');
    assert(mark_at(rest, g.len() as int));
    lemma_first_mark(rest, (g.len() + 1) as nat, rest.len());
    assert(rest.take(g.len() as int) =~= g);
    assert(rest.skip(g.len() as int + 2) =~= n);
}

/// Shards sort by name as by generation, up to generation 999,999.
pub proof fn shard_names_sort_by_generation(gen: u32, len: usize, later: u32, later_len: usize)
    requires
        gen < later < 1_000_000,
    ensures
        order::text_below(shard_name(gen, len), shard_name(later, later_len)),
{
    let (x, y) = (
        "_n"@ + text::dec(len as nat) + ".json.zst"@,
        "_n"@ + text::dec(later_len as nat) + ".json.zst"@,
    );
    let (a, b) = (text::dec_padded(gen as nat, 6), text::dec_padded(later as nat, 6));
    text::lemma_dec_grows(later as nat, 999_999);
    assert(text::dec(999_999).len() == 6) by {
        reveal_with_fuel(text::dec, 6);
    }
    order::padded_numbers_sort("gen_"@, gen as nat, later as nat, 6, x, y);
    assert("gen_"@ + a + x =~= shard_name(gen, len));
    assert("gen_"@ + b + y =~= shard_name(later, later_len));
}

/// The generation of a shard, from its name.
pub fn shard_gen(name: &Vec<char>) -> (r: Option<u32>)
    ensures
        r == match parse_shard(name@) {
            Some(m) => Some(m.0),
            None => None,
        },
{
    match shard_meta(name) {
        Some(m) => Some(m.0),
        None => None,
    }
}

/// Whether a file is a shard of generation `gen`.
pub open spec fn is_shard_of(name: Seq<char>, gen: u32) -> bool {
    parse_shard(name) matches Some(m) && m.0 == gen
}

/// Which files to delete before generation `gen` is written anew: every shard
/// of it, whatever its sample count.
pub fn shards_for_gen(names: &Vec<Vec<char>>, gen: u32) -> (gone: Vec<usize>)
    ensures
        gone@ == lists::indices_where(names@.len(), |i: int| is_shard_of(names@[i]@, gen)),
{
    let ghost keep = |i: int| is_shard_of(names@[i]@, gen);
    let mut gone: Vec<usize> = Vec::new();
    let mut i: usize = 0;
    while i < names.len()
        invariant
            i <= names@.len(),
            keep == (|i: int| is_shard_of(names@[i]@, gen)),
            gone@ == lists::indices_where(i as nat, keep),
        decreases names@.len() - i,
    {
        let here = match shard_gen(&names[i]) {
            Some(g) => g == gen,
            None => false,
        };
        assert(here == keep(i as int));
        if here {
            gone.push(i);
        }
        i = i + 1;
    }
    gone
}

/// What shards are sorted by: generation, count, name.
pub struct ShardKey {
    pub gen: u32,
    pub len: usize,
    pub name: Vec<char>,
}

impl SortKey for ShardKey {
    open spec fn below(&self, other: &Self) -> bool {
        self.gen < other.gen || (self.gen == other.gen && (self.len < other.len || (self.len
            == other.len && order::text_below(self.name@, other.name@))))
    }

    proof fn order_laws(a: Self, b: Self, c: Self) {
        <Vec<char> as SortKey>::order_laws(a.name, b.name, c.name);
    }

    fn is_below(&self, other: &Self) -> (r: bool) {
        self.gen < other.gen || (self.gen == other.gen && (self.len < other.len || (self.len
            == other.len && self.name.is_below(&other.name))))
    }
}

/// The sum of a list of sample counts.
pub open spec fn len_sum(lens: Seq<usize>) -> nat
    decreases lens.len(),
{
    if lens.len() == 0 {
        0
    } else {
        lens[0] as nat + len_sum(lens.skip(1))
    }
}

/// How many shards leave from the front: as long as the rest holds more than
/// `capacity` samples, and all but the last at the most.
pub open spec fn evicted(lens: Seq<usize>, capacity: nat) -> nat
    decreases lens.len(),
{
    if len_sum(lens) > capacity && lens.len() > 1 {
        1 + evicted(lens.skip(1), capacity)
    } else {
        0
    }
}

/// The last shard never leaves; what is left fits the capacity or is that
/// shard alone; and no more leave than must.
pub proof fn eviction_keeps_the_newest(lens: Seq<usize>, capacity: nat)
    ensures
        lens.len() > 0 ==> evicted(lens, capacity) < lens.len(),
        evicted(lens, capacity) <= lens.len(),
        len_sum(lens.skip(evicted(lens, capacity) as int)) <= capacity || lens.len() - evicted(
            lens,
            capacity,
        ) <= 1,
        evicted(lens, capacity) > 0 ==> len_sum(lens.skip(evicted(lens, capacity) - 1)) > capacity,
    decreases lens.len(),
{
    if len_sum(lens) > capacity && lens.len() > 1 {
        let t = lens.skip(1);
        eviction_keeps_the_newest(t, capacity);
        let e = evicted(t, capacity);
        assert(t.skip(e as int) =~= lens.skip(e as int + 1));
        if e > 0 {
            assert(t.skip(e - 1) =~= lens.skip(e as int));
        } else {
            assert(lens.skip(0) =~= lens);
        }
    } else {
        assert(lens.skip(0) =~= lens);
    }
}

/// How many shards leave from the front.
pub fn evict_count(lens: &Vec<usize>, capacity: usize) -> (e: usize)
    ensures
        e == evicted(lens@, capacity as nat),
        e <= lens@.len(),
{
    let n: usize = lens.len();
    let mut total: u128 = 0;
    let mut i: usize = n;
    assert(lens@.skip(n as int) =~= Seq::<usize>::empty());
    while i > 0
        invariant
            i <= n,
            n == lens@.len(),
            total == len_sum(lens@.skip(i as int)),
            total <= (n - i) * usize::MAX,
        decreases i,
    {
        assert(lens@.skip(i - 1)[0] == lens@[i - 1]);
        assert(lens@.skip(i - 1).skip(1) =~= lens@.skip(i as int));
        assert((n - i) * usize::MAX + usize::MAX == (n - (i - 1)) * usize::MAX) by (nonlinear_arith);
        assert((n - (i - 1)) * usize::MAX <= u128::MAX) by (nonlinear_arith)
            requires
                0 <= n - (i - 1) <= usize::MAX,
                usize::MAX <= 0xffff_ffff_ffff_ffff,
        ;
        total = total + lens[i - 1] as u128;
        i = i - 1;
    }
    assert(lens@.skip(0) =~= lens@);
    let mut e: usize = 0;
    while total > capacity as u128 && n - e > 1
        invariant
            e <= n,
            n == lens@.len(),
            total == len_sum(lens@.skip(e as int)),
            evicted(lens@, capacity as nat) == e + evicted(lens@.skip(e as int), capacity as nat),
        decreases n - e,
    {
        let ghost here = lens@.skip(e as int);
        assert(here[0] == lens@[e as int]);
        assert(here.skip(1) =~= lens@.skip(e + 1));
        total = total - lens[e] as u128;
        e = e + 1;
    }
    e
}

/// The shards among a directory's files, in the order given.
pub open spec fn shard_files(names: Seq<Vec<char>>) -> Seq<usize> {
    lists::indices_where(names.len(), |i: int| parse_shard(names[i]@) is Some)
}

/// Whether `keys` are the sort keys of the files at `files`.
pub open spec fn are_keys(keys: Seq<ShardKey>, names: Seq<Vec<char>>, files: Seq<usize>) -> bool {
    keys.len() == files.len() && forall|j: int|
        0 <= j < files.len() ==> {
            let name = names[files[j] as int]@;
            &&& (#[trigger] keys[j]).name@ == name
            &&& parse_shard(name) == Some((keys[j].gen, keys[j].len))
        }
}

/// Which files to delete so that the shards on disk are those that the buffer
/// in memory keeps: sorted by generation, they leave from the oldest on by the
/// same rule. Other files are never touched.
pub fn prune_evicted(names: &Vec<Vec<char>>, capacity: usize) -> (gone: Vec<usize>)
    ensures
        exists|keys: Seq<ShardKey>, p: Seq<usize>|
            are_keys(keys, names@, shard_files(names@)) && #[trigger] order::is_stable_order(
                keys,
                p,
            ) && gone@ == p.take(
                evicted(p.map_values(|j: usize| keys[j as int].len), capacity as nat) as int,
            ).map_values(|j: usize| shard_files(names@)[j as int]),
{
    let ghost keep = |i: int| parse_shard(names@[i]@) is Some;
    let mut files: Vec<usize> = Vec::new();
    let mut keys: Vec<ShardKey> = Vec::new();
    let mut i: usize = 0;
    while i < names.len()
        invariant
            i <= names@.len(),
            keep == (|i: int| parse_shard(names@[i]@) is Some),
            files@ == lists::indices_where(i as nat, keep),
            are_keys(keys@, names@, files@),
        decreases names@.len() - i,
    {
        match shard_meta(&names[i]) {
            Some(m) => {
                assert(keep(i as int));
                let name = text::copy_range(&names[i], 0, names[i].len());
                assert(name@ =~= names@[i as int]@);
                keys.push(ShardKey { gen: m.0, len: m.1, name });
                files.push(i);
            },
            None => {
                assert(!keep(i as int));
            },
        }
        i = i + 1;
    }
    let p = order::stable_order(&keys);
    let mut lens: Vec<usize> = Vec::new();
    let mut j: usize = 0;
    while j < p.len()
        invariant
            j <= p@.len(),
            order::is_stable_order(keys@, p@),
            lens@ == p@.take(j as int).map_values(|j: usize| keys@[j as int].len),
        decreases p@.len() - j,
    {
        assert(p@[j as int] < keys@.len());
        lens.push(keys[p[j]].len);
        j = j + 1;
        assert(lens@ =~= p@.take(j as int).map_values(|j: usize| keys@[j as int].len));
    }
    assert(p@.take(j as int) =~= p@);
    let e: usize = evict_count(&lens, capacity);
    let mut gone: Vec<usize> = Vec::new();
    let mut k: usize = 0;
    while k < e
        invariant
            k <= e,
            e <= p@.len(),
            order::is_stable_order(keys@, p@),
            keys@.len() == files@.len(),
            gone@ == p@.take(k as int).map_values(|j: usize| files@[j as int]),
        decreases e - k,
    {
        assert(p@[k as int] < keys@.len());
        gone.push(files[p[k]]);
        k = k + 1;
        assert(gone@ =~= p@.take(k as int).map_values(|j: usize| files@[j as int]));
    }
    assert(order::is_stable_order(keys@, p@));
    gone
}

/// Whether a file is one to restore from: a `zst` file that is not a shard of
/// generation `up_to_gen` or later.
pub open spec fn is_restorable(name: Seq<char>, up_to_gen: u32) -> bool {
    &&& text::ends_with(name, ".zst"@)
    &&& name.len() > 4
    &&& !(parse_shard(name) matches Some(m) && m.0 >= up_to_gen)
}

/// The files to restore from, in the order given.
pub open spec fn restorable_files(names: Seq<Vec<char>>, up_to_gen: u32) -> Seq<usize> {
    lists::indices_where(names.len(), |i: int| is_restorable(names[i]@, up_to_gen))
}

/// Which files to restore the buffer from, by name: the committed generations
/// alone. A shard of the generation at which the run resumes, or of a later
/// one, is about to be made anew and would count twice.
pub fn restore_order(names: &Vec<Vec<char>>, up_to_gen: u32) -> (load: Vec<usize>)
    ensures
        exists|keys: Seq<Vec<char>>, p: Seq<usize>| #[trigger]
            order::is_stable_order(keys, p) && text::texts(keys) == crate::sample::picked(
                names@,
                restorable_files(names@, up_to_gen),
            ) && load@ == p.map_values(|j: usize| restorable_files(names@, up_to_gen)[j as int]),
{
    let ghost keep = |i: int| is_restorable(names@[i]@, up_to_gen);
    let mut files: Vec<usize> = Vec::new();
    let mut keys: Vec<Vec<char>> = Vec::new();
    let mut i: usize = 0;
    while i < names.len()
        invariant
            i <= names@.len(),
            keep == (|i: int| is_restorable(names@[i]@, up_to_gen)),
            files@ == lists::indices_where(i as nat, keep),
            text::texts(keys@) == crate::sample::picked(names@, files@),
        decreases names@.len() - i,
    {
        let name = &names[i];
        let early = match shard_gen(name) {
            Some(g) => g < up_to_gen,
            None => true,
        };
        if early && name.len() > 4 && text::has_suffix(name, ".zst") {
            assert(keep(i as int));
            let ghost (old_keys, old_files) = (keys@, files@);
            let key = text::copy_range(name, 0, name.len());
            assert(key@ =~= name@);
            keys.push(key);
            files.push(i);
            assert(text::texts(keys@) =~= text::texts(old_keys).push(key@));
            assert(crate::sample::picked(names@, files@) =~= crate::sample::picked(
                names@,
                old_files,
            ).push(name@));
        } else {
            assert(!keep(i as int));
        }
        i = i + 1;
    }
    let p = order::stable_order(&keys);
    assert(text::texts(keys@).len() == keys@.len());
    assert(crate::sample::picked(names@, files@).len() == files@.len());
    let mut load: Vec<usize> = Vec::new();
    let mut k: usize = 0;
    while k < p.len()
        invariant
            k <= p@.len(),
            order::is_stable_order(keys@, p@),
            keys@.len() == files@.len(),
            load@ == p@.take(k as int).map_values(|j: usize| files@[j as int]),
        decreases p@.len() - k,
    {
        assert(p@[k as int] < keys@.len());
        load.push(files[p[k]]);
        k = k + 1;
        assert(load@ =~= p@.take(k as int).map_values(|j: usize| files@[j as int]));
    }
    assert(p@.take(k as int) =~= p@);
    assert(order::is_stable_order(keys@, p@));
    load
}

/// The error type of compression and decompression.
#[verifier::external_type_specification]
#[verifier::external_body]
pub struct ExIoError(std::io::Error);

/// What `zstd::encode_all` makes of some bytes at a level.
pub uninterp spec fn zstd_frame(data: Seq<u8>, level: i32) -> Seq<u8>;

/// What `zstd::decode_all` makes of some bytes; `None` where they are no valid
/// frames.
pub uninterp spec fn zstd_content(frame: Seq<u8>) -> Option<Seq<u8>>;

/// `zstd::encode_all`: where it succeeds, the frame for the bytes at the level,
/// which decompresses to those bytes again. That it succeeds is not stated: it
/// fails where the compressor cannot get its memory.
#[verifier::external_body]
fn zstd_encode(data: &[u8], level: i32) -> (r: Result<Vec<u8>, std::io::Error>)
    ensures
        r matches Ok(f) ==> f@ == zstd_frame(data@, level) && zstd_content(f@) == Some(data@),
{
    zstd::encode_all(data, level)
}

/// `zstd::decode_all`: where it succeeds, the content of the frames. That it
/// fails only on invalid frames is not stated: it fails, too, where the
/// decompressor cannot get its memory.
#[verifier::external_body]
fn zstd_decode(frame: &[u8]) -> (r: Result<Vec<u8>, std::io::Error>)
    ensures
        r matches Ok(d) ==> zstd_content(frame@) == Some(d@),
{
    zstd::decode_all(frame)
}

/// Why a shard could not be packed or unpacked.
#[derive(Clone, Copy, Debug, PartialEq, Eq, Structural)]
pub enum ShardError {
    Compress,
    Decompress,
}

/// Packs a shard's content into the bytes of its file.
pub fn pack_shard(content: &Vec<u8>) -> (r: Result<Vec<u8>, ShardError>)
    ensures
        match r {
            Ok(f) => f@ == zstd_frame(content@, SHARD_LEVEL) && zstd_content(f@) == Some(content@),
            Err(e) => e == ShardError::Compress,
        },
{
    match zstd_encode(content.as_slice(), SHARD_LEVEL) {
        Ok(f) => Ok(f),
        Err(_) => Err(ShardError::Compress),
    }
}

/// Unpacks a shard's content from the bytes of its file.
pub fn unpack_shard(file: &Vec<u8>) -> (r: Result<Vec<u8>, ShardError>)
    ensures
        match r {
            Ok(d) => zstd_content(file@) == Some(d@),
            Err(e) => e == ShardError::Decompress,
        },
{
    match zstd_decode(file.as_slice()) {
        Ok(d) => Ok(d),
        Err(_) => Err(ShardError::Decompress),
    }
}

/// A packed shard unpacks to nothing but what was packed.
pub proof fn packed_shard_unpacks_to_itself(content: Seq<u8>, file: Seq<u8>, back: Seq<u8>)
    requires
        zstd_content(file) == Some(content),
        zstd_content(file) == Some(back),
    ensures
        back == content,
{
}

/// A shard is deleted before its generation is written anew exactly if its name is
/// that of a shard of the generation, whatever its count; one of another generation
/// stays.
pub proof fn rewriting_deletes_its_own(gen: u32, len: usize, other: u32)
    ensures
        is_shard_of(shard_name(gen, len), other) <==> gen == other,
        is_restorable(shard_name(gen, len), other) <==> gen < other,
{
    shard_name_reads_back(gen, len);
    reveal_strlit("gen_");
    reveal_strlit("_n");
    reveal_strlit(".json.zst");
    reveal_strlit(".zst");
    let name = shard_name(gen, len);
    assert(name.skip(name.len() - 4) =~= ".zst"@);
}

/// Only files that are named as shards count as shards.
pub proof fn shards_are_named_so(name: Seq<char>)
    ensures
        parse_shard(name) is Some ==> text::starts_with(name, "gen_"@) && text::ends_with(
            name,
            ".json.zst"@,
        ),
{
    reveal_strlit("gen_");
    reveal_strlit(".json.zst");
    if parse_shard(name) is Some {
        let rest = name.skip(4);
        assert(rest.skip(rest.len() - 9) =~= name.skip(name.len() - 9));
    }
}

/// Older generations leave first: in the order in which shards are let go a
/// generation never stands behind a later one.
pub proof fn older_shards_leave_first(keys: Seq<ShardKey>, p: Seq<usize>, a: int, b: int)
    requires
        order::is_stable_order(keys, p),
        0 <= a < b < p.len(),
    ensures
        keys[p[a] as int].gen <= keys[p[b] as int].gen,
{
    assert(order::may_precede(keys, p[a], p[b]));
}

/// What is let go is what the capacity does not hold: lengths add up, and none is
/// let go that fits.
pub proof fn lengths_add_up(a: Seq<usize>, b: Seq<usize>)
    ensures
        len_sum(a + b) == len_sum(a) + len_sum(b),
        a.len() == 1 ==> len_sum(a) == a[0],
        len_sum(Seq::<usize>::empty()) == 0,
    decreases a.len(),
{
    if a.len() == 0 {
        assert(a + b =~= b);
    } else {
        lengths_add_up(a.skip(1), b);
        assert((a + b).skip(1) =~= a.skip(1) + b);
        if a.len() == 1 {
            assert(a.skip(1).len() == 0);
        }
    }
}

/// Shards are restored by name, so by generation: none is loaded before one whose
/// name stands before it.
pub proof fn shards_are_restored_by_name(keys: Seq<Vec<char>>, p: Seq<usize>, a: int, b: int)
    requires
        order::is_stable_order(keys, p),
        0 <= a < b < p.len(),
    ensures
        !order::text_below(keys[p[b] as int]@, keys[p[a] as int]@),
{
    assert(order::may_precede(keys, p[a], p[b]));
    order::SortKey::order_laws(keys[p[a] as int], keys[p[b] as int], keys[p[a] as int]);
}

/// The keys by which shards are let go are read off their names: one key for each
/// file whose name tells a generation and a number of samples, with just these.
pub proof fn keys_are_read_off_the_names(keys: Seq<ShardKey>, names: Seq<Vec<char>>)
    requires
        names.len() <= usize::MAX,
        are_keys(keys, names, shard_files(names)),
    ensures
        keys.len() <= names.len(),
        forall|j: int|
            0 <= j < keys.len() ==> parse_shard((#[trigger] keys[j]).name@) == Some(
                (keys[j].gen, keys[j].len),
            ),
        forall|i: int|
            0 <= i < names.len() && parse_shard((#[trigger] names[i])@) is Some ==> exists|j: int|
                0 <= j < keys.len() && (#[trigger] keys[j]).name@ == names[i]@,
{
    let keep = |i: int| parse_shard(names[i]@) is Some;
    let files = shard_files(names);
    lists::lemma_indices_where(names.len(), keep);
    assert forall|i: int|
        0 <= i < names.len() && parse_shard((#[trigger] names[i])@) is Some implies exists|j: int|
        0 <= j < keys.len() && (#[trigger] keys[j]).name@ == names[i]@ by {
        assert(keep(i));
        let j = choose|j: int| 0 <= j < files.len() && files[j] == i as usize;
        assert(keys[j].name@ == names[i]@);
    }
}

} // verus!

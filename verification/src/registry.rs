//! The league's external players: built-in heuristics and configured servers,
//! each under an id that stays the same for as long as the run lives.

use vstd::prelude::*;
use vstd::string::*;

use crate::order;
use crate::text;

verus! {

/// The flood-fill heuristic.
pub const HEURISTIC_GEN: u32 = 0xffff_ffff;

/// The Voronoi heuristic.
pub const VORONOI_GEN: u32 = 0xffff_fffe;

/// Configured players get ids from here downward.
pub const API_GEN_START: u32 = 0xffff_ffef;

/// Every id from here on is an external player's, not a checkpoint's.
pub const EXTERNAL_GEN_MIN: u32 = 0xffff_ff00;

/// One external player; `spec` is what seats it, a heuristic's token or a
/// server's url.
pub struct ExternalPlayer {
    pub gen: u32,
    pub name: String,
    pub spec: String,
}

/// The external players of a run: those in play, and all that ever were.
pub struct ExternalRegistry {
    pub active: Vec<ExternalPlayer>,
    pub known: Vec<ExternalPlayer>,
}

/// Why a configured player was skipped.
pub enum RosterError {
    /// The entry is no `name=url`.
    NotPair { entry: String },
    /// The entry lacks a name or an http(s) url.
    NeedsNameAndUrl { entry: String },
    /// The name is taken.
    Duplicate { name: String },
}

/// An external player, mathematically.
pub struct PlayerModel {
    pub gen: u32,
    pub name: Seq<char>,
    pub spec: Seq<char>,
}

/// Why a configured player was skipped, mathematically.
pub enum RosterErrorModel {
    NotPair { entry: Seq<char> },
    NeedsNameAndUrl { entry: Seq<char> },
    Duplicate { name: Seq<char> },
}

impl View for ExternalPlayer {
    type V = PlayerModel;

    open spec fn view(&self) -> PlayerModel {
        PlayerModel { gen: self.gen, name: self.name@, spec: self.spec@ }
    }
}

impl View for RosterError {
    type V = RosterErrorModel;

    open spec fn view(&self) -> RosterErrorModel {
        match self {
            RosterError::NotPair { entry } => RosterErrorModel::NotPair { entry: entry@ },
            RosterError::NeedsNameAndUrl { entry } => RosterErrorModel::NeedsNameAndUrl {
                entry: entry@,
            },
            RosterError::Duplicate { name } => RosterErrorModel::Duplicate { name: name@ },
        }
    }
}

/// The players of a list, mathematically.
pub open spec fn models(v: Seq<ExternalPlayer>) -> Seq<PlayerModel> {
    v.map_values(|p: ExternalPlayer| p@)
}

/// The errors of a list, mathematically.
pub open spec fn error_models(v: Seq<RosterError>) -> Seq<RosterErrorModel> {
    v.map_values(|e: RosterError| e@)
}

/// The texts of a list of strings.
pub open spec fn strings(v: Seq<String>) -> Seq<Seq<char>> {
    v.map_values(|s: String| s@)
}

/// Whether an id belongs to an external player.
pub fn is_external(gen: u32) -> (r: bool)
    ensures
        r == (gen >= EXTERNAL_GEN_MIN),
{
    gen >= EXTERNAL_GEN_MIN
}

/// The name of a player that no registry knows.
pub open spec fn fallback_name(gen: u32) -> Seq<char> {
    if gen == HEURISTIC_GEN {
        "floodfill"@
    } else if gen == VORONOI_GEN {
        "voronoi"@
    } else if gen >= EXTERNAL_GEN_MIN {
        "api_"@ + text::dec(
            if gen < API_GEN_START {
                (API_GEN_START - gen) as nat
            } else {
                0
            },
        )
    } else {
        "gen_"@ + text::dec_padded(gen as nat, 4)
    }
}

/// The name of a player that no registry knows.
pub fn player_name(gen: u32) -> (s: String)
    ensures
        s@ == fallback_name(gen),
{
    if gen == HEURISTIC_GEN {
        return "floodfill".to_owned();
    }
    if gen == VORONOI_GEN {
        return "voronoi".to_owned();
    }
    let mut s = String::new();
    if is_external(gen) {
        s.append("api_");
        text::push_dec(&mut s, API_GEN_START.saturating_sub(gen) as u64, 0);
        assert(s@ =~= fallback_name(gen));
    } else {
        s.append("gen_");
        text::push_dec(&mut s, gen as u64, 4);
        assert(s@ =~= fallback_name(gen));
    }
    s
}

/// The first player with the given id.
pub open spec fn find_gen(ps: Seq<PlayerModel>, gen: u32) -> Option<int>
    decreases ps.len(),
{
    if ps.len() == 0 {
        None
    } else {
        match find_gen(ps.drop_last(), gen) {
            Some(i) => Some(i),
            None => if ps.last().gen == gen {
                Some(ps.len() - 1)
            } else {
                None
            },
        }
    }
}

/// The first player with the given name.
pub open spec fn find_name(ps: Seq<PlayerModel>, name: Seq<char>) -> Option<int>
    decreases ps.len(),
{
    if ps.len() == 0 {
        None
    } else {
        match find_name(ps.drop_last(), name) {
            Some(i) => Some(i),
            None => if ps.last().name == name {
                Some(ps.len() - 1)
            } else {
                None
            },
        }
    }
}

proof fn lemma_find_gen(ps: Seq<PlayerModel>, gen: u32)
    ensures
        match find_gen(ps, gen) {
            Some(i) => 0 <= i < ps.len() && ps[i].gen == gen,
            None => forall|i: int| 0 <= i < ps.len() ==> (#[trigger] ps[i]).gen != gen,
        },
    decreases ps.len(),
{
    if ps.len() > 0 {
        let t = ps.drop_last();
        lemma_find_gen(t, gen);
        if find_gen(ps, gen) is None {
            assert forall|i: int| 0 <= i < ps.len() implies (#[trigger] ps[i]).gen != gen by {
                if i < t.len() {
                    assert(t[i] == ps[i]);
                }
            }
        }
    }
}

proof fn lemma_find_name(ps: Seq<PlayerModel>, name: Seq<char>)
    ensures
        match find_name(ps, name) {
            Some(i) => 0 <= i < ps.len() && ps[i].name == name,
            None => forall|i: int| 0 <= i < ps.len() ==> (#[trigger] ps[i]).name != name,
        },
    decreases ps.len(),
{
    if ps.len() > 0 {
        let t = ps.drop_last();
        lemma_find_name(t, name);
        if find_name(ps, name) is None {
            assert forall|i: int| 0 <= i < ps.len() implies (#[trigger] ps[i]).name != name by {
                if i < t.len() {
                    assert(t[i] == ps[i]);
                }
            }
        }
    }
}

/// The first player with the given id.
fn position_by_gen(ps: &Vec<ExternalPlayer>, gen: u32) -> (r: Option<usize>)
    ensures
        match r {
            Some(i) => i < ps@.len() && find_gen(models(ps@), gen) == Some(i as int),
            None => find_gen(models(ps@), gen) is None,
        },
{
    let mut i: usize = 0;
    let mut found: Option<usize> = None;
    assert(models(ps@).take(0) =~= Seq::<PlayerModel>::empty());
    while i < ps.len()
        invariant
            i <= ps@.len(),
            match found {
                Some(k) => k < i && find_gen(models(ps@).take(i as int), gen) == Some(k as int),
                None => find_gen(models(ps@).take(i as int), gen) is None,
            },
        decreases ps@.len() - i,
    {
        assert(models(ps@).take(i + 1).drop_last() =~= models(ps@).take(i as int));
        if found.is_none() && ps[i].gen == gen {
            found = Some(i);
        }
        i = i + 1;
    }
    assert(models(ps@).take(i as int) =~= models(ps@));
    found
}

/// The first player with the given name.
fn position_by_name(ps: &Vec<ExternalPlayer>, name: &Vec<char>) -> (r: Option<usize>)
    ensures
        match r {
            Some(i) => i < ps@.len() && find_name(models(ps@), name@) == Some(i as int),
            None => find_name(models(ps@), name@) is None,
        },
{
    let mut i: usize = 0;
    let mut found: Option<usize> = None;
    assert(models(ps@).take(0) =~= Seq::<PlayerModel>::empty());
    while i < ps.len()
        invariant
            i <= ps@.len(),
            match found {
                Some(k) => k < i && find_name(models(ps@).take(i as int), name@) == Some(k as int),
                None => find_name(models(ps@).take(i as int), name@) is None,
            },
        decreases ps@.len() - i,
    {
        assert(models(ps@).take(i + 1).drop_last() =~= models(ps@).take(i as int));
        let here = text::chars_of(ps[i].name.as_str());
        if found.is_none() && text::same_text(&here, name) {
            found = Some(i);
        }
        i = i + 1;
    }
    assert(models(ps@).take(i as int) =~= models(ps@));
    found
}

impl ExternalRegistry {
    /// The name that a registry gives a player.
    pub open spec fn name_of(&self, gen: u32) -> Seq<char> {
        match find_gen(models(self.known@), gen) {
            Some(i) => self.known@[i].name@,
            None => fallback_name(gen),
        }
    }

    /// The name of a known player.
    pub fn name(&self, gen: u32) -> (r: Option<&str>)
        ensures
            match r {
                Some(s) => find_gen(models(self.known@), gen) is Some && s@ == self.name_of(gen),
                None => find_gen(models(self.known@), gen) is None,
            },
    {
        match position_by_gen(&self.known, gen) {
            Some(i) => Some(self.known[i].name.as_str()),
            None => None,
        }
    }

    /// What seats a known player.
    pub fn spec(&self, gen: u32) -> (r: Option<&str>)
        ensures
            match r {
                Some(s) => find_gen(models(self.known@), gen) matches Some(i) && s@
                    == self.known@[i].spec@,
                None => find_gen(models(self.known@), gen) is None,
            },
    {
        match position_by_gen(&self.known, gen) {
            Some(i) => Some(self.known[i].spec.as_str()),
            None => None,
        }
    }

    /// The name of any player: the registry's, else one made from the id.
    pub fn display(&self, gen: u32) -> (s: String)
        ensures
            s@ == self.name_of(gen),
    {
        match self.name(gen) {
            Some(s) => text::copy_str(s),
            None => player_name(gen),
        }
    }
}

/// The built-in players.
pub open spec fn builtins() -> Seq<PlayerModel> {
    seq![
        PlayerModel { gen: HEURISTIC_GEN, name: "floodfill"@, spec: "heuristic"@ },
        PlayerModel { gen: VORONOI_GEN, name: "voronoi"@, spec: "voronoi"@ },
    ]
}

/// The lowest id that a saved configured player has.
pub open spec fn lowest_api(saved: Seq<PlayerModel>) -> Option<u32>
    decreases saved.len(),
{
    if saved.len() == 0 {
        None
    } else {
        let rest = lowest_api(saved.drop_last());
        let g = saved.last().gen;
        if g > API_GEN_START {
            rest
        } else {
            match rest {
                Some(m) => if g < m {
                    Some(g)
                } else {
                    rest
                },
                None => Some(g),
            }
        }
    }
}

/// The next id to hand out: one below the lowest in use.
pub open spec fn first_fresh(saved: Seq<PlayerModel>) -> int {
    match lowest_api(saved) {
        Some(m) => m - 1,
        None => API_GEN_START as int,
    }
}

/// What a configured entry says.
pub enum Entry {
    NotPair,
    NeedsNameAndUrl,
    Player { name: Seq<char>, url: Seq<char> },
}

/// What a configured entry says: a name and an http(s) url around the first
/// equals sign, white space and the url's final slashes aside.
pub open spec fn read_entry(e: Seq<char>) -> Entry {
    match text::index_of(e, '=') {
        None => Entry::NotPair,
        Some(i) => {
            let name = text::trimmed(e.take(i));
            let url = text::without_end_slashes(text::trimmed(e.skip(i + 1)));
            if name.len() == 0 || !(text::starts_with(url, "http://"@) || text::starts_with(
                url,
                "https://"@,
            )) {
                Entry::NeedsNameAndUrl
            } else {
                Entry::Player { name, url }
            }
        },
    }
}

/// A roster in the making: the players, the next fresh id and the errors.
pub struct Roster {
    pub active: Seq<PlayerModel>,
    pub next: int,
    pub errors: Seq<RosterErrorModel>,
}

/// A roster after one more entry: a saved name keeps its id, a new one gets
/// the next fresh id.
pub open spec fn with_entry(r: Roster, e: Seq<char>, saved: Seq<PlayerModel>) -> Roster {
    match read_entry(e) {
        Entry::NotPair => Roster {
            errors: r.errors.push(RosterErrorModel::NotPair { entry: e }),
            ..r
        },
        Entry::NeedsNameAndUrl => Roster {
            errors: r.errors.push(RosterErrorModel::NeedsNameAndUrl { entry: e }),
            ..r
        },
        Entry::Player { name, url } => if find_name(r.active, name) is Some {
            Roster { errors: r.errors.push(RosterErrorModel::Duplicate { name }), ..r }
        } else {
            match find_name(saved, name) {
                Some(i) => Roster {
                    active: r.active.push(PlayerModel { gen: saved[i].gen, name, spec: url }),
                    ..r
                },
                None => Roster {
                    active: r.active.push(PlayerModel { gen: r.next as u32, name, spec: url }),
                    next: r.next - 1,
                    ..r
                },
            }
        },
    }
}

/// The roster of a list of entries.
pub open spec fn roster(entries: Seq<Seq<char>>, saved: Seq<PlayerModel>) -> Roster
    decreases entries.len(),
{
    if entries.len() == 0 {
        Roster { active: builtins(), next: first_fresh(saved), errors: Seq::empty() }
    } else {
        with_entry(roster(entries.drop_last(), saved), entries.last(), saved)
    }
}

/// Whether there is an id for every new player, and one to spare.
pub open spec fn ids_suffice(entries: Seq<Seq<char>>, saved: Seq<PlayerModel>) -> bool {
    roster(entries, saved).next >= 0
}

/// The next fresh id only ever falls.
proof fn lemma_ids_fall(entries: Seq<Seq<char>>, saved: Seq<PlayerModel>, k: int)
    requires
        0 <= k <= entries.len(),
    ensures
        roster(entries, saved).next <= roster(entries.take(k), saved).next,
        roster(entries.take(k), saved).next <= first_fresh(saved),
    decreases entries.len(),
{
    if entries.len() > 0 {
        let es = entries.drop_last();
        if k < entries.len() {
            lemma_ids_fall(es, saved, k);
            assert(es.take(k) =~= entries.take(k));
        } else {
            lemma_ids_fall(es, saved, k - 1);
            assert(entries.take(k) =~= entries);
        }
    } else {
        assert(entries.take(k) =~= entries);
    }
}

/// All players ever seen: the active ones, then the saved ones whose id is not
/// among them.
pub open spec fn merged(active: Seq<PlayerModel>, saved: Seq<PlayerModel>) -> Seq<PlayerModel>
    decreases saved.len(),
{
    if saved.len() == 0 {
        active
    } else {
        let rest = merged(active, saved.drop_last());
        if find_gen(rest, saved.last().gen) is Some {
            rest
        } else {
            rest.push(saved.last())
        }
    }
}

/// Whether `sorted` lists the same players by descending id.
pub open spec fn is_sorted_down(ps: Seq<PlayerModel>, sorted: Seq<PlayerModel>) -> bool {
    exists|p: Seq<usize>| #[trigger]
        order::is_stable_order(down_keys(ps), p) && sorted == p.map_values(|i: usize| ps[i as int])
}

/// The sort keys of players by descending id.
pub open spec fn down_keys(ps: Seq<PlayerModel>) -> Seq<u64> {
    ps.map_values(|p: PlayerModel| (u64::MAX - p.gen) as u64)
}

/// A copy of a player.
fn copy_player(p: &ExternalPlayer) -> (q: ExternalPlayer)
    ensures
        q@ == p@,
{
    ExternalPlayer {
        gen: p.gen,
        name: text::copy_str(p.name.as_str()),
        spec: text::copy_str(p.spec.as_str()),
    }
}

/// The built-in players.
fn builtin_players() -> (v: Vec<ExternalPlayer>)
    ensures
        models(v@) == builtins(),
{
    let mut v: Vec<ExternalPlayer> = Vec::new();
    v.push(
        ExternalPlayer {
            gen: HEURISTIC_GEN,
            name: "floodfill".to_owned(),
            spec: "heuristic".to_owned(),
        },
    );
    v.push(
        ExternalPlayer {
            gen: VORONOI_GEN,
            name: "voronoi".to_owned(),
            spec: "voronoi".to_owned(),
        },
    );
    assert(models(v@) =~= builtins());
    v
}

/// The next id to hand out.
fn fresh_start(saved: &Vec<ExternalPlayer>) -> (g: i64)
    ensures
        g == first_fresh(models(saved@)),
{
    let mut low: Option<u32> = None;
    let mut i: usize = 0;
    let ghost all = models(saved@);
    assert(all.take(0) =~= Seq::<PlayerModel>::empty());
    while i < saved.len()
        invariant
            i <= saved@.len(),
            all == models(saved@),
            low == lowest_api(all.take(i as int)),
        decreases saved@.len() - i,
    {
        assert(all.take(i + 1).drop_last() =~= all.take(i as int));
        let g: u32 = saved[i].gen;
        if g <= API_GEN_START {
            low = match low {
                Some(m) => if g < m {
                    Some(g)
                } else {
                    low
                },
                None => Some(g),
            };
        }
        i = i + 1;
    }
    assert(all.take(i as int) =~= all);
    match low {
        Some(m) => m as i64 - 1,
        None => API_GEN_START as i64,
    }
}

/// A configured entry, read.
enum ReadEntry {
    NotPair,
    NeedsNameAndUrl,
    Player(Vec<char>, Vec<char>),
}

/// Reads a configured entry.
fn parse_entry(e: &Vec<char>) -> (r: ReadEntry)
    ensures
        match r {
            ReadEntry::NotPair => read_entry(e@) == Entry::NotPair,
            ReadEntry::NeedsNameAndUrl => read_entry(e@) == Entry::NeedsNameAndUrl,
            ReadEntry::Player(n, u) => read_entry(e@) == (Entry::Player { name: n@, url: u@ }),
        },
{
    let i: usize = match text::find_char(e, '=') {
        Some(i) => i,
        None => {
            return ReadEntry::NotPair;
        },
    };
    let len: usize = e.len();
    let (a, b): (usize, usize) = text::trim_range(e, 0, i);
    let (c, d): (usize, usize) = text::trim_range(e, i + 1, len);
    let f: usize = text::trim_end_slashes(e, c, d);
    assert(e@.subrange(0, i as int) =~= e@.take(i as int));
    assert(e@.subrange(i + 1, len as int) =~= e@.skip(i + 1));
    let name = text::copy_range(e, a, b);
    let url = text::copy_range(e, c, f);
    if name.len() == 0 || !(text::has_prefix(&url, "http://") || text::has_prefix(
        &url,
        "https://",
    )) {
        return ReadEntry::NeedsNameAndUrl;
    }
    ReadEntry::Player(name, url)
}

/// Resolves the external players of a run: the built-in ones, then the
/// configured entries `name=url`, skipping those that are malformed or whose
/// name is taken. `saved` are the players of earlier times; a name found there
/// keeps its id, and all of them stay known.
pub fn load_external_registry(entries: &Vec<String>, saved: &Vec<ExternalPlayer>) -> (r: (
    ExternalRegistry,
    Vec<RosterError>,
))
    requires
        ids_suffice(strings(entries@), models(saved@)),
    ensures
        models(r.0.active@) == roster(strings(entries@), models(saved@)).active,
        error_models(r.1@) == roster(strings(entries@), models(saved@)).errors,
        is_sorted_down(merged(models(r.0.active@), models(saved@)), models(r.0.known@)),
{
    let ghost sv = models(saved@);
    let ghost es = strings(entries@);
    let mut active = builtin_players();
    let mut errors: Vec<RosterError> = Vec::new();
    let mut next: i64 = fresh_start(saved);
    let mut i: usize = 0;
    proof {
        assert(es.take(0) =~= Seq::<Seq<char>>::empty());
        assert(error_models(errors@) =~= Seq::<RosterErrorModel>::empty());
        lemma_lowest_bound(sv);
    }
    while i < entries.len()
        invariant
            i <= entries@.len(),
            sv == models(saved@),
            es == strings(entries@),
            ids_suffice(es, sv),
            first_fresh(sv) <= API_GEN_START,
            next <= first_fresh(sv),
            models(active@) == roster(es.take(i as int), sv).active,
            next == roster(es.take(i as int), sv).next,
            error_models(errors@) == roster(es.take(i as int), sv).errors,
        decreases entries@.len() - i,
    {
        assert(es.take(i + 1).drop_last() =~= es.take(i as int));
        assert(es.take(i + 1).last() == entries@[i as int]@);
        proof {
            lemma_ids_fall(es, sv, i as int);
            lemma_ids_fall(es, sv, i + 1);
        }
        let ghost (a0, e0) = (active@, errors@);
        let entry = text::chars_of(entries[i].as_str());
        match parse_entry(&entry) {
            ReadEntry::NotPair => {
                errors.push(RosterError::NotPair { entry: text::copy_str(entries[i].as_str()) });
                assert(error_models(errors@) =~= error_models(e0).push(
                    RosterErrorModel::NotPair { entry: entry@ },
                ));
            },
            ReadEntry::NeedsNameAndUrl => {
                errors.push(
                    RosterError::NeedsNameAndUrl { entry: text::copy_str(entries[i].as_str()) },
                );
                assert(error_models(errors@) =~= error_models(e0).push(
                    RosterErrorModel::NeedsNameAndUrl { entry: entry@ },
                ));
            },
            ReadEntry::Player(name, url) => {
                if position_by_name(&active, &name).is_some() {
                    errors.push(RosterError::Duplicate { name: text::string_of(&name) });
                    assert(error_models(errors@) =~= error_models(e0).push(
                        RosterErrorModel::Duplicate { name: name@ },
                    ));
                } else {
                    let gen: u32 = match position_by_name(saved, &name) {
                        Some(k) => saved[k].gen,
                        None => {
                            let g: u32 = next as u32;
                            next = next - 1;
                            g
                        },
                    };
                    active.push(
                        ExternalPlayer {
                            gen,
                            name: text::string_of(&name),
                            spec: text::string_of(&url),
                        },
                    );
                    assert(models(active@) =~= models(a0).push(
                        PlayerModel { gen, name: name@, spec: url@ },
                    ));
                }
            },
        }
        i = i + 1;
    }
    assert(es.take(i as int) =~= es);
    let known = merge_known(&active, saved);
    (ExternalRegistry { active, known }, errors)
}

/// All players ever seen, by descending id.
fn merge_known(active: &Vec<ExternalPlayer>, saved: &Vec<ExternalPlayer>) -> (known: Vec<
    ExternalPlayer,
>)
    ensures
        is_sorted_down(merged(models(active@), models(saved@)), models(known@)),
{
    let ghost (am, sm) = (models(active@), models(saved@));
    let mut all: Vec<ExternalPlayer> = Vec::new();
    let mut i: usize = 0;
    while i < active.len()
        invariant
            i <= active@.len(),
            am == models(active@),
            models(all@) == am.take(i as int),
        decreases active@.len() - i,
    {
        let ghost before = all@;
        let p = copy_player(&active[i]);
        all.push(p);
        i = i + 1;
        assert(models(all@) =~= models(before).push(p@));
        assert(am.take(i as int) =~= am.take(i - 1).push(am[i - 1]));
    }
    assert(am.take(i as int) =~= am);
    let mut j: usize = 0;
    assert(sm.take(0) =~= Seq::<PlayerModel>::empty());
    while j < saved.len()
        invariant
            j <= saved@.len(),
            sm == models(saved@),
            models(all@) == merged(am, sm.take(j as int)),
        decreases saved@.len() - j,
    {
        assert(sm.take(j + 1).drop_last() =~= sm.take(j as int));
        let ghost before = all@;
        if position_by_gen(&all, saved[j].gen).is_none() {
            let p = copy_player(&saved[j]);
            all.push(p);
            assert(models(all@) =~= models(before).push(p@));
        }
        j = j + 1;
    }
    assert(sm.take(j as int) =~= sm);
    let ghost ms = models(all@);
    let mut keys: Vec<u64> = Vec::new();
    let mut k: usize = 0;
    while k < all.len()
        invariant
            k <= all@.len(),
            ms == models(all@),
            keys@ == down_keys(ms).take(k as int),
        decreases all@.len() - k,
    {
        keys.push(u64::MAX - all[k].gen as u64);
        k = k + 1;
        assert(keys@ =~= down_keys(ms).take(k as int));
    }
    assert(keys@ =~= down_keys(ms));
    let p = order::stable_order(&keys);
    let mut known: Vec<ExternalPlayer> = Vec::new();
    let mut m: usize = 0;
    while m < p.len()
        invariant
            m <= p@.len(),
            ms == models(all@),
            p@.len() == all@.len(),
            forall|x: int| 0 <= x < p@.len() ==> #[trigger] p@[x] < all@.len(),
            models(known@) == p@.take(m as int).map_values(|i: usize| ms[i as int]),
        decreases p@.len() - m,
    {
        let ghost before = known@;
        let q = copy_player(&all[p[m]]);
        known.push(q);
        m = m + 1;
        assert(models(known@) =~= models(before).push(q@));
        assert(p@.take(m as int).map_values(|i: usize| ms[i as int]) =~= p@.take(
            m - 1,
        ).map_values(|i: usize| ms[i as int]).push(ms[p@[m - 1] as int]));
    }
    assert(p@.take(m as int) =~= p@);
    assert(order::is_stable_order(down_keys(ms), p@));
    known
}

/// What `std`'s `{:?}` makes of a string: the string in quotes, with escapes.
pub uninterp spec fn quoted(s: Seq<char>) -> Seq<char>;

/// `std::format!` with `{:?}` on a string: its quoted form, a function of the
/// string alone. What the escapes are is left unsaid.
#[verifier::external_body]
fn quote(s: &str) -> (q: String)
    ensures
        q@ == quoted(s@),
{
    format!("{s:?}")
}

impl RosterErrorModel {
    /// The error in words.
    pub open spec fn text(self) -> Seq<char> {
        match self {
            RosterErrorModel::NotPair { entry } => "league_api_players entry "@ + quoted(entry)
                + " is not \"name=url\"; skipped"@,
            RosterErrorModel::NeedsNameAndUrl { entry } => "league_api_players entry "@ + quoted(
                entry,
            ) + " needs a name and an http(s) url; skipped"@,
            RosterErrorModel::Duplicate { name } => "duplicate league player name "@ + quoted(name)
                + "; skipped"@,
        }
    }
}

impl RosterError {
    /// The error in words.
    pub fn message(&self) -> (m: String)
        ensures
            m@ == self@.text(),
    {
        let mut m = String::new();
        match self {
            RosterError::NotPair { entry } => {
                m.append("league_api_players entry ");
                let q = quote(entry.as_str());
                m.append(q.as_str());
                m.append(" is not \"name=url\"; skipped");
            },
            RosterError::NeedsNameAndUrl { entry } => {
                m.append("league_api_players entry ");
                let q = quote(entry.as_str());
                m.append(q.as_str());
                m.append(" needs a name and an http(s) url; skipped");
            },
            RosterError::Duplicate { name } => {
                m.append("duplicate league player name ");
                let q = quote(name.as_str());
                m.append(q.as_str());
                m.append("; skipped");
            },
        }
        assert(m@ =~= self@.text());
        m
    }
}

/// Whether no two players share a name.
pub open spec fn names_distinct(ps: Seq<PlayerModel>) -> bool {
    forall|i: int, j: int|
        0 <= i < j < ps.len() ==> (#[trigger] ps[i]).name != (#[trigger] ps[j]).name
}

/// Whether no two players share an id.
pub open spec fn gens_distinct(ps: Seq<PlayerModel>) -> bool {
    forall|i: int, j: int|
        0 <= i < j < ps.len() ==> (#[trigger] ps[i]).gen != (#[trigger] ps[j]).gen
}

/// Whether a player is one of the built-in ones, by id and name.
pub open spec fn is_builtin(p: PlayerModel) -> bool {
    (p.gen == HEURISTIC_GEN && p.name == "floodfill"@) || (p.gen == VORONOI_GEN && p.name
        == "voronoi"@)
}

/// Whether a player carries a configured player's id and no built-in name.
pub open spec fn is_configured(p: PlayerModel) -> bool {
    p.gen <= API_GEN_START && p.name != "floodfill"@ && p.name != "voronoi"@
}

/// Whether saved players are in good order: names and ids are distinct, and
/// the built-in ids and names belong together.
pub open spec fn saved_wf(saved: Seq<PlayerModel>) -> bool {
    &&& names_distinct(saved)
    &&& gens_distinct(saved)
    &&& forall|i: int|
        0 <= i < saved.len() ==> is_builtin(#[trigger] saved[i]) || is_configured(saved[i])
}

proof fn lemma_lowest(saved: Seq<PlayerModel>, i: int)
    requires
        0 <= i < saved.len(),
        saved[i].gen <= API_GEN_START,
    ensures
        first_fresh(saved) < saved[i].gen,
        first_fresh(saved) < API_GEN_START,
    decreases saved.len(),
{
    let t = saved.drop_last();
    if i < t.len() {
        assert(t[i] == saved[i]);
        lemma_lowest(t, i);
        lemma_lowest_bound(t);
    } else {
        lemma_lowest_bound(t);
    }
}

proof fn lemma_lowest_bound(saved: Seq<PlayerModel>)
    ensures
        lowest_api(saved) matches Some(m) ==> m <= API_GEN_START,
        first_fresh(saved) <= API_GEN_START,
    decreases saved.len(),
{
    if saved.len() > 0 {
        lemma_lowest_bound(saved.drop_last());
    }
}

/// Whether an active player's id is what it should be: a built-in one's own,
/// the saved one of its name, or a fresh one between `next` and `start`.
pub open spec fn id_origin(p: PlayerModel, saved: Seq<PlayerModel>, next: int, start: int) -> bool {
    ||| is_builtin(p)
    ||| is_configured(p) && match find_name(saved, p.name) {
        Some(i) => p.gen == saved[i].gen,
        None => next < p.gen <= start,
    }
}

/// Whether a roster is in good order.
pub open spec fn roster_wf(r: Roster, saved: Seq<PlayerModel>) -> bool {
    &&& r.active.len() >= 2
    &&& r.active[0] == builtins()[0]
    &&& r.active[1] == builtins()[1]
    &&& names_distinct(r.active)
    &&& gens_distinct(r.active)
    &&& r.next <= first_fresh(saved)
    &&& forall|i: int|
        0 <= i < r.active.len() ==> id_origin(
            #[trigger] r.active[i],
            saved,
            r.next,
            first_fresh(saved),
        )
}

proof fn lemma_builtin_names_differ()
    ensures
        "floodfill"@ != "voronoi"@,
{
    reveal_strlit("floodfill");
    reveal_strlit("voronoi");
    assert("floodfill"@.len() != "voronoi"@.len());
}

proof fn lemma_roster_wf(entries: Seq<Seq<char>>, saved: Seq<PlayerModel>)
    requires
        saved_wf(saved),
        ids_suffice(entries, saved),
    ensures
        roster_wf(roster(entries, saved), saved),
    decreases entries.len(),
{
    lemma_builtin_names_differ();
    lemma_lowest_bound(saved);
    if entries.len() > 0 {
        let es = entries.drop_last();
        lemma_ids_fall(entries, saved, es.len() as int);
        assert(entries.take(es.len() as int) =~= es);
        lemma_roster_wf(es, saved);
        let r = roster(es, saved);
        let e = entries.last();
        let s = with_entry(r, e, saved);
        match read_entry(e) {
            Entry::Player { name, url } => {
                lemma_find_name(r.active, name);
                lemma_find_name(saved, name);
                if find_name(r.active, name) is None {
                    assert(r.active[0].name != name);
                    assert(r.active[1].name != name);
                    let p = s.active.last();
                    match find_name(saved, name) {
                        Some(i) => {
                            assert(is_builtin(saved[i]) || is_configured(saved[i]));
                            assert(is_configured(p));
                            assert forall|k: int| 0 <= k < r.active.len() implies (
                            #[trigger] r.active[k]).gen != p.gen by {
                                let q = r.active[k];
                                assert(id_origin(q, saved, r.next, first_fresh(saved)));
                                if is_configured(q) {
                                    lemma_find_name(saved, q.name);
                                    match find_name(saved, q.name) {
                                        Some(j) => {
                                            assert(saved[i].name != saved[j].name);
                                            assert(i != j);
                                        },
                                        None => {
                                            lemma_lowest(saved, i);
                                        },
                                    }
                                }
                            }
                        },
                        None => {
                            assert(is_configured(p));
                            assert forall|k: int| 0 <= k < r.active.len() implies (
                            #[trigger] r.active[k]).gen != p.gen by {
                                let q = r.active[k];
                                assert(id_origin(q, saved, r.next, first_fresh(saved)));
                                if is_configured(q) {
                                    lemma_find_name(saved, q.name);
                                    match find_name(saved, q.name) {
                                        Some(j) => {
                                            lemma_lowest(saved, j);
                                        },
                                        None => {},
                                    }
                                }
                            }
                        },
                    }
                    assert forall|k: int| 0 <= k < s.active.len() implies id_origin(
                        #[trigger] s.active[k],
                        saved,
                        s.next,
                        first_fresh(saved),
                    ) by {
                        if k < r.active.len() {
                            assert(s.active[k] == r.active[k]);
                            assert(id_origin(r.active[k], saved, r.next, first_fresh(saved)));
                        }
                    }
                    assert(names_distinct(s.active)) by {
                        assert forall|a: int, b: int| 0 <= a < b < s.active.len() implies (
                        #[trigger] s.active[a]).name != (#[trigger] s.active[b]).name by {
                            assert(s.active[a] == r.active[a]);
                            if b < r.active.len() {
                                assert(s.active[b] == r.active[b]);
                            }
                        }
                    }
                    assert(gens_distinct(s.active)) by {
                        assert forall|a: int, b: int| 0 <= a < b < s.active.len() implies (
                        #[trigger] s.active[a]).gen != (#[trigger] s.active[b]).gen by {
                            assert(s.active[a] == r.active[a]);
                            if b < r.active.len() {
                                assert(s.active[b] == r.active[b]);
                            }
                        }
                    }
                } else {
                    assert(s.active == r.active);
                }
            },
            _ => {
                assert(s.active == r.active);
            },
        }
    }
}

/// No two active players share an id or a name, whatever the configuration.
pub proof fn active_ids_are_distinct(entries: Seq<Seq<char>>, saved: Seq<PlayerModel>)
    requires
        saved_wf(saved),
        ids_suffice(entries, saved),
    ensures
        gens_distinct(roster(entries, saved).active),
        names_distinct(roster(entries, saved).active),
{
    lemma_roster_wf(entries, saved);
}

/// A configured player whose name was seen before keeps its id, wherever its
/// entry stands and whatever its url has become; one whose name is new gets an
/// id below all that are in use.
pub proof fn names_keep_their_ids(entries: Seq<Seq<char>>, saved: Seq<PlayerModel>, i: int)
    requires
        saved_wf(saved),
        ids_suffice(entries, saved),
        2 <= i < roster(entries, saved).active.len(),
    ensures
        ({
            let p = roster(entries, saved).active[i];
            match find_name(saved, p.name) {
                Some(k) => p.gen == saved[k].gen,
                None => p.gen <= first_fresh(saved),
            }
        }),
{
    lemma_roster_wf(entries, saved);
    lemma_builtin_names_differ();
    let r = roster(entries, saved);
    let p = r.active[i];
    assert(id_origin(p, saved, r.next, first_fresh(saved)));
    assert(r.active[0].name != r.active[i].name);
    assert(r.active[1].name != r.active[i].name);
}

proof fn lemma_merged_keeps_active(active: Seq<PlayerModel>, saved: Seq<PlayerModel>)
    ensures
        merged(active, saved).len() >= active.len(),
        merged(active, saved).take(active.len() as int) == active,
    decreases saved.len(),
{
    if saved.len() == 0 {
        assert(active.take(active.len() as int) =~= active);
    } else {
        lemma_merged_keeps_active(active, saved.drop_last());
        assert(merged(active, saved).take(active.len() as int) =~= active);
    }
}

/// Everybody who is active or was ever saved stays known, by id.
pub proof fn known_forgets_nobody(active: Seq<PlayerModel>, saved: Seq<PlayerModel>, gen: u32)
    requires
        find_gen(active, gen) is Some || find_gen(saved, gen) is Some,
    ensures
        find_gen(merged(active, saved), gen) is Some,
    decreases saved.len(),
{
    if saved.len() == 0 {
    } else {
        let t = saved.drop_last();
        let rest = merged(active, t);
        if find_gen(active, gen) is Some || find_gen(t, gen) is Some {
            known_forgets_nobody(active, t, gen);
            if find_gen(rest, saved.last().gen) is None {
                assert(rest.push(saved.last()).drop_last() =~= rest);
            }
        } else {
            assert(saved.last().gen == gen);
            if find_gen(rest, gen) is None {
                assert(rest.push(saved.last()).drop_last() =~= rest);
            }
        }
    }
}

/// What the players of `merged` beyond the active ones are: saved ones.
proof fn lemma_merged_origin(active: Seq<PlayerModel>, saved: Seq<PlayerModel>, i: int)
    requires
        0 <= i < merged(active, saved).len(),
    ensures
        (i < active.len() && merged(active, saved)[i] == active[i]) || (exists|j: int|
            0 <= j < saved.len() && #[trigger] saved[j] == merged(active, saved)[i]),
    decreases saved.len(),
{
    if saved.len() > 0 {
        let t = saved.drop_last();
        let rest = merged(active, t);
        if i < rest.len() {
            lemma_merged_origin(active, t, i);
            if !(i < active.len() && rest[i] == active[i]) {
                let j = choose|j: int| 0 <= j < t.len() && #[trigger] t[j] == rest[i];
                assert(saved[j] == merged(active, saved)[i]);
            }
        } else {
            assert(saved[saved.len() - 1] == merged(active, saved)[i]);
        }
    }
}

proof fn lemma_merged_gens_distinct(active: Seq<PlayerModel>, saved: Seq<PlayerModel>)
    requires
        gens_distinct(active),
    ensures
        gens_distinct(merged(active, saved)),
    decreases saved.len(),
{
    if saved.len() > 0 {
        let t = saved.drop_last();
        lemma_merged_gens_distinct(active, t);
        let rest = merged(active, t);
        lemma_find_gen(rest, saved.last().gen);
        if find_gen(rest, saved.last().gen) is None {
            let m = rest.push(saved.last());
            assert forall|a: int, b: int| 0 <= a < b < m.len() implies (#[trigger] m[a]).gen != (
            #[trigger] m[b]).gen by {
                assert(m[a] == rest[a]);
                if b < rest.len() {
                    assert(m[b] == rest[b]);
                }
            }
        }
    }
}

/// A player of `merged` with an active player's name is that active player.
proof fn lemma_merged_name_is_active(
    entries: Seq<Seq<char>>,
    saved: Seq<PlayerModel>,
    k: int,
    i: int,
)
    requires
        saved_wf(saved),
        ids_suffice(entries, saved),
        0 <= i < roster(entries, saved).active.len(),
        0 <= k < merged(roster(entries, saved).active, saved).len(),
        merged(roster(entries, saved).active, saved)[k].name == roster(entries, saved).active[i].name,
    ensures
        merged(roster(entries, saved).active, saved)[k].gen == roster(entries, saved).active[i].gen,
{
    lemma_roster_wf(entries, saved);
    lemma_builtin_names_differ();
    let r = roster(entries, saved);
    let m = merged(r.active, saved);
    lemma_merged_origin(r.active, saved, k);
    if k < r.active.len() && m[k] == r.active[k] {
        if k < i {
            assert(r.active[k].name != r.active[i].name);
        } else if i < k {
            assert(r.active[i].name != r.active[k].name);
        }
    } else {
        let j = choose|j: int| 0 <= j < saved.len() && #[trigger] saved[j] == m[k];
        let p = r.active[i];
        assert(id_origin(p, saved, r.next, first_fresh(saved)));
        assert(is_builtin(saved[j]) || is_configured(saved[j]));
        if is_configured(p) {
            lemma_find_name(saved, p.name);
            match find_name(saved, p.name) {
                Some(q) => {
                    if q < j {
                        assert(saved[q].name != saved[j].name);
                    } else if j < q {
                        assert(saved[j].name != saved[q].name);
                    }
                },
                None => {
                    assert(saved[j].name != p.name);
                },
            }
        }
    }
}

/// What is known after a resolution is in good order for the next one, and has
/// every active player under its id.
pub proof fn known_players_stay_in_order(
    entries: Seq<Seq<char>>,
    saved: Seq<PlayerModel>,
    known: Seq<PlayerModel>,
)
    requires
        saved_wf(saved),
        ids_suffice(entries, saved),
        is_sorted_down(merged(roster(entries, saved).active, saved), known),
        known.len() <= usize::MAX,
    ensures
        saved_wf(known),
        forall|i: int|
            0 <= i < roster(entries, saved).active.len() ==> (find_name(
                known,
                (#[trigger] roster(entries, saved).active[i]).name,
            ) matches Some(k) && known[k].gen == roster(entries, saved).active[i].gen),
{
    lemma_roster_wf(entries, saved);
    lemma_builtin_names_differ();
    let r = roster(entries, saved);
    let m = merged(r.active, saved);
    let p = choose|p: Seq<usize>| #[trigger]
        order::is_stable_order(down_keys(m), p) && known == p.map_values(|i: usize| m[i as int]);
    lemma_merged_gens_distinct(r.active, saved);
    lemma_merged_keeps_active(r.active, saved);
    assert forall|a: int, b: int| 0 <= a < b < m.len() implies (#[trigger] m[a]).name != (
    #[trigger] m[b]).name by {
        if m[a].name == m[b].name {
            // Two players of one name would have one id.
            lemma_merged_origin(r.active, saved, a);
            lemma_merged_origin(r.active, saved, b);
            if a < r.active.len() && m[a] == r.active[a] {
                lemma_merged_name_is_active(entries, saved, b, a);
            } else if b < r.active.len() && m[b] == r.active[b] {
                lemma_merged_name_is_active(entries, saved, a, b);
            } else {
                let ja = choose|j: int| 0 <= j < saved.len() && #[trigger] saved[j] == m[a];
                let jb = choose|j: int| 0 <= j < saved.len() && #[trigger] saved[j] == m[b];
                if ja < jb {
                    assert(saved[ja].name != saved[jb].name);
                } else if jb < ja {
                    assert(saved[jb].name != saved[ja].name);
                }
            }
            assert(m[a].gen == m[b].gen);
        }
    }
    assert forall|a: int, b: int| 0 <= a < b < known.len() implies (#[trigger] known[a]).name != (
    #[trigger] known[b]).name && known[a].gen != known[b].gen by {
        let (x, y) = (p[a], p[b]);
        assert(x != y);
        assert(known[a] == m[x as int]);
        assert(known[b] == m[y as int]);
        if x < y {
            assert(m[x as int].name != m[y as int].name);
            assert(m[x as int].gen != m[y as int].gen);
        } else {
            assert(m[y as int].name != m[x as int].name);
            assert(m[y as int].gen != m[x as int].gen);
        }
    }
    assert forall|a: int| 0 <= a < known.len() implies is_builtin(#[trigger] known[a])
        || is_configured(known[a]) by {
        let x = p[a] as int;
        assert(known[a] == m[x]);
        lemma_merged_origin(r.active, saved, x);
        if x < r.active.len() && m[x] == r.active[x] {
            assert(id_origin(r.active[x], saved, r.next, first_fresh(saved)));
        } else {
            let j = choose|j: int| 0 <= j < saved.len() && #[trigger] saved[j] == m[x];
            assert(is_builtin(saved[j]) || is_configured(saved[j]));
        }
    }
    assert forall|i: int| 0 <= i < r.active.len() implies (find_name(
        known,
        (#[trigger] r.active[i]).name,
    ) matches Some(k) && known[k].gen == r.active[i].gen) by {
        lemma_find_name(known, r.active[i].name);
        crate::lists::lemma_permutation_covers(p, m.len(), i);
        let at = choose|at: int| 0 <= at < p.len() && p[at] == i as usize;
        assert(m.take(r.active.len() as int)[i] == r.active[i]);
        assert(m[i] == r.active[i]);
        assert(known[at] == m[i]);
        match find_name(known, r.active[i].name) {
            Some(k) => {
                let x = p[k] as int;
                assert(known[k] == m[x]);
                lemma_merged_name_is_active(entries, saved, x, i);
            },
            None => {
                assert(known[at].name != r.active[i].name);
            },
        }
    }
}

/// Ids are stable across restarts and edits of the configuration: a player
/// that was active once, and whose name is configured again in any later
/// configuration, has the same id there, wherever its entry stands and
/// whatever its url.
pub proof fn ids_survive_restarts_and_reorders(
    entries: Seq<Seq<char>>,
    saved: Seq<PlayerModel>,
    known: Seq<PlayerModel>,
    later: Seq<Seq<char>>,
    i: int,
    j: int,
)
    requires
        saved_wf(saved),
        ids_suffice(entries, saved),
        is_sorted_down(merged(roster(entries, saved).active, saved), known),
        known.len() <= usize::MAX,
        ids_suffice(later, known),
        0 <= i < roster(entries, saved).active.len(),
        0 <= j < roster(later, known).active.len(),
        roster(entries, saved).active[i].name == roster(later, known).active[j].name,
    ensures
        roster(entries, saved).active[i].gen == roster(later, known).active[j].gen,
{
    known_players_stay_in_order(entries, saved, known);
    lemma_roster_wf(later, known);
    lemma_roster_wf(entries, saved);
    lemma_builtin_names_differ();
    let (a, b) = (roster(entries, saved).active[i], roster(later, known).active[j]);
    let r = roster(later, known);
    assert(id_origin(b, known, r.next, first_fresh(known)));
    assert(find_name(known, a.name) matches Some(k) && known[k].gen == a.gen);
    if is_builtin(b) {
        let k = find_name(known, a.name).unwrap();
        lemma_find_name(known, a.name);
        assert(is_builtin(known[k]) || is_configured(known[k]));
    }
}

/// A saved player whose id is active is active under its own name.
proof fn lemma_active_id_is_own(
    entries: Seq<Seq<char>>,
    saved: Seq<PlayerModel>,
    i: int,
    j: int,
)
    requires
        saved_wf(saved),
        ids_suffice(entries, saved),
        0 <= i < roster(entries, saved).active.len(),
        0 <= j < saved.len(),
        roster(entries, saved).active[i].gen == saved[j].gen,
    ensures
        roster(entries, saved).active[i].name == saved[j].name,
{
    lemma_roster_wf(entries, saved);
    lemma_builtin_names_differ();
    let r = roster(entries, saved);
    let p = r.active[i];
    assert(id_origin(p, saved, r.next, first_fresh(saved)));
    assert(is_builtin(saved[j]) || is_configured(saved[j]));
    if is_configured(p) {
        lemma_find_name(saved, p.name);
        match find_name(saved, p.name) {
            Some(k) => {
                if k < j {
                    assert(saved[k].gen != saved[j].gen);
                } else if j < k {
                    assert(saved[j].gen != saved[k].gen);
                }
            },
            None => {
                lemma_lowest(saved, j);
            },
        }
    }
}

/// A resolution loses nobody: every saved player stays known under its id and
/// its name, every active player is known as it is active, and the known
/// players stand by strictly descending id.
pub proof fn resolution_keeps_everybody(
    entries: Seq<Seq<char>>,
    saved: Seq<PlayerModel>,
    known: Seq<PlayerModel>,
)
    requires
        saved_wf(saved),
        ids_suffice(entries, saved),
        is_sorted_down(merged(roster(entries, saved).active, saved), known),
        known.len() <= usize::MAX,
    ensures
        forall|j: int|
            0 <= j < saved.len() ==> exists|k: int|
                0 <= k < known.len() && (#[trigger] known[k]).gen == (#[trigger] saved[j]).gen
                    && known[k].name == saved[j].name,
        forall|i: int|
            0 <= i < roster(entries, saved).active.len() ==> known.contains(
                #[trigger] roster(entries, saved).active[i],
            ),
        forall|a: int, b: int|
            0 <= a < b < known.len() ==> (#[trigger] known[a]).gen > (#[trigger] known[b]).gen,
{
    let r = roster(entries, saved);
    let m = merged(r.active, saved);
    let p = choose|p: Seq<usize>| #[trigger]
        order::is_stable_order(down_keys(m), p) && known == p.map_values(|i: usize| m[i as int]);
    lemma_roster_wf(entries, saved);
    lemma_merged_gens_distinct(r.active, saved);
    lemma_merged_keeps_active(r.active, saved);
    assert forall|j: int| 0 <= j < saved.len() implies exists|k: int|
        0 <= k < known.len() && (#[trigger] known[k]).gen == (#[trigger] saved[j]).gen
            && known[k].name == saved[j].name by {
        let g = saved[j].gen;
        lemma_find_gen(saved, g);
        known_forgets_nobody(r.active, saved, g);
        lemma_find_gen(m, g);
        let x = find_gen(m, g).unwrap();
        lemma_merged_origin(r.active, saved, x);
        if x < r.active.len() && m[x] == r.active[x] {
            lemma_active_id_is_own(entries, saved, x, j);
        } else {
            let i = choose|i: int| 0 <= i < saved.len() && #[trigger] saved[i] == m[x];
            if i < j {
                assert(saved[i].gen != saved[j].gen);
            } else if j < i {
                assert(saved[j].gen != saved[i].gen);
            }
        }
        crate::lists::lemma_permutation_covers(p, m.len(), x);
        let at = choose|at: int| 0 <= at < p.len() && p[at] == x as usize;
        assert(known[at] == m[x]);
    }
    assert forall|i: int| 0 <= i < r.active.len() implies known.contains(
        #[trigger] r.active[i],
    ) by {
        assert(m.take(r.active.len() as int)[i] == r.active[i]);
        crate::lists::lemma_permutation_covers(p, m.len(), i);
        let at = choose|at: int| 0 <= at < p.len() && p[at] == i as usize;
        assert(known[at] == m[i]);
    }
    assert forall|a: int, b: int| 0 <= a < b < known.len() implies (#[trigger] known[a]).gen > (
    #[trigger] known[b]).gen by {
        let (x, y) = (p[a] as int, p[b] as int);
        assert(order::may_precede(down_keys(m), p[a], p[b]));
        assert(known[a] == m[x] && known[b] == m[y]);
        assert(p[a] != p[b]);
        if x < y {
            assert(m[x].gen != m[y].gen);
        } else {
            assert(m[y].gen != m[x].gen);
        }
    }
}

/// Players survive restarts: what one resolution of a fresh run made known and
/// saved, the next one knows under the same ids and names, whatever is
/// configured then; a name that is active in both has one id.
pub proof fn players_survive_restarts(
    entries: Seq<Seq<char>>,
    known: Seq<PlayerModel>,
    later: Seq<Seq<char>>,
    later_known: Seq<PlayerModel>,
)
    requires
        ids_suffice(entries, Seq::empty()),
        is_sorted_down(merged(roster(entries, Seq::empty()).active, Seq::empty()), known),
        known.len() <= usize::MAX,
        ids_suffice(later, known),
        is_sorted_down(merged(roster(later, known).active, known), later_known),
        later_known.len() <= usize::MAX,
    ensures
        forall|j: int|
            0 <= j < known.len() ==> exists|k: int|
                0 <= k < later_known.len() && (#[trigger] later_known[k]).gen == (
                #[trigger] known[j]).gen && later_known[k].name == known[j].name,
        forall|i: int|
            0 <= i < roster(later, known).active.len() ==> later_known.contains(
                #[trigger] roster(later, known).active[i],
            ),
        forall|a: int, b: int|
            0 <= a < b < later_known.len() ==> (#[trigger] later_known[a]).gen > (
            #[trigger] later_known[b]).gen,
        forall|i: int, j: int|
            0 <= i < roster(entries, Seq::empty()).active.len() && 0 <= j < roster(
                later,
                known,
            ).active.len() && (#[trigger] roster(entries, Seq::empty()).active[i]).name == (
            #[trigger] roster(later, known).active[j]).name ==> roster(
                entries,
                Seq::empty(),
            ).active[i].gen == roster(later, known).active[j].gen,
{
    let none = Seq::<PlayerModel>::empty();
    known_players_stay_in_order(entries, none, known);
    resolution_keeps_everybody(later, known, later_known);
    assert forall|i: int, j: int|
        0 <= i < roster(entries, none).active.len() && 0 <= j < roster(later, known).active.len()
            && (#[trigger] roster(entries, none).active[i]).name == (#[trigger] roster(
            later,
            known,
        ).active[j]).name implies roster(entries, none).active[i].gen == roster(
        later,
        known,
    ).active[j].gen by {
        ids_survive_restarts_and_reorders(entries, none, known, later, i, j);
    }
}

/// As long as no more than 240 configured players have been seen, every
/// configured player's id is one of the external ids.
pub proof fn configured_ids_are_external(entries: Seq<Seq<char>>, saved: Seq<PlayerModel>, i: int)
    requires
        saved_wf(saved),
        roster(entries, saved).next + 1 >= EXTERNAL_GEN_MIN,
        0 <= i < roster(entries, saved).active.len(),
    ensures
        roster(entries, saved).active[i].gen >= EXTERNAL_GEN_MIN,
{
    lemma_ids_fall(entries, saved, entries.len() as int);
    lemma_roster_wf(entries, saved);
    let r = roster(entries, saved);
    let p = r.active[i];
    assert(id_origin(p, saved, r.next, first_fresh(saved)));
    assert(entries.take(entries.len() as int) =~= entries);
    if is_configured(p) {
        lemma_find_name(saved, p.name);
        match find_name(saved, p.name) {
            Some(k) => {
                lemma_lowest(saved, k);
            },
            None => {},
        }
    }
}

/// How an entry is read: what stands before its first equals sign is the name, what
/// stands behind it the address, both without white ends and the address without
/// slashes at its end. Without the sign it is no pair, and without a name or a web
/// address it is of no use.
pub proof fn entries_are_name_and_address(name: Seq<char>, url: Seq<char>)
    requires
        forall|i: int| 0 <= i < name.len() ==> #[trigger] name[i] != '=',
    ensures
        ({
            let e = name + seq!['='] + url;
            let (n, u) = (text::trimmed(name), text::without_end_slashes(text::trimmed(url)));
            let web = text::starts_with(u, "http://"@) || text::starts_with(u, "https://"@);
            &&& n.len() > 0 && web ==> read_entry(e) == (Entry::Player { name: n, url: u })
            &&& !(n.len() > 0 && web) ==> read_entry(e) == Entry::NeedsNameAndUrl
        }),
        read_entry(name) == Entry::NotPair,
{
    let e = name + seq!['='] + url;
    text::the_first_place_is_found(e, '=');
    text::the_first_place_is_found(name, '=');
    let at = name.len() as int;
    assert(e[at] == '=');
    match text::index_of(e, '=') {
        Some(i) => {
            if i < at {
                assert(e[i] == name[i]);
            }
            assert(i == at);
            assert(e.take(i) =~= name);
            assert(e.skip(i + 1) =~= url);
        },
        None => {},
    }
    match text::index_of(name, '=') {
        Some(i) => {
            assert(name[i] != '=');
        },
        None => {},
    }
}

/// What an entry does to the players: one that is no player changes none of them and
/// is reported; a name that is taken is reported too; any other joins, under the id
/// that it had before or else under the next fresh one, which is then used up.
pub proof fn entries_join_under_their_ids(r: Roster, e: Seq<char>, saved: Seq<PlayerModel>)
    requires
        0 <= r.next <= u32::MAX,
    ensures
        ({
            let after = with_entry(r, e, saved);
            match read_entry(e) {
                Entry::Player { name, url } => {
                    let taken = exists|i: int|
                        0 <= i < r.active.len() && (#[trigger] r.active[i]).name == name;
                    let seen = exists|i: int|
                        0 <= i < saved.len() && (#[trigger] saved[i]).name == name;
                    &&& taken ==> after.active == r.active && after.next == r.next
                        && after.errors.len() == r.errors.len() + 1
                    &&& !taken ==> {
                        &&& after.errors == r.errors
                        &&& after.active.len() == r.active.len() + 1
                        &&& after.active.drop_last() == r.active
                        &&& after.active.last().name == name
                        &&& after.active.last().spec == url
                        &&& !seen ==> after.active.last().gen == r.next && after.next == r.next - 1
                        &&& seen ==> after.next == r.next && exists|i: int|
                            0 <= i < saved.len() && (#[trigger] saved[i]).name == name
                                && after.active.last().gen == saved[i].gen
                    }
                },
                _ => after.active == r.active && after.next == r.next && after.errors.len()
                    == r.errors.len() + 1,
            }
        }),
{
    match read_entry(e) {
        Entry::Player { name, url } => {
            lemma_find_name(r.active, name);
            lemma_find_name(saved, name);
            match find_name(r.active, name) {
                Some(i) => {
                    assert(r.active[i].name == name);
                },
                None => {
                    let after = with_entry(r, e, saved);
                    assert(after.active.drop_last() =~= r.active);
                    match find_name(saved, name) {
                        Some(i) => {
                            assert(saved[i].name == name);
                        },
                        None => {},
                    }
                },
            }
        },
        _ => {},
    }
}

/// Fresh ids start below every id that was ever given to a configured player, and at
/// the first one where none was.
pub proof fn fresh_ids_were_never_given(saved: Seq<PlayerModel>)
    ensures
        forall|i: int|
            0 <= i < saved.len() && (#[trigger] saved[i]).gen <= API_GEN_START ==> first_fresh(saved)
                < saved[i].gen,
        (forall|i: int| 0 <= i < saved.len() ==> (#[trigger] saved[i]).gen > API_GEN_START)
            ==> first_fresh(saved) == API_GEN_START,
    decreases saved.len(),
{
    assert forall|i: int|
        0 <= i < saved.len() && (#[trigger] saved[i]).gen <= API_GEN_START implies first_fresh(saved)
        < saved[i].gen by {
        lemma_lowest(saved, i);
    }
    if saved.len() > 0 && (forall|i: int|
        0 <= i < saved.len() ==> (#[trigger] saved[i]).gen > API_GEN_START) {
        let rest = saved.drop_last();
        assert forall|i: int| 0 <= i < rest.len() implies (#[trigger] rest[i]).gen
            > API_GEN_START by {
            assert(saved[i].gen > API_GEN_START);
        }
        fresh_ids_were_never_given(rest);
        assert(saved[saved.len() - 1].gen > API_GEN_START);
        lemma_no_api(saved);
    }
}

proof fn lemma_no_api(saved: Seq<PlayerModel>)
    requires
        forall|i: int| 0 <= i < saved.len() ==> (#[trigger] saved[i]).gen > API_GEN_START,
    ensures
        lowest_api(saved) is None,
    decreases saved.len(),
{
    if saved.len() > 0 {
        let rest = saved.drop_last();
        assert forall|i: int| 0 <= i < rest.len() implies (#[trigger] rest[i]).gen
            > API_GEN_START by {
            assert(saved[i].gen > API_GEN_START);
        }
        lemma_no_api(rest);
        assert(saved[saved.len() - 1].gen > API_GEN_START);
    }
}

/// A player is shown under the name that the registry knows for its id, and one that
/// it does not know under a name made of the id.
pub proof fn players_are_shown_by_name(r: &ExternalRegistry, gen: u32, i: int)
    requires
        gens_distinct(models(r.known@)),
        0 <= i < r.known@.len(),
    ensures
        r.known@[i].gen == gen ==> r.name_of(gen) == r.known@[i].name@,
        (forall|k: int| 0 <= k < r.known@.len() ==> (#[trigger] r.known@[k]).gen != gen)
            ==> r.name_of(gen) == fallback_name(gen),
        fallback_name(HEURISTIC_GEN) == "floodfill"@,
        fallback_name(VORONOI_GEN) == "voronoi"@,
        gen < EXTERNAL_GEN_MIN ==> fallback_name(gen) == "gen_"@ + text::dec_padded(gen as nat, 4),
{
    let ms = models(r.known@);
    lemma_find_gen(ms, gen);
    assert(ms[i].gen == r.known@[i].gen);
    match find_gen(ms, gen) {
        Some(k) => {
            assert(ms[k].gen == r.known@[k].gen);
            if r.known@[i].gen == gen && k != i {
                if k < i {
                    assert(ms[k].gen != ms[i].gen);
                } else {
                    assert(ms[i].gen != ms[k].gen);
                }
            }
        },
        None => {},
    }
}

} // verus!

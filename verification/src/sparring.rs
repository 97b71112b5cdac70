//! Sparring partners: the seats of a self-play game that a heuristic takes.

use vstd::prelude::*;

use crate::chance;
use crate::materialize;

verus! {

/// How many of `n` seats sparring partners take where `asked` are asked for: at
/// least one seat is left to the net.
pub open spec fn partners(asked: nat, n: nat) -> nat {
    if n == 0 {
        0
    } else if asked < n {
        asked
    } else {
        (n - 1) as nat
    }
}

/// How many of `n` seats sparring partners take where `asked` are asked for.
pub fn partner_count(asked: usize, n: usize) -> (k: usize)
    ensures
        k == partners(asked as nat, n as nat),
        n == 0 ==> k == 0,
        n > 0 && asked < n ==> k == asked,
        n > 0 && asked >= n ==> k == n - 1,
        n > 0 ==> k < n,
{
    if n == 0 {
        0
    } else if asked < n {
        asked
    } else {
        n - 1
    }
}

/// Whether a seat is played by a sparring partner.
pub fn is_partner(mask: u32, s: usize) -> (r: bool)
    requires
        s < 32,
    ensures
        r == materialize::is_sparring(mask, s as int),
        r <==> (mask >> (s as u32)) & 1 == 1,
{
    let bit: u32 = s as u32;
    (mask >> bit) & 1 == 1
}

/// The mask of a list of seats.
pub fn mask_of(seats: &Vec<usize>) -> (mask: u32)
    requires
        forall|i: int| 0 <= i < seats@.len() ==> #[trigger] seats@[i] < 32,
    ensures
        forall|s: usize|
            s < 32 ==> #[trigger] materialize::is_sparring(mask, s as int) == seats@.contains(s),
{
    let mut mask: u32 = 0;
    let mut i: usize = 0;
    assert forall|s: usize| s < 32 implies !#[trigger] materialize::is_sparring(mask, s as int) by {
        let t = s as u32;
        assert((0u32 >> t) & 1 != 1) by (bit_vector);
    }
    while i < seats.len()
        invariant
            i <= seats@.len(),
            forall|i: int| 0 <= i < seats@.len() ==> #[trigger] seats@[i] < 32,
            forall|s: usize|
                s < 32 ==> #[trigger] materialize::is_sparring(mask, s as int) == seats@.take(
                    i as int,
                ).contains(s),
        decreases seats@.len() - i,
    {
        let ghost (before, done, next) = (mask, seats@.take(i as int), seats@.take(i + 1));
        assert(seats@[i as int] < 32);
        let b: u32 = seats[i] as u32;
        mask = mask | (1u32 << b);
        proof {
            assert(next.drop_last() =~= done);
            assert forall|s: usize| s < 32 implies #[trigger] materialize::is_sparring(
                mask,
                s as int,
            ) == next.contains(s) by {
                let t = s as u32;
                assert((((before | (1u32 << b)) >> t) & 1 == 1) == (t == b || (before >> t) & 1
                    == 1)) by (bit_vector)
                    requires
                        t < 32,
                        b < 32,
                ;
                assert(materialize::is_sparring(before, s as int) == done.contains(s));
                if done.contains(s) {
                    let k = choose|k: int| 0 <= k < done.len() && done[k] == s;
                    assert(next[k] == s);
                }
                if s == seats@[i as int] {
                    assert(next[i as int] == s);
                }
                if next.contains(s) && s != seats@[i as int] {
                    let k = choose|k: int| 0 <= k < next.len() && next[k] == s;
                    assert(done[k] == s);
                }
            }
        }
        i = i + 1;
    }
    assert(seats@.take(i as int) =~= seats@);
    mask
}

/// Fewer than `n` seats leave one of `n` out.
proof fn lemma_seat_left(seats: Seq<usize>, n: nat)
    requires
        seats.len() < n <= usize::MAX,
    ensures
        exists|s: usize| s < n && !#[trigger] seats.contains(s),
{
    if forall|s: usize| s < n ==> #[trigger] seats.contains(s) {
        let all = Seq::new(n, |i: int| i as usize);
        assert(all.no_duplicates());
        all.unique_seq_to_set();
        assert forall|s: usize| all.to_set().contains(s) implies seats.to_set().contains(s) by {
            let i = choose|i: int| 0 <= i < all.len() && all[i] == s;
            assert(seats.contains(s));
        }
        seats.lemma_cardinality_of_set();
        vstd::set_lib::lemma_len_subset(all.to_set(), seats.to_set());
    }
}

/// Which of the `n` seats of a fresh game sparring partners take: none unless
/// the game was `chosen` for them, else as many as are asked for, drawn with the
/// seed; at least one seat stays the net's.
pub fn assign_heur_seats(chosen: bool, asked: usize, n: usize, seed: u64) -> (mask: u32)
    requires
        n <= 32,
    ensures
        ({
            let drawn = chance::seeded_sample(seed, n as nat, partners(asked as nat, n as nat));
            &&& drawn.len() == partners(asked as nat, n as nat)
            &&& drawn.no_duplicates()
            &&& forall|s: usize|
                s < 32 ==> #[trigger] materialize::is_sparring(mask, s as int) == (chosen
                    && drawn.contains(s))
        }),
        n > 0 ==> exists|s: usize| s < n && !#[trigger] materialize::is_sparring(mask, s as int),
{
    let k: usize = partner_count(asked, n);
    let seats = chance::draw_distinct(seed, n, k);
    let none: Vec<usize> = Vec::new();
    assert forall|i: int| 0 <= i < seats@.len() implies #[trigger] seats@[i] < 32 by {
        assert(seats@[i] < n);
    }
    proof {
        if n > 0 {
            lemma_seat_left(seats@, n as nat);
        }
    }
    let ghost free = choose|s: usize| s < n && !#[trigger] seats@.contains(s);
    let mask: u32 = if chosen { mask_of(&seats) } else { mask_of(&none) };
    assert(n > 0 ==> !materialize::is_sparring(mask, free as int));
    mask
}

/// Sparring partners take the seats that they are asked to take, but leave one.
pub proof fn partners_leave_a_seat(asked: nat, n: nat)
    ensures
        partners(asked, n) <= asked,
        n > 0 ==> partners(asked, n) < n,
        asked < n ==> partners(asked, n) == asked,
        asked >= n > 0 ==> partners(asked, n) + 1 == n,
        n == 0 ==> partners(asked, n) == 0,
{
}

} // verus!

//! The eight symmetries of a square board, on cells and on moves.
//!
//! A symmetry is numbered by three bits: flip the rows, flip the columns, swap
//! rows and columns, in this order.

use rand_xoshiro::Xoshiro256PlusPlus;
use vstd::prelude::*;

use crate::board::Move;
use crate::chance;
use crate::rules;

verus! {

/// Bit `k` of a symmetry's number.
pub open spec fn bit(t: nat, k: nat) -> bool {
    if k == 0 {
        t % 2 == 1
    } else if k == 1 {
        (t / 2) % 2 == 1
    } else {
        (t / 4) % 2 == 1
    }
}

/// Where a symmetry of a board of side `n` takes row `y` and column `x`.
pub open spec fn image(t: nat, y: int, x: int, n: int) -> (int, int) {
    let yy = if bit(t, 0) {
        n - 1 - y
    } else {
        y
    };
    let xx = if bit(t, 1) {
        n - 1 - x
    } else {
        x
    };
    if bit(t, 2) {
        (xx, yy)
    } else {
        (yy, xx)
    }
}

/// Which row and column a symmetry takes to row `y` and column `x`.
pub open spec fn preimage(t: nat, y: int, x: int, n: int) -> (int, int) {
    let (yy, xx) = if bit(t, 2) {
        (x, y)
    } else {
        (y, x)
    };
    (
        if bit(t, 0) {
            n - 1 - yy
        } else {
            yy
        },
        if bit(t, 1) {
            n - 1 - xx
        } else {
            xx
        },
    )
}

/// A symmetry moves cells one to one: every cell of the board has an image on
/// the board, and comes back from it.
pub proof fn symmetry_is_one_to_one(t: nat, y: int, x: int, n: int)
    requires
        0 <= y < n,
        0 <= x < n,
    ensures
        0 <= image(t, y, x, n).0 < n,
        0 <= image(t, y, x, n).1 < n,
        0 <= preimage(t, y, x, n).0 < n,
        0 <= preimage(t, y, x, n).1 < n,
        preimage(t, image(t, y, x, n).0, image(t, y, x, n).1, n) == (y, x),
        image(t, preimage(t, y, x, n).0, preimage(t, y, x, n).1, n) == (y, x),
{
}

/// Where a symmetry takes row `y` and column `x`.
pub fn map_d4(t: usize, y: usize, x: usize, n: usize) -> (r: (usize, usize))
    requires
        y < n,
        x < n,
    ensures
        r.0 == image(t as nat, y as int, x as int, n as int).0,
        r.1 == image(t as nat, y as int, x as int, n as int).1,
        r.0 < n,
        r.1 < n,
{
    let yy: usize = if t % 2 == 1 { n - 1 - y } else { y };
    let xx: usize = if (t / 2) % 2 == 1 { n - 1 - x } else { x };
    if (t / 4) % 2 == 1 {
        (xx, yy)
    } else {
        (yy, xx)
    }
}

/// Which row and column a symmetry takes to row `y` and column `x`.
fn unmap_d4(t: usize, y: usize, x: usize, n: usize) -> (r: (usize, usize))
    requires
        y < n,
        x < n,
    ensures
        r.0 == preimage(t as nat, y as int, x as int, n as int).0,
        r.1 == preimage(t as nat, y as int, x as int, n as int).1,
        r.0 < n,
        r.1 < n,
{
    let (a, b): (usize, usize) = if (t / 4) % 2 == 1 { (x, y) } else { (y, x) };
    let yy: usize = if t % 2 == 1 { n - 1 - a } else { a };
    let xx: usize = if (t / 2) % 2 == 1 { n - 1 - b } else { b };
    (yy, xx)
}

/// How far move `m` goes in rows and columns.
pub open spec fn step_of(m: int) -> (int, int) {
    if m == 0 {
        (1, 0)
    } else if m == 1 {
        (-1, 0)
    } else if m == 2 {
        (0, -1)
    } else {
        (0, 1)
    }
}

/// The step that a symmetry makes of a step.
pub open spec fn turned(t: nat, s: (int, int)) -> (int, int) {
    let y = if bit(t, 0) {
        -s.0
    } else {
        s.0
    };
    let x = if bit(t, 1) {
        -s.1
    } else {
        s.1
    };
    if bit(t, 2) {
        (x, y)
    } else {
        (y, x)
    }
}

/// The move with the given step.
pub open spec fn move_with(s: (int, int)) -> int {
    if s == (1int, 0int) {
        0
    } else if s == (-1int, 0int) {
        1
    } else if s == (0int, -1int) {
        2
    } else {
        3
    }
}

/// The move that a symmetry makes of move `m`.
pub open spec fn move_image(t: nat, m: int) -> int {
    move_with(turned(t, step_of(m)))
}

/// The move that a symmetry makes of each of the four moves.
pub fn move_perm(t: usize) -> (p: [usize; 4])
    ensures
        forall|m: int| 0 <= m < 4 ==> #[trigger] p@[m] == move_image(t as nat, m),
        forall|m: int| 0 <= m < 4 ==> #[trigger] p@[m] < 4,
{
    [one_move(t, 0), one_move(t, 1), one_move(t, 2), one_move(t, 3)]
}

/// The move that a symmetry makes of move `m`.
fn one_move(t: usize, m: usize) -> (d: usize)
    requires
        m < 4,
    ensures
        d == move_image(t as nat, m as int),
        d < 4,
{
    let (sy, sx): (i8, i8) = if m == 0 {
        (1, 0)
    } else if m == 1 {
        (-1, 0)
    } else if m == 2 {
        (0, -1)
    } else {
        (0, 1)
    };
    let y: i8 = if t % 2 == 1 { -sy } else { sy };
    let x: i8 = if (t / 2) % 2 == 1 { -sx } else { sx };
    let (a, b): (i8, i8) = if (t / 4) % 2 == 1 { (x, y) } else { (y, x) };
    if a == 1 && b == 0 {
        0
    } else if a == -1 && b == 0 {
        1
    } else if a == 0 && b == -1 {
        2
    } else {
        3
    }
}

/// A symmetry permutes the four moves.
pub proof fn symmetry_permutes_moves(t: nat, a: int, b: int)
    requires
        0 <= a < 4,
        0 <= b < 4,
    ensures
        0 <= move_image(t, a) < 4,
        move_image(t, a) == move_image(t, b) ==> a == b,
        step_of(move_image(t, a)) == turned(t, step_of(a)),
{
}

/// Moving and then turning the board is turning the board and then making the
/// turned move: policies stay true to the positions they belong to.
pub proof fn moves_turn_with_the_board(t: nat, y: int, x: int, n: int, m: int)
    requires
        0 <= m < 4,
    ensures
        ({
            let (dy, dx) = step_of(m);
            let (iy, ix) = image(t, y, x, n);
            let (ey, ex) = step_of(move_image(t, m));
            image(t, y + dy, x + dx, n) == (iy + ey, ix + ex)
        }),
{
}

/// The steps of the moves are those of the game: rows are `y` and columns `x`.
pub proof fn steps_are_the_games(m: int)
    requires
        0 <= m < 4,
    ensures
        step_of(m) == (rules::nth_move(m).dy(), rules::nth_move(m).dx()),
        m == 0 ==> rules::nth_move(m) == Move::Up && step_of(m) == (1int, 0int),
        m == 1 ==> rules::nth_move(m) == Move::Down && step_of(m) == (-1int, 0int),
        m == 2 ==> rules::nth_move(m) == Move::Left && step_of(m) == (0int, -1int),
        m == 3 ==> rules::nth_move(m) == Move::Right && step_of(m) == (0int, 1int),
        move_with(step_of(m)) == m,
{
}

/// A head that makes a game move on the board as it is, and one that makes the
/// move's image on the turned board, come to the same cell: the image of the cell
/// that the move leads to is the cell that the image of the move leads to from
/// the image of the head.
pub proof fn turned_moves_lead_to_turned_cells(t: nat, y: int, x: int, n: int, m: int)
    requires
        0 <= m < 4,
    ensures
        ({
            let mv = rules::nth_move(m);
            let turned_mv = rules::nth_move(move_image(t, m));
            let (iy, ix) = image(t, y, x, n);
            image(t, y + mv.dy(), x + mv.dx(), n) == (iy + turned_mv.dy(), ix + turned_mv.dx())
        }),
{
    symmetry_permutes_moves(t, m, m);
    steps_are_the_games(m);
    steps_are_the_games(move_image(t, m));
    moves_turn_with_the_board(t, y, x, n, m);
}

/// The eight symmetries, on the cells: an odd one flips the rows, the second bit
/// flips the columns, and those from four on exchange rows and columns after that.
pub proof fn symmetries_flip_and_transpose(y: int, x: int, n: int)
    ensures
        image(0, y, x, n) == (y, x),
        image(1, y, x, n) == (n - 1 - y, x),
        image(2, y, x, n) == (y, n - 1 - x),
        image(3, y, x, n) == (n - 1 - y, n - 1 - x),
        image(4, y, x, n) == (x, y),
        image(5, y, x, n) == (x, n - 1 - y),
        image(6, y, x, n) == (n - 1 - x, y),
        image(7, y, x, n) == (n - 1 - x, n - 1 - y),
{
}

/// A policy turns with its board: what a sample gave to a game move, the turned
/// sample gives to the game move that leads from the image of a cell to the image
/// of the cell that the first one leads to.
pub proof fn policies_turn_with_their_boards<F>(
    src: Seq<F>,
    transforms: Seq<usize>,
    out: Seq<F>,
    b: int,
    y: int,
    x: int,
    n: int,
    m: int,
    to: int,
)
    requires
        is_turned_pol(src, transforms, out),
        0 <= b < transforms.len(),
        0 <= m < 4,
        0 <= to < 4,
        ({
            let (mv, tv) = (rules::nth_move(m), rules::nth_move(to));
            let (iy, ix) = image(transforms[b] as nat, y, x, n);
            image(transforms[b] as nat, y + mv.dy(), x + mv.dx(), n) == (iy + tv.dy(), ix + tv.dx())
        }),
    ensures
        out[b * 4 + to] == src[b * 4 + m],
{
    let t = transforms[b] as nat;
    turned_moves_lead_to_turned_cells(t, y, x, n, m);
    symmetry_permutes_moves(t, m, m);
    steps_are_the_games(to);
    steps_are_the_games(move_image(t, m));
    assert(to == move_image(t, m));
    assert(out[b * 4 + move_image(transforms[b] as nat, m)] == src[b * 4 + m]);
}

/// The number at place `k` of the turned observations: sample, plane, row and
/// column are read off the place, and the number comes from the cell that the
/// sample's symmetry takes there.
pub open spec fn turned_obs_at<F>(
    src: Seq<F>,
    transforms: Seq<usize>,
    c: int,
    h: int,
    k: int,
) -> F {
    let plane = h * h;
    let sample = c * plane;
    let (b, r) = (k / sample, k % sample);
    let (ch, q) = (r / plane, r % plane);
    let (y, x) = preimage(transforms[b] as nat, q / h, q % h, h);
    src[b * sample + ch * plane + y * h + x]
}

/// The turned observations of a batch.
pub open spec fn turned_obs<F>(src: Seq<F>, transforms: Seq<usize>, c: int, h: int) -> Seq<F> {
    Seq::new(src.len(), |k: int| turned_obs_at(src, transforms, c, h, k))
}

/// The turned policies of a batch: what was said of a move is said of its
/// image.
pub open spec fn is_turned_pol<F>(src: Seq<F>, transforms: Seq<usize>, out: Seq<F>) -> bool {
    &&& out.len() == src.len()
    &&& forall|b: int, m: int|
        0 <= b < transforms.len() && 0 <= m < 4 ==> #[trigger] out[b * 4 + move_image(
            transforms[b] as nat,
            m,
        )] == src[b * 4 + m]
}

proof fn lemma_decompose(k: int, b: int, r: int, w: int)
    requires
        w > 0,
        0 <= r < w,
        k == b * w + r,
    ensures
        k / w == b,
        k % w == r,
{
    vstd::arithmetic::div_mod::lemma_fundamental_div_mod_converse(k, w, b, r);
}

proof fn lemma_place_in_range(k: int, batch: int, sample: int)
    requires
        0 <= k < batch * sample,
        sample > 0,
    ensures
        0 <= k / sample < batch,
        0 <= k % sample < sample,
{
    assert(0 <= k / sample < batch && 0 <= k % sample < sample) by (nonlinear_arith)
        requires
            0 <= k < batch * sample,
            sample > 0,
    ;
}

proof fn lemma_cell_in_plane(y: int, x: int, h: int)
    requires
        0 <= y < h,
        0 <= x < h,
    ensures
        0 <= y * h + x < h * h,
{
    assert(0 <= y * h + x < h * h) by (nonlinear_arith)
        requires
            0 <= y,
            y + 1 <= h,
            0 <= x < h,
    ;
}

/// In the turned observations every number of every plane has gone where its
/// sample's symmetry takes its cell.
pub proof fn numbers_go_where_their_cells_go<F>(
    src: Seq<F>,
    transforms: Seq<usize>,
    c: int,
    h: int,
    b: int,
    ch: int,
    y: int,
    x: int,
)
    requires
        src.len() == transforms.len() * (c * (h * h)),
        0 <= b < transforms.len(),
        0 <= ch < c,
        0 <= y < h,
        0 <= x < h,
    ensures
        ({
            let plane = h * h;
            let sample = c * plane;
            let (iy, ix) = image(transforms[b] as nat, y, x, h);
            let to = b * sample + ch * plane + iy * h + ix;
            &&& 0 <= to < src.len()
            &&& turned_obs(src, transforms, c, h)[to] == src[b * sample + ch * plane + y * h + x]
        }),
{
    let plane = h * h;
    let sample = c * plane;
    let t = transforms[b] as nat;
    symmetry_is_one_to_one(t, y, x, h);
    let (iy, ix) = image(t, y, x, h);
    let q = iy * h + ix;
    lemma_cell_in_plane(iy, ix, h);
    lemma_decompose(q, iy, ix, h);
    let r = ch * plane + q;
    assert(plane > 0) by (nonlinear_arith)
        requires
            h > 0,
            plane == h * h,
    ;
    lemma_decompose(r, ch, q, plane);
    assert(0 <= r < sample) by (nonlinear_arith)
        requires
            r == ch * plane + q,
            0 <= q < plane,
            0 <= ch,
            ch + 1 <= c,
            sample == c * plane,
    ;
    let to = b * sample + r;
    lemma_decompose(to, b, r, sample);
    assert(0 <= to < transforms.len() * sample) by (nonlinear_arith)
        requires
            to == b * sample + r,
            0 <= r < sample,
            0 <= b,
            b + 1 <= transforms.len(),
    ;
    assert(to == b * sample + ch * plane + iy * h + ix);
}

/// Turns the observations and policies of a batch, sample `b` by symmetry
/// `transforms[b]`. A board that is not square is left as it is.
pub fn apply_d4<F: Copy>(
    obs: &mut Vec<F>,
    pol: &mut Vec<F>,
    transforms: &Vec<usize>,
    shape: [usize; 3],
)
    requires
        old(obs)@.len() == transforms@.len() * (shape@[0] * (shape@[1] * shape@[2])),
        old(pol)@.len() == transforms@.len() * 4,
    ensures
        shape@[1] != shape@[2] ==> final(obs)@ == old(obs)@ && final(pol)@ == old(pol)@,
        shape@[1] == shape@[2] ==> {
            &&& final(obs)@ == turned_obs(
                old(obs)@,
                transforms@,
                shape@[0] as int,
                shape@[1] as int,
            )
            &&& is_turned_pol(old(pol)@, transforms@, final(pol)@)
        },
{
    let c: usize = shape[0];
    let h: usize = shape[1];
    if h != shape[2] {
        return ;
    }
    let ghost src = obs@;
    let total: usize = obs.len();
    if total > 0 {
        turn_planes(obs, transforms, c, h);
    }
    assert(obs@ =~= turned_obs(src, transforms@, c as int, h as int));
    turn_policies(pol, transforms);
}

/// Turns the observations of a batch of square boards.
fn turn_planes<F: Copy>(obs: &mut Vec<F>, transforms: &Vec<usize>, c: usize, h: usize)
    requires
        old(obs)@.len() > 0,
        old(obs)@.len() == transforms@.len() * (c * (h * h)),
    ensures
        final(obs)@ == turned_obs(old(obs)@, transforms@, c as int, h as int),
{
    let ghost src = obs@;
    let total: usize = obs.len();
    let ghost n = transforms@.len() as int;
    let ghost (ci, hi) = (c as int, h as int);
    proof {
        assert(n > 0 && ci > 0 && hi > 0) by (nonlinear_arith)
            requires
                n * (ci * (hi * hi)) > 0,
                n >= 0,
                ci >= 0,
                hi >= 0,
        ;
        assert(hi * hi <= total && ci * (hi * hi) <= total && hi * hi > 0 && ci * (hi * hi) > 0)
            by (nonlinear_arith)
            requires
                n * (ci * (hi * hi)) == total,
                n > 0,
                ci > 0,
                hi > 0,
        ;
    }
    let plane: usize = h * h;
    let sample: usize = c * plane;
    let mut out: Vec<F> = Vec::new();
    let mut k: usize = 0;
    while k < total
        invariant
            k <= total,
            total == src.len(),
            obs@ == src,
            total == n * sample,
            n == transforms@.len(),
            plane == h * h,
            sample == c * plane,
            h > 0,
            plane > 0,
            sample > 0,
            out@ == Seq::new(
                k as nat,
                |k: int| turned_obs_at(src, transforms@, c as int, h as int, k),
            ),
        decreases total - k,
    {
        let b: usize = k / sample;
        let r: usize = k % sample;
        let ch: usize = r / plane;
        let q: usize = r % plane;
        proof {
            lemma_place_in_range(k as int, n, sample as int);
            lemma_place_in_range(r as int, c as int, plane as int);
            lemma_place_in_range(q as int, h as int, h as int);
        }
        let (y, x): (usize, usize) = unmap_d4(transforms[b], q / h, q % h, h);
        proof {
            lemma_cell_in_plane(y as int, x as int, h as int);
            let (bi, chi, si, pi) = (b as int, ch as int, sample as int, plane as int);
            let qi = y * h + x;
            let ci = c as int;
            assert(0 <= chi * pi && chi * pi + qi < si) by (nonlinear_arith)
                requires
                    0 <= qi < pi,
                    0 <= chi,
                    chi + 1 <= ci,
                    si == ci * pi,
            ;
            let ri = chi * pi + qi;
            assert(0 <= bi * si && bi * si + ri < n * si) by (nonlinear_arith)
                requires
                    0 <= ri < si,
                    0 <= bi,
                    bi + 1 <= n,
            ;
            assert(y * h >= 0) by (nonlinear_arith);
        }
        let from: usize = b * sample + ch * plane + y * h + x;
        out.push(obs[from]);
        k = k + 1;
        assert(out@ =~= Seq::new(
            k as nat,
            |k: int| turned_obs_at(src, transforms@, c as int, h as int, k),
        ));
    }
    *obs = out;
    assert(obs@ =~= turned_obs(src, transforms@, c as int, h as int));
}

/// Turns the policies of a batch.
fn turn_policies<F: Copy>(pol: &mut Vec<F>, transforms: &Vec<usize>)
    requires
        old(pol)@.len() == transforms@.len() * 4,
    ensures
        is_turned_pol(old(pol)@, transforms@, final(pol)@),
{
    let ghost src = pol@;
    let total: usize = pol.len();
    let n: usize = transforms.len();
    let mut b: usize = 0;
    while b < n
        invariant
            b <= n,
            n == transforms@.len(),
            total == n * 4,
            total == src.len(),
            pol@.len() == total,
            forall|k: int| b * 4 <= k < total ==> pol@[k] == src[k],
            forall|a: int, m: int|
                0 <= a < b && 0 <= m < 4 ==> #[trigger] pol@[a * 4 + move_image(
                    transforms@[a] as nat,
                    m,
                )] == src[a * 4 + m],
        decreases n - b,
    {
        let t: usize = transforms[b];
        let ghost before = pol@;
        let (p0, p1, p2, p3): (F, F, F, F) = (
            pol[b * 4],
            pol[b * 4 + 1],
            pol[b * 4 + 2],
            pol[b * 4 + 3],
        );
        let perm = move_perm(t);
        assert(perm@[0] == move_image(t as nat, 0));
        assert(perm@[1] == move_image(t as nat, 1));
        assert(perm@[2] == move_image(t as nat, 2));
        assert(perm@[3] == move_image(t as nat, 3));
        proof {
            symmetry_permutes_moves(t as nat, 0, 1);
            symmetry_permutes_moves(t as nat, 0, 2);
            symmetry_permutes_moves(t as nat, 0, 3);
            symmetry_permutes_moves(t as nat, 1, 2);
            symmetry_permutes_moves(t as nat, 1, 3);
            symmetry_permutes_moves(t as nat, 2, 3);
        }
        pol[b * 4 + perm[0]] = p0;
        pol[b * 4 + perm[1]] = p1;
        pol[b * 4 + perm[2]] = p2;
        pol[b * 4 + perm[3]] = p3;
        proof {
            assert forall|a: int, m: int| 0 <= a < b + 1 && 0 <= m < 4 implies #[trigger] pol@[a * 4
                + move_image(transforms@[a] as nat, m)] == src[a * 4 + m] by {
                symmetry_permutes_moves(transforms@[a] as nat, m, m);
                if a < b {
                    assert(before[a * 4 + move_image(transforms@[a] as nat, m)] == src[a * 4 + m]);
                } else {
                    assert(m == 0 || m == 1 || m == 2 || m == 3);
                }
            }
        }
        b = b + 1;
    }
}

/// Turns every sample of a batch by a symmetry of its own, drawn at random; a
/// board that is not square is left as it is.
pub fn apply_random_d4<F: Copy>(
    obs: &mut Vec<F>,
    pol: &mut Vec<F>,
    batch: usize,
    shape: [usize; 3],
    rng: &mut Xoshiro256PlusPlus,
)
    requires
        old(obs)@.len() == batch * (shape@[0] * (shape@[1] * shape@[2])),
        old(pol)@.len() == batch * 4,
    ensures
        shape@[1] != shape@[2] ==> final(obs)@ == old(obs)@ && final(pol)@ == old(pol)@,
        shape@[1] == shape@[2] ==> exists|ts: Seq<usize>| #[trigger]
            are_symmetries(ts, batch as nat) && final(obs)@ == turned_obs(
                old(obs)@,
                ts,
                shape@[0] as int,
                shape@[1] as int,
            ) && is_turned_pol(old(pol)@, ts, final(pol)@),
{
    if shape[1] != shape[2] {
        return ;
    }
    let mut transforms: Vec<usize> = Vec::new();
    while transforms.len() < batch
        invariant
            transforms@.len() <= batch,
            forall|b: int| 0 <= b < transforms@.len() ==> #[trigger] transforms@[b] < 8,
        decreases batch - transforms@.len(),
    {
        transforms.push(chance::draw_below(rng, 8));
    }
    apply_d4(obs, pol, &transforms, shape);
    assert(are_symmetries(transforms@, batch as nat));
}

/// Whether a list names one symmetry per sample.
pub open spec fn are_symmetries(ts: Seq<usize>, batch: nat) -> bool {
    ts.len() == batch && forall|b: int| 0 <= b < batch ==> #[trigger] ts[b] < 8
}

} // verus!

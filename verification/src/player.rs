use vstd::prelude::*;

use crate::board::{
    contains_cell, fits_i32,
    group_board_values, has_pos, in_range, lemma_contour_marked, no_shot, paint, sunk_count,
    touching, Board, Cell, SeaField, Ship, ShotResult,
};
use rand::rngs::{SmallRng, ThreadRng};
use rand::RngExt;

verus! {

#[verifier::external_type_specification]
#[verifier::external_body]
pub struct ExThreadRng(ThreadRng);

#[verifier::external_type_specification]
#[verifier::external_body]
pub struct ExSmallRng(SmallRng);

/// A source of random coordinates for shots and ship placement.
pub trait RandomSource {
    /// A coordinate in `0..bound`.
    fn random_coordinate(&mut self, bound: i32) -> (r: i32)
        requires
            0 < bound,
        ensures
            0 <= r < bound,
    ;
}

/// Calls `RngExt::random_range` on `0..bound` with the thread's generator; it returns a value
/// of that range (and panics on an empty one, which `requires` rules out).
#[verifier::external_body]
fn thread_random_below(rng: &mut ThreadRng, bound: i32) -> (r: i32)
    requires
        0 < bound,
    ensures
        0 <= r < bound,
{
    rng.random_range(0..bound)
}

/// Calls `RngExt::random_range` on `0..bound` with a small generator; it returns a value
/// of that range (and panics on an empty one, which `requires` rules out).
#[verifier::external_body]
fn small_random_below(rng: &mut SmallRng, bound: i32) -> (r: i32)
    requires
        0 < bound,
    ensures
        0 <= r < bound,
{
    rng.random_range(0..bound)
}

impl RandomSource for ThreadRng {
    fn random_coordinate(&mut self, bound: i32) -> (r: i32) {
        thread_random_below(self, bound)
    }
}

impl RandomSource for SmallRng {
    fn random_coordinate(&mut self, bound: i32) -> (r: i32) {
        small_random_below(self, bound)
    }
}

/// Calls `rand::rng`, the generator of the current thread; nothing is claimed of it.
#[verifier::external_body]
fn thread_rng() -> ThreadRng {
    rand::rng()
}

/// Calls `rand::random::<bool>`; either value may come back.
#[verifier::external_body]
fn random_flag() -> bool {
    rand::random()
}


/// Every length, placed with its bow on a board of side `size`, keeps its decks within `i32`;
/// and when there is a ship to place, the board has a cell to draw.
pub open spec fn layout_fits(size: usize, ships: Seq<u8>) -> bool {
    &&& size <= i32::MAX
    &&& ships.len() > 0 ==> size > 0
    &&& forall|k: int| 0 <= k < ships.len() ==> size + (#[trigger] ships[k]) <= i32::MAX + 2
}

/// Some deck of some ship of `b` lies at `p`.
pub open spec fn ship_at(b: Board, p: (int, int)) -> bool {
    exists|k: int, j: int|
        0 <= k < b.ships@.len() && 0 <= j < b.ships@[k].length() && #[trigger] b.ships@[k].deck(j) == p
}

/// The first `n` ships of `b` have the lengths in `lens`, are unharmed, lie on the board,
/// and no two of them touch, not even by a corner; the field shows them on open sea.
pub open spec fn fleet_placed(b: Board, lens: Seq<u8>, n: nat) -> bool {
    &&& b.ships@.len() == n
    &&& n <= lens.len()
    &&& forall|k: int|
        #![trigger b.ships@[k]]
        0 <= k < n ==> b.ships@[k].length() == lens[k] && b.ships@[k].lives() == b.ships@[k].length()
    &&& b.ships_placed()
    &&& forall|k1: int, k2: int, j1: int, j2: int|
        0 <= k1 < k2 < n && 0 <= j1 < b.ships@[k1].length() && 0 <= j2 < b.ships@[k2].length() ==> !touching(
            #[trigger] b.ships@[k1].deck(j1),
            #[trigger] b.ships@[k2].deck(j2),
        )
    &&& forall|p: (int, int)|
        in_range(b.size as nat, p) ==> #[trigger] b.at(p) == if ship_at(b, p) {
            SeaField::Ship
        } else {
            SeaField::Sea
        }
}

/// `b` is a board of side `size` with the ships of `lens` placed on it, ready for play.
pub open spec fn dealt(b: Board, size: usize, lens: Seq<u8>) -> bool {
    &&& b.wf()
    &&& b.size == size
    &&& b.count == 0
    &&& b.busy@ == Seq::<Cell>::empty()
    &&& b.prev_hit == no_shot()
    &&& b.first_hit == no_shot()
    &&& fleet_placed(b, lens, lens.len())
}

/// `b` is an empty board of side `size`: all sea, no ship, nothing taken, no shot.
pub open spec fn empty_board(b: Board, size: usize) -> bool {
    &&& b.wf()
    &&& b.size == size
    &&& b.count == 0
    &&& b.busy@ == Seq::<Cell>::empty()
    &&& b.ships@ == Seq::<Ship>::empty()
    &&& b.prev_hit == no_shot()
    &&& b.first_hit == no_shot()
    &&& b.grid() == Seq::new(size as nat, |i: int| Seq::new(size as nat, |j: int| SeaField::Sea))
}

/// While ships are placed: the first `n` are on the board, and the cells taken are exactly the
/// cells on the board that touch one of their decks.
pub open spec fn placing(b: Board, size: usize, lens: Seq<u8>, n: nat) -> bool {
    &&& b.is_square()
    &&& b.size == size
    &&& !b.hide
    &&& b.count == 0
    &&& b.prev_hit == no_shot()
    &&& b.first_hit == no_shot()
    &&& fleet_placed(b, lens, n)
    &&& forall|k: int, j: int, p: (int, int)|
        0 <= k < n && 0 <= j < b.ships@[k].length() && #[trigger] touching(p, b.ships@[k].deck(j))
            && in_range(size as nat, p) ==> has_pos(b.busy@, p)
    &&& forall|p: (int, int)|
        #[trigger] has_pos(b.busy@, p) ==> in_range(size as nat, p) && exists|k: int, j: int|
            0 <= k < n && 0 <= j < b.ships@[k].length() && #[trigger] touching(p, b.ships@[k].deck(j))
}

/// The two sides of a game: the player's board and the computer's.
pub struct Game {
    pub user_board: Board,
    pub ai_board: Board,
}


/// Placing one more ship on free cells keeps the placement invariant.
proof fn lemma_place_step(old: Board, new: Board, ship: Ship, size: usize, lens: Seq<u8>, n: nat)
    requires
        placing(old, size, lens, n),
        n < lens.len(),
        ship.length() == lens[n as int],
        ship.lives() == ship.length(),
        old.can_place(ship),
        new.busy@ == crate::board::contour_marked(old.busy@ + ship.deck_cells(), size as nat, ship, ship.length()),
        new.grid() == paint(old.grid(), ship.deck_cells(), SeaField::Ship),
        new.ships@ == old.ships@.push(ship),
        new.is_square(),
        new.hide == old.hide,
        new.size == old.size,
        new.count == old.count,
        new.prev_hit == old.prev_hit,
        new.first_hit == old.first_hit,
    ensures
        placing(new, size, lens, n + 1),
{
    broadcast use group_board_values;

    let cells = ship.deck_cells();
    let size_n = size as nat;
    assert forall|j: int| 0 <= j < ship.length() implies in_range(size_n, #[trigger] ship.deck(j)) by {}
    crate::board::lemma_placed_ship_fits(ship, size_n);
    assert(new.ships@[n as int] == ship);
    assert forall|k: int| 0 <= k < n implies #[trigger] new.ships@[k] == old.ships@[k] by {}
    // lengths, lives, decks on the board
    assert forall|k: int|
        #![trigger new.ships@[k]]
        0 <= k < n + 1 implies new.ships@[k].length() == lens[k] && new.ships@[k].lives()
            == new.ships@[k].length() by {
        if k < n {
            assert(old.ships@[k] == new.ships@[k]);
        }
    }
    assert forall|k: int| #![trigger new.ships@[k]] 0 <= k < new.ships@.len() implies {
        &&& new.ships@[k].lives() <= new.ships@[k].length()
        &&& forall|j: int|
            0 <= j < new.ships@[k].length() ==> in_range(new.size as nat, #[trigger] new.ships@[k].deck(j))
    } by {
        if k < n {
            assert(old.ships@[k] == new.ships@[k]);
        }
    }
    // no two ships touch
    assert forall|k1: int, k2: int, j1: int, j2: int|
        0 <= k1 < k2 < n + 1 && 0 <= j1 < new.ships@[k1].length() && 0 <= j2 < new.ships@[k2].length()
            implies !touching(#[trigger] new.ships@[k1].deck(j1), #[trigger] new.ships@[k2].deck(j2)) by {
        assert(new.ships@[k1] == old.ships@[k1]);
        if k2 < n {
            assert(new.ships@[k2] == old.ships@[k2]);
        } else {
            let p = ship.deck(j2);
            if touching(new.ships@[k1].deck(j1), p) {
                assert(touching(p, old.ships@[k1].deck(j1)));
                assert(in_range(size_n, p));
                assert(has_pos(old.busy@, p));
            }
        }
    }
    // the field
    assert forall|p: (int, int)| in_range(new.size as nat, p) implies #[trigger] new.at(p) == if ship_at(
        new,
        p,
    ) {
        SeaField::Ship
    } else {
        SeaField::Sea
    } by {
        assert(old.field@[p.0]@.len() == size);
        assert(old.grid()[p.0].len() == size);
        let on_ship = exists|j: int| 0 <= j < ship.length() && #[trigger] ship.deck(j) == p;
        if has_pos(cells, p) {
            let j = choose|j: int| #![trigger cells[j]] 0 <= j < cells.len() && cells[j]@ == p;
            assert(ship.deck(j) == p);
            assert(new.ships@[n as int].deck(j) == p);
            assert(ship_at(new, p));
        } else {
            assert(old.at(p) == new.at(p));
            if ship_at(old, p) {
                let (k, j) = choose|k: int, j: int|
                    0 <= k < old.ships@.len() && 0 <= j < old.ships@[k].length() && #[trigger] old.ships@[k].deck(j)
                        == p;
                assert(new.ships@[k].deck(j) == p);
            }
            if ship_at(new, p) {
                let (k, j) = choose|k: int, j: int|
                    0 <= k < new.ships@.len() && 0 <= j < new.ships@[k].length() && #[trigger] new.ships@[k].deck(j)
                        == p;
                if k < n {
                    assert(old.ships@[k].deck(j) == p);
                } else {
                    assert(cells[j]@ == p);
                }
            }
        }
    }
    // the guard around every ship
    lemma_contour_marked(old.busy@ + cells, size_n, ship, ship.length());
    assert forall|k: int, j: int, p: (int, int)|
        0 <= k < n + 1 && 0 <= j < new.ships@[k].length() && #[trigger] touching(p, new.ships@[k].deck(j))
            && in_range(size_n, p) implies has_pos(new.busy@, p) by {
        if k < n {
            assert(new.ships@[k] == old.ships@[k]);
            assert(has_pos(old.busy@, p));
            let i = choose|i: int| #![trigger old.busy@[i]] 0 <= i < old.busy@.len() && old.busy@[i]@ == p;
            assert((old.busy@ + cells)[i] == old.busy@[i]);
            assert(has_pos(old.busy@ + cells, p));
        } else {
            assert(touching(p, ship.deck(j)));
        }
    }
    assert forall|p: (int, int)| #[trigger] has_pos(new.busy@, p) implies in_range(size_n, p) && exists|k: int, j: int|
        0 <= k < n + 1 && 0 <= j < new.ships@[k].length() && #[trigger] touching(p, new.ships@[k].deck(j)) by {
        crate::laws::lemma_contour_marked_only(old.busy@ + cells, size_n, ship, ship.length(), p);
        if has_pos(old.busy@ + cells, p) {
            let i = choose|i: int| #![trigger (old.busy@ + cells)[i]] 0 <= i < (old.busy@ + cells).len() && (old.busy@ + cells)[i]@ == p;
            if i < old.busy@.len() {
                assert(old.busy@[i] == (old.busy@ + cells)[i]);
                assert(has_pos(old.busy@, p));
                let (k, j) = choose|k: int, j: int|
                    0 <= k < n && 0 <= j < old.ships@[k].length() && #[trigger] touching(p, old.ships@[k].deck(j));
                assert(new.ships@[k] == old.ships@[k]);
                assert(touching(p, new.ships@[k].deck(j)));
            } else {
                let j = i - old.busy@.len();
                assert(cells[j] == (old.busy@ + cells)[i]);
                assert(p == ship.deck(j));
                assert(in_range(size_n, ship.deck(j)));
                assert(touching(p, new.ships@[n as int].deck(j)));
            }
        } else {
            let j = choose|j: int| 0 <= j < ship.length() && #[trigger] touching(p, ship.deck(j));
            assert(touching(p, new.ships@[n as int].deck(j)));
        }
    }
}


/// No ship of `s` is sunk, so none is counted.
pub proof fn lemma_sunk_count_none(s: Seq<Ship>)
    requires
        forall|k: int| 0 <= k < s.len() ==> !(#[trigger] s[k]).is_sunk(),
    ensures
        sunk_count(s) == 0,
    decreases s.len(),
{
    if s.len() > 0 {
        assert forall|k: int| 0 <= k < s.drop_last().len() implies !(#[trigger] s.drop_last()[k]).is_sunk() by {
            assert(s.drop_last()[k] == s[k]);
        }
        lemma_sunk_count_none(s.drop_last());
        assert(!s[s.len() - 1].is_sunk());
    }
}

/// Where a random placement of the fleet stands.
#[derive(Clone, Copy, Debug, PartialEq, Eq, Structural)]
pub enum DealState {
    /// Ship `n` is being placed, and `a` places drawn for it did not fit.
    Placing(usize, u32),
    /// Every ship is placed.
    Complete,
    /// Some ship fitted at none of the 100 places drawn for it.
    GaveUp,
}

impl DealState {
    /// Whether ships are still being placed.
    pub fn in_progress(&self) -> (r: bool)
        ensures
            r == (*self is Placing),
    {
        match self {
            DealState::Placing(..) => true,
            _ => false,
        }
    }
}

/// A drawn place: its bow lies on a board of side `size`.
pub open spec fn draw_on_board(size: usize, d: (i32, i32, bool)) -> bool {
    0 <= d.0 < size && 0 <= d.1 < size
}

/// Deck `j` of a ship whose place was drawn as `d`: the bow at `(d.0, d.1)`, the decks
/// following along the first coordinate when `d.2`, else along the second.
pub open spec fn drawn_deck(d: (i32, i32, bool), j: int) -> (int, int) {
    if d.2 {
        (d.0 + j, d.1 as int)
    } else {
        (d.0 as int, d.1 + j)
    }
}

/// `p` lies on the board and is, or touches, a deck of one of the ships placed at `placed`,
/// ship `k` having `lens[k]` decks.
pub open spec fn guarded(size: usize, lens: Seq<u8>, placed: Seq<(i32, i32, bool)>, p: (int, int)) -> bool {
    &&& in_range(size as nat, p)
    &&& exists|k: int, j: int|
        0 <= k < placed.len() && 0 <= j < lens[k] && #[trigger] touching(p, drawn_deck(placed[k], j))
}

/// A ship of `len` decks drawn at `d` lies on the board with no deck on a guarded cell.
pub open spec fn draw_fits(
    size: usize,
    lens: Seq<u8>,
    placed: Seq<(i32, i32, bool)>,
    len: nat,
    d: (i32, i32, bool),
) -> bool {
    forall|j: int|
        0 <= j < len ==> in_range(size as nat, #[trigger] drawn_deck(d, j)) && !guarded(
            size,
            lens,
            placed,
            drawn_deck(d, j),
        )
}

/// A ship of `len` decks drawn at `d` lies on `b`, on cells not taken yet.
pub open spec fn fits_free(b: Board, d: (i32, i32, bool), len: nat) -> bool {
    forall|j: int|
        0 <= j < len ==> in_range(b.size as nat, #[trigger] drawn_deck(d, j)) && !has_pos(b.busy@, drawn_deck(d, j))
}

/// The state after a place drawn in `state`, for a fleet of `count` ships: the next ship (or
/// completion) when it `fitted`, else one more miss, giving up at the hundredth.
pub open spec fn next_state(state: DealState, count: nat, fitted: bool) -> DealState {
    match state {
        DealState::Placing(n, a) => if fitted {
            if n + 1 == count {
                DealState::Complete
            } else {
                DealState::Placing((n + 1) as usize, 0)
            }
        } else {
            if a + 1 >= 100 {
                DealState::GaveUp
            } else {
                DealState::Placing(n, (a + 1) as u32)
            }
        },
        _ => state,
    }
}

/// How placing the fleet `lens` starts: complete at once when there is no ship.
pub open spec fn deal_start(lens: Seq<u8>) -> DealState {
    if lens.len() == 0 {
        DealState::Complete
    } else {
        DealState::Placing(0, 0)
    }
}

/// The state, and the places of the ships placed so far, once the places `draws` were drawn in
/// turn for the fleet `lens` on an empty board of side `size`; draws after the end change nothing.
pub open spec fn deal_run(size: usize, lens: Seq<u8>, draws: Seq<(i32, i32, bool)>) -> (DealState, Seq<
    (i32, i32, bool),
>)
    decreases draws.len(),
{
    if draws.len() == 0 {
        (deal_start(lens), Seq::empty())
    } else {
        let prev = deal_run(size, lens, draws.drop_last());
        let d = draws.last();
        match prev.0 {
            DealState::Placing(n, _) => {
                let fitted = draw_fits(size, lens, prev.1, lens[n as int] as nat, d);
                (next_state(prev.0, lens.len(), fitted), if fitted {
                    prev.1.push(d)
                } else {
                    prev.1
                })
            },
            _ => prev,
        }
    }
}

/// `draws`, each on the board, are a round of placing the fleet `lens` that gives up.
pub open spec fn failed_round(size: usize, lens: Seq<u8>, draws: Seq<(i32, i32, bool)>) -> bool {
    &&& forall|i: int| 0 <= i < draws.len() ==> draw_on_board(size, #[trigger] draws[i])
    &&& deal_run(size, lens, draws).0 == DealState::GaveUp
}

/// There are `u64::MAX` rounds of draws with which placing the fleet `lens` on a board of side
/// `size` gives up. This is a property of the size and the fleet, not of any one run.
pub open spec fn failing_rounds_exist(size: usize, lens: Seq<u8>) -> bool {
    exists|rounds: Seq<Seq<(i32, i32, bool)>>|
        rounds.len() == u64::MAX && forall|i: int|
            0 <= i < rounds.len() ==> failed_round(size, lens, #[trigger] rounds[i])
}

/// Ship `k` of `b` lies at the place `placed[k]`.
pub open spec fn ships_at(b: Board, placed: Seq<(i32, i32, bool)>) -> bool {
    &&& b.ships@.len() == placed.len()
    &&& forall|k: int|
        0 <= k < placed.len() ==> (#[trigger] b.ships@[k]).bow()@ == (placed[k].0 as int, placed[k].1 as int)
            && b.ships@[k].is_horizontal() == placed[k].2
}

/// The ship being placed in `state`.
pub open spec fn current_ship(state: DealState) -> int {
    match state {
        DealState::Placing(n, _) => n as int,
        _ => 0,
    }
}

/// What is left of a placement in `state`, for a fleet of `count` ships.
spec fn deal_left(state: DealState, count: nat) -> int {
    match state {
        DealState::Placing(n, a) => (count - n) * 101 + (100 - a),
        _ => 0,
    }
}

/// While placing, the cells taken are exactly the guarded cells of the ships placed so far.
proof fn lemma_taken_is_guarded(b: Board, size: usize, lens: Seq<u8>, placed: Seq<(i32, i32, bool)>)
    requires
        placing(b, size, lens, placed.len()),
        ships_at(b, placed),
    ensures
        forall|p: (int, int)| #[trigger] has_pos(b.busy@, p) == guarded(size, lens, placed, p),
        forall|d: (i32, i32, bool), len: nat| #[trigger] fits_free(b, d, len) == draw_fits(size, lens, placed, len, d),
{
    let n = placed.len();
    assert forall|k: int, j: int| 0 <= k < n implies #[trigger] b.ships@[k].deck(j) == drawn_deck(placed[k], j) by {}
    assert forall|p: (int, int)| #[trigger] has_pos(b.busy@, p) == guarded(size, lens, placed, p) by {
        if has_pos(b.busy@, p) {
            let (k, j) = choose|k: int, j: int|
                0 <= k < n && 0 <= j < b.ships@[k].length() && #[trigger] touching(p, b.ships@[k].deck(j));
            assert(b.ships@[k].deck(j) == drawn_deck(placed[k], j));
            assert(touching(p, drawn_deck(placed[k], j)));
        }
        if guarded(size, lens, placed, p) {
            let (k, j) = choose|k: int, j: int|
                0 <= k < placed.len() && 0 <= j < lens[k] && #[trigger] touching(p, drawn_deck(placed[k], j));
            assert(b.ships@[k].deck(j) == drawn_deck(placed[k], j));
            assert(touching(p, b.ships@[k].deck(j)));
        }
    }
    assert forall|d: (i32, i32, bool), len: nat| #[trigger] fits_free(b, d, len) == draw_fits(size, lens, placed, len, d) by {
        assert forall|j: int| 0 <= j < len implies has_pos(b.busy@, #[trigger] drawn_deck(d, j)) == guarded(
            size,
            lens,
            placed,
            drawn_deck(d, j),
        ) by {}
        assert(b.size == size);
    }
}

/// With no ship to place, every round of draws is complete.
proof fn lemma_no_ship_completes(size: usize, lens: Seq<u8>, draws: Seq<(i32, i32, bool)>)
    requires
        lens.len() == 0,
    ensures
        deal_run(size, lens, draws).0 == DealState::Complete,
    decreases draws.len(),
{
    if draws.len() > 0 {
        lemma_no_ship_completes(size, lens, draws.drop_last());
    }
}

/// While ship `n` is being placed after `a` misses, `n` ships are placed, `a` is below 100,
/// and the last `a` places drawn fitted nowhere beside the ships placed.
proof fn lemma_run_misses(size: usize, lens: Seq<u8>, draws: Seq<(i32, i32, bool)>)
    requires
        lens.len() <= usize::MAX,
    ensures
        deal_run(size, lens, draws).0 matches DealState::Placing(n, a) ==> {
            let placed = deal_run(size, lens, draws).1;
            &&& n == placed.len()
            &&& n < lens.len()
            &&& a < 100
            &&& a <= draws.len()
            &&& forall|t: int|
                draws.len() - a <= t < draws.len() ==> !draw_fits(size, lens, placed, lens[n as int] as nat, #[trigger] draws[t])
        },
    decreases draws.len(),
{
    if draws.len() > 0 {
        let prev = draws.drop_last();
        lemma_run_misses(size, lens, prev);
        let (state, placed) = deal_run(size, lens, prev);
        let d = draws.last();
        if let DealState::Placing(n, a) = state {
            let fitted = draw_fits(size, lens, placed, lens[n as int] as nat, d);
            if !fitted && a + 1 < 100 {
                assert(deal_run(size, lens, draws) == (DealState::Placing(n, (a + 1) as u32), placed));
                assert forall|t: int|
                    draws.len() - (a + 1) <= t < draws.len() implies !draw_fits(
                    size,
                    lens,
                    placed,
                    lens[n as int] as nat,
                    #[trigger] draws[t],
                ) by {
                    if t < draws.len() - 1 {
                        assert(prev[t] == draws[t]);
                    }
                }
            }
        }
    } else {
        assert(lens.len() > 0 ==> deal_run(size, lens, draws) == (DealState::Placing(0, 0), Seq::<(i32, i32, bool)>::empty()));
    }
}

/// A round that gives up does so at a ship that fitted at none of the last 100 places drawn,
/// beside the ships placed before it: the round draws exactly until then.
pub proof fn law_round_gives_up_after_hundred_misses(size: usize, lens: Seq<u8>, draws: Seq<(i32, i32, bool)>) -> (n: int)
    requires
        lens.len() <= usize::MAX,
        draws.len() > 0,
        deal_run(size, lens, draws.drop_last()).0 is Placing,
        deal_run(size, lens, draws).0 == DealState::GaveUp,
    ensures
        0 <= n < lens.len(),
        n == deal_run(size, lens, draws).1.len(),
        draws.len() >= 100,
        forall|t: int|
            draws.len() - 100 <= t < draws.len() ==> !draw_fits(
                size,
                lens,
                deal_run(size, lens, draws).1,
                lens[n] as nat,
                #[trigger] draws[t],
            ),
{
    let prev = draws.drop_last();
    lemma_run_misses(size, lens, prev);
    let (state, placed) = deal_run(size, lens, prev);
    let k = current_ship(state);
    if let DealState::Placing(n, a) = state {
        let d = draws.last();
        assert(!draw_fits(size, lens, placed, lens[n as int] as nat, d));
        assert(a == 99);
        assert(deal_run(size, lens, draws).1 == placed);
        assert forall|t: int|
            draws.len() - 100 <= t < draws.len() implies !draw_fits(
            size,
            lens,
            placed,
            lens[n as int] as nat,
            #[trigger] draws[t],
        ) by {
            if t < draws.len() - 1 {
                assert(prev[t] == draws[t]);
            }
        }
    }
    k
}

impl Game {
    /// Tries the place `(x, y, horizontal)` drawn for the ship being placed: when all its decks
    /// lie on free cells of the board it is placed as `Board::add_ship` places it, else the
    /// board is left as it was; the state moves on as `next_state` says.
    pub fn deal_step(board: &mut Board, ships: &[u8], state: DealState, x: i32, y: i32, horizontal: bool) -> (next: DealState)
        requires
            old(board).is_square(),
            state matches DealState::Placing(n, a) && n < ships@.len() && a < 100 && forall|j: int|
                0 <= j < ships@[n as int] ==> fits_i32(
                    #[trigger] drawn_deck((x, y, horizontal), j).0,
                    drawn_deck((x, y, horizontal), j).1,
                ),
        ensures
            next == next_state(
                state,
                ships@.len() as nat,
                fits_free(*old(board), (x, y, horizontal), ships@[current_ship(state)] as nat),
            ),
            !fits_free(*old(board), (x, y, horizontal), ships@[current_ship(state)] as nat) ==> *final(board)
                == *old(board),
            fits_free(*old(board), (x, y, horizontal), ships@[current_ship(state)] as nat) ==> {
                let s = final(board).ships@.last();
                &&& final(board).ships@ == old(board).ships@.push(s)
                &&& s.bow()@ == (x as int, y as int)
                &&& s.length() == ships@[current_ship(state)]
                &&& s.is_horizontal() == horizontal
                &&& s.lives() == s.length()
                &&& final(board).busy@ == crate::board::contour_marked(
                    old(board).busy@ + s.deck_cells(),
                    old(board).size as nat,
                    s,
                    s.length(),
                )
                &&& final(board).grid() == paint(old(board).grid(), s.deck_cells(), SeaField::Ship)
                &&& final(board).is_square()
                &&& final(board).hide == old(board).hide
                &&& final(board).size == old(board).size
                &&& final(board).count == old(board).count
                &&& final(board).prev_hit == old(board).prev_hit
                &&& final(board).first_hit == old(board).first_hit
            },
    {
        let n: usize = match state {
            DealState::Placing(n, _) => n,
            _ => 0,
        };
        let len = ships[n];
        let ship = Ship::new(Cell::new(x, y), len as usize, horizontal);
        proof {
            assert forall|j: int| #![trigger ship.deck(j)] 0 <= j < ship.length() implies ship.deck(j) == drawn_deck(
                (x, y, horizontal),
                j,
            ) && fits_i32(ship.deck(j).0, ship.deck(j).1) by {
                assert(fits_i32(drawn_deck((x, y, horizontal), j).0, drawn_deck((x, y, horizontal), j).1));
            }
            let d = (x, y, horizontal);
            if board.can_place(ship) {
                assert forall|j: int| 0 <= j < len implies in_range(board.size as nat, #[trigger] drawn_deck(d, j))
                    && !has_pos(board.busy@, drawn_deck(d, j)) by {
                    assert(ship.deck(j) == drawn_deck(d, j));
                }
            }
            if fits_free(*board, d, len as nat) {
                assert forall|j: int| 0 <= j < ship.length() implies in_range(board.size as nat, #[trigger] ship.deck(j))
                    && !has_pos(board.busy@, ship.deck(j)) by {
                    assert(ship.deck(j) == drawn_deck(d, j));
                }
            }
            assert(board.can_place(ship) == fits_free(*board, d, len as nat));
        }
        let placed = board.add_ship(ship).is_ok();
        proof {
            if placed {
                assert(board.ships@.last() == ship);
            }
        }
        match state {
            DealState::Placing(n, a) => {
                if placed {
                    if n + 1 == ships.len() {
                        DealState::Complete
                    } else {
                        DealState::Placing(n + 1, 0)
                    }
                } else if a + 1 == 100 {
                    DealState::GaveUp
                } else {
                    DealState::Placing(n, a + 1)
                }
            },
            _ => state,
        }
    }

    /// One round of placing all ships at random. Each draw asks the generator for a bow in
    /// `0..size` on both coordinates and for a direction, and `deal_step` decides. It returns
    /// the board when every ship was placed and `None` when some ship fitted at none of the 100
    /// places drawn for it, together with the places drawn, the last of which ended the round.
    fn try_board(size: usize, ships: &[u8]) -> (r: (Option<Board>, Ghost<Seq<(i32, i32, bool)>>))
        requires
            layout_fits(size, ships@),
        ensures
            forall|i: int| 0 <= i < r.1@.len() ==> draw_on_board(size, #[trigger] r.1@[i]),
            r.1@.len() > 0 ==> deal_run(size, ships@, r.1@.drop_last()).0 is Placing,
            r.0 is None <==> deal_run(size, ships@, r.1@).0 == DealState::GaveUp,
            r.0 matches Some(b) ==> {
                &&& deal_run(size, ships@, r.1@).0 == DealState::Complete
                &&& dealt(b, size, ships@)
                &&& !b.hide
                &&& ships_at(b, deal_run(size, ships@, r.1@).1)
            },
    {
        let mut board = Board::new(false, size);
        let mut rng = thread_rng();
        proof {
            broadcast use group_board_values;
            assert forall|p: (int, int)| in_range(board.size as nat, p) implies #[trigger] board.at(p) == if ship_at(
                board,
                p,
            ) {
                SeaField::Ship
            } else {
                SeaField::Sea
            } by {}
        }
        let mut state = if ships.len() == 0 {
            DealState::Complete
        } else {
            DealState::Placing(0, 0)
        };
        let ghost mut draws: Seq<(i32, i32, bool)> = Seq::empty();
        let ghost mut placed: Seq<(i32, i32, bool)> = Seq::empty();
        let count = ships.len();
        while state.in_progress()
            invariant
                layout_fits(size, ships@),
                count == ships@.len(),
                deal_run(size, ships@, draws) == (state, placed),
                forall|i: int| 0 <= i < draws.len() ==> draw_on_board(size, #[trigger] draws[i]),
                draws.len() > 0 ==> deal_run(size, ships@, draws.drop_last()).0 is Placing,
                placing(board, size, ships@, placed.len()),
                ships_at(board, placed),
                state matches DealState::Placing(n, a) ==> n == placed.len() && n < ships@.len() && a < 100,
                state == DealState::Complete ==> placed.len() == ships@.len(),
            decreases deal_left(state, ships@.len() as nat),
        {
            let n: usize = match state {
                DealState::Placing(n, _) => n,
                _ => 0,
            };
            let x = rng.random_coordinate(size as i32);
            let y = rng.random_coordinate(size as i32);
            let horizontal = random_flag();
            let ghost d = (x, y, horizontal);
            let ghost before = board;
            let ghost prev = state;
            let ghost a: u32 = match state {
                DealState::Placing(_, a) => a,
                _ => 0,
            };
            proof {
                assert(prev == DealState::Placing(n, a));
                assert(current_ship(prev) == n);
                assert(size + ships@[n as int] <= i32::MAX + 2);
                lemma_taken_is_guarded(before, size, ships@, placed);
            }
            state = Self::deal_step(&mut board, ships, state, x, y, horizontal);
            proof {
                let len = ships@[n as int] as nat;
                let fitted = fits_free(before, d, len);
                assert(fitted == draw_fits(size, ships@, placed, len, d));
                assert(draws.push(d).drop_last() == draws);
                if fitted {
                    let s = board.ships@.last();
                    assert forall|j: int| 0 <= j < s.length() implies #[trigger] s.deck(j) == drawn_deck(d, j) by {}
                    assert(before.can_place(s));
                    lemma_place_step(before, board, s, size, ships@, n as nat);
                    placed = placed.push(d);
                    assert forall|k: int| 0 <= k < placed.len() implies (#[trigger] board.ships@[k]).bow()@ == (
                        placed[k].0 as int,
                        placed[k].1 as int,
                    ) && board.ships@[k].is_horizontal() == placed[k].2 by {
                        if k < n {
                            assert(board.ships@[k] == before.ships@[k]);
                        }
                    }
                }
                draws = draws.push(d);
                assert(state == next_state(prev, ships@.len() as nat, fitted));
            }
        }
        match state {
            DealState::Complete => {
                let ghost before = board;
                board.begin();
                proof {
                    lemma_fleet_placed_same(before, board, ships@, ships@.len());
                    assert forall|k: int| 0 <= k < board.ships@.len() implies !(#[trigger] board.ships@[k]).is_sunk() by {}
                    lemma_sunk_count_none(board.ships@);
                }
                (Some(board), Ghost(draws))
            },
            _ => (None, Ghost(draws)),
        }
    }

    /// A board of side `size` with the ships of `ships` placed at random, none touching another.
    /// Rounds are repeated until one succeeds, at most `u64::MAX` of them; should all of them
    /// give up, the board is returned empty. Which places the rounds drew rests on chance: the
    /// second clause says only that rounds that give up exist.
    pub fn random_board(size: usize, ships: &[u8]) -> (b: Board)
        requires
            layout_fits(size, ships@),
        ensures
            !b.hide,
            dealt(b, size, ships@) || (empty_board(b, size) && failing_rounds_exist(size, ships@)),
            ships@.len() == 0 ==> dealt(b, size, ships@),
    {
        let mut attempt: u64 = 0;
        let ghost mut rounds: Seq<Seq<(i32, i32, bool)>> = Seq::empty();
        while attempt < u64::MAX
            invariant
                layout_fits(size, ships@),
                rounds.len() == attempt,
                ships@.len() == 0 ==> attempt == 0,
                forall|i: int| 0 <= i < rounds.len() ==> failed_round(size, ships@, #[trigger] rounds[i]),
            decreases u64::MAX - attempt,
        {
            let (r, Ghost(draws)) = Self::try_board(size, ships);
            match r {
                Some(b) => {
                    return b;
                },
                None => {
                    proof {
                        if ships@.len() == 0 {
                            lemma_no_ship_completes(size, ships@, draws);
                        }
                        rounds = rounds.push(draws);
                    }
                },
            }
            attempt = attempt + 1;
        }
        proof {
            assert(failing_rounds_exist(size, ships@));
        }
        Board::new(false, size)
    }

    /// A new game: both sides get a board of side `size` with the ships of `ships` placed at
    /// random; the computer's ships are hidden.
    pub fn new(size: usize, ships: &[u8]) -> (g: Self)
        requires
            layout_fits(size, ships@),
        ensures
            !g.user_board.hide,
            g.ai_board.hide,
            dealt(g.user_board, size, ships@) || (empty_board(g.user_board, size) && failing_rounds_exist(
                size,
                ships@,
            )),
            dealt(g.ai_board, size, ships@) || (empty_board(g.ai_board, size) && failing_rounds_exist(
                size,
                ships@,
            )),
            ships@.len() == 0 ==> dealt(g.user_board, size, ships@) && dealt(g.ai_board, size, ships@),
            g.user_board.in_play(),
            g.ai_board.in_play(),
    {
        let user_board = Self::random_board(size, ships);
        let mut ai_board = Self::random_board(size, ships);
        let ghost before = ai_board;
        ai_board.hide = true;
        proof {
            if dealt(before, size, ships@) {
                lemma_fleet_placed_same(before, ai_board, ships@, ships@.len());
            }
            lemma_fresh_board_safe(user_board, size, ships@);
            lemma_fresh_board_safe(ai_board, size, ships@);
        }
        Self { user_board, ai_board }
    }
}


/// The hide flag and the taken cells play no part in how the fleet is placed.
proof fn lemma_fleet_placed_same(a: Board, b: Board, lens: Seq<u8>, n: nat)
    requires
        fleet_placed(a, lens, n),
        a.size == b.size,
        a.field == b.field,
        a.ships == b.ships,
    ensures
        fleet_placed(b, lens, n),
{
    assert forall|p: (int, int)| in_range(b.size as nat, p) implies #[trigger] b.at(p) == if ship_at(b, p) {
        SeaField::Ship
    } else {
        SeaField::Sea
    } by {
        assert(a.at(p) == b.at(p));
        assert(ship_at(a, p) == ship_at(b, p));
    }
}

/// A freshly dealt board is in play.
proof fn lemma_fresh_board_safe(b: Board, size: usize, lens: Seq<u8>)
    requires
        dealt(b, size, lens) || empty_board(b, size),
    ensures
        b.in_play(),
{
    crate::laws::law_fresh_in_play(b);
}


/// The first cell of `s` that is not taken in `busy`.
pub open spec fn first_free_of(s: Seq<Cell>, busy: Seq<Cell>) -> Option<Cell>
    decreases s.len(),
{
    if s.len() == 0 {
        None
    } else if !has_pos(busy, s[0]@) {
        Some(s[0])
    } else {
        first_free_of(s.drop_first(), busy)
    }
}

/// Where the computer fires next on `b`, if its last hits point somewhere: the first free cell
/// around the last hit while that hit is recorded; failing that, the first free cell around the
/// first hit of the series.
pub open spec fn ai_target_of(b: Board) -> Option<Cell> {
    let from_prev = if b.prev_hit.result == ShotResult::Hit {
        let c = b.free_cross(b.prev_hit.coordinates);
        if c.len() > 0 {
            Some(c[0])
        } else {
            None
        }
    } else {
        None
    };
    if from_prev is None && b.first_hit.result == ShotResult::Hit {
        first_free_of(b.free_cross(b.first_hit.coordinates), b.busy@)
    } else {
        from_prev
    }
}

/// `first_free_of` gives the first cell of `s` that is not taken, if there is one.
proof fn lemma_first_free_of(s: Seq<Cell>, busy: Seq<Cell>)
    ensures
        (forall|i: int| 0 <= i < s.len() ==> has_pos(busy, (#[trigger] s[i])@)) ==> first_free_of(s, busy) is None,
        (exists|i: int| 0 <= i < s.len() && !has_pos(busy, (#[trigger] s[i])@)) ==> exists|i: int|
            0 <= i < s.len() && first_free_of(s, busy) == Some(#[trigger] s[i]) && !has_pos(busy, s[i]@)
                && forall|k: int| 0 <= k < i ==> has_pos(busy, (#[trigger] s[k])@),
    decreases s.len(),
{
    if s.len() > 0 {
        let t = s.drop_first();
        lemma_first_free_of(t, busy);
        assert forall|i: int| 0 <= i < t.len() implies #[trigger] t[i] == s[i + 1] by {}
        if has_pos(busy, s[0]@) {
            if exists|i: int| 0 <= i < s.len() && !has_pos(busy, (#[trigger] s[i])@) {
                let i = choose|i: int| 0 <= i < s.len() && !has_pos(busy, (#[trigger] s[i])@);
                assert(!has_pos(busy, t[i - 1]@));
                let j = choose|j: int|
                    0 <= j < t.len() && first_free_of(t, busy) == Some(#[trigger] t[j]) && !has_pos(busy, t[j]@)
                        && forall|k: int| 0 <= k < j ==> has_pos(busy, (#[trigger] t[k])@);
                assert(first_free_of(s, busy) == Some(s[j + 1]));
                assert forall|k: int| 0 <= k < j + 1 implies has_pos(busy, (#[trigger] s[k])@) by {
                    if k > 0 {
                        assert(s[k] == t[k - 1]);
                    }
                }
            }
            if forall|i: int| 0 <= i < s.len() ==> has_pos(busy, (#[trigger] s[i])@) {
                assert forall|i: int| 0 <= i < t.len() implies has_pos(busy, (#[trigger] t[i])@) by {
                    assert(t[i] == s[i + 1]);
                }
            }
        } else {
            assert(first_free_of(s, busy) == Some(s[0]));
        }
    }
}

/// The computer's target on `b`. While the last hit is recorded and has cells around it to
/// fire at, the first of them. Otherwise, while the first hit of the series is recorded, the
/// first cell around it that is not taken, if any. Otherwise there is no target, and the
/// computer fires at random.
pub proof fn law_ai_target(b: Board)
    ensures
        ({
            let prev = b.free_cross(b.prev_hit.coordinates);
            let first = b.free_cross(b.first_hit.coordinates);
            let from_prev = b.prev_hit.result == ShotResult::Hit && prev.len() > 0;
            &&& from_prev ==> ai_target_of(b) == Some(prev[0])
            &&& !from_prev && b.first_hit.result == ShotResult::Hit && (exists|i: int|
                0 <= i < first.len() && !has_pos(b.busy@, (#[trigger] first[i])@)) ==> exists|i: int|
                0 <= i < first.len() && ai_target_of(b) == Some(#[trigger] first[i]) && !has_pos(b.busy@, first[i]@)
                    && forall|k: int| 0 <= k < i ==> has_pos(b.busy@, (#[trigger] first[k])@)
            &&& !from_prev && b.first_hit.result == ShotResult::Hit && (forall|i: int|
                0 <= i < first.len() ==> has_pos(b.busy@, (#[trigger] first[i])@)) ==> ai_target_of(b) is None
            &&& !from_prev && b.first_hit.result != ShotResult::Hit ==> ai_target_of(b) is None
        }),
{
    lemma_first_free_of(b.free_cross(b.first_hit.coordinates), b.busy@);
}

/// The cell `c` has neighbours with `i32` coordinates.
pub open spec fn padded_cell(c: Cell) -> bool {
    i32::MIN < c@.0 < i32::MAX && i32::MIN < c@.1 < i32::MAX
}

/// The hits that the computer scans on `b` have neighbours with `i32` coordinates: the last
/// hit when it is recorded as a hit, and the first hit of the series when the last hit gives
/// no target and the first is recorded as a hit.
pub open spec fn hits_padded(b: Board) -> bool {
    &&& b.prev_hit.result == ShotResult::Hit ==> padded_cell(b.prev_hit.coordinates)
    &&& (b.prev_hit.result != ShotResult::Hit || b.free_cross(b.prev_hit.coordinates).len() == 0)
        && b.first_hit.result == ShotResult::Hit ==> padded_cell(b.first_hit.coordinates)
}

/// The computer's next shot on `b` can be fired, where its own board has side `ai_size`: the
/// target of its last hits, when there is one, is safe to fire at; otherwise a random cell with
/// coordinates in `0..ai_size` is drawn, which needs a non-empty range and every such cell safe.
pub open spec fn ai_fire_safe(b: Board, ai_size: usize) -> bool {
    match ai_target_of(b) {
        Some(t) => b.shot_safe(t),
        None => 0 < ai_size <= i32::MAX && forall|c: Cell| in_range(ai_size as nat, c@) ==> #[trigger] b.shot_safe(c),
    }
}

/// The computer's shot turns the player's board `old` into `new` with result `r`, where the
/// computer's own board has side `ai_size`: it fired at `ai_target_of(old)` if there is such a
/// cell, and at some cell with coordinates in `0..ai_size` otherwise.
pub open spec fn ai_shot_post(old: Board, new: Board, ai_size: usize, r: ShotResult) -> bool {
    exists|c: Cell|
        {
            &&& match ai_target_of(old) {
                Some(t) => c == t,
                None => in_range(ai_size as nat, c@),
            }
            &&& #[trigger] Board::shot_post(old, new, c, r)
        }
}

/// The first cell of `v` not taken in `busy`.
fn first_free(v: &Vec<Cell>, busy: &Vec<Cell>) -> (r: Option<Cell>)
    ensures
        r == first_free_of(v@, busy@),
{
    let mut i: usize = 0;
    proof {
        assert(v@.skip(0) =~= v@);
    }
    while i < v.len()
        invariant
            i <= v@.len(),
            first_free_of(v@, busy@) == first_free_of(v@.skip(i as int), busy@),
        decreases v@.len() - i,
    {
        if !contains_cell(busy, &v[i]) {
            proof {
                assert(v@.skip(i as int)[0] == v@[i as int]);
            }
            return Some(v[i]);
        }
        proof {
            assert(v@.skip(i as int)[0] == v@[i as int]);
            assert(v@.skip(i as int).drop_first() =~= v@.skip(i + 1));
        }
        i = i + 1;
    }
    proof {
        assert(v@.skip(i as int) =~= Seq::<Cell>::empty());
    }
    None
}

impl Game {
    /// Where the computer fires next, if its last hits point somewhere.
    fn ai_target(&self) -> (t: Option<Cell>)
        requires
            self.user_board.is_square(),
            hits_padded(self.user_board),
        ensures
            t == ai_target_of(self.user_board),
    {
        let ub = &self.user_board;
        let mut target: Option<Cell> = if ub.prev_hit.result == ShotResult::Hit {
            let v = ub.get_free_cross(ub.prev_hit.coordinates);
            if v.len() > 0 {
                Some(v[0])
            } else {
                None
            }
        } else {
            None
        };
        if target.is_none() && ub.first_hit.result == ShotResult::Hit {
            let v = ub.get_free_cross(ub.first_hit.coordinates);
            target = first_free(&v, &ub.busy);
        }
        target
    }

    /// Whether the computer's next shot can be fired (see `ai_shot`).
    pub fn ai_can_shoot(&self) -> (r: bool)
        ensures
            r == (self.user_board.is_square() && hits_padded(self.user_board) && ai_fire_safe(
                self.user_board,
                self.ai_board.size,
            )),
    {
        let ub = &self.user_board;
        if !ub.is_square_field() {
            return false;
        }
        if ub.prev_hit.result == ShotResult::Hit && !ub.prev_hit.coordinates.has_room() {
            return false;
        }
        let prev_gives_none = ub.prev_hit.result != ShotResult::Hit || ub.get_free_cross(
            ub.prev_hit.coordinates,
        ).len() == 0;
        if prev_gives_none && ub.first_hit.result == ShotResult::Hit && !ub.first_hit.coordinates.has_room() {
            return false;
        }
        match self.ai_target() {
            Some(t) => ub.shot_is_safe(&t),
            None => {
                let n = self.ai_board.size;
                if n == 0 || n > i32::MAX as usize {
                    return false;
                }
                let mut x: usize = 0;
                while x < n
                    invariant
                        0 < n <= i32::MAX,
                        n == self.ai_board.size,
                        x <= n,
                        ub == &self.user_board,
                        ai_target_of(self.user_board) is None,
                        ub.is_square(),
                        forall|c: Cell|
                            in_range(n as nat, c@) && c@.0 < x ==> #[trigger] ub.shot_safe(c),
                    decreases n - x,
                {
                    let mut y: usize = 0;
                    while y < n
                        invariant
                            0 < n <= i32::MAX,
                            x < n,
                            y <= n,
                            n == self.ai_board.size,
                            ub == &self.user_board,
                            ai_target_of(self.user_board) is None,
                            ub.is_square(),
                            forall|c: Cell|
                                in_range(n as nat, c@) && (c@.0 < x || (c@.0 == x && c@.1 < y)) ==> #[trigger] ub.shot_safe(c),
                        decreases n - y,
                    {
                        let c = Cell::new(x as i32, y as i32);
                        if !ub.shot_is_safe(&c) {
                            proof {
                                assert(in_range(n as nat, c@));
                            }
                            return false;
                        }
                        proof {
                            broadcast use crate::board::group_cell;
                        }
                        y = y + 1;
                    }
                    x = x + 1;
                }
                true
            },
        }
    }

    /// The computer fires at `target` on the player's board.
    pub fn fire_at(&mut self, target: Cell) -> (r: ShotResult)
        requires
            old(self).user_board.is_square(),
            old(self).user_board.shot_safe(target),
        ensures
            Board::shot_post(old(self).user_board, final(self).user_board, target, r),
            final(self).user_board.is_square(),
            old(self).user_board.wf() ==> final(self).user_board.wf(),
            old(self).user_board.in_play() ==> final(self).user_board.in_play(),
            final(self).ai_board == old(self).ai_board,
    {
        self.user_board.shot(target)
    }

    /// The computer's shot: it fires where its last hits point, or at a random cell of its own
    /// board's size when they point nowhere.
    pub fn ai_shot<R: RandomSource>(&mut self, rng: &mut R) -> (r: ShotResult)
        requires
            old(self).user_board.is_square(),
            hits_padded(old(self).user_board),
            ai_fire_safe(old(self).user_board, old(self).ai_board.size),
        ensures
            ai_shot_post(old(self).user_board, final(self).user_board, old(self).ai_board.size, r),
            final(self).user_board.is_square(),
            old(self).user_board.wf() ==> final(self).user_board.wf(),
            old(self).user_board.in_play() ==> final(self).user_board.in_play(),
            final(self).ai_board == old(self).ai_board,
            ai_target_of(old(self).user_board) is Some ==> *final(rng) == *old(rng),
    {
        let shot = match self.ai_target() {
            Some(c) => c,
            None => {
                let n = self.ai_board.size as i32;
                let x = rng.random_coordinate(n);
                let y = rng.random_coordinate(n);
                Cell::new(x, y)
            },
        };
        self.fire_at(shot)
    }

    /// The computer's move, as `ai_shot`; true when a ship is hit.
    pub fn ai_move<R: RandomSource>(&mut self, rng: &mut R) -> (hit: bool)
        requires
            old(self).user_board.is_square(),
            hits_padded(old(self).user_board),
            ai_fire_safe(old(self).user_board, old(self).ai_board.size),
        ensures
            exists|r: ShotResult|
                #[trigger] ai_shot_post(old(self).user_board, final(self).user_board, old(self).ai_board.size, r)
                    && hit == (r == ShotResult::Hit || r == ShotResult::Dead),
            final(self).user_board.is_square(),
            old(self).user_board.wf() ==> final(self).user_board.wf(),
            old(self).user_board.in_play() ==> final(self).user_board.in_play(),
            final(self).ai_board == old(self).ai_board,
            ai_target_of(old(self).user_board) is Some ==> *final(rng) == *old(rng),
    {
        let r = self.ai_shot(rng);
        r == ShotResult::Hit || r == ShotResult::Dead
    }
}


/// What comes after a shot in a side's turn.
#[derive(Clone, Copy, Debug, PartialEq, Eq, Structural)]
pub enum TurnStep {
    /// The same side fires again.
    Again,
    /// The turn passes to the other side.
    Pass,
    /// The side that fired has won.
    Won,
}

/// The bookkeeping after a shot: shots off the board or at known cells are not counted; the
/// side that fired wins when the other side is defeated, passes the turn after a miss, and
/// fires again otherwise. Returns the new count of shots and what comes next.
pub fn after_shot(steps: usize, result: ShotResult, opponent_defeated: bool) -> (r: (usize, TurnStep))
    requires
        steps < usize::MAX,
    ensures
        r.0 == if result == ShotResult::Out || result == ShotResult::Used {
            steps as int
        } else {
            steps + 1
        },
        r.1 == if opponent_defeated {
            TurnStep::Won
        } else if result == ShotResult::Miss {
            TurnStep::Pass
        } else {
            TurnStep::Again
        },
{
    let counted = if result != ShotResult::Out && result != ShotResult::Used {
        steps + 1
    } else {
        steps
    };
    let next = if opponent_defeated {
        TurnStep::Won
    } else if result == ShotResult::Miss {
        TurnStep::Pass
    } else {
        TurnStep::Again
    };
    (counted, next)
}


/// A board in play can always take the computer's next shot, drawn on a board of side
/// `ai_size` when its hits point nowhere: the field is square, the scanned hits have
/// neighbours, and no cell is unsafe to fire at.
pub proof fn law_in_play_ready_for_ai(b: Board, ai_size: usize)
    requires
        b.in_play(),
        0 < ai_size <= i32::MAX,
    ensures
        b.is_square(),
        hits_padded(b),
        ai_fire_safe(b, ai_size),
{
    crate::laws::law_in_play_safe(b);
}

} // verus!

use vstd::prelude::*;

use crate::board::{
    cell_at, contour_marked, fits_i32, group_board_values, group_cell, has_pos, in_range,
    lemma_cell_at, lemma_contour_marked, ring_cell, ring_marked, touching, Board, Cell, SeaField,
    Ship, ShotResult,
};

verus! {

/// A ship is hit at `c` exactly when `c` is one of the cells it lists.
pub proof fn law_hit_iff_listed(ship: Ship, c: Cell)
    requires
        ship.fits(),
    ensures
        ship.occupies(c) <==> ship.deck_cells().contains(c),
{
    broadcast use group_cell, lemma_cell_at;

    if ship.occupies(c) {
        let j = choose|j: int| 0 <= j < ship.length() && c@ == #[trigger] ship.deck(j);
        assert(fits_i32(ship.deck(j).0, ship.deck(j).1));
        assert(ship.deck_cells()[j] == c);
    }
    if ship.deck_cells().contains(c) {
        let j = choose|j: int| 0 <= j < ship.deck_cells().len() && ship.deck_cells()[j] == c;
        assert(fits_i32(ship.deck(j).0, ship.deck(j).1));
        assert(c@ == ship.deck(j));
    }
}

/// A shot never frees a taken cell.
pub proof fn law_shot_keeps_taken(old: Board, new: Board, d: Cell, r: ShotResult, p: (int, int))
    requires
        old.wf(),
        Board::shot_post(old, new, d, r),
        has_pos(old.busy@, p),
    ensures
        has_pos(new.busy@, p),
{
    if old.in_bounds(d) && !has_pos(old.busy@, d@) {
        let k = choose|k: int| #![trigger old.busy@[k]] 0 <= k < old.busy@.len() && old.busy@[k]@ == p;
        assert(old.busy@.push(d)[k] == old.busy@[k]);
        if !old.unoccupied(d) {
            let i = lemma_first_ship_exists(old, d);
            let s = old.ships@[i];
            if s.lives() == 1 {
                lemma_contour_marked(old.busy@.push(d), old.size as nat, s, s.length());
            }
        }
    }
}

/// A cell that some ship occupies has a first such ship.
pub proof fn lemma_first_ship_exists(b: Board, d: Cell) -> (i: int)
    requires
        !b.unoccupied(d),
    ensures
        b.first_ship(d, i),
{
    let k = choose|k: int| 0 <= k < b.ships@.len() && (#[trigger] b.ships@[k]).occupies(d);
    lemma_first_ship_below(b, d, k)
}

proof fn lemma_first_ship_below(b: Board, d: Cell, k: int) -> (i: int)
    requires
        0 <= k < b.ships@.len(),
        b.ships@[k].occupies(d),
    ensures
        b.first_ship(d, i),
    decreases k,
{
    if forall|m: int| 0 <= m < k ==> !(#[trigger] b.ships@[m]).occupies(d) {
        k
    } else {
        let m = choose|m: int| 0 <= m < k && (#[trigger] b.ships@[m]).occupies(d);
        lemma_first_ship_below(b, d, m)
    }
}

/// Once a shot at `d` has landed on the board, `d` is taken: firing there again is `Used`
/// and changes nothing.
pub proof fn law_second_shot_used(b0: Board, b1: Board, b2: Board, d: Cell, r1: ShotResult, r2: ShotResult)
    requires
        b0.wf(),
        Board::shot_post(b0, b1, d, r1),
        r1 != ShotResult::Out,
        Board::shot_post(b1, b2, d, r2),
    ensures
        r2 == ShotResult::Used,
        b2 == b1,
{
    if !has_pos(b0.busy@, d@) {
        assert(b0.busy@.push(d)[b0.busy@.len() as int] == d);
        assert(has_pos(b0.busy@.push(d), d@));
        if !b0.unoccupied(d) {
            let i = lemma_first_ship_exists(b0, d);
            let s = b0.ships@[i];
            if s.lives() == 1 {
                lemma_contour_marked(b0.busy@.push(d), b0.size as nat, s, s.length());
            }
        }
    }
}

/// When a ship is sunk, every cell on the board that touches one of its decks is taken.
pub proof fn law_sunk_ship_surrounded(old: Board, new: Board, d: Cell, i: int, p: (int, int))
    requires
        old.wf(),
        old.in_bounds(d),
        !has_pos(old.busy@, d@),
        old.first_ship(d, i),
        Board::shot_post(old, new, d, ShotResult::Dead),
        in_range(old.size as nat, p),
        exists|j: int| 0 <= j < old.ships@[i].length() && #[trigger] touching(p, old.ships@[i].deck(j)),
    ensures
        has_pos(new.busy@, p),
{
    let s = old.ships@[i];
    lemma_contour_marked(old.busy@.push(d), old.size as nat, s, s.length());
}

/// The number of decks among the first `n` of `ship` whose cells are not taken in `busy`.
pub open spec fn afloat_upto(ship: Ship, busy: Seq<Cell>, n: nat) -> nat
    decreases n,
{
    if n == 0 {
        0
    } else {
        afloat_upto(ship, busy, (n - 1) as nat) + if has_pos(busy, ship.deck(n - 1)) {
            0nat
        } else {
            1nat
        }
    }
}

/// The number of decks of `ship` whose cells are not taken in `busy`.
pub open spec fn afloat(ship: Ship, busy: Seq<Cell>) -> nat {
    afloat_upto(ship, busy, ship.length())
}

impl Board {
    /// No two ships touch, not even by a corner.
    pub open spec fn ships_apart(self) -> bool {
        forall|k1: int, k2: int, j1: int, j2: int|
            0 <= k1 < k2 < self.ships@.len() && 0 <= j1 < self.ships@[k1].length() && 0 <= j2
                < self.ships@[k2].length() ==> !touching(
                #[trigger] self.ships@[k1].deck(j1),
                #[trigger] self.ships@[k2].deck(j2),
            )
    }

    /// The board is in play: well formed, its ships apart, and each ship has exactly as many
    /// lives as it has decks on cells not yet taken.
    pub open spec fn in_play(self) -> bool {
        &&& self.wf()
        &&& self.ships_apart()
        &&& forall|k: int|
            0 <= k < self.ships@.len() ==> (#[trigger] self.ships@[k]).lives() == afloat(
                self.ships@[k],
                self.busy@,
            )
    }
}

/// Only the taken state of the decks counts.
proof fn lemma_afloat_congruent(ship: Ship, b1: Seq<Cell>, b2: Seq<Cell>, n: nat)
    requires
        forall|j: int| 0 <= j < n ==> has_pos(b1, #[trigger] ship.deck(j)) == has_pos(b2, ship.deck(j)),
    ensures
        afloat_upto(ship, b1, n) == afloat_upto(ship, b2, n),
    decreases n,
{
    if n > 0 {
        lemma_afloat_congruent(ship, b1, b2, (n - 1) as nat);
        assert(has_pos(b1, ship.deck(n - 1)) == has_pos(b2, ship.deck(n - 1)));
    }
}

/// Taking the cell of one more deck leaves one deck less afloat.
proof fn lemma_afloat_take_one(ship: Ship, b1: Seq<Cell>, b2: Seq<Cell>, n: nat, j0: int)
    requires
        0 <= j0 < n,
        !has_pos(b1, ship.deck(j0)),
        has_pos(b2, ship.deck(j0)),
        forall|j: int|
            0 <= j < n && j != j0 ==> has_pos(b1, #[trigger] ship.deck(j)) == has_pos(b2, ship.deck(j)),
    ensures
        afloat_upto(ship, b2, n) + 1 == afloat_upto(ship, b1, n),
    decreases n,
{
    if j0 == n - 1 {
        lemma_afloat_congruent(ship, b1, b2, (n - 1) as nat);
    } else {
        lemma_afloat_take_one(ship, b1, b2, (n - 1) as nat, j0);
        assert(has_pos(b1, ship.deck(n - 1)) == has_pos(b2, ship.deck(n - 1)));
    }
}

/// A deck whose cell is free keeps the ship afloat.
proof fn lemma_afloat_positive(ship: Ship, b: Seq<Cell>, n: nat, j0: int)
    requires
        0 <= j0 < n,
        !has_pos(b, ship.deck(j0)),
    ensures
        afloat_upto(ship, b, n) >= 1,
    decreases n,
{
    if j0 < n - 1 {
        lemma_afloat_positive(ship, b, (n - 1) as nat, j0);
    }
}

/// With every deck's cell taken, no deck is afloat.
proof fn lemma_afloat_zero(ship: Ship, b: Seq<Cell>, n: nat)
    requires
        forall|j: int| 0 <= j < n ==> has_pos(b, #[trigger] ship.deck(j)),
    ensures
        afloat_upto(ship, b, n) == 0,
    decreases n,
{
    if n > 0 {
        lemma_afloat_zero(ship, b, (n - 1) as nat);
        assert(has_pos(b, ship.deck(n - 1)));
    }
}

/// With no deck's cell taken, every deck is afloat.
proof fn lemma_afloat_all(ship: Ship, b: Seq<Cell>, n: nat)
    requires
        forall|j: int| 0 <= j < n ==> !has_pos(b, #[trigger] ship.deck(j)),
    ensures
        afloat_upto(ship, b, n) == n,
    decreases n,
{
    if n > 0 {
        lemma_afloat_all(ship, b, (n - 1) as nat);
        assert(!has_pos(b, ship.deck(n - 1)));
    }
}

/// The nine cells around `center` touch it.
proof fn lemma_ring_touching(center: (int, int), o: int)
    requires
        0 <= o < 9,
    ensures
        touching(ring_cell(center, o), center),
{
    if o < 3 {
    } else if o < 6 {
    } else {
    }
}

/// Marking around `center` takes only cells on the board that touch it.
pub proof fn lemma_ring_marked_only(busy: Seq<Cell>, size: nat, center: (int, int), n: nat, p: (int, int))
    requires
        size <= i32::MAX,
        n <= 9,
        has_pos(ring_marked(busy, size, center, n), p),
    ensures
        has_pos(busy, p) || (touching(p, center) && in_range(size, p)),
    decreases n,
{
    if n > 0 {
        let prev = ring_marked(busy, size, center, (n - 1) as nat);
        let q = ring_cell(center, n - 1);
        lemma_ring_touching(center, n - 1);
        if in_range(size, q) && !has_pos(prev, q) {
            let m = prev.push(cell_at(q.0, q.1));
            let k = choose|k: int| #![trigger m[k]] 0 <= k < m.len() && m[k]@ == p;
            if k < prev.len() {
                assert(m[k] == prev[k]);
                lemma_ring_marked_only(busy, size, center, (n - 1) as nat, p);
            } else {
                lemma_cell_at(q.0, q.1);
            }
        } else {
            lemma_ring_marked_only(busy, size, center, (n - 1) as nat, p);
        }
    }
}

/// Marking around the decks of a ship takes only cells on the board that touch one of them.
pub proof fn lemma_contour_marked_only(busy: Seq<Cell>, size: nat, ship: Ship, n: nat, p: (int, int))
    requires
        size <= i32::MAX,
        has_pos(contour_marked(busy, size, ship, n), p),
    ensures
        has_pos(busy, p) || (in_range(size, p) && exists|j: int| 0 <= j < n && #[trigger] touching(p, ship.deck(j))),
    decreases n,
{
    if n > 0 {
        let prev = contour_marked(busy, size, ship, (n - 1) as nat);
        lemma_ring_marked_only(prev, size, ship.deck(n - 1), 9, p);
        if has_pos(prev, p) {
            lemma_contour_marked_only(busy, size, ship, (n - 1) as nat, p);
        } else {
            assert(touching(p, ship.deck(n - 1)));
        }
    }
}

/// The decks of a ship lie on distinct cells.
proof fn lemma_deck_injective(ship: Ship, j1: int, j2: int)
    ensures
        ship.deck(j1) == ship.deck(j2) ==> j1 == j2,
{
}

/// A board in play has no ship without lives under a free cell.
pub proof fn law_in_play_safe(b: Board)
    requires
        b.in_play(),
    ensures
        b.all_safe(),
{
    assert forall|d: Cell| #[trigger] b.shot_safe(d) by {
        if b.in_bounds(d) && !has_pos(b.busy@, d@) {
            assert forall|i: int| b.first_ship(d, i) implies {
                let s = #[trigger] b.ships@[i];
                &&& s.lives() > 0
                &&& s.lives() == 1 ==> s.fits() && s.padded() && b.count < usize::MAX
            } by {
                let s = b.ships@[i];
                let j = choose|j: int| 0 <= j < s.length() && d@ == #[trigger] s.deck(j);
                lemma_afloat_positive(s, b.busy@, s.length(), j);
                crate::board::lemma_placed_ship_fits(s, b.size as nat);
                crate::board::lemma_sunk_count_all(b.ships@);
                assert(!s.is_sunk());
                assert(b.ships.len() == b.ships@.len());
            }
        }
    }
}

/// A shot keeps a board in play: each ship still has exactly as many lives as decks on free
/// cells, so a ship is sunk exactly when its last free deck is hit.
pub proof fn law_shot_keeps_in_play(old: Board, new: Board, d: Cell, r: ShotResult)
    requires
        old.in_play(),
        Board::shot_post(old, new, d, r),
        new.wf(),
    ensures
        new.in_play(),
{
    broadcast use group_board_values;

    if !old.in_bounds(d) || has_pos(old.busy@, d@) {
        return;
    }
    let pushed = old.busy@.push(d);
    assert forall|q: (int, int)| #[trigger] has_pos(pushed, q) == (has_pos(old.busy@, q) || q == d@) by {
        if has_pos(old.busy@, q) {
            let k = choose|k: int| #![trigger old.busy@[k]] 0 <= k < old.busy@.len() && old.busy@[k]@ == q;
            assert(pushed[k] == old.busy@[k]);
        }
        if q == d@ {
            assert(pushed[old.busy@.len() as int] == d);
        }
        if has_pos(pushed, q) && q != d@ {
            let k = choose|k: int| #![trigger pushed[k]] 0 <= k < pushed.len() && pushed[k]@ == q;
            assert(old.busy@[k] == pushed[k]);
        }
    }
    if old.unoccupied(d) {
        assert forall|k: int| 0 <= k < new.ships@.len() implies (#[trigger] new.ships@[k]).lives() == afloat(
            new.ships@[k],
            new.busy@,
        ) by {
            let s = old.ships@[k];
            assert forall|j: int| 0 <= j < s.length() implies has_pos(old.busy@, #[trigger] s.deck(j))
                == has_pos(pushed, s.deck(j)) by {
                if s.deck(j) == d@ {
                    assert(s.occupies(d));
                }
            }
            lemma_afloat_congruent(s, old.busy@, pushed, s.length());
        }
        return;
    }
    let i = lemma_first_ship_exists(old, d);
    let si = old.ships@[i];
    let j0 = choose|j: int| 0 <= j < si.length() && d@ == #[trigger] si.deck(j);
    lemma_afloat_positive(si, old.busy@, si.length(), j0);
    assert(si.lives() == afloat(old.ships@[i], old.busy@));
    let nsi = si.with_lives((si.lives() - 1) as nat);
    assert(new.ships@ == old.ships@.update(i, nsi));
    // The other ships keep their decks apart from ship `i`, so what marks ship `i` leaves them be.
    assert forall|k: int, j: int|
        0 <= k < old.ships@.len() && k != i && 0 <= j < old.ships@[k].length() implies !touching(
        #[trigger] old.ships@[k].deck(j),
        si.deck(j0),
    ) && old.ships@[k].deck(j) != d@ by {
        if k < i {
            assert(!touching(old.ships@[k].deck(j), old.ships@[i].deck(j0)));
        } else {
            assert(!touching(old.ships@[i].deck(j0), old.ships@[k].deck(j)));
        }
    }
    // ships stay apart
    assert forall|k1: int, k2: int, j1: int, j2: int|
        0 <= k1 < k2 < new.ships@.len() && 0 <= j1 < new.ships@[k1].length() && 0 <= j2
            < new.ships@[k2].length() implies !touching(
        #[trigger] new.ships@[k1].deck(j1),
        #[trigger] new.ships@[k2].deck(j2),
    ) by {
        assert(new.ships@[k1].deck(j1) == old.ships@[k1].deck(j1));
        assert(new.ships@[k2].deck(j2) == old.ships@[k2].deck(j2));
    }
    if si.lives() == 1 {
        let size = old.size as nat;
        lemma_contour_marked(pushed, size, si, si.length());
        assert forall|k: int| 0 <= k < new.ships@.len() implies (#[trigger] new.ships@[k]).lives() == afloat(
            new.ships@[k],
            new.busy@,
        ) by {
            if k == i {
                assert forall|j: int| 0 <= j < si.length() implies has_pos(new.busy@, #[trigger] si.deck(j)) by {
                    assert(in_range(size, old.ships@[i].deck(j)));
                    assert(touching(si.deck(j), si.deck(j)));
                }
                lemma_afloat_zero(si, new.busy@, si.length());
                lemma_afloat_same_decks(new.ships@[k], si, new.busy@, si.length());
            } else {
                let s = old.ships@[k];
                assert forall|j: int| 0 <= j < s.length() implies has_pos(old.busy@, #[trigger] s.deck(j))
                    == has_pos(new.busy@, s.deck(j)) by {
                    if has_pos(new.busy@, s.deck(j)) {
                        lemma_contour_marked_only(pushed, size, si, si.length(), s.deck(j));
                        if !has_pos(pushed, s.deck(j)) {
                            let jj = choose|jj: int| 0 <= jj < si.length() && #[trigger] touching(s.deck(j), si.deck(jj));
                            if k < i {
                                assert(!touching(old.ships@[k].deck(j), old.ships@[i].deck(jj)));
                            } else {
                                assert(!touching(old.ships@[i].deck(jj), old.ships@[k].deck(j)));
                            }
                        }
                    }
                    if has_pos(old.busy@, s.deck(j)) {
                        assert(has_pos(pushed, s.deck(j)));
                    }
                }
                lemma_afloat_congruent(s, old.busy@, new.busy@, s.length());
            }
        }
    } else {
        assert forall|k: int| 0 <= k < new.ships@.len() implies (#[trigger] new.ships@[k]).lives() == afloat(
            new.ships@[k],
            new.busy@,
        ) by {
            if k == i {
                assert forall|j: int| 0 <= j < si.length() && j != j0 implies has_pos(old.busy@, #[trigger] si.deck(j))
                    == has_pos(pushed, si.deck(j)) by {
                    lemma_deck_injective(si, j, j0);
                }
                assert(has_pos(pushed, si.deck(j0)));
                lemma_afloat_take_one(si, old.busy@, pushed, si.length(), j0);
                lemma_afloat_same_decks(new.ships@[k], si, new.busy@, si.length());
            } else {
                let s = old.ships@[k];
                assert forall|j: int| 0 <= j < s.length() implies has_pos(old.busy@, #[trigger] s.deck(j))
                    == has_pos(pushed, s.deck(j)) by {}
                lemma_afloat_congruent(s, old.busy@, pushed, s.length());
            }
        }
    }
}

/// Ships with their decks in the same places have the same decks afloat.
proof fn lemma_afloat_same_decks(a: Ship, b: Ship, busy: Seq<Cell>, n: nat)
    requires
        a.bow() == b.bow(),
        a.is_horizontal() == b.is_horizontal(),
    ensures
        afloat_upto(a, busy, n) == afloat_upto(b, busy, n),
    decreases n,
{
    if n > 0 {
        lemma_afloat_same_decks(a, b, busy, (n - 1) as nat);
        assert(a.deck(n - 1) == b.deck(n - 1));
    }
}

/// A well-formed board whose ships are apart, unharmed, and on which nothing is taken yet,
/// is in play.
pub proof fn law_fresh_in_play(b: Board)
    requires
        b.wf(),
        b.ships_apart(),
        b.busy@ == Seq::<Cell>::empty(),
        forall|k: int| 0 <= k < b.ships@.len() ==> (#[trigger] b.ships@[k]).lives() == b.ships@[k].length(),
    ensures
        b.in_play(),
{
    assert forall|k: int| 0 <= k < b.ships@.len() implies (#[trigger] b.ships@[k]).lives() == afloat(
        b.ships@[k],
        b.busy@,
    ) by {
        lemma_afloat_all(b.ships@[k], b.busy@, b.ships@[k].length());
    }
}

/// A shot keeps a well-formed board well formed: in particular the count of sunk ships stays
/// the number of ships whose every deck was hit.
pub proof fn law_shot_keeps_wf(old: Board, new: Board, d: Cell, r: ShotResult)
    requires
        old.wf(),
        old.shot_safe(d),
        Board::shot_post(old, new, d, r),
        new.is_square(),
    ensures
        new.wf(),
{
    broadcast use group_board_values;

    if !old.in_bounds(d) || has_pos(old.busy@, d@) || old.unoccupied(d) {
        return;
    }
    let i = lemma_first_ship_exists(old, d);
    let si = old.ships@[i];
    let nsi = si.with_lives((si.lives() - 1) as nat);
    assert(new.ships@ == old.ships@.update(i, nsi));
    crate::board::lemma_sunk_count_update(old.ships@, i, nsi);
    assert forall|k: int| #![trigger new.ships@[k]] 0 <= k < new.ships@.len() implies {
        &&& new.ships@[k].lives() <= new.ships@[k].length()
        &&& forall|j: int|
            0 <= j < new.ships@[k].length() ==> in_range(new.size as nat, #[trigger] new.ships@[k].deck(j))
    } by {
        if k == i {
            assert forall|j: int| 0 <= j < nsi.length() implies in_range(new.size as nat, #[trigger] nsi.deck(j)) by {
                assert(nsi.deck(j) == si.deck(j));
                assert(in_range(old.size as nat, old.ships@[k].deck(j)));
            }
        } else {
            assert(new.ships@[k] == old.ships@[k]);
        }
    }
}

} // verus!

verus! {

impl Board {
    /// The ships lie on the board, no two of them touch, and every cell on the board that
    /// touches a deck is taken.
    pub open spec fn fleet_guarded(self) -> bool {
        &&& self.ships_apart()
        &&& forall|k: int, j: int|
            0 <= k < self.ships@.len() && 0 <= j < self.ships@[k].length() ==> in_range(
                self.size as nat,
                #[trigger] self.ships@[k].deck(j),
            )
        &&& forall|k: int, j: int, p: (int, int)|
            0 <= k < self.ships@.len() && 0 <= j < self.ships@[k].length() && #[trigger] touching(
                p,
                self.ships@[k].deck(j),
            ) && in_range(self.size as nat, p) ==> has_pos(self.busy@, p)
    }
}

/// Placing a ship keeps a guarded fleet guarded: ships placed one by one on a board, with
/// nothing forgotten between them, lie on the board and never touch, not even by a corner.
pub proof fn law_place_keeps_fleet_guarded(old: Board, new: Board, ship: Ship)
    requires
        old.fleet_guarded(),
        old.size <= i32::MAX,
        old.can_place(ship),
        new.busy@ == contour_marked(old.busy@ + ship.deck_cells(), old.size as nat, ship, ship.length()),
        new.ships@ == old.ships@.push(ship),
        new.size == old.size,
    ensures
        new.fleet_guarded(),
{
    let size = old.size as nat;
    let n = old.ships@.len() as int;
    let cells = ship.deck_cells();
    assert(new.ships@[n] == ship);
    assert forall|k: int| 0 <= k < n implies #[trigger] new.ships@[k] == old.ships@[k] by {}
    assert forall|j: int| 0 <= j < ship.length() implies in_range(size, #[trigger] ship.deck(j)) by {}
    assert forall|k1: int, k2: int, j1: int, j2: int|
        0 <= k1 < k2 < new.ships@.len() && 0 <= j1 < new.ships@[k1].length() && 0 <= j2
            < new.ships@[k2].length() implies !touching(
        #[trigger] new.ships@[k1].deck(j1),
        #[trigger] new.ships@[k2].deck(j2),
    ) by {
        assert(new.ships@[k1] == old.ships@[k1]);
        if k2 < n {
            assert(new.ships@[k2] == old.ships@[k2]);
        } else {
            let p = ship.deck(j2);
            if touching(new.ships@[k1].deck(j1), p) {
                assert(touching(p, old.ships@[k1].deck(j1)));
                assert(in_range(size, p));
                assert(has_pos(old.busy@, p));
            }
        }
    }
    assert forall|k: int, j: int|
        0 <= k < new.ships@.len() && 0 <= j < new.ships@[k].length() implies in_range(
        size,
        #[trigger] new.ships@[k].deck(j),
    ) by {
        if k < n {
            assert(new.ships@[k] == old.ships@[k]);
        }
    }
    lemma_contour_marked(old.busy@ + cells, size, ship, ship.length());
    assert forall|k: int, j: int, p: (int, int)|
        0 <= k < new.ships@.len() && 0 <= j < new.ships@[k].length() && #[trigger] touching(
            p,
            new.ships@[k].deck(j),
        ) && in_range(size, p) implies has_pos(new.busy@, p) by {
        if k < n {
            assert(new.ships@[k] == old.ships@[k]);
            assert(has_pos(old.busy@, p));
            let i = choose|i: int| #![trigger old.busy@[i]] 0 <= i < old.busy@.len() && old.busy@[i]@ == p;
            assert((old.busy@ + cells)[i] == old.busy@[i]);
            assert(has_pos(old.busy@ + cells, p));
        } else {
            assert(touching(p, ship.deck(j)));
        }
    }
}

} // verus!

verus! {

/// Every cell of `s` lies on a board of side `size`.
pub open spec fn all_on_board(s: Seq<Cell>, size: nat) -> bool {
    forall|k: int| 0 <= k < s.len() ==> in_range(size, (#[trigger] s[k])@)
}

/// Marking keeps the taken cells on the board and free of repeats.
proof fn lemma_mark_tidy(busy: Seq<Cell>, size: nat, p: (int, int))
    requires
        size <= i32::MAX,
    ensures
        all_on_board(busy, size) ==> all_on_board(crate::board::mark(busy, size, p), size),
        busy.no_duplicates() ==> crate::board::mark(busy, size, p).no_duplicates(),
{
    if in_range(size, p) && !has_pos(busy, p) {
        lemma_cell_at(p.0, p.1);
        let m = busy.push(cell_at(p.0, p.1));
        assert forall|k: int| 0 <= k < busy.len() implies busy[k] != m[busy.len() as int] by {
            if busy[k] == m[busy.len() as int] {
                assert(busy[k]@ == p);
            }
        }
        assert forall|k: int| 0 <= k < m.len() && all_on_board(busy, size) implies in_range(size, (#[trigger] m[k])@) by {
            if k < busy.len() {
                assert(m[k] == busy[k]);
            }
        }
        if busy.no_duplicates() {
            assert forall|i: int, j: int| 0 <= i < m.len() && 0 <= j < m.len() && i != j implies m[i] != m[j] by {
                if i < busy.len() && j < busy.len() {
                    assert(m[i] == busy[i] && m[j] == busy[j]);
                } else if i < busy.len() {
                    assert(m[i] == busy[i]);
                } else {
                    assert(m[j] == busy[j]);
                }
            }
        }
    }
}

/// Marking around `center` keeps the taken cells on the board and free of repeats.
proof fn lemma_ring_tidy(busy: Seq<Cell>, size: nat, center: (int, int), n: nat)
    requires
        size <= i32::MAX,
        n <= 9,
    ensures
        all_on_board(busy, size) ==> all_on_board(ring_marked(busy, size, center, n), size),
        busy.no_duplicates() ==> ring_marked(busy, size, center, n).no_duplicates(),
    decreases n,
{
    if n > 0 {
        lemma_ring_tidy(busy, size, center, (n - 1) as nat);
        lemma_mark_tidy(ring_marked(busy, size, center, (n - 1) as nat), size, ring_cell(center, n - 1));
    }
}

/// Marking around the decks of a ship keeps the taken cells on the board and free of repeats.
proof fn lemma_contour_tidy(busy: Seq<Cell>, size: nat, ship: Ship, n: nat)
    requires
        size <= i32::MAX,
    ensures
        all_on_board(busy, size) ==> all_on_board(contour_marked(busy, size, ship, n), size),
        busy.no_duplicates() ==> contour_marked(busy, size, ship, n).no_duplicates(),
    decreases n,
{
    if n > 0 {
        lemma_contour_tidy(busy, size, ship, (n - 1) as nat);
        lemma_ring_tidy(contour_marked(busy, size, ship, (n - 1) as nat), size, ship.deck(n - 1), 9);
    }
}

/// A shot only appends to the taken cells, keeping them on the board and free of repeats; it
/// keeps the size, the hide flag and where every ship lies; it counts at most one more sunk
/// ship; and it never undoes a defeat.
pub proof fn law_shot_bookkeeping(old: Board, new: Board, d: Cell, r: ShotResult)
    requires
        old.is_square(),
        old.shot_safe(d),
        Board::shot_post(old, new, d, r),
    ensures
        new.size == old.size,
        new.hide == old.hide,
        old.busy@.len() <= new.busy@.len(),
        new.busy@.subrange(0, old.busy@.len() as int) == old.busy@,
        all_on_board(old.busy@, old.size as nat) ==> all_on_board(new.busy@, new.size as nat),
        old.busy@.no_duplicates() ==> new.busy@.no_duplicates(),
        new.ships@.len() == old.ships@.len(),
        forall|k: int|
            0 <= k < new.ships@.len() ==> (#[trigger] new.ships@[k]).bow() == old.ships@[k].bow()
                && new.ships@[k].length() == old.ships@[k].length() && new.ships@[k].is_horizontal()
                == old.ships@[k].is_horizontal(),
        old.count <= new.count <= old.count + 1,
        old.wf() && old.ships@.len() > 0 && old.count == old.ships@.len() ==> new.count == new.ships@.len(),
{
    broadcast use group_board_values;

    let size = old.size as nat;
    if !old.in_bounds(d) || has_pos(old.busy@, d@) {
        assert(new.busy@.subrange(0, old.busy@.len() as int) =~= old.busy@);
        return;
    }
    let pushed = old.busy@.push(d);
    assert(pushed.subrange(0, old.busy@.len() as int) =~= old.busy@);
    lemma_mark_tidy(old.busy@, size, d@);
    assert(crate::board::mark(old.busy@, size, d@) == pushed) by {
        lemma_cell_at(d@.0, d@.1);
    }
    if old.unoccupied(d) {
        return;
    }
    let i = lemma_first_ship_exists(old, d);
    let si = old.ships@[i];
    let nsi = si.with_lives((si.lives() - 1) as nat);
    assert(new.ships@ == old.ships@.update(i, nsi));
    assert forall|k: int| 0 <= k < new.ships@.len() implies (#[trigger] new.ships@[k]).bow() == old.ships@[k].bow()
        && new.ships@[k].length() == old.ships@[k].length() && new.ships@[k].is_horizontal()
        == old.ships@[k].is_horizontal() by {
        if k != i {
            assert(new.ships@[k] == old.ships@[k]);
        }
    }
    if old.wf() && old.ships@.len() > 0 && old.count == old.ships@.len() {
        crate::board::lemma_sunk_count_all(old.ships@);
        assert(si.is_sunk());
    }
    if si.lives() == 1 {
        lemma_contour_marked(pushed, size, si, si.length());
        lemma_contour_tidy(pushed, size, si, si.length());
        assert(new.busy@.subrange(0, old.busy@.len() as int) =~= pushed.subrange(0, old.busy@.len() as int));
    }
}

/// The books of a board are in order: its taken cells lie on it, none is taken twice, and it
/// counts no more sunk ships than it has.
pub open spec fn books_in_order(b: Board) -> bool {
    &&& all_on_board(b.busy@, b.size as nat)
    &&& b.busy@.no_duplicates()
    &&& b.count <= crate::board::sunk_count(b.ships@)
}

/// A shot that can be fired keeps the books of a board in order, keeps its ships where they
/// are, and once every ship is counted sunk it stays so.
pub proof fn law_shot_keeps_books(old: Board, new: Board, d: Cell, r: ShotResult)
    requires
        old.size <= i32::MAX,
        old.in_bounds(d) && !has_pos(old.busy@, d@) ==> old.is_square(),
        old.shot_safe(d),
        Board::shot_post(old, new, d, r),
        books_in_order(old),
    ensures
        books_in_order(new),
        new.size == old.size,
        new.busy@.subrange(0, old.busy@.len() as int) == old.busy@,
        new.ships@.len() == old.ships@.len(),
        old.count <= new.count <= old.count + 1,
        old.ships@.len() > 0 && old.count == old.ships@.len() ==> new.count == new.ships@.len(),
{
    broadcast use group_board_values;

    if !old.in_bounds(d) || has_pos(old.busy@, d@) {
        assert(new.busy@.subrange(0, old.busy@.len() as int) =~= old.busy@);
        return;
    }
    law_shot_bookkeeping(old, new, d, r);
    if old.unoccupied(d) {
        return;
    }
    let i = lemma_first_ship_exists(old, d);
    let si = old.ships@[i];
    let nsi = si.with_lives((si.lives() - 1) as nat);
    assert(Board::hit_post(old, new, d, r, i));
    assert(si.lives() > 0);
    assert(si.length() > 0);
    crate::board::lemma_sunk_count_update(old.ships@, i, nsi);
    crate::board::lemma_sunk_count_all(old.ships@);
    if old.ships@.len() > 0 && old.count == old.ships@.len() {
        assert(si.is_sunk());
    }
}

/// A shot at a free cell of the board where no ship lies is a miss, shown at that cell and
/// nowhere else: every other cell of the field keeps what it showed.
pub proof fn law_miss_shows_at_the_cell(old: Board, new: Board, d: Cell, r: ShotResult)
    requires
        old.is_square(),
        Board::shot_post(old, new, d, r),
        old.in_bounds(d),
        !has_pos(old.busy@, d@),
        old.unoccupied(d),
    ensures
        r == ShotResult::Miss,
        new.grid().len() == old.grid().len(),
        forall|i: int| 0 <= i < old.grid().len() ==> (#[trigger] new.grid()[i]).len() == old.grid()[i].len(),
        forall|i: int, j: int|
            0 <= i < old.size && 0 <= j < old.size ==> #[trigger] new.grid()[i][j] == if i == d@.0 && j == d@.1 {
                SeaField::Miss
            } else {
                old.grid()[i][j]
            },
{
    assert forall|i: int, j: int| #![trigger has_pos(seq![d], (i, j))] has_pos(seq![d], (i, j)) == (i == d@.0 && j == d@.1) by {
        if i == d@.0 && j == d@.1 {
            assert(seq![d][0]@ == (i, j));
        }
    }
}

/// A shot at a free cell of the board that hits a ship without sinking it is a hit, shown at
/// that cell and nowhere else: every other cell of the field keeps what it showed.
pub proof fn law_hit_shows_at_the_cell(old: Board, new: Board, d: Cell, r: ShotResult, k: int)
    requires
        old.is_square(),
        Board::shot_post(old, new, d, r),
        old.in_bounds(d),
        !has_pos(old.busy@, d@),
        old.first_ship(d, k),
        old.ships@[k].lives() > 1,
    ensures
        r == ShotResult::Hit,
        new.grid().len() == old.grid().len(),
        forall|i: int| 0 <= i < old.grid().len() ==> (#[trigger] new.grid()[i]).len() == old.grid()[i].len(),
        forall|i: int, j: int|
            0 <= i < old.size && 0 <= j < old.size ==> #[trigger] new.grid()[i][j] == if i == d@.0 && j == d@.1 {
                SeaField::Hit
            } else {
                old.grid()[i][j]
            },
{
    assert(!old.unoccupied(d));
    assert(Board::hit_post(old, new, d, r, k));
    assert forall|i: int, j: int| #![trigger has_pos(seq![d], (i, j))] has_pos(seq![d], (i, j)) == (i == d@.0 && j == d@.1) by {
        if i == d@.0 && j == d@.1 {
            assert(seq![d][0]@ == (i, j));
        }
    }
}

/// The cell `p` if it is free on `b`, else nothing.
pub open spec fn free_or_none(b: Board, p: (int, int)) -> Seq<(int, int)> {
    if in_range(b.size as nat, p) && !has_pos(b.busy@, p) {
        seq![p]
    } else {
        Seq::empty()
    }
}

/// The neighbour `p` of a hit shows a hit too and the cell `q` on the other side is free.
pub open spec fn hit_beside(b: Board, p: (int, int), q: (int, int)) -> bool {
    &&& in_range(b.size as nat, p)
    &&& has_pos(b.busy@, p)
    &&& b.at(p) == SeaField::Hit
    &&& in_range(b.size as nat, q)
    &&& !has_pos(b.busy@, q)
}

/// Where to fire after a hit at `d`, looking at the four neighbours in turn (lower first
/// coordinate, higher first, lower second, higher second): the first neighbour that shows a
/// hit with a free cell beyond `d` on the other side gives that cell alone, so a line of hits
/// is followed along either coordinate; without such a neighbour, the free neighbours in that
/// order.
pub proof fn law_cross_follows_hits(b: Board, d: Cell)
    requires
        b.size <= i32::MAX,
        i32::MIN < d@.0 < i32::MAX,
        i32::MIN < d@.1 < i32::MAX,
    ensures
        ({
            let (x, y) = d@;
            let lo0 = (x - 1, y);
            let hi0 = (x + 1, y);
            let lo1 = (x, y - 1);
            let hi1 = (x, y + 1);
            let got = b.free_cross(d).map_values(|c: Cell| c@);
            if hit_beside(b, lo0, hi0) {
                got == seq![hi0]
            } else if hit_beside(b, hi0, lo0) {
                got == seq![lo0]
            } else if hit_beside(b, lo1, hi1) {
                got == seq![hi1]
            } else if hit_beside(b, hi1, lo1) {
                got == seq![lo1]
            } else {
                got == free_or_none(b, lo0) + free_or_none(b, hi0) + free_or_none(b, lo1) + free_or_none(b, hi1)
            }
        }),
{
    broadcast use group_cell, lemma_cell_at;

    reveal_with_fuel(Board::cross_scan, 5);
    let (x, y) = d@;
    let e = Seq::<Cell>::empty();
    let a0 = if b.is_free((x - 1, y)) { e.push(cell_at(x - 1, y)) } else { e };
    let a1 = if b.is_free((x + 1, y)) { a0.push(cell_at(x + 1, y)) } else { a0 };
    let a2 = if b.is_free((x, y - 1)) { a1.push(cell_at(x, y - 1)) } else { a1 };
    let a3 = if b.is_free((x, y + 1)) { a2.push(cell_at(x, y + 1)) } else { a2 };
    assert(crate::board::cross_offset(0) == (-1int, 0int));
    assert(crate::board::cross_offset(1) == (1int, 0int));
    assert(crate::board::cross_offset(2) == (0int, -1int));
    assert(crate::board::cross_offset(3) == (0int, 1int));
    assert(b.cross_scan(d@, 4, a3) == a3);
    let got = b.free_cross(d).map_values(|c: Cell| c@);
    if !hit_beside(b, (x - 1, y), (x + 1, y)) && !hit_beside(b, (x + 1, y), (x - 1, y)) && !hit_beside(
        b,
        (x, y - 1),
        (x, y + 1),
    ) && !hit_beside(b, (x, y + 1), (x, y - 1)) {
        assert(b.free_cross(d) == a3);
        assert(got =~= free_or_none(b, (x - 1, y)) + free_or_none(b, (x + 1, y)) + free_or_none(b, (x, y - 1))
            + free_or_none(b, (x, y + 1)));
    } else {
        assert(got.len() == 1);
    }
}

/// A shot that sinks a ship shows a hit where it went and a miss on every cell it newly takes
/// around the ship; every other cell of the field keeps what it showed.
pub proof fn law_sinking_shows_surroundings(old: Board, new: Board, d: Cell, i: int)
    requires
        old.is_square(),
        books_in_order(old),
        old.in_bounds(d),
        !has_pos(old.busy@, d@),
        old.first_ship(d, i),
        Board::shot_post(old, new, d, ShotResult::Dead),
    ensures
        forall|p: (int, int)|
            in_range(old.size as nat, p) ==> #[trigger] new.at(p) == if p == d@ {
                SeaField::Hit
            } else if has_pos(new.busy@, p) && !has_pos(old.busy@, p) {
                SeaField::Miss
            } else {
                old.at(p)
            },
{
    broadcast use group_board_values;

    let size = old.size as nat;
    let len = old.busy@.len() as int;
    let s = old.ships@[i];
    assert(!old.unoccupied(d));
    assert(Board::hit_post(old, new, d, ShotResult::Dead, i));
    assert(s.lives() == 1);
    let pushed = old.busy@.push(d);
    assert forall|a: int, b: int| 0 <= a < pushed.len() && 0 <= b < pushed.len() && a != b implies pushed[a] != pushed[b] by {
        if a < len && b < len {
            assert(pushed[a] == old.busy@[a] && pushed[b] == old.busy@[b]);
        } else if a < len {
            assert(pushed[a] == old.busy@[a]);
            if pushed[a] == pushed[b] {
                assert(old.busy@[a]@ == d@);
            }
        } else {
            assert(pushed[b] == old.busy@[b]);
            if pushed[a] == pushed[b] {
                assert(old.busy@[b]@ == d@);
            }
        }
    }
    lemma_contour_marked(pushed, size, s, s.length());
    lemma_contour_tidy(pushed, size, s, s.length());
    let nb = new.busy@;
    assert(nb.subrange(0, len + 1) == pushed);
    let tail = nb.skip(len + 1);
    let hit = crate::board::paint(old.grid(), seq![d], SeaField::Hit);
    assert(new.grid() == crate::board::paint(hit, tail, SeaField::Miss));
    assert forall|p: (int, int)| in_range(size, p) implies #[trigger] new.at(p) == if p == d@ {
        SeaField::Hit
    } else if has_pos(nb, p) && !has_pos(old.busy@, p) {
        SeaField::Miss
    } else {
        old.at(p)
    } by {
        assert(old.grid()[p.0].len() == old.size);
        assert(has_pos(seq![d], p) == (p == d@)) by {
            if p == d@ {
                assert(seq![d][0]@ == p);
            }
        }
        let newly = has_pos(nb, p) && !has_pos(old.busy@, p) && p != d@;
        if has_pos(tail, p) {
            let k = choose|k: int| #![trigger tail[k]] 0 <= k < tail.len() && tail[k]@ == p;
            assert(nb[len + 1 + k] == tail[k]);
            assert(has_pos(nb, p));
            if has_pos(old.busy@, p) {
                let m = choose|m: int| #![trigger old.busy@[m]] 0 <= m < len && old.busy@[m]@ == p;
                assert(nb[m] == pushed[m]);
                assert(nb[m] == old.busy@[m]);
                assert(nb[m] == nb[len + 1 + k]);
            }
            if p == d@ {
                assert(nb[len as int] == pushed[len as int]);
                assert(nb[len as int] == nb[len + 1 + k]);
            }
        }
        if newly {
            let m = choose|m: int| #![trigger nb[m]] 0 <= m < nb.len() && nb[m]@ == p;
            if m < len {
                assert(nb[m] == pushed[m]);
                assert(pushed[m] == old.busy@[m]);
            } else if m == len {
                assert(nb[m] == pushed[m]);
            } else {
                assert(tail[m - len - 1] == nb[m]);
            }
            assert(has_pos(tail, p));
        }
    }
}

/// Some deck of `ship` lies at `p`.
pub open spec fn deck_at(ship: Ship, p: (int, int)) -> bool {
    exists|j: int| 0 <= j < ship.length() && #[trigger] ship.deck(j) == p
}

/// `p` lies on a board of side `size` and touches a deck of `ship`, or is one.
pub open spec fn around(ship: Ship, size: nat, p: (int, int)) -> bool {
    in_range(size, p) && exists|j: int| 0 <= j < ship.length() && #[trigger] touching(p, ship.deck(j))
}

/// The decks of a ship with `i32` coordinates are its cells.
proof fn lemma_deck_cells_at(ship: Ship, p: (int, int))
    requires
        ship.fits(),
    ensures
        has_pos(ship.deck_cells(), p) == deck_at(ship, p),
{
    broadcast use group_cell, lemma_cell_at;

    let cells = ship.deck_cells();
    if has_pos(cells, p) {
        let j = choose|j: int| #![trigger cells[j]] 0 <= j < cells.len() && cells[j]@ == p;
        assert(fits_i32(ship.deck(j).0, ship.deck(j).1));
        assert(ship.deck(j) == p);
    }
    if deck_at(ship, p) {
        let j = choose|j: int| 0 <= j < ship.length() && #[trigger] ship.deck(j) == p;
        assert(fits_i32(ship.deck(j).0, ship.deck(j).1));
        assert(cells[j]@ == p);
    }
}

/// Placing a ship where it fits shows its decks as ship and leaves every other cell of the
/// field as it was; the cells taken afterwards are those taken before and every cell of the
/// board that touches a deck; the ship joins the others at the end.
pub proof fn law_placing_shows_ship_and_takes_surroundings(old: Board, new: Board, ship: Ship)
    requires
        old.is_square(),
        ship.fits(),
        old.can_place(ship),
        Board::place_post(old, new, ship),
    ensures
        new.ships@ == old.ships@.push(ship),
        forall|p: (int, int)|
            in_range(old.size as nat, p) ==> #[trigger] new.at(p) == if deck_at(ship, p) {
                SeaField::Ship
            } else {
                old.at(p)
            },
        forall|p: (int, int)|
            #[trigger] has_pos(new.busy@, p) <==> has_pos(old.busy@, p) || around(ship, old.size as nat, p),
{
    let size = old.size as nat;
    let cells = ship.deck_cells();
    let start = old.busy@ + cells;
    lemma_contour_marked(start, size, ship, ship.length());
    assert forall|p: (int, int)| in_range(size, p) implies #[trigger] new.at(p) == if deck_at(ship, p) {
        SeaField::Ship
    } else {
        old.at(p)
    } by {
        lemma_deck_cells_at(ship, p);
        assert(old.grid()[p.0].len() == old.size);
    }
    assert forall|p: (int, int)|
        #[trigger] has_pos(new.busy@, p) <==> has_pos(old.busy@, p) || around(ship, size, p) by {
        if has_pos(new.busy@, p) {
            lemma_contour_marked_only(start, size, ship, ship.length(), p);
            if has_pos(start, p) {
                let k = choose|k: int| #![trigger start[k]] 0 <= k < start.len() && start[k]@ == p;
                if k < old.busy@.len() {
                    assert(start[k] == old.busy@[k]);
                } else {
                    assert(start[k] == cells[k - old.busy@.len()]);
                    assert(has_pos(cells, p));
                    lemma_deck_cells_at(ship, p);
                    let j = choose|j: int| 0 <= j < ship.length() && #[trigger] ship.deck(j) == p;
                    assert(touching(p, ship.deck(j)));
                }
            }
        }
        if has_pos(old.busy@, p) {
            let k = choose|k: int| #![trigger old.busy@[k]] 0 <= k < old.busy@.len() && old.busy@[k]@ == p;
            assert(start[k] == old.busy@[k]);
            assert(has_pos(start, p));
        }
        if around(ship, size, p) {
            let j = choose|j: int| 0 <= j < ship.length() && #[trigger] touching(p, ship.deck(j));
            assert(has_pos(new.busy@, p));
        }
    }
}

/// Taking the surroundings of a ship takes, besides the cells taken before, exactly the cells
/// of the board that touch a deck; when they are shown, each newly taken cell shows a miss and
/// every other cell keeps what it showed; otherwise the field is unchanged.
pub proof fn law_surroundings_taken_and_shown(old: Board, new: Board, ship: Ship, show: bool)
    requires
        old.is_square(),
        old.busy@.no_duplicates(),
        Board::surround_post(old, new, ship, show),
    ensures
        forall|p: (int, int)|
            #[trigger] has_pos(new.busy@, p) <==> has_pos(old.busy@, p) || around(ship, old.size as nat, p),
        forall|p: (int, int)|
            in_range(old.size as nat, p) ==> #[trigger] new.at(p) == if show && has_pos(new.busy@, p) && !has_pos(
                old.busy@,
                p,
            ) {
                SeaField::Miss
            } else {
                old.at(p)
            },
{
    broadcast use group_cell;

    let size = old.size as nat;
    let len = old.busy@.len() as int;
    let nb = new.busy@;
    lemma_contour_marked(old.busy@, size, ship, ship.length());
    lemma_contour_tidy(old.busy@, size, ship, ship.length());
    assert(nb.subrange(0, len) == old.busy@);
    let tail = nb.skip(len);
    assert forall|p: (int, int)| #[trigger] has_pos(nb, p) <==> has_pos(old.busy@, p) || around(ship, size, p) by {
        if has_pos(nb, p) {
            lemma_contour_marked_only(old.busy@, size, ship, ship.length(), p);
        }
        if around(ship, size, p) {
            let j = choose|j: int| 0 <= j < ship.length() && #[trigger] touching(p, ship.deck(j));
        }
    }
    assert forall|p: (int, int)| in_range(size, p) implies #[trigger] new.at(p) == if show && has_pos(nb, p) && !has_pos(
        old.busy@,
        p,
    ) {
        SeaField::Miss
    } else {
        old.at(p)
    } by {
        assert(old.grid()[p.0].len() == old.size);
        if show {
            if has_pos(tail, p) {
                let k = choose|k: int| #![trigger tail[k]] 0 <= k < tail.len() && tail[k]@ == p;
                assert(nb[len + k] == tail[k]);
                assert(has_pos(nb, p));
                if has_pos(old.busy@, p) {
                    let m = choose|m: int| #![trigger old.busy@[m]] 0 <= m < len && old.busy@[m]@ == p;
                    assert(nb[m] == old.busy@[m]);
                    assert(nb[m] == nb[len + k]);
                }
            }
            if has_pos(nb, p) && !has_pos(old.busy@, p) {
                let m = choose|m: int| #![trigger nb[m]] 0 <= m < nb.len() && nb[m]@ == p;
                if m < len {
                    assert(nb[m] == old.busy@[m]);
                } else {
                    assert(tail[m - len] == nb[m]);
                }
                assert(has_pos(tail, p));
            }
        }
    }
}

/// What a shot records of the hits that the computer follows: a miss, or a shot off the board
/// or at a taken cell, records nothing; a hit that leaves the ship afloat becomes the last
/// hit, and starts a new series, as its first hit, unless the last shot recorded was a hit;
/// a hit that sinks the ship is recorded as the last shot with result `Dead` and closes the
/// series, and the sunk ship is counted.
pub proof fn law_shot_records_hits(old: Board, new: Board, d: Cell, r: ShotResult)
    requires
        Board::shot_post(old, new, d, r),
    ensures
        r == ShotResult::Out || r == ShotResult::Used || r == ShotResult::Miss ==> new.prev_hit == old.prev_hit
            && new.first_hit == old.first_hit && new.count == old.count,
        r == ShotResult::Hit ==> {
            &&& new.prev_hit.coordinates == d
            &&& new.prev_hit.result == ShotResult::Hit
            &&& new.first_hit.coordinates == if old.prev_hit.result == ShotResult::Hit {
                old.first_hit.coordinates
            } else {
                d
            }
            &&& new.first_hit.result == if old.prev_hit.result == ShotResult::Hit {
                old.first_hit.result
            } else {
                ShotResult::Hit
            }
            &&& new.count == old.count
        },
        r == ShotResult::Dead ==> {
            &&& new.prev_hit.coordinates == d
            &&& new.prev_hit.result == ShotResult::Dead
            &&& new.first_hit.coordinates == old.first_hit.coordinates
            &&& new.first_hit.result == ShotResult::Dead
            &&& new.count == old.count + 1
        },
        old.in_bounds(d) && !has_pos(old.busy@, d@) ==> (r == ShotResult::Miss <==> old.unoccupied(d)),
{
    if old.in_bounds(d) && !has_pos(old.busy@, d@) && !old.unoccupied(d) {
        let i = lemma_first_ship_exists(old, d);
        assert(Board::hit_post(old, new, d, r, i));
    }
}

} // verus!

use vstd::prelude::*;
use vstd::std_specs::ops::{AddSpec, SubSpec};

verus! {

/// A cell of the sea, given by its two coordinates.
#[derive(Clone, Copy, Debug, PartialEq, Eq, Structural)]
pub struct Cell {
    x: i32,
    y: i32,
}

impl View for Cell {
    type V = (int, int);

    closed spec fn view(&self) -> (int, int) {
        (self.x as int, self.y as int)
    }
}

/// Both coordinates of a cell are `i32` values.
pub broadcast proof fn lemma_cell_view_range(c: Cell)
    ensures
        i32::MIN <= (#[trigger] c@).0 <= i32::MAX,
        i32::MIN <= c@.1 <= i32::MAX,
{
}

/// A cell is determined by its coordinates.
pub broadcast proof fn lemma_cell_view_injective(a: Cell, b: Cell)
    ensures
        #[trigger] a@ == #[trigger] b@ ==> a == b,
{
}

/// What every cell is known to satisfy.
pub broadcast group group_cell {
    lemma_cell_view_range,
    lemma_cell_view_injective,
}

/// The coordinates `(x, y)` fit in a cell.
pub open spec fn fits_i32(x: int, y: int) -> bool {
    i32::MIN <= x <= i32::MAX && i32::MIN <= y <= i32::MAX
}

/// The cell with the given coordinates, which must fit in `i32`.
pub closed spec fn cell_at(x: int, y: int) -> Cell
    recommends
        fits_i32(x, y),
{
    Cell { x: x as i32, y: y as i32 }
}

/// `cell_at` has the coordinates it was given.
pub broadcast proof fn lemma_cell_at(x: int, y: int)
    requires
        fits_i32(x, y),
    ensures
        (#[trigger] cell_at(x, y))@ == (x, y),
{
}

impl Cell {
    /// Creates a cell from its coordinates.
    pub fn new(x: i32, y: i32) -> (c: Self)
        ensures
            c@ == (x as int, y as int),
    {
        Self { x, y }
    }
}

impl core::ops::Add for Cell {
    type Output = Cell;

    /// The cell shifted by the coordinates of `other`.
    fn add(self, other: Cell) -> (c: Cell)
        ensures
            c@ == (self@.0 + other@.0, self@.1 + other@.1),
    {
        Cell::new(self.x + other.x, self.y + other.y)
    }
}

impl vstd::std_specs::ops::AddSpecImpl for Cell {
    open spec fn obeys_add_spec() -> bool {
        true
    }

    open spec fn add_req(self, rhs: Cell) -> bool {
        fits_i32(self@.0 + rhs@.0, self@.1 + rhs@.1)
    }

    closed spec fn add_spec(self, rhs: Cell) -> Cell {
        cell_at(self@.0 + rhs@.0, self@.1 + rhs@.1)
    }
}

impl core::ops::Sub for Cell {
    type Output = Cell;

    /// The coordinate-wise difference of two cells.
    fn sub(self, other: Cell) -> (c: Cell)
        ensures
            c@ == (self@.0 - other@.0, self@.1 - other@.1),
    {
        Cell::new(self.x - other.x, self.y - other.y)
    }
}

impl vstd::std_specs::ops::SubSpecImpl for Cell {
    open spec fn obeys_sub_spec() -> bool {
        true
    }

    open spec fn sub_req(self, rhs: Cell) -> bool {
        fits_i32(self@.0 - rhs@.0, self@.1 - rhs@.1)
    }

    closed spec fn sub_spec(self, rhs: Cell) -> Cell {
        cell_at(self@.0 - rhs@.0, self@.1 - rhs@.1)
    }
}

/// What a cell of the sea shows.
#[derive(Debug, Clone, Copy, PartialEq, Eq, Structural)]
pub enum SeaField {
    /// Open sea.
    Sea,
    /// A deck of a ship.
    Ship,
    /// A deck that was hit.
    Hit,
    /// A cell known to be empty.
    Miss,
}

impl SeaField {
    /// The one-character picture of the cell.
    pub open spec fn glyph(self) -> Seq<char> {
        match self {
            SeaField::Sea => "~"@,
            SeaField::Ship => "\u{2588}"@,
            SeaField::Hit => "X"@,
            SeaField::Miss => "\u{25aa}"@,
        }
    }

    /// The picture of the cell as a string.
    pub fn to_string(&self) -> (s: String)
        ensures
            s@ == self.glyph(),
    {
        match self {
            SeaField::Sea => "~".to_owned(),
            SeaField::Ship => "\u{2588}".to_owned(),
            SeaField::Hit => "X".to_owned(),
            SeaField::Miss => "\u{25aa}".to_owned(),
        }
    }
}

/// Why a board refused a request.
#[derive(Debug, PartialEq, Eq, Structural)]
pub enum BoardError {
    /// The cell lies off the board.
    Out,
    /// The cell is already taken.
    Used,
    /// The ship cannot be placed there.
    WrongShip,
}

impl BoardError {
    /// The message shown to the player.
    pub open spec fn message(self) -> Seq<char> {
        match self {
            BoardError::Out => "За пределами поля!"@,
            BoardError::Used => "Клетка уже занята!"@,
            BoardError::WrongShip => "Не удалось разместить корабль"@,
        }
    }

    /// The message shown to the player, as a string.
    pub fn to_string(&self) -> (s: String)
        ensures
            s@ == self.message(),
    {
        match self {
            BoardError::Out => "За пределами поля!".to_owned(),
            BoardError::Used => "Клетка уже занята!".to_owned(),
            BoardError::WrongShip => "Не удалось разместить корабль".to_owned(),
        }
    }
}

/// The outcome of a shot.
#[derive(Clone, Copy, Debug, PartialEq, Eq, Structural)]
pub enum ShotResult {
    /// A deck of a ship was hit and the ship still floats.
    Hit,
    /// The last deck of a ship was hit.
    Dead,
    /// The target lies outside the board.
    Out,
    /// Nothing was hit on the board.
    Miss,
    /// The target was already known.
    Used,
}

/// A shot: where it went and what came of it.
#[derive(Debug, Clone, Copy)]
pub struct Shot {
    pub coordinates: Cell,
    pub result: ShotResult,
}

/// A ship: its bow, its length, its orientation and the decks still afloat.
#[derive(Debug, Clone, Copy, PartialEq, Eq, Structural)]
pub struct Ship {
    bow: Cell,
    length: usize,
    horizontal: bool,
    lives: usize,
}

impl View for Ship {
    /// The bow, the length, whether the ship lies horizontally, the lives left.
    type V = (Cell, nat, bool, nat);

    closed spec fn view(&self) -> (Cell, nat, bool, nat) {
        (self.bow, self.length as nat, self.horizontal, self.lives as nat)
    }
}

/// A ship is determined by its view.
pub broadcast proof fn lemma_ship_view_injective(a: Ship, b: Ship)
    ensures
        #[trigger] a@ == #[trigger] b@ ==> a == b,
{
}

/// The length and the lives of a ship are `usize` values.
pub broadcast proof fn lemma_ship_view_range(s: Ship)
    ensures
        (#[trigger] s@).1 <= usize::MAX,
        s@.3 <= usize::MAX,
{
}

impl Ship {
    /// The cell of the first deck.
    pub open spec fn bow(self) -> Cell {
        self@.0
    }

    /// The number of decks.
    pub open spec fn length(self) -> nat {
        self@.1
    }

    /// The decks follow the bow along the first coordinate (else along the second).
    pub open spec fn is_horizontal(self) -> bool {
        self@.2
    }

    /// The decks not hit yet.
    pub open spec fn lives(self) -> nat {
        self@.3
    }

    /// The same ship with `n` lives.
    pub closed spec fn with_lives(self, n: nat) -> Ship
        recommends
            n <= usize::MAX,
    {
        Ship { lives: n as usize, ..self }
    }

    /// The coordinates of deck `j`, counted from the bow.
    pub open spec fn deck(self, j: int) -> (int, int) {
        if self.is_horizontal() {
            (self.bow()@.0 + j, self.bow()@.1)
        } else {
            (self.bow()@.0, self.bow()@.1 + j)
        }
    }

    /// The ship has a deck on `c`.
    pub open spec fn occupies(self, c: Cell) -> bool {
        exists|j: int| 0 <= j < self.length() && c@ == #[trigger] self.deck(j)
    }

    /// Every deck of the ship has `i32` coordinates.
    pub open spec fn fits(self) -> bool {
        &&& self.length() <= i32::MAX + 1
        &&& forall|j: int| 0 <= j < self.length() ==> fits_i32(#[trigger] self.deck(j).0, self.deck(j).1)
    }

    /// The decks of the ship as cells, from the bow.
    pub open spec fn deck_cells(self) -> Seq<Cell> {
        Seq::new(self.length(), |j: int| cell_at(self.deck(j).0, self.deck(j).1))
    }

    /// Creates a ship with all its decks afloat.
    pub fn new(bow: Cell, length: usize, horizontal: bool) -> (s: Self)
        ensures
            s@ == (bow, length as nat, horizontal, length as nat),
    {
        Self { bow, length, horizontal, lives: length }
    }

    /// The cells of all decks, from the bow.
    pub fn cells(&self) -> (v: Vec<Cell>)
        requires
            self.fits(),
        ensures
            v@ == self.deck_cells(),
    {
        let mut v: Vec<Cell> = Vec::new();
        let mut i: usize = 0;
        while i < self.length
            invariant
                self.fits(),
                i <= self.length,
                v@ == self.deck_cells().take(i as int),
            decreases self.length - i,
        {
            proof {
                assert(fits_i32(self.deck(i as int).0, self.deck(i as int).1));
                lemma_cell_at(self.deck(i as int).0, self.deck(i as int).1);
            }
            let step = i as i32;
            let c = if self.horizontal {
                Cell::new(self.bow.x + step, self.bow.y)
            } else {
                Cell::new(self.bow.x, self.bow.y + step)
            };
            v.push(c);
            i = i + 1;
            proof {
                assert(v@ =~= self.deck_cells().take(i as int));
            }
        }
        proof {
            assert(v@ =~= self.deck_cells());
        }
        v
    }

    /// Whether a deck of the ship lies on `cell`.
    pub fn hit(&self, cell: &Cell) -> (r: bool)
        ensures
            r == self.occupies(*cell),
    {
        let (along_c, across_c, along_b, across_b) = if self.horizontal {
            (cell.x, cell.y, self.bow.x, self.bow.y)
        } else {
            (cell.y, cell.x, self.bow.y, self.bow.x)
        };
        if across_c != across_b || along_c < along_b {
            proof {
                assert forall|j: int| 0 <= j < self.length() implies cell@ != #[trigger] self.deck(j) by {}
            }
            return false;
        }
        let diff = (along_c as i64 - along_b as i64) as u64;
        let r = (diff as u128) < (self.length as u128);
        proof {
            if r {
                assert(cell@ == self.deck(diff as int));
            } else {
                assert forall|j: int| 0 <= j < self.length() implies cell@ != #[trigger] self.deck(j) by {}
            }
        }
        r
    }
}

impl Ship {
    /// All decks of the ship have been hit.
    pub open spec fn is_sunk(self) -> bool {
        self.lives() == 0 && self.length() > 0
    }
}

/// `with_lives` changes the lives and nothing else.
pub broadcast proof fn lemma_with_lives(s: Ship, n: nat)
    requires
        n <= usize::MAX,
    ensures
        (#[trigger] s.with_lives(n))@ == (s@.0, s@.1, s@.2, n),
{
}

/// What cells and ships are known to satisfy.
pub broadcast group group_board_values {
    group_cell,
    lemma_cell_at,
    lemma_ship_view_injective,
    lemma_ship_view_range,
    lemma_with_lives,
}

/// The position `p` lies on a square board of side `size`.
pub open spec fn in_range(size: nat, p: (int, int)) -> bool {
    0 <= p.0 < size && 0 <= p.1 < size
}

/// Some cell of `s` has the coordinates `p`.
pub open spec fn has_pos(s: Seq<Cell>, p: (int, int)) -> bool {
    exists|k: int| #![trigger s[k]] 0 <= k < s.len() && s[k]@ == p
}

/// The number of sunk ships in `s`.
pub open spec fn sunk_count(s: Seq<Ship>) -> nat
    decreases s.len(),
{
    if s.len() == 0 {
        0
    } else {
        sunk_count(s.drop_last()) + if s.last().is_sunk() {
            1nat
        } else {
            0nat
        }
    }
}

/// The grid `g` with every cell of `cells` set to `v`.
pub open spec fn paint(g: Seq<Seq<SeaField>>, cells: Seq<Cell>, v: SeaField) -> Seq<Seq<SeaField>> {
    Seq::new(
        g.len(),
        |i: int| Seq::new(g[i].len(), |j: int| if has_pos(cells, (i, j)) { v } else { g[i][j] }),
    )
}

/// The offsets to the nine cells around a cell (itself included), row by row.
pub open spec fn ring_offset(k: int) -> (int, int) {
    (if k < 3 { -1 } else if k < 6 { 0 } else { 1 }, if k % 3 == 0 { -1 } else if k % 3 == 1 { 0 } else { 1 })
}

/// Cell `o` of the ring of nine cells around `center`.
pub open spec fn ring_cell(center: (int, int), o: int) -> (int, int) {
    (center.0 + ring_offset(o).0, center.1 + ring_offset(o).1)
}

/// `busy` with the cell at `p` appended, when `p` lies on the board and is not in `busy` yet.
pub open spec fn mark(busy: Seq<Cell>, size: nat, p: (int, int)) -> Seq<Cell> {
    if in_range(size, p) && !has_pos(busy, p) {
        busy.push(cell_at(p.0, p.1))
    } else {
        busy
    }
}

/// `busy` after marking the first `n` of the nine cells around `center`.
pub open spec fn ring_marked(busy: Seq<Cell>, size: nat, center: (int, int), n: nat) -> Seq<Cell>
    decreases n,
{
    if n == 0 {
        busy
    } else {
        mark(ring_marked(busy, size, center, (n - 1) as nat), size, ring_cell(center, n - 1))
    }
}

/// `busy` after marking the cells around the first `n` decks of `ship`.
pub open spec fn contour_marked(busy: Seq<Cell>, size: nat, ship: Ship, n: nat) -> Seq<Cell>
    decreases n,
{
    if n == 0 {
        busy
    } else {
        ring_marked(contour_marked(busy, size, ship, (n - 1) as nat), size, ship.deck(n - 1), 9)
    }
}

/// The playing field of one side.
pub struct Board {
    /// Whether the ships are hidden when the board is drawn.
    pub hide: bool,
    /// The side of the square board.
    pub size: usize,
    /// The number of sunk ships.
    pub count: usize,
    /// What each cell shows, indexed by the first and then the second coordinate.
    pub field: Vec<Vec<SeaField>>,
    /// The cells taken, by a ship or its surroundings while placing, by a shot while playing.
    pub busy: Vec<Cell>,
    /// The ships on the board.
    pub ships: Vec<Ship>,
    /// The last shot that hit a ship.
    pub prev_hit: Shot,
    /// The first hit of the current series.
    pub first_hit: Shot,
}

/// The shot recorded before any shot was fired.
pub open spec fn no_shot() -> Shot {
    Shot { coordinates: cell_at(-1, -1), result: ShotResult::Out }
}

impl Board {
    /// The contents of the field, row by row.
    pub open spec fn grid(self) -> Seq<Seq<SeaField>> {
        self.field@.map_values(|r: Vec<SeaField>| r@)
    }

    /// The cell `c` lies on the board.
    pub open spec fn in_bounds(self, c: Cell) -> bool {
        in_range(self.size as nat, c@)
    }

    /// What the field shows at `p`.
    pub open spec fn at(self, p: (int, int)) -> SeaField {
        self.grid()[p.0][p.1]
    }

    /// The field is a square of side `size`, and `size` fits in `i32`.
    pub open spec fn is_square(self) -> bool {
        &&& self.size <= i32::MAX
        &&& self.field@.len() == self.size
        &&& forall|i: int| 0 <= i < self.size ==> (#[trigger] self.field@[i])@.len() == self.size
    }

    /// Every deck of every ship lies on the board, and no ship has more lives than decks.
    pub open spec fn ships_placed(self) -> bool {
        forall|k: int|
            #![trigger self.ships@[k]]
            0 <= k < self.ships@.len() ==> {
                &&& self.ships@[k].lives() <= self.ships@[k].length()
                &&& forall|j: int|
                    0 <= j < self.ships@[k].length() ==> in_range(self.size as nat, #[trigger] self.ships@[k].deck(j))
            }
    }

    /// A shot recorded as a hit lies on the board.
    pub open spec fn hits_on_board(self) -> bool {
        &&& self.prev_hit.result == ShotResult::Hit ==> self.in_bounds(self.prev_hit.coordinates)
        &&& self.first_hit.result == ShotResult::Hit ==> self.in_bounds(self.first_hit.coordinates)
    }

    /// The board is well formed.
    pub open spec fn wf(self) -> bool {
        &&& self.is_square()
        &&& self.ships_placed()
        &&& self.count == sunk_count(self.ships@)
        &&& self.hits_on_board()
    }

    /// Creates an empty board: all sea, no ship, nothing taken, no shot.
    pub fn new(hide: bool, size: usize) -> (b: Self)
        ensures
            b.hide == hide,
            b.size == size,
            b.count == 0,
            b.grid() == Seq::new(size as nat, |i: int| Seq::new(size as nat, |j: int| SeaField::Sea)),
            b.busy@ == Seq::<Cell>::empty(),
            b.ships@ == Seq::<Ship>::empty(),
            b.prev_hit == no_shot(),
            b.first_hit == no_shot(),
            size <= i32::MAX ==> b.wf(),
            b.fleet_guarded(),
    {
        let ghost sea_row = Seq::new(size as nat, |j: int| SeaField::Sea);
        let mut field: Vec<Vec<SeaField>> = Vec::new();
        let mut i: usize = 0;
        while i < size
            invariant
                i <= size,
                sea_row == Seq::new(size as nat, |j: int| SeaField::Sea),
                field@.len() == i,
                forall|k: int| 0 <= k < i ==> (#[trigger] field@[k])@ == sea_row,
            decreases size - i,
        {
            let mut row: Vec<SeaField> = Vec::new();
            let mut j: usize = 0;
            while j < size
                invariant
                    j <= size,
                    sea_row == Seq::new(size as nat, |j: int| SeaField::Sea),
                    row@ == sea_row.take(j as int),
                decreases size - j,
            {
                row.push(SeaField::Sea);
                j = j + 1;
                proof {
                    assert(row@ =~= sea_row.take(j as int));
                }
            }
            proof {
                assert(row@ =~= sea_row);
            }
            field.push(row);
            i = i + 1;
        }
        let b = Self {
            hide,
            size,
            count: 0,
            field,
            busy: Vec::new(),
            ships: Vec::new(),
            prev_hit: Shot { coordinates: Cell::new(-1, -1), result: ShotResult::Out },
            first_hit: Shot { coordinates: Cell::new(-1, -1), result: ShotResult::Out },
        };
        proof {
            broadcast use group_board_values;
            lemma_cell_at(-1, -1);
            assert(b.grid() =~= Seq::new(size as nat, |i: int| sea_row));
            assert(b.ships@ =~= Seq::<Ship>::empty());
        }
        b
    }

    /// Whether `d` lies off the board.
    pub fn out(&self, d: &Cell) -> (r: bool)
        ensures
            r == !(0 <= d@.0 < (self.size as i32) && 0 <= d@.1 < (self.size as i32)),
            self.size <= i32::MAX ==> r == !self.in_bounds(*d),
    {
        !(d.x >= 0 && d.x < self.size as i32 && d.y >= 0 && d.y < self.size as i32)
    }

    /// What the field shows at `d`.
    pub fn get_cell(&self, d: &Cell) -> (v: SeaField)
        requires
            0 <= d@.0 < self.field@.len(),
            0 <= d@.1 < self.field@[d@.0]@.len(),
        ensures
            v == self.at(d@),
    {
        self.field[d.x as usize][d.y as usize]
    }

    /// Forgets all taken cells, as the game starts once the ships are placed.
    pub fn begin(&mut self)
        ensures
            final(self).busy@ == Seq::<Cell>::empty(),
            final(self).hide == old(self).hide,
            final(self).size == old(self).size,
            final(self).count == old(self).count,
            final(self).field == old(self).field,
            final(self).ships == old(self).ships,
            final(self).prev_hit == old(self).prev_hit,
            final(self).first_hit == old(self).first_hit,
            old(self).wf() ==> final(self).wf(),
    {
        self.busy.clear();
    }

    /// Whether the side has lost: it has ships and all of them are sunk.
    pub fn defeat(&self) -> (r: bool)
        ensures
            r == (self.ships@.len() > 0 && self.count == self.ships@.len()),
            self.wf() ==> (r <==> (self.ships@.len() > 0 && forall|k: int|
                0 <= k < self.ships@.len() ==> (#[trigger] self.ships@[k]).is_sunk())),
    {
        proof {
            if self.wf() {
                lemma_sunk_count_all(self.ships@);
            }
        }
        !self.ships.is_empty() && self.count == self.ships.len()
    }
}

/// No more ships are sunk than there are ships, and all are sunk exactly when the counts agree.
pub proof fn lemma_sunk_count_all(s: Seq<Ship>)
    ensures
        sunk_count(s) <= s.len(),
        sunk_count(s) == s.len() <==> forall|k: int| 0 <= k < s.len() ==> (#[trigger] s[k]).is_sunk(),
    decreases s.len(),
{
    if s.len() > 0 {
        lemma_sunk_count_all(s.drop_last());
        if sunk_count(s) == s.len() {
            assert forall|k: int| 0 <= k < s.len() implies (#[trigger] s[k]).is_sunk() by {
                if k < s.len() - 1 {
                    assert(s[k] == s.drop_last()[k]);
                }
            }
        }
        if forall|k: int| 0 <= k < s.len() ==> (#[trigger] s[k]).is_sunk() {
            assert forall|k: int| 0 <= k < s.drop_last().len() implies (#[trigger] s.drop_last()[k]).is_sunk() by {
                assert(s[k] == s.drop_last()[k]);
            }
            assert(s[s.len() - 1].is_sunk());
        }
    }
}

impl Ship {
    /// Every deck of the ship has neighbours with `i32` coordinates.
    pub open spec fn padded(self) -> bool {
        forall|j: int|
            0 <= j < self.length() ==> i32::MIN < (#[trigger] self.deck(j)).0 < i32::MAX && i32::MIN
                < self.deck(j).1 < i32::MAX
    }
}

/// A ship whose decks all lie on a board of side at most `i32::MAX` fits, with room around it.
pub proof fn lemma_placed_ship_fits(ship: Ship, size: nat)
    requires
        size <= i32::MAX,
        forall|j: int| 0 <= j < ship.length() ==> in_range(size, #[trigger] ship.deck(j)),
    ensures
        ship.fits(),
        ship.padded(),
{
    if ship.length() > 0 {
        assert(in_range(size, ship.deck(0)));
        assert(in_range(size, ship.deck(ship.length() - 1)));
    }
}

/// The cells marked around a ship depend only on where its decks lie.
pub proof fn lemma_contour_same_decks(busy: Seq<Cell>, size: nat, a: Ship, b: Ship, n: nat)
    requires
        a.bow() == b.bow(),
        a.is_horizontal() == b.is_horizontal(),
    ensures
        contour_marked(busy, size, a, n) == contour_marked(busy, size, b, n),
    decreases n,
{
    if n > 0 {
        lemma_contour_same_decks(busy, size, a, b, (n - 1) as nat);
        assert(a.deck(n - 1) == b.deck(n - 1));
    }
}

/// Whether some cell of `v` equals `c`.
pub(crate) fn contains_cell(v: &Vec<Cell>, c: &Cell) -> (r: bool)
    ensures
        r == has_pos(v@, c@),
        r == v@.contains(*c),
{
    let mut i: usize = 0;
    while i < v.len()
        invariant
            i <= v@.len(),
            forall|k: int| 0 <= k < i ==> v@[k] != *c,
        decreases v@.len() - i,
    {
        if v[i] == *c {
            proof {
                assert(v@[i as int]@ == c@);
            }
            return true;
        }
        i = i + 1;
    }
    proof {
        broadcast use group_cell;
    }
    false
}

/// Painting one more cell changes only that cell.
pub proof fn lemma_paint_push(g: Seq<Seq<SeaField>>, s: Seq<Cell>, c: Cell, v: SeaField)
    requires
        0 <= c@.0 < g.len(),
        0 <= c@.1 < g[c@.0].len(),
    ensures
        paint(g, s.push(c), v) == paint(g, s, v).update(c@.0, paint(g, s, v)[c@.0].update(c@.1, v)),
{
    let lhs = paint(g, s.push(c), v);
    let p = paint(g, s, v);
    let rhs = p.update(c@.0, p[c@.0].update(c@.1, v));
    assert forall|i: int| 0 <= i < g.len() implies lhs[i] =~= rhs[i] by {
        assert forall|j: int| 0 <= j < g[i].len() implies lhs[i][j] == rhs[i][j] by {
            if has_pos(s, (i, j)) {
                let k = choose|k: int| #![trigger s[k]] 0 <= k < s.len() && s[k]@ == (i, j);
                assert(s.push(c)[k] == s[k]);
            }
            if (i, j) == c@ {
                assert(s.push(c)[s.len() as int] == c);
            }
            if has_pos(s.push(c), (i, j)) && (i, j) != c@ {
                let k = choose|k: int| #![trigger s.push(c)[k]] 0 <= k < s.len() + 1 && s.push(c)[k]@ == (i, j);
                assert(s[k] == s.push(c)[k]);
            }
        }
    }
    assert(lhs =~= rhs);
}

/// Painting no cell changes nothing.
pub proof fn lemma_paint_empty(g: Seq<Seq<SeaField>>, v: SeaField)
    ensures
        paint(g, Seq::<Cell>::empty(), v) == g,
{
    assert forall|i: int| 0 <= i < g.len() implies paint(g, Seq::<Cell>::empty(), v)[i] =~= g[i] by {}
    assert(paint(g, Seq::<Cell>::empty(), v) =~= g);
}

impl Board {
    /// How taking the surroundings of `ship` turns the board `old` into `new`: the cells around
    /// its decks that lie on the board are taken, and shown as misses when `show` holds.
    pub open spec fn surround_post(old: Board, new: Board, ship: Ship, show: bool) -> bool {
        &&& new.busy@ == contour_marked(old.busy@, old.size as nat, ship, ship.length())
        &&& new.grid() == if show {
            paint(old.grid(), new.busy@.skip(old.busy@.len() as int), SeaField::Miss)
        } else {
            old.grid()
        }
    }

    /// Sets the field at `c` to `v`.
    fn set_field(&mut self, c: Cell, v: SeaField)
        requires
            old(self).is_square(),
            old(self).in_bounds(c),
        ensures
            final(self).grid() == old(self).grid().update(c@.0, old(self).grid()[c@.0].update(c@.1, v)),
            final(self).field@.len() == old(self).field@.len(),
            final(self).is_square(),
            final(self).hide == old(self).hide,
            final(self).size == old(self).size,
            final(self).count == old(self).count,
            final(self).busy == old(self).busy,
            final(self).ships == old(self).ships,
            final(self).prev_hit == old(self).prev_hit,
            final(self).first_hit == old(self).first_hit,
    {
        let x = c.x as usize;
        let y = c.y as usize;
        self.field[x].set(y, v);
        proof {
            assert(self.grid() =~= old(self).grid().update(c@.0, old(self).grid()[c@.0].update(c@.1, v)));
        }
    }

    /// Takes the cells around each deck of `ship` that lie on the board and are not taken yet,
    /// and shows them as misses when `show` holds.
    pub fn ship_board(&mut self, ship: &Ship, show: bool)
        requires
            old(self).is_square(),
            ship.fits(),
            ship.padded(),
        ensures
            Board::surround_post(*old(self), *final(self), *ship, show),
            final(self).is_square(),
            final(self).hide == old(self).hide,
            final(self).size == old(self).size,
            final(self).count == old(self).count,
            final(self).ships == old(self).ships,
            final(self).prev_hit == old(self).prev_hit,
            final(self).first_hit == old(self).first_hit,
    {
        let ghost old_self = *self;
        let ghost old_len = self.busy@.len() as int;
        let ghost size = self.size as nat;
        let cells = ship.cells();
        proof {
            lemma_paint_empty(old_self.grid(), SeaField::Miss);
            assert(self.busy@.skip(old_len) =~= Seq::<Cell>::empty());
        }
        let mut j: usize = 0;
        while j < cells.len()
            invariant
                cells@ == ship.deck_cells(),
                ship.fits(),
                ship.padded(),
                j <= cells@.len(),
                size == old_self.size,
                old_self.is_square(),
                self.is_square(),
                self.hide == old_self.hide,
                self.size == old_self.size,
                self.count == old_self.count,
                self.ships == old_self.ships,
                self.prev_hit == old_self.prev_hit,
                self.first_hit == old_self.first_hit,
                old_len == old_self.busy@.len(),
                old_len <= self.busy@.len(),
                self.busy@ == contour_marked(old_self.busy@, size, *ship, j as nat),
                self.grid() == if show {
                    paint(old_self.grid(), self.busy@.skip(old_len), SeaField::Miss)
                } else {
                    old_self.grid()
                },
            decreases cells@.len() - j,
        {
            let d = cells[j];
            proof {
                assert(fits_i32(ship.deck(j as int).0, ship.deck(j as int).1));
                lemma_cell_at(ship.deck(j as int).0, ship.deck(j as int).1);
                assert(d@ == ship.deck(j as int));
                assert(i32::MIN < ship.deck(j as int).0 < i32::MAX);
            }
            let ghost before = self.busy@;
            let mut o: usize = 0;
            while o < 9
                invariant
                    o <= 9,
                    d@ == ship.deck(j as int),
                    i32::MIN < d@.0 < i32::MAX,
                    i32::MIN < d@.1 < i32::MAX,
                    size == old_self.size,
                    old_self.is_square(),
                    self.is_square(),
                    self.hide == old_self.hide,
                    self.size == old_self.size,
                    self.count == old_self.count,
                    self.ships == old_self.ships,
                    self.prev_hit == old_self.prev_hit,
                    self.first_hit == old_self.first_hit,
                    old_len == old_self.busy@.len(),
                    old_len <= self.busy@.len(),
                    self.busy@ == ring_marked(before, size, ship.deck(j as int), o as nat),
                    self.grid() == if show {
                        paint(old_self.grid(), self.busy@.skip(old_len), SeaField::Miss)
                    } else {
                        old_self.grid()
                    },
                decreases 9 - o,
            {
                let dx: i32 = (o / 3) as i32 - 1;
                let dy: i32 = (o % 3) as i32 - 1;
                let cur = Cell::new(d.x + dx, d.y + dy);
                proof {
                    broadcast use group_cell;
                    assert(cur@ == ring_cell(ship.deck(j as int), o as int));
                }
                if !self.out(&cur) && !contains_cell(&self.busy, &cur) {
                    let ghost b0 = self.busy@;
                    if show {
                        self.set_field(cur, SeaField::Miss);
                        proof {
                            lemma_paint_push(old_self.grid(), b0.skip(old_len), cur, SeaField::Miss);
                        }
                    }
                    self.busy.push(cur);
                    proof {
                        lemma_cell_at(cur@.0, cur@.1);
                        assert(self.busy@.skip(old_len) =~= b0.skip(old_len).push(cur));
                    }
                }
                o = o + 1;
            }
            j = j + 1;
        }
    }
}

impl Board {
    /// How placing `ship` turns the board `old` into `new`: the decks and the cells around them
    /// are taken, the decks are shown as ship, and the ship joins the others.
    pub open spec fn place_post(old: Board, new: Board, ship: Ship) -> bool {
        &&& new.busy@ == contour_marked(old.busy@ + ship.deck_cells(), old.size as nat, ship, ship.length())
        &&& new.grid() == paint(old.grid(), ship.deck_cells(), SeaField::Ship)
        &&& new.ships@ == old.ships@.push(ship)
    }

    /// Every deck of `ship` lies on the board on a cell not taken yet.
    pub open spec fn can_place(self, ship: Ship) -> bool {
        forall|j: int|
            0 <= j < ship.length() ==> in_range(self.size as nat, #[trigger] ship.deck(j)) && !has_pos(
                self.busy@,
                ship.deck(j),
            )
    }

    /// Places `ship` when all its decks lie on free cells of the board: its decks are shown
    /// and taken, with the cells around them, and the ship joins the others.
    /// Otherwise the board is left as it was and `WrongShip` is returned.
    pub fn add_ship(&mut self, ship: Ship) -> (r: Result<(), BoardError>)
        requires
            old(self).is_square(),
            ship.fits(),
        ensures
            r is Ok <==> old(self).can_place(ship),
            !old(self).can_place(ship) ==> r == Err::<(), BoardError>(BoardError::WrongShip) && *final(self)
                == *old(self),
            old(self).can_place(ship) ==> Board::place_post(*old(self), *final(self), ship),
            final(self).is_square(),
            final(self).hide == old(self).hide,
            final(self).size == old(self).size,
            final(self).count == old(self).count,
            final(self).prev_hit == old(self).prev_hit,
            final(self).first_hit == old(self).first_hit,
            old(self).wf() && ship.lives() <= ship.length() && !ship.is_sunk() ==> final(self).wf(),
            forall|p: (int, int)| has_pos(old(self).busy@, p) ==> has_pos(final(self).busy@, p),
            old(self).fleet_guarded() ==> final(self).fleet_guarded(),
            r is Ok ==> forall|j: int, p: (int, int)|
                0 <= j < ship.length() && #[trigger] touching(p, ship.deck(j)) && in_range(
                    old(self).size as nat,
                    p,
                ) ==> has_pos(final(self).busy@, p),
    {
        let ghost old_self = *self;
        let cells = ship.cells();
        let mut i: usize = 0;
        while i < cells.len()
            invariant
                cells@ == ship.deck_cells(),
                ship.fits(),
                self.is_square(),
                *self == old_self,
                i <= cells@.len(),
                forall|k: int|
                    0 <= k < i ==> in_range(self.size as nat, #[trigger] ship.deck(k)) && !has_pos(
                        self.busy@,
                        ship.deck(k),
                    ),
            decreases cells@.len() - i,
        {
            proof {
                assert(fits_i32(ship.deck(i as int).0, ship.deck(i as int).1));
                lemma_cell_at(ship.deck(i as int).0, ship.deck(i as int).1);
            }
            if self.out(&cells[i]) || contains_cell(&self.busy, &cells[i]) {
                return Err(BoardError::WrongShip);
            }
            i = i + 1;
        }
        proof {
            lemma_paint_empty(old_self.grid(), SeaField::Ship);
            assert(old_self.busy@ + cells@.take(0) =~= old_self.busy@);
            assert(cells@.take(0) =~= Seq::<Cell>::empty());
        }
        let mut i: usize = 0;
        while i < cells.len()
            invariant
                cells@ == ship.deck_cells(),
                ship.fits(),
                old_self.can_place(ship),
                old_self.is_square(),
                self.is_square(),
                i <= cells@.len(),
                self.hide == old_self.hide,
                self.size == old_self.size,
                self.count == old_self.count,
                self.ships == old_self.ships,
                self.prev_hit == old_self.prev_hit,
                self.first_hit == old_self.first_hit,
                self.busy@ == old_self.busy@ + cells@.take(i as int),
                self.grid() == paint(old_self.grid(), cells@.take(i as int), SeaField::Ship),
            decreases cells@.len() - i,
        {
            let d = cells[i];
            proof {
                assert(fits_i32(ship.deck(i as int).0, ship.deck(i as int).1));
                lemma_cell_at(ship.deck(i as int).0, ship.deck(i as int).1);
                assert(in_range(self.size as nat, ship.deck(i as int)));
                lemma_paint_push(old_self.grid(), cells@.take(i as int), d, SeaField::Ship);
                assert(cells@.take(i + 1) =~= cells@.take(i as int).push(d));
            }
            self.set_field(d, SeaField::Ship);
            self.busy.push(d);
            i = i + 1;
            proof {
                assert(self.busy@ =~= old_self.busy@ + cells@.take(i as int));
            }
        }
        proof {
            assert(cells@.take(cells@.len() as int) =~= cells@);
            lemma_placed_ship_fits(ship, self.size as nat);
        }
        self.ship_board(&ship, false);
        self.ships.push(ship);
        proof {
            if old_self.fleet_guarded() {
                crate::laws::law_place_keeps_fleet_guarded(old_self, *self, ship);
            }
            lemma_contour_marked(old_self.busy@ + cells@, self.size as nat, ship, ship.length());
            assert forall|p: (int, int)| has_pos(old_self.busy@, p) implies has_pos(self.busy@, p) by {
                let k = choose|k: int| #![trigger old_self.busy@[k]] 0 <= k < old_self.busy@.len() && old_self.busy@[k]@ == p;
                assert((old_self.busy@ + cells@)[k] == old_self.busy@[k]);
                assert(has_pos(old_self.busy@ + cells@, p));
            }
            if old_self.wf() && ship.lives() <= ship.length() && !ship.is_sunk() {
                assert(self.ships@.drop_last() =~= old_self.ships@);
                assert forall|k: int| #![trigger self.ships@[k]] 0 <= k < self.ships@.len() implies {
                    &&& self.ships@[k].lives() <= self.ships@[k].length()
                    &&& forall|j: int|
                        0 <= j < self.ships@[k].length() ==> in_range(
                            self.size as nat,
                            #[trigger] self.ships@[k].deck(j),
                        )
                } by {
                    if k < old_self.ships@.len() {
                        assert(self.ships@[k] == old_self.ships@[k]);
                    }
                }
            }
        }
        Ok(())
    }
}

/// Changing one ship changes the number of sunk ships by what that ship contributes.
pub proof fn lemma_sunk_count_update(s: Seq<Ship>, i: int, x: Ship)
    requires
        0 <= i < s.len(),
    ensures
        sunk_count(s.update(i, x)) + (if s[i].is_sunk() { 1int } else { 0int }) == sunk_count(s) + (if x.is_sunk() {
            1int
        } else {
            0int
        }),
    decreases s.len(),
{
    if i == s.len() - 1 {
        assert(s.update(i, x).drop_last() =~= s.drop_last());
    } else {
        lemma_sunk_count_update(s.drop_last(), i, x);
        assert(s.update(i, x).drop_last() =~= s.drop_last().update(i, x));
    }
}

impl Board {
    /// Ship `i` is the first ship with a deck on `c`.
    pub open spec fn first_ship(self, c: Cell, i: int) -> bool {
        &&& 0 <= i < self.ships@.len()
        &&& self.ships@[i].occupies(c)
        &&& forall|k: int| 0 <= k < i ==> !(#[trigger] self.ships@[k]).occupies(c)
    }

    /// No ship has a deck on `c`.
    pub open spec fn unoccupied(self, c: Cell) -> bool {
        forall|k: int| 0 <= k < self.ships@.len() ==> !(#[trigger] self.ships@[k]).occupies(c)
    }

    /// A shot at `d` can be fired: it takes no life from a ship that has none left, and should
    /// it sink a ship, that ship's surroundings have `i32` coordinates and one more sunk ship
    /// can be counted.
    pub open spec fn shot_safe(self, d: Cell) -> bool {
        self.in_bounds(d) && !has_pos(self.busy@, d@) ==> forall|i: int|
            self.first_ship(d, i) ==> {
                let s = #[trigger] self.ships@[i];
                &&& s.lives() > 0
                &&& s.lives() == 1 ==> s.fits() && s.padded() && self.count < usize::MAX
            }
    }

    /// A shot can be fired at every cell.
    pub open spec fn all_safe(self) -> bool {
        forall|d: Cell| #[trigger] self.shot_safe(d)
    }

    /// How a shot at `d` with result `r` turns the board `old` into `new`.
    pub open spec fn shot_post(old: Board, new: Board, d: Cell, r: ShotResult) -> bool {
        if !old.in_bounds(d) {
            r == ShotResult::Out && new == old
        } else if has_pos(old.busy@, d@) {
            r == ShotResult::Used && new == old
        } else if old.unoccupied(d) {
            &&& r == ShotResult::Miss
            &&& new.busy@ == old.busy@.push(d)
            &&& new.grid() == paint(old.grid(), seq![d], SeaField::Miss)
            &&& new.ships == old.ships
            &&& new.count == old.count
            &&& new.prev_hit == old.prev_hit
            &&& new.first_hit == old.first_hit
            &&& new.hide == old.hide
            &&& new.size == old.size
        } else {
            forall|i: int| #[trigger] old.first_ship(d, i) ==> Board::hit_post(old, new, d, r, i)
        }
    }

    /// How a shot at `d` that hits ship `i` turns the board `old` into `new`.
    pub open spec fn hit_post(old: Board, new: Board, d: Cell, r: ShotResult, i: int) -> bool {
        let s = old.ships@[i];
        let hit = paint(old.grid(), seq![d], SeaField::Hit);
        &&& new.ships@ == old.ships@.update(i, s.with_lives((s.lives() - 1) as nat))
        &&& new.hide == old.hide
        &&& new.size == old.size
        &&& if s.lives() == 1 {
            &&& r == ShotResult::Dead
            &&& new.count == old.count + 1
            &&& new.busy@ == contour_marked(old.busy@.push(d), old.size as nat, s, s.length())
            &&& new.grid() == paint(hit, new.busy@.skip(old.busy@.len() + 1int), SeaField::Miss)
            &&& new.prev_hit == Shot { coordinates: d, result: ShotResult::Dead }
            &&& new.first_hit == Shot { coordinates: old.first_hit.coordinates, result: ShotResult::Dead }
        } else {
            &&& r == ShotResult::Hit
            &&& new.count == old.count
            &&& new.busy@ == old.busy@.push(d)
            &&& new.grid() == hit
            &&& new.prev_hit == Shot { coordinates: d, result: ShotResult::Hit }
            &&& new.first_hit == if old.prev_hit.result != ShotResult::Hit {
                Shot { coordinates: d, result: ShotResult::Hit }
            } else {
                old.first_hit
            }
        }
    }

    /// Fires at `d`. A shot off the board is `Out` and a shot at a taken cell is `Used`; both
    /// change nothing. Otherwise the cell is taken; a miss is shown as such; a hit costs the
    /// first ship there a life, and the last life sinks it: the ship is counted and the cells
    /// around it are taken and shown as misses.
    pub fn shot(&mut self, d: Cell) -> (r: ShotResult)
        requires
            old(self).size <= i32::MAX,
            old(self).in_bounds(d) && !has_pos(old(self).busy@, d@) ==> old(self).is_square(),
            old(self).shot_safe(d),
        ensures
            Board::shot_post(*old(self), *final(self), d, r),
            old(self).is_square() ==> final(self).is_square(),
            old(self).wf() ==> final(self).wf(),
            old(self).in_play() ==> final(self).in_play(),
    {
        let ghost before = *self;
        let r = self.fire(d);
        proof {
            if before.wf() {
                crate::laws::law_shot_keeps_wf(before, *self, d, r);
            }
            if before.in_play() {
                crate::laws::law_shot_keeps_in_play(before, *self, d, r);
            }
        }
        r
    }

    /// The shot itself; `shot` adds what it keeps of the board's invariants.
    fn fire(&mut self, d: Cell) -> (r: ShotResult)
        requires
            old(self).size <= i32::MAX,
            old(self).in_bounds(d) && !has_pos(old(self).busy@, d@) ==> old(self).is_square(),
            old(self).shot_safe(d),
        ensures
            Board::shot_post(*old(self), *final(self), d, r),
            old(self).is_square() ==> final(self).is_square(),
    {
        let ghost old_self = *self;
        proof {
            broadcast use group_board_values;
        }
        if self.out(&d) {
            return ShotResult::Out;
        }
        if contains_cell(&self.busy, &d) {
            return ShotResult::Used;
        }
        self.busy.push(d);
        let n = self.ships.len();
        let mut i: usize = 0;
        while i < n
            invariant
                n == self.ships@.len(),
                self.ships == old_self.ships,
                i <= n,
                forall|k: int| 0 <= k < i ==> !(#[trigger] self.ships@[k]).occupies(d),
            ensures
                i <= n,
                forall|k: int| 0 <= k < i ==> !(#[trigger] self.ships@[k]).occupies(d),
                i < n ==> self.ships@[i as int].occupies(d),
            decreases n - i,
        {
            if self.ships[i].hit(&d) {
                break;
            }
            i = i + 1;
        }
        if i < n {
            let ghost s = self.ships@[i as int];
            assert(old_self.first_ship(d, i as int));
            let mut ship = self.ships[i];
            ship.lives = ship.lives - 1;
            self.ships.set(i, ship);
            self.set_field(d, SeaField::Hit);
            proof {
                assert(ship == s.with_lives((s.lives() - 1) as nat));
                assert(old_self.ships@.update(i as int, ship) == self.ships@);
                lemma_paint_empty(old_self.grid(), SeaField::Hit);
                lemma_paint_push(old_self.grid(), Seq::<Cell>::empty(), d, SeaField::Hit);
                assert(Seq::<Cell>::empty().push(d) =~= seq![d]);
            }
            if ship.lives == 0 {
                self.count = self.count + 1;
                proof {
                    assert forall|j: int| #![trigger ship.deck(j)] ship.deck(j) == s.deck(j) by {}
                    assert(ship.fits() && ship.padded());
                    lemma_contour_same_decks(self.busy@, self.size as nat, ship, s, ship.length());
                }
                self.ship_board(&ship, true);
                self.prev_hit = Shot { coordinates: d, result: ShotResult::Dead };
                self.first_hit.result = ShotResult::Dead;
                return ShotResult::Dead;
            }
            if self.prev_hit.result != ShotResult::Hit {
                self.first_hit = Shot { coordinates: d, result: ShotResult::Hit };
            }
            self.prev_hit = Shot { coordinates: d, result: ShotResult::Hit };
            return ShotResult::Hit;
        }
        self.set_field(d, SeaField::Miss);
        proof {
            lemma_paint_empty(old_self.grid(), SeaField::Miss);
            lemma_paint_push(old_self.grid(), Seq::<Cell>::empty(), d, SeaField::Miss);
            assert(Seq::<Cell>::empty().push(d) =~= seq![d]);
        }
        ShotResult::Miss
    }
}

/// The offsets to the four cells next to a cell, in the order they are scanned.
pub open spec fn cross_offset(k: int) -> (int, int) {
    if k == 0 {
        (-1, 0)
    } else if k == 1 {
        (1, 0)
    } else if k == 2 {
        (0, -1)
    } else {
        (0, 1)
    }
}

/// `p` and `q` are next to each other, across a side.
pub open spec fn adjacent(p: (int, int), q: (int, int)) -> bool {
    ||| (p.0 - q.0 == 1 || q.0 - p.0 == 1) && p.1 == q.1
    ||| (p.1 - q.1 == 1 || q.1 - p.1 == 1) && p.0 == q.0
}

impl Board {
    /// The position `p` lies on the board and is not taken.
    pub open spec fn is_free(self, p: (int, int)) -> bool {
        in_range(self.size as nat, p) && !has_pos(self.busy@, p)
    }

    /// The scan for the next targets around `d`, from offset `k` on, with `acc` found so far:
    /// a hit next to `d` with a free cell on the opposite side of `d` gives that cell alone;
    /// otherwise the free cells next to `d` are collected.
    pub open spec fn cross_scan(self, d: (int, int), k: nat, acc: Seq<Cell>) -> Seq<Cell>
        decreases 4 - k,
    {
        if k >= 4 {
            acc
        } else {
            let o = cross_offset(k as int);
            let cur = (d.0 + o.0, d.1 + o.1);
            let opp = (d.0 - o.0, d.1 - o.1);
            if in_range(self.size as nat, cur) && has_pos(self.busy@, cur) && self.at(cur) == SeaField::Hit
                && self.is_free(opp) {
                seq![cell_at(opp.0, opp.1)]
            } else {
                self.cross_scan(
                    d,
                    k + 1,
                    if self.is_free(cur) {
                        acc.push(cell_at(cur.0, cur.1))
                    } else {
                        acc
                    },
                )
            }
        }
    }

    /// The cells where to fire next after a hit at `d`.
    pub open spec fn free_cross(self, d: Cell) -> Seq<Cell> {
        self.cross_scan(d@, 0, Seq::empty())
    }

    /// The cells where to fire next after a hit at `d`. When a cell next to `d` shows a hit and
    /// the cell on the other side of `d` is free, that cell alone; otherwise the free cells next
    /// to `d`, in the order: lower first coordinate, higher, lower second coordinate, higher.
    pub fn get_free_cross(&self, d: Cell) -> (r: Vec<Cell>)
        requires
            self.is_square(),
            i32::MIN < d@.0 < i32::MAX,
            i32::MIN < d@.1 < i32::MAX,
        ensures
            r@ == self.free_cross(d),
            forall|k: int|
                0 <= k < r@.len() ==> self.is_free((#[trigger] r@[k])@) && adjacent(d@, r@[k]@),
    {
        proof {
            broadcast use group_cell, lemma_cell_at;
        }
        let mut result: Vec<Cell> = Vec::new();
        let mut k: usize = 0;
        while k < 4
            invariant
                self.is_square(),
                i32::MIN < d@.0 < i32::MAX,
                i32::MIN < d@.1 < i32::MAX,
                k <= 4,
                self.cross_scan(d@, k as nat, result@) == self.free_cross(d),
                forall|i: int|
                    0 <= i < result@.len() ==> self.is_free((#[trigger] result@[i])@) && adjacent(
                        d@,
                        result@[i]@,
                    ),
            decreases 4 - k,
        {
            let (dx, dy): (i32, i32) = if k == 0 {
                (-1, 0)
            } else if k == 1 {
                (1, 0)
            } else if k == 2 {
                (0, -1)
            } else {
                (0, 1)
            };
            let cur = Cell::new(d.x + dx, d.y + dy);
            if !self.out(&cur) && contains_cell(&self.busy, &cur) && self.get_cell(&cur) == SeaField::Hit {
                let cell = d + (d - cur);
                if !self.out(&cell) && !contains_cell(&self.busy, &cell) {
                    let v = vec![cell];
                    proof {
                        assert(v@ =~= seq![cell_at(cell@.0, cell@.1)]);
                    }
                    return v;
                }
            }
            if !self.out(&cur) && !contains_cell(&self.busy, &cur) {
                result.push(cur);
            }
            k = k + 1;
        }
        result
    }
}

/// `p` and `q` are the same cell or touch, by a side or a corner.
pub open spec fn touching(p: (int, int), q: (int, int)) -> bool {
    -1 <= p.0 - q.0 <= 1 && -1 <= p.1 - q.1 <= 1
}

/// Marking keeps what was taken, and takes `p` when it lies on the board.
pub proof fn lemma_mark(busy: Seq<Cell>, size: nat, p: (int, int))
    requires
        size <= i32::MAX,
    ensures
        forall|q: (int, int)| has_pos(busy, q) ==> has_pos(#[trigger] mark(busy, size, p), q),
        in_range(size, p) ==> has_pos(mark(busy, size, p), p),
        busy.len() <= mark(busy, size, p).len(),
        mark(busy, size, p).subrange(0, busy.len() as int) == busy,
{
    let m = mark(busy, size, p);
    assert forall|q: (int, int)| has_pos(busy, q) implies has_pos(m, q) by {
        let k = choose|k: int| #![trigger busy[k]] 0 <= k < busy.len() && busy[k]@ == q;
        assert(m[k] == busy[k]);
    }
    if in_range(size, p) && !has_pos(busy, p) {
        lemma_cell_at(p.0, p.1);
        assert(m[busy.len() as int]@ == p);
    }
    assert(m.subrange(0, busy.len() as int) =~= busy);
}

/// Marking around `center` keeps what was taken, and takes the first `n` cells of its
/// ring that lie on the board.
pub proof fn lemma_ring_marked(busy: Seq<Cell>, size: nat, center: (int, int), n: nat)
    requires
        size <= i32::MAX,
        n <= 9,
    ensures
        forall|q: (int, int)| has_pos(busy, q) ==> has_pos(ring_marked(busy, size, center, n), q),
        forall|o: int|
            0 <= o < n && in_range(size, #[trigger] ring_cell(center, o)) ==> has_pos(
                ring_marked(busy, size, center, n),
                ring_cell(center, o),
            ),
        busy.len() <= ring_marked(busy, size, center, n).len(),
        ring_marked(busy, size, center, n).subrange(0, busy.len() as int) == busy,
    decreases n,
{
    if n > 0 {
        let prev = ring_marked(busy, size, center, (n - 1) as nat);
        lemma_ring_marked(busy, size, center, (n - 1) as nat);
        lemma_mark(prev, size, ring_cell(center, n - 1));
        let cur = ring_marked(busy, size, center, n);
        assert(cur.subrange(0, busy.len() as int) =~= prev.subrange(0, busy.len() as int));
    }
}

/// A cell touching `center` is one of the nine cells of its ring.
pub proof fn lemma_touching_ring(center: (int, int), p: (int, int))
    requires
        touching(p, center),
    ensures
        exists|o: int| 0 <= o < 9 && p == #[trigger] ring_cell(center, o),
{
    let a = p.0 - center.0;
    let b = p.1 - center.1;
    let o = (a + 1) * 3 + (b + 1);
    if a == -1 && b == -1 { assert(ring_offset(0) == (-1int, -1int)); }
    else if a == -1 && b == 0 { assert(ring_offset(1) == (-1int, 0int)); }
    else if a == -1 && b == 1 { assert(ring_offset(2) == (-1int, 1int)); }
    else if a == 0 && b == -1 { assert(ring_offset(3) == (0int, -1int)); }
    else if a == 0 && b == 0 { assert(ring_offset(4) == (0int, 0int)); }
    else if a == 0 && b == 1 { assert(ring_offset(5) == (0int, 1int)); }
    else if a == 1 && b == -1 { assert(ring_offset(6) == (1int, -1int)); }
    else if a == 1 && b == 0 { assert(ring_offset(7) == (1int, 0int)); }
    else { assert(ring_offset(8) == (1int, 1int)); }
    assert(p == ring_cell(center, o));
}

/// Marking around the first `n` decks of `ship` keeps what was taken, and takes every cell
/// on the board that touches one of these decks.
pub proof fn lemma_contour_marked(busy: Seq<Cell>, size: nat, ship: Ship, n: nat)
    requires
        size <= i32::MAX,
    ensures
        forall|q: (int, int)| has_pos(busy, q) ==> has_pos(contour_marked(busy, size, ship, n), q),
        forall|j: int, p: (int, int)|
            0 <= j < n && #[trigger] touching(p, ship.deck(j)) && in_range(size, p) ==> has_pos(
                contour_marked(busy, size, ship, n),
                p,
            ),
        busy.len() <= contour_marked(busy, size, ship, n).len(),
        contour_marked(busy, size, ship, n).subrange(0, busy.len() as int) == busy,
    decreases n,
{
    if n > 0 {
        let prev = contour_marked(busy, size, ship, (n - 1) as nat);
        lemma_contour_marked(busy, size, ship, (n - 1) as nat);
        lemma_ring_marked(prev, size, ship.deck(n - 1), 9);
        let cur = contour_marked(busy, size, ship, n);
        assert forall|j: int, p: (int, int)|
            0 <= j < n && #[trigger] touching(p, ship.deck(j)) && in_range(size, p) implies has_pos(cur, p) by {
            if j == n - 1 {
                lemma_touching_ring(ship.deck(j), p);
                let o = choose|o: int| 0 <= o < 9 && p == #[trigger] ring_cell(ship.deck(j), o);
                assert(has_pos(cur, ring_cell(ship.deck(j), o)));
            } else {
                assert(has_pos(prev, p));
            }
        }
        assert(cur.subrange(0, busy.len() as int) =~= prev.subrange(0, busy.len() as int));
    }
}

/// Adding a cell and then subtracting it again gives back the cell started from.
pub proof fn law_add_then_sub(a: Cell, b: Cell)
    requires
        a.add_req(b),
    ensures
        a.add_spec(b).sub_req(b),
        a.add_spec(b).sub_spec(b) == a,
{
    broadcast use group_cell, lemma_cell_at;
}

/// Subtracting a cell and then adding it again gives back the cell started from.
pub proof fn law_sub_then_add(a: Cell, b: Cell)
    requires
        a.sub_req(b),
    ensures
        a.sub_spec(b).add_req(b),
        a.sub_spec(b).add_spec(b) == a,
{
    broadcast use group_cell, lemma_cell_at;
}

} // verus!

verus! {

impl Ship {
    /// Whether every deck of the ship has neighbours with `i32` coordinates (and so the ship
    /// fits as well).
    pub fn fits_with_room(&self) -> (r: bool)
        ensures
            r == (self.fits() && self.padded()),
    {
        if self.length == 0 {
            return true;
        }
        let (along, across) = if self.horizontal {
            (self.bow.x as i128, self.bow.y as i128)
        } else {
            (self.bow.y as i128, self.bow.x as i128)
        };
        let last = along + (self.length as i128) - 1;
        let r = self.length <= 2147483648 && (i32::MIN as i128) < along && last < (i32::MAX as i128) && (
        i32::MIN as i128) < across && across < (i32::MAX as i128);
        proof {
            if r {
                assert forall|j: int| 0 <= j < self.length() implies fits_i32(
                    #[trigger] self.deck(j).0,
                    self.deck(j).1,
                ) && i32::MIN < self.deck(j).0 < i32::MAX && i32::MIN < self.deck(j).1 < i32::MAX by {}
            } else if self.length <= 2147483648 {
                let j = if (i32::MIN as i128) < along && (i32::MIN as i128) < across && across < (
                i32::MAX as i128) {
                    self.length() - 1
                } else {
                    0
                };
                assert(!(i32::MIN < self.deck(j).0 < i32::MAX && i32::MIN < self.deck(j).1 < i32::MAX));
            }
        }
        r
    }
}

impl Cell {
    /// Whether both neighbours of the cell along each coordinate have `i32` coordinates.
    pub fn has_room(&self) -> (r: bool)
        ensures
            r == (i32::MIN < self@.0 < i32::MAX && i32::MIN < self@.1 < i32::MAX),
    {
        i32::MIN < self.x && self.x < i32::MAX && i32::MIN < self.y && self.y < i32::MAX
    }
}

impl Board {
    /// Whether the field is a square of side `size`, with `size` fitting in `i32`.
    pub fn is_square_field(&self) -> (r: bool)
        ensures
            r == self.is_square(),
    {
        if self.size > i32::MAX as usize || self.field.len() != self.size {
            return false;
        }
        let mut i: usize = 0;
        while i < self.field.len()
            invariant
                i <= self.field@.len(),
                self.field@.len() == self.size,
                forall|k: int| 0 <= k < i ==> (#[trigger] self.field@[k])@.len() == self.size,
            decreases self.field@.len() - i,
        {
            if self.field[i].len() != self.size {
                return false;
            }
            i = i + 1;
        }
        true
    }

    /// Whether a shot can be fired at `d` (see `shot_safe`).
    pub fn shot_is_safe(&self, d: &Cell) -> (r: bool)
        requires
            self.size <= i32::MAX,
        ensures
            r == self.shot_safe(*d),
    {
        if self.out(d) || contains_cell(&self.busy, d) {
            return true;
        }
        let n = self.ships.len();
        let mut i: usize = 0;
        while i < n
            invariant
                n == self.ships@.len(),
                i <= n,
                self.in_bounds(*d),
                !has_pos(self.busy@, d@),
                forall|k: int| 0 <= k < i ==> !(#[trigger] self.ships@[k]).occupies(*d),
            decreases n - i,
        {
            if self.ships[i].hit(d) {
                let s = &self.ships[i];
                proof {
                    assert(self.first_ship(*d, i as int));
                    assert forall|m: int| #[trigger] self.first_ship(*d, m) implies m == i by {
                        if m < i {
                        } else if m > i {
                            assert(!self.ships@[i as int].occupies(*d));
                        }
                    }
                }
                let r = s.lives > 0 && (s.lives != 1 || (s.fits_with_room() && self.count < usize::MAX));
                proof {
                    let t = self.ships@[i as int];
                    assert(*s == t);
                    assert(r == {
                        &&& t.lives() > 0
                        &&& t.lives() == 1 ==> t.fits() && t.padded() && self.count < usize::MAX
                    });
                    assert(self.in_bounds(*d) && !has_pos(self.busy@, d@));
                }
                return r;
            }
            i = i + 1;
        }
        true
    }
}

} // verus!

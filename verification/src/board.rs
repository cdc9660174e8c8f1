use vstd::prelude::*;

verus! {

/// One of the two players' tokens.
#[derive(Clone, Copy, Debug, PartialEq, Eq, Structural)]
pub enum Chip {
    Red,
    Yellow,
}

impl Chip {
    /// The two-bit pattern that encodes this chip inside a packed board.
    pub open spec fn code(self) -> u128 {
        match self {
            Chip::Red => 1,
            Chip::Yellow => 2,
        }
    }

    pub open spec fn spec_opposite(self) -> Chip {
        match self {
            Chip::Red => Chip::Yellow,
            Chip::Yellow => Chip::Red,
        }
    }

    /// The other player's chip.
    pub fn opposite(&self) -> (r: Self)
        ensures
            r == self.spec_opposite(),
    {
        match self {
            Chip::Red => Chip::Yellow,
            Chip::Yellow => Chip::Red,
        }
    }
}

/// Why a placement was rejected.
#[derive(Clone, Copy, Debug, PartialEq, Eq, Structural)]
pub enum PlaceChipError {
    ColumnOccupied,
    InvalidColumn,
}

/// A 7x6 grid packed two bits per cell (00 empty, 01 red, 10 yellow).
/// Cell (column, row) occupies bits `12 * column + 2 * row` and the bit
/// above it; `upper` holds bits 32..96 of the packed value, `lower` holds
/// bits 0..32.
#[derive(Clone, Copy, Debug, PartialEq, Eq, Hash, Structural)]
pub struct Board {
    pub upper: u64,
    pub lower: u32,
}

impl Board {
    pub const COLUMN_LEN: usize = 7;

    pub const ROW_LEN: usize = 6;

    /// The whole grid as one packed integer.
    pub open spec fn bits(self) -> u128 {
        ((self.upper as u128) << 32u128) | (self.lower as u128)
    }

    /// The board whose packed value is the low 96 bits of `b`.
    pub open spec fn from_bits(b: u128) -> Board {
        Board { upper: (b >> 32u128) as u64, lower: b as u32 }
    }

    /// The two-bit pattern of cell (column, row) inside a packed value.
    pub open spec fn spec_cell_of(b: u128, column: int, row: int) -> u128 {
        (b >> ((12 * column + 2 * row) as u128)) & 3
    }

    /// The two-bit pattern stored at a cell.
    pub open spec fn cell(self, column: int, row: int) -> u128 {
        Self::spec_cell_of(self.bits(), column, row)
    }

    pub open spec fn in_bounds(column: int, row: int) -> bool {
        0 <= column < 7 && 0 <= row < 6
    }

    pub open spec fn occupied(self, column: int, row: int) -> bool {
        self.cell(column, row) != 0
    }

    /// The chip a cell holds, if any; patterns other than 00, 01, 10 hold
    /// nothing a well-formed board can contain.
    pub open spec fn chip_at_spec(self, column: int, row: int) -> Option<Chip> {
        if self.cell(column, row) == 1 {
            Some(Chip::Red)
        } else if self.cell(column, row) == 2 {
            Some(Chip::Yellow)
        } else {
            None
        }
    }

    /// Every reachable board satisfies this: only the 84 grid bits are set,
    /// no cell holds the invalid pattern 11, and chips stack from the bottom
    /// of each column without gaps.
    pub open spec fn wf(self) -> bool {
        &&& self.bits() < (1u128 << 84u128)
        &&& forall|c: int, r: int| Self::in_bounds(c, r) ==> #[trigger] self.cell(c, r) != 3
        &&& forall|c: int, r: int|
            Self::in_bounds(c, r) && 1 <= r && #[trigger] self.occupied(c, r) ==> self.occupied(
                c,
                r - 1,
            )
    }

    /// The first empty row of a column at or above `row`; 6 when the rows
    /// from `row` up are all occupied.
    pub open spec fn height_from(self, column: int, row: int) -> int
        decreases 6 - row,
    {
        if row < 0 || row >= 6 {
            6
        } else if !self.occupied(column, row) {
            row
        } else {
            self.height_from(column, row + 1)
        }
    }

    /// How many chips a column holds on a well-formed board: its first
    /// empty row.
    pub open spec fn col_height(self, column: int) -> int {
        self.height_from(column, 0)
    }

    /// An empty board.
    pub fn new() -> (b: Self)
        ensures
            b == (Board { upper: 0u64, lower: 0u32 }),
            b.wf(),
            forall|c: int, r: int| Self::in_bounds(c, r) ==> !(#[trigger] b.occupied(c, r)),
    {
        let b = Board { upper: 0, lower: 0 };
        proof {
            assert(((0u64 as u128) << 32u128) | (0u32 as u128) == 0u128) by (bit_vector);
            assert(b.bits() == 0);
            assert forall|c: int, r: int| Self::in_bounds(c, r) implies b.cell(c, r) == 0 by {
                lemma_cell_of_zero(c as u128, r as u128);
            }
            assert(0u128 < (1u128 << 84u128)) by (bit_vector);
        }
        b
    }

    /// The packed pair: bits 32..96 first, bits 0..32 second.
    pub fn as_pair(&self) -> (p: (u64, u32))
        ensures
            p == (self.upper, self.lower),
    {
        (self.upper, self.lower)
    }

    /// Rebuilds a board from a packed pair, as `as_pair` produced it.
    pub fn from_pair(columns: (u64, u32)) -> (b: Self)
        ensures
            b == (Board { upper: columns.0, lower: columns.1 }),
    {
        Board { upper: columns.0, lower: columns.1 }
    }

    /// The packed value, assembled from the pair.
    fn as_u128(&self) -> (b: u128)
        ensures
            b == self.bits(),
    {
        ((self.upper as u128) << 32u128) | (self.lower as u128)
    }

    /// Reads one cell's two bits.
    fn cell_bits(&self, column: usize, row: usize) -> (c: u128)
        requires
            column < 7,
            row < 6,
        ensures
            c == self.cell(column as int, row as int),
            c < 4,
    {
        let shift: u128 = (12 * column + 2 * row) as u128;
        let b = self.as_u128();
        let c = (b >> shift) & 3;
        proof {
            assert((b >> shift) & 3 < 4) by (bit_vector);
        }
        c
    }
}

impl Board {
    /// The packed value after writing a chip's pattern into one cell.
    pub open spec fn set_bits(self, column: int, row: int, chip: Chip) -> u128 {
        self.bits() | (chip.code() << ((12 * column + 2 * row) as u128))
    }

    /// The board after dropping a chip into a column: it lands on top of the
    /// chips already there.
    pub open spec fn place_spec(self, column: int, chip: Chip) -> Board {
        Board::from_bits(self.set_bits(column, self.col_height(column), chip))
    }

    /// Writes a chip's pattern into one empty cell, leaving every other cell
    /// alone.  Chips stacked above an empty cell would no longer stack, so
    /// this alone does not keep a board well-formed; `place_chip` does.
    pub fn set_chip_at(&mut self, column: usize, row: usize, chip: Chip)
        requires
            column < 7,
            row < 6,
            old(self).cell(column as int, row as int) == 0,
        ensures
            *final(self) == Board::from_bits(old(self).set_bits(column as int, row as int, chip)),
            final(self).bits() == old(self).set_bits(column as int, row as int, chip),
            final(self).cell(column as int, row as int) == chip.code(),
            forall|c: int, r: int|
                Self::in_bounds(c, r) && !(c == column as int && r == row as int)
                    ==> final(self).cell(c, r) == old(self).cell(c, r),
            old(self).bits() < (1u128 << 84u128) ==> final(self).bits() < (1u128 << 84u128),
    {
        let code: u128 = match chip {
            Chip::Red => 1,
            Chip::Yellow => 2,
        };
        let shift: u128 = (12 * column + 2 * row) as u128;
        let b = self.as_u128();
        let nb = b | (code << shift);
        proof {
            let colu = column as u128;
            let rowu = row as u128;
            lemma_bits_in_range(self.upper, self.lower);
            lemma_or_keeps_range(b, code, colu, rowu);
            lemma_from_bits_roundtrip(nb);
            lemma_set_cell_here(b, code, colu, rowu);
            assert forall|c: int, r: int|
                Self::in_bounds(c, r) && !(c == column as int && r == row as int) implies Board::from_bits(
                nb,
            ).cell(c, r) == self.cell(c, r) by {
                lemma_set_cell_others(b, code, colu, rowu, c as u128, r as u128);
            }
            if b < (1u128 << 84u128) {
                lemma_set_cell_bound(b, code, colu, rowu);
            }
        }
        self.upper = (nb >> 32u128) as u64;
        self.lower = nb as u32;
    }

    /// How many chips a column holds: the index of its first empty row.
    fn chips_in_column(&self, column: usize) -> (h: usize)
        requires
            column < 7,
        ensures
            h == self.col_height(column as int),
            h <= 6,
    {
        let mut row: usize = 0;
        while row < 6
            invariant
                row <= 6,
                column < 7,
                self.col_height(column as int) == self.height_from(column as int, row as int),
            decreases 6 - row,
        {
            if self.cell_bits(column, row) == 0 {
                return row;
            }
            row += 1;
        }
        6
    }

    /// Drops a chip into a column.  On success the chip lands at the row the
    /// column's chip count named, and that row is returned.
    pub fn place_chip(&mut self, column: usize, chip: Chip) -> (r: Result<
        usize,
        PlaceChipError,
    >)
        requires
            old(self).wf(),
        ensures
            final(self).wf(),
            7 <= column ==> {
                &&& r == Err::<usize, PlaceChipError>(PlaceChipError::InvalidColumn)
                &&& *final(self) == *old(self)
            },
            column < 7 && old(self).col_height(column as int) == 6 ==> {
                &&& r == Err::<usize, PlaceChipError>(PlaceChipError::ColumnOccupied)
                &&& *final(self) == *old(self)
            },
            column < 7 && old(self).col_height(column as int) < 6 ==> {
                &&& r == Ok::<usize, PlaceChipError>(old(self).col_height(column as int) as usize)
                &&& *final(self) == old(self).place_spec(column as int, chip)
            },
    {
        if column >= 7 {
            return Err(PlaceChipError::InvalidColumn);
        }
        let row = self.chips_in_column(column);
        proof {
            lemma_col_height_props(*self, column as int);
        }
        if row >= 6 {
            return Err(PlaceChipError::ColumnOccupied);
        }
        proof {
            lemma_place_preserves_wf(*self, column as int, chip);
        }
        self.set_chip_at(column, row, chip);
        Ok(row)
    }
}

impl Board {
    /// All 42 cells are occupied.
    pub open spec fn filled_spec(self) -> bool {
        forall|c: int, r: int| Self::in_bounds(c, r) ==> #[trigger] self.occupied(c, r)
    }

    /// A chip can still be dropped into the column: its top cell is empty.
    pub open spec fn available_spec(self, column: int) -> bool {
        self.cell(column, 5) == 0
    }

    /// The packed value with the seven column fields in reverse order.
    pub open spec fn mirror_bits(b: u128) -> u128 {
        ((b & 0xfff) << 72u128) | (((b >> 12u128) & 0xfff) << 60u128) | (((b >> 24u128) & 0xfff)
            << 48u128) | (((b >> 36u128) & 0xfff) << 36u128) | (((b >> 48u128) & 0xfff) << 24u128)
            | (((b >> 60u128) & 0xfff) << 12u128) | ((b >> 72u128) & 0xfff)
    }

    /// The left-right mirror image of a board.
    pub open spec fn swap_spec(self) -> Board {
        Board::from_bits(Self::mirror_bits(self.bits()))
    }

    /// The chip one cell holds.  The pattern 11 never occurs on a
    /// well-formed board, so nothing is lost by requiring its absence.
    pub fn chip_at(&self, column: usize, row: usize) -> (r: Option<Chip>)
        requires
            column < 7,
            row < 6,
            self.cell(column as int, row as int) != 3,
        ensures
            r == self.chip_at_spec(column as int, row as int),
    {
        let c = self.cell_bits(column, row);
        if c == 0 {
            None
        } else if c == 1 {
            Some(Chip::Red)
        } else {
            Some(Chip::Yellow)
        }
    }

    /// Whether every cell of the grid is occupied.
    pub fn filled(&self) -> (r: bool)
        ensures
            r == self.filled_spec(),
    {
        let mut column: usize = 0;
        while column < 7
            invariant
                column <= 7,
                forall|c: int, r: int| 0 <= c < column && 0 <= r < 6 ==> self.occupied(c, r),
            decreases 7 - column,
        {
            let h = self.chips_in_column(column);
            proof {
                lemma_col_height_props(*self, column as int);
            }
            if h < 6 {
                proof {
                    assert(!self.occupied(column as int, h as int));
                }
                return false;
            }
            column += 1;
        }
        true
    }

    /// For each column, whether a chip can still be dropped into it.
    pub fn available_column_choices(&self) -> (r: [bool; 7])
        ensures
            forall|c: int| 0 <= c < 7 ==> r@[c] == self.available_spec(c),
    {
        let a0 = self.cell_bits(0, 5) == 0;
        let a1 = self.cell_bits(1, 5) == 0;
        let a2 = self.cell_bits(2, 5) == 0;
        let a3 = self.cell_bits(3, 5) == 0;
        let a4 = self.cell_bits(4, 5) == 0;
        let a5 = self.cell_bits(5, 5) == 0;
        let a6 = self.cell_bits(6, 5) == 0;
        [a0, a1, a2, a3, a4, a5, a6]
    }

    /// The mirror image: column 0 becomes column 6 and so on, each column's
    /// content kept.  Mirroring twice gives back the board.
    pub fn swap(&self) -> (r: Self)
        ensures
            r == self.swap_spec(),
            forall|c: int, rw: int|
                Self::in_bounds(c, rw) ==> #[trigger] r.cell(c, rw) == self.cell(6 - c, rw),
            self.wf() ==> r.wf(),
    {
        let b = self.as_u128();
        let m = ((b & 0xfff) << 72u128) | (((b >> 12u128) & 0xfff) << 60u128) | (((b >> 24u128)
            & 0xfff) << 48u128) | (((b >> 36u128) & 0xfff) << 36u128) | (((b >> 48u128) & 0xfff)
            << 24u128) | (((b >> 60u128) & 0xfff) << 12u128) | ((b >> 72u128) & 0xfff);
        let res = Board { upper: (m >> 32u128) as u64, lower: m as u32 };
        proof {
            assert(m == Self::mirror_bits(b));
            lemma_mirror_bound(b);
            assert((1u128 << 84u128) < (1u128 << 96u128)) by (bit_vector);
            lemma_from_bits_roundtrip(m);
            assert(res.bits() == m);
            assert forall|c: int, rw: int| Self::in_bounds(c, rw) implies #[trigger] res.cell(
                c,
                rw,
            ) == self.cell(6 - c, rw) by {
                lemma_mirror_cells(b, c as u128, rw as u128);
            }
            if self.wf() {
                assert forall|c: int, rw: int|
                    Self::in_bounds(c, rw) && 1 <= rw && #[trigger] res.occupied(
                        c,
                        rw,
                    ) implies res.occupied(c, rw - 1) by {
                    assert(self.occupied(6 - c, rw));
                    assert(self.occupied(6 - c, rw - 1));
                }
            }
        }
        res
    }
}

/// Dropping into a full column fails and changes nothing; dropping into any
/// other column adds one chip to it and can never push a column past 6.
pub proof fn lemma_column_never_overfull(b: Board, column: int, chip: Chip)
    requires
        b.wf(),
        0 <= column < 7,
    ensures
        b.col_height(column) <= 6,
        b.col_height(column) < 6 ==> b.place_spec(column, chip).wf() && b.place_spec(
            column,
            chip,
        ).col_height(column) == b.col_height(column) + 1,
        b.col_height(column) < 6 ==> b.place_spec(column, chip).col_height(column) <= 6,
{
    lemma_col_height_props(b, column);
    if b.col_height(column) < 6 {
        lemma_place_preserves_wf(b, column, chip);
    }
}

/// No column has room left exactly when the board is filled.
pub proof fn lemma_no_choice_iff_filled(b: Board)
    requires
        b.wf(),
    ensures
        (forall|c: int| 0 <= c < 7 ==> !b.available_spec(c)) <==> b.filled_spec(),
{
    if forall|c: int| 0 <= c < 7 ==> !b.available_spec(c) {
        assert forall|c: int, r: int| Board::in_bounds(c, r) implies b.occupied(c, r) by {
            assert(!b.available_spec(c));
            assert(b.occupied(c, 5));
            lemma_col_height_props(b, c);
            lemma_empty_above_height(b, c);
            if b.col_height(c) < 6 {
                assert(!b.occupied(c, 5));
            }
            assert(b.col_height(c) == 6);
        }
    }
    if b.filled_spec() {
        assert forall|c: int| 0 <= c < 7 implies !b.available_spec(c) by {
            assert(b.occupied(c, 5));
        }
    }
}

/// A board that is not filled still has a column with room.
pub proof fn lemma_unfilled_has_choice(b: Board)
    requires
        b.wf(),
        !b.filled_spec(),
    ensures
        exists|c: int| 0 <= c < 7 && b.available_spec(c),
{
    lemma_no_choice_iff_filled(b);
}

/// Mirroring a board twice gives back the board (involution law).
pub proof fn lemma_swap_involution(b: Board)
    requires
        b.bits() < (1u128 << 84u128),
    ensures
        b.swap_spec().swap_spec() == b,
{
    let m = Board::mirror_bits(b.bits());
    lemma_mirror_bound(b.bits());
    assert((1u128 << 84u128) < (1u128 << 96u128)) by (bit_vector);
    lemma_from_bits_roundtrip(m);
    lemma_mirror_involution(b.bits());
    let mm = Board::mirror_bits(m);
    lemma_mirror_bound(m);
    lemma_from_bits_roundtrip(mm);
    lemma_pair_roundtrip(b.upper, b.lower);
}

/// The mirrored packed value stays inside the 84 grid bits.
proof fn lemma_mirror_bound(b: u128)
    by (bit_vector)
    ensures
        Board::mirror_bits(b) < (1u128 << 84u128),
{
}

/// Mirroring the packed value twice gives back any 84-bit value.
proof fn lemma_mirror_involution(b: u128)
    by (bit_vector)
    requires
        b < (1u128 << 84u128),
    ensures
        Board::mirror_bits(Board::mirror_bits(b)) == b,
{
}

/// A cell of the mirrored value is the mirrored column's cell.
proof fn lemma_mirror_cells(b: u128, c: u128, r: u128)
    by (bit_vector)
    requires
        c < 7,
        r < 6,
    ensures
        Board::spec_cell_of(Board::mirror_bits(b), c as int, r as int) == Board::spec_cell_of(
            b,
            (6 - c) as int,
            r as int,
        ),
{
}

/// Splitting a packed pair's value and reassembling it gives the same pair.
proof fn lemma_pair_roundtrip(u: u64, l: u32)
    by (bit_vector)
    ensures
        (((((u as u128) << 32u128) | (l as u128)) >> 32u128) as u64) == u,
        ((((u as u128) << 32u128) | (l as u128)) as u32) == l,
{
}

/// A cell's two-bit pattern is one of the four two-bit values.
proof fn lemma_cell_small(b: u128, c: u128, r: u128)
    by (bit_vector)
    requires
        c < 7,
        r < 6,
    ensures
        Board::spec_cell_of(b, c as int, r as int) < 4,
{
}

/// A cell of the zero packed value is empty.
proof fn lemma_cell_of_zero(c: u128, r: u128)
    by (bit_vector)
    ensures
        (0u128 >> ((12 * c + 2 * r) as u128)) & 3 == 0,
{
}

/// A packed pair always fits in 96 bits.
proof fn lemma_bits_in_range(u: u64, l: u32)
    by (bit_vector)
    ensures
        (((u as u128) << 32u128) | (l as u128)) < (1u128 << 96u128),
{
}

/// Splitting a 96-bit value at bit 32 and reassembling it loses nothing.
proof fn lemma_from_bits_roundtrip(b: u128)
    by (bit_vector)
    requires
        b < (1u128 << 96u128),
    ensures
        ((((b >> 32u128) as u64) as u128) << 32u128) | (((b as u32)) as u128) == b,
{
}

/// Oring a cell's pattern into a 96-bit value stays within 96 bits.
proof fn lemma_or_keeps_range(b: u128, code: u128, col: u128, row: u128)
    by (bit_vector)
    requires
        b < (1u128 << 96u128),
        code < 4,
        col < 7,
        row < 6,
    ensures
        (b | (code << ((12 * col + 2 * row) as u128))) < (1u128 << 96u128),
{
}

/// Oring a cell's pattern into the 84 grid bits stays within them.
proof fn lemma_set_cell_bound(b: u128, code: u128, col: u128, row: u128)
    by (bit_vector)
    requires
        b < (1u128 << 84u128),
        code < 4,
        col < 7,
        row < 6,
    ensures
        (b | (code << ((12 * col + 2 * row) as u128))) < (1u128 << 84u128),
{
}

/// Writing a pattern into an empty cell stores exactly that pattern.
proof fn lemma_set_cell_here(b: u128, code: u128, col: u128, row: u128)
    by (bit_vector)
    requires
        code < 4,
        col < 7,
        row < 6,
        (b >> ((12 * col + 2 * row) as u128)) & 3 == 0,
    ensures
        ((b | (code << ((12 * col + 2 * row) as u128))) >> ((12 * col + 2 * row) as u128)) & 3
            == code,
{
}

/// Writing a pattern into one cell leaves every other cell unchanged.
proof fn lemma_set_cell_others(b: u128, code: u128, col: u128, row: u128, c: u128, r: u128)
    by (bit_vector)
    requires
        code < 4,
        col < 7,
        row < 6,
        c < 7,
        r < 6,
        !(c == col && r == row),
    ensures
        ((b | (code << ((12 * col + 2 * row) as u128))) >> ((12 * c + 2 * r) as u128)) & 3 == (b
            >> ((12 * c + 2 * r) as u128)) & 3,
{
}

/// Where a column's first empty row lies, and what stands below it.
proof fn lemma_height_from_bounds(b: Board, col: int, row: int)
    requires
        0 <= row <= 6,
    ensures
        row <= b.height_from(col, row) <= 6,
        b.height_from(col, row) < 6 ==> !b.occupied(col, b.height_from(col, row)),
        forall|r: int| row <= r < b.height_from(col, row) ==> b.occupied(col, r),
    decreases 6 - row,
{
    if row < 6 && b.occupied(col, row) {
        lemma_height_from_bounds(b, col, row + 1);
    }
}

/// A column's height is at most 6, the cell at the height (if any) is empty,
/// and every cell below it is occupied.
pub proof fn lemma_col_height_props(b: Board, col: int)
    ensures
        0 <= b.col_height(col) <= 6,
        b.col_height(col) < 6 ==> !b.occupied(col, b.col_height(col)),
        forall|r: int| 0 <= r < b.col_height(col) ==> b.occupied(col, r),
{
    lemma_height_from_bounds(b, col, 0);
}

/// On a well-formed board an occupied cell rests on occupied cells all the
/// way down.
proof fn lemma_occupied_down(b: Board, col: int, r_hi: int, r_lo: int)
    requires
        b.wf(),
        0 <= col < 7,
        0 <= r_lo <= r_hi < 6,
        b.occupied(col, r_hi),
    ensures
        b.occupied(col, r_lo),
    decreases r_hi - r_lo,
{
    if r_lo < r_hi {
        assert(b.occupied(col, r_hi - 1));
        lemma_occupied_down(b, col, r_hi - 1, r_lo);
    }
}

/// On a well-formed board every cell from a column's height up is empty.
pub proof fn lemma_empty_above_height(b: Board, col: int)
    requires
        b.wf(),
        0 <= col < 7,
    ensures
        forall|r: int| b.col_height(col) <= r < 6 ==> !b.occupied(col, r),
{
    let h = b.col_height(col);
    lemma_col_height_props(b, col);
    assert forall|r: int| h <= r < 6 implies !b.occupied(col, r) by {
        if b.occupied(col, r) {
            lemma_occupied_down(b, col, r, h);
        }
    }
}

/// A column whose cells are occupied exactly below `k` has height `k`.
proof fn lemma_height_from_determined(b: Board, col: int, k: int, row: int)
    requires
        0 <= row <= k <= 6,
        forall|r: int| row <= r < k ==> b.occupied(col, r),
        k < 6 ==> !b.occupied(col, k),
    ensures
        b.height_from(col, row) == k,
    decreases k - row,
{
    if row < k {
        lemma_height_from_determined(b, col, k, row + 1);
    }
}

/// A column whose cells are occupied exactly below `k` has height `k`.
proof fn lemma_height_determined(b: Board, col: int, k: int)
    requires
        0 <= k <= 6,
        forall|r: int| 0 <= r < k ==> b.occupied(col, r),
        k < 6 ==> !b.occupied(col, k),
    ensures
        b.col_height(col) == k,
{
    lemma_height_from_determined(b, col, k, 0);
}

/// Boards that agree on a column's cells agree on its height.
proof fn lemma_height_agrees(a: Board, b: Board, col: int, row: int)
    requires
        0 <= row <= 6,
        forall|r: int| row <= r < 6 ==> a.cell(col, r) == b.cell(col, r),
    ensures
        a.height_from(col, row) == b.height_from(col, row),
    decreases 6 - row,
{
    if row < 6 {
        lemma_height_agrees(a, b, col, row + 1);
    }
}

impl Board {
    /// The column and row steps of the four line directions: falling
    /// diagonal, horizontal, vertical, rising diagonal.
    pub open spec fn dir_delta(d: int) -> (int, int) {
        if d == 0 {
            (1, -1)
        } else if d == 1 {
            (1, 0)
        } else if d == 2 {
            (0, 1)
        } else {
            (1, 1)
        }
    }

    /// The cell `k` steps from (column, row) in direction `d` lies on the
    /// board and holds the same pattern as (column, row).
    pub open spec fn win_cell_ok(self, column: int, row: int, d: int, k: int) -> bool {
        let c = column + Self::dir_delta(d).0 * k;
        let r = row + Self::dir_delta(d).1 * k;
        &&& Self::in_bounds(c, r)
        &&& self.cell(c, r) == self.cell(column, row)
    }

    /// The four-cell window in direction `d` at offsets `m - 3` to `m` from
    /// (column, row) lies on the board and matches that cell throughout.
    pub open spec fn line_win_at(self, column: int, row: int, d: int, m: int) -> bool {
        forall|k: int| m - 3 <= k <= m ==> #[trigger] self.win_cell_ok(column, row, d, k)
    }

    /// Some four-in-a-row through (column, row) exists.
    pub open spec fn wins_through(self, column: int, row: int) -> bool {
        exists|d: int, m: int|
            0 <= d < 4 && 0 <= m < 4 && #[trigger] self.line_win_at(column, row, d, m)
    }

    /// What `winner` reports: the cell's chip when a four-in-a-row runs
    /// through the cell, nothing when the cell is empty, out of bounds, or
    /// crossed by no such line.
    pub open spec fn winner_spec(self, column: int, row: int) -> Option<Chip> {
        if Self::in_bounds(column, row) && self.occupied(column, row) && self.wins_through(
            column,
            row,
        ) {
            self.chip_at_spec(column, row)
        } else {
            None
        }
    }

    /// The steps of direction `d` as machine integers.
    fn direction(d: usize) -> (r: (i32, i32))
        requires
            d < 4,
        ensures
            (r.0 as int, r.1 as int) == Self::dir_delta(d as int),
    {
        if d == 0 {
            (1, -1)
        } else if d == 1 {
            (1, 0)
        } else if d == 2 {
            (0, 1)
        } else {
            (1, 1)
        }
    }

    /// Whether one four-cell window through (column, row) matches it.
    fn window_matches(&self, column: usize, row: usize, d: usize, m: usize) -> (b: bool)
        requires
            column < 7,
            row < 6,
            d < 4,
            m < 4,
        ensures
            b == self.line_win_at(column as int, row as int, d as int, m as int),
    {
        let (dc, dr) = Self::direction(d);
        let target = self.cell_bits(column, row);
        let mut k: i32 = m as i32 - 3;
        while k <= m as i32
            invariant
                column < 7,
                row < 6,
                d < 4,
                m < 4,
                m as i32 - 3 <= k <= m as i32 + 1,
                (dc as int, dr as int) == Self::dir_delta(d as int),
                target == self.cell(column as int, row as int),
                forall|k2: int|
                    m - 3 <= k2 < k ==> #[trigger] self.win_cell_ok(
                        column as int,
                        row as int,
                        d as int,
                        k2,
                    ),
            decreases m as i32 + 1 - k,
        {
            let c = column as i32 + dc * k;
            let r = row as i32 + dr * k;
            if c < 0 || c >= 7 || r < 0 || r >= 6 {
                proof {
                    assert(!self.win_cell_ok(column as int, row as int, d as int, k as int));
                }
                return false;
            }
            if self.cell_bits(c as usize, r as usize) != target {
                proof {
                    assert(!self.win_cell_ok(column as int, row as int, d as int, k as int));
                }
                return false;
            }
            proof {
                assert(self.win_cell_ok(column as int, row as int, d as int, k as int));
            }
            k += 1;
        }
        true
    }

    /// The winner a just-placed chip at (column, row) created, if any.  Out
    /// of bounds or at an empty cell there is none to report.
    pub fn winner(&self, column: usize, row: usize) -> (res: Option<Chip>)
        requires
            self.wf(),
        ensures
            res == self.winner_spec(column as int, row as int),
    {
        if column >= 7 || row >= 6 {
            return None;
        }
        let target = self.cell_bits(column, row);
        if target == 0 {
            return None;
        }
        let player = if target == 1 {
            Chip::Red
        } else {
            Chip::Yellow
        };
        proof {
            assert(self.cell(column as int, row as int) != 3);
            assert(self.chip_at_spec(column as int, row as int) == Some(player));
        }
        let mut d: usize = 0;
        while d < 4
            invariant
                column < 7,
                row < 6,
                d <= 4,
                self.wf(),
                self.chip_at_spec(column as int, row as int) == Some(player),
                self.occupied(column as int, row as int),
                forall|d2: int, m2: int|
                    0 <= d2 < d && 0 <= m2 < 4 ==> !#[trigger] self.line_win_at(
                        column as int,
                        row as int,
                        d2,
                        m2,
                    ),
            decreases 4 - d,
        {
            let mut m: usize = 0;
            while m < 4
                invariant
                    column < 7,
                    row < 6,
                    d < 4,
                    m <= 4,
                    self.wf(),
                    self.chip_at_spec(column as int, row as int) == Some(player),
                    self.occupied(column as int, row as int),
                    forall|m2: int|
                        0 <= m2 < m ==> !#[trigger] self.line_win_at(
                            column as int,
                            row as int,
                            d as int,
                            m2,
                        ),
                decreases 4 - m,
            {
                if self.window_matches(column, row, d, m) {
                    proof {
                        assert(self.line_win_at(column as int, row as int, d as int, m as int));
                        assert(self.wins_through(column as int, row as int));
                    }
                    return Some(player);
                }
                m += 1;
            }
            d += 1;
        }
        proof {
            assert(!self.wins_through(column as int, row as int));
        }
        None
    }
}

impl Board {
    /// The cell `k` steps from (column, row) in direction `d` lies on the
    /// board and is empty or matches (column, row)'s pattern: the window it
    /// belongs to can still become a line for that cell's owner.
    pub open spec fn open_cell_ok(self, column: int, row: int, d: int, k: int) -> bool {
        let c = column + Self::dir_delta(d).0 * k;
        let r = row + Self::dir_delta(d).1 * k;
        &&& Self::in_bounds(c, r)
        &&& (self.cell(c, r) == 0 || self.cell(c, r) == self.cell(column, row))
    }

    /// The four-cell window in direction `d` at offsets `m - 3` to `m` from
    /// (column, row) lies on the board and is still winnable by that cell's
    /// owner.
    pub open spec fn window_open(self, column: int, row: int, d: int, m: int) -> bool {
        forall|k: int| m - 3 <= k <= m ==> #[trigger] self.open_cell_ok(column, row, d, k)
    }

    /// How many of the windows at offsets 0 up to (not including) `up` in
    /// direction `d` are still winnable through (column, row).
    pub open spec fn open_windows_upto(self, column: int, row: int, d: int, up: int) -> int
        decreases up,
    {
        if up <= 0 {
            0
        } else {
            self.open_windows_upto(column, row, d, up - 1) + if self.window_open(
                column,
                row,
                d,
                up - 1,
            ) {
                1int
            } else {
                0int
            }
        }
    }

    /// The still-winnable windows through (column, row) over the first
    /// `dup` directions, four window offsets each.
    pub open spec fn dir_sum_upto(self, column: int, row: int, dup: int) -> int
        decreases dup,
    {
        if dup <= 0 {
            0
        } else {
            self.dir_sum_upto(column, row, dup - 1) + self.open_windows_upto(
                column,
                row,
                dup - 1,
                4,
            )
        }
    }

    /// The number of four-cell windows through (column, row), over all four
    /// directions, that its owner can still complete.
    pub open spec fn win_possibilities_spec(self, column: int, row: int) -> int {
        self.dir_sum_upto(column, row, 4)
    }

    /// What `win_possibilities_at_position` reports: nothing off the board
    /// or at an empty cell, else the cell's chip with its open-window count.
    pub open spec fn win_possibilities_opt(self, column: int, row: int) -> Option<(Chip, int)> {
        if Self::in_bounds(column, row) && self.occupied(column, row) {
            Some(
                (
                    if self.cell(column, row) == 1 {
                        Chip::Red
                    } else {
                        Chip::Yellow
                    },
                    self.win_possibilities_spec(column, row),
                ),
            )
        } else {
            None
        }
    }

    /// The per-cell term of the heuristic: the owner's open-window count,
    /// counted for the maximizer and against the opponent.
    pub open spec fn cell_score(self, maximizer: Chip, column: int, row: int) -> int {
        if !self.occupied(column, row) {
            0
        } else if self.chip_at_spec(column, row) == Some(maximizer) {
            self.win_possibilities_spec(column, row)
        } else {
            -self.win_possibilities_spec(column, row)
        }
    }

    /// The heuristic summed over one column's first `row` cells.
    pub open spec fn col_value_upto(self, maximizer: Chip, column: int, row: int) -> int
        decreases row,
    {
        if row <= 0 {
            0
        } else {
            self.col_value_upto(maximizer, column, row - 1) + self.cell_score(
                maximizer,
                column,
                row - 1,
            )
        }
    }

    /// The heuristic summed over the first `col` whole columns.
    pub open spec fn value_cols_upto(self, maximizer: Chip, col: int) -> int
        decreases col,
    {
        if col <= 0 {
            0
        } else {
            self.value_cols_upto(maximizer, col - 1) + self.col_value_upto(maximizer, col - 1, 6)
        }
    }

    /// The positional heuristic from `maximizer`'s point of view: open
    /// windows through its cells count for it, through the opponent's cells
    /// against it.
    pub open spec fn value_of_board_spec(self, maximizer: Chip) -> int {
        self.value_cols_upto(maximizer, 7)
    }

    /// Whether one window through (column, row) is still winnable by its
    /// owner.
    fn window_open_at(&self, column: usize, row: usize, d: usize, m: usize) -> (b: bool)
        requires
            column < 7,
            row < 6,
            d < 4,
            m < 4,
        ensures
            b == self.window_open(column as int, row as int, d as int, m as int),
    {
        let (dc, dr) = Self::direction(d);
        let target = self.cell_bits(column, row);
        let mut k: i32 = m as i32 - 3;
        while k <= m as i32
            invariant
                column < 7,
                row < 6,
                d < 4,
                m < 4,
                m as i32 - 3 <= k <= m as i32 + 1,
                (dc as int, dr as int) == Self::dir_delta(d as int),
                target == self.cell(column as int, row as int),
                forall|k2: int|
                    m - 3 <= k2 < k ==> #[trigger] self.open_cell_ok(
                        column as int,
                        row as int,
                        d as int,
                        k2,
                    ),
            decreases m as i32 + 1 - k,
        {
            let c = column as i32 + dc * k;
            let r = row as i32 + dr * k;
            if c < 0 || c >= 7 || r < 0 || r >= 6 {
                proof {
                    assert(!self.open_cell_ok(column as int, row as int, d as int, k as int));
                }
                return false;
            }
            let found = self.cell_bits(c as usize, r as usize);
            if found != 0 && found != target {
                proof {
                    assert(!self.open_cell_ok(column as int, row as int, d as int, k as int));
                }
                return false;
            }
            proof {
                assert(self.open_cell_ok(column as int, row as int, d as int, k as int));
            }
            k += 1;
        }
        true
    }

    /// The chip at (column, row) together with how many four-cell windows
    /// through that cell its owner can still complete; nothing off the
    /// board or at an empty cell.
    pub fn win_possibilities_at_position(&self, column: usize, row: usize) -> (res: Option<
        (Chip, i16),
    >)
        requires
            self.wf(),
        ensures
            match res {
                None => self.win_possibilities_opt(column as int, row as int) is None,
                Some(p) => self.win_possibilities_opt(column as int, row as int) == Some(
                    (p.0, p.1 as int),
                ),
            },
    {
        if column >= 7 || row >= 6 {
            return None;
        }
        let target = self.cell_bits(column, row);
        if target == 0 {
            return None;
        }
        let player = if target == 1 {
            Chip::Red
        } else {
            Chip::Yellow
        };
        proof {
            assert(self.cell(column as int, row as int) != 3);
        }
        let mut count: i16 = 0;
        let mut d: usize = 0;
        while d < 4
            invariant
                self.wf(),
                column < 7,
                row < 6,
                d <= 4,
                count == self.dir_sum_upto(column as int, row as int, d as int),
                0 <= count <= 4 * d,
            decreases 4 - d,
        {
            let mut m: usize = 0;
            while m < 4
                invariant
                    self.wf(),
                    column < 7,
                    row < 6,
                    d < 4,
                    m <= 4,
                    count == self.dir_sum_upto(column as int, row as int, d as int)
                        + self.open_windows_upto(column as int, row as int, d as int, m as int),
                    0 <= count <= 4 * d + m,
                decreases 4 - m,
            {
                if self.window_open_at(column, row, d, m) {
                    count += 1;
                }
                m += 1;
            }
            d += 1;
        }
        Some((player, count))
    }

    /// The positional heuristic from `maximizer`'s point of view.  Each of
    /// the 42 cells contributes at most 16, so the total stays within 672
    /// either way.
    pub fn value_of_board(&self, maximizer: Chip) -> (v: i16)
        requires
            self.wf(),
        ensures
            v as int == self.value_of_board_spec(maximizer),
            -672 <= v <= 672,
    {
        let mut value: i16 = 0;
        let mut col: usize = 0;
        while col < 7
            invariant
                self.wf(),
                col <= 7,
                value == self.value_cols_upto(maximizer, col as int),
                -96 * col <= value <= 96 * col,
            decreases 7 - col,
        {
            let mut row: usize = 0;
            while row < 6
                invariant
                    self.wf(),
                    col < 7,
                    row <= 6,
                    value == self.value_cols_upto(maximizer, col as int) + self.col_value_upto(
                        maximizer,
                        col as int,
                        row as int,
                    ),
                    -96 * col - 16 * row <= value <= 96 * col + 16 * row,
                decreases 6 - row,
            {
                proof {
                    lemma_win_possibilities_bounds(*self, col as int, row as int);
                    lemma_cell_small(self.bits(), col as u128, row as u128);
                }
                match self.win_possibilities_at_position(col, row) {
                    Some((chip, points)) => {
                        proof {
                            assert(self.occupied(col as int, row as int));
                            assert(self.cell(col as int, row as int) == 1 || self.cell(
                                col as int,
                                row as int,
                            ) == 2);
                            assert(self.chip_at_spec(col as int, row as int) == Some(chip));
                        }
                        if chip == maximizer {
                            value += points;
                        } else {
                            value -= points;
                        }
                    },
                    None => {
                        proof {
                            assert(!self.occupied(col as int, row as int));
                            assert(self.cell_score(maximizer, col as int, row as int) == 0);
                        }
                    },
                }
                row += 1;
            }
            col += 1;
        }
        value
    }
}

/// How many windows a prefix of offsets can hold open at most.
proof fn lemma_open_windows_upto_bounds(b: Board, column: int, row: int, d: int, up: int)
    requires
        0 <= up,
    ensures
        0 <= b.open_windows_upto(column, row, d, up) <= up,
    decreases up,
{
    if up > 0 {
        lemma_open_windows_upto_bounds(b, column, row, d, up - 1);
    }
}

/// How many windows a prefix of directions can hold open at most.
proof fn lemma_dir_sum_upto_bounds(b: Board, column: int, row: int, dup: int)
    requires
        0 <= dup,
    ensures
        0 <= b.dir_sum_upto(column, row, dup) <= 4 * dup,
    decreases dup,
{
    if dup > 0 {
        lemma_dir_sum_upto_bounds(b, column, row, dup - 1);
        lemma_open_windows_upto_bounds(b, column, row, dup - 1, 4);
    }
}

/// A cell can have at most 16 open windows through it.
pub proof fn lemma_win_possibilities_bounds(b: Board, column: int, row: int)
    ensures
        0 <= b.win_possibilities_spec(column, row) <= 16,
        -16 <= b.cell_score(Chip::Red, column, row) <= 16,
        -16 <= b.cell_score(Chip::Yellow, column, row) <= 16,
{
    lemma_dir_sum_upto_bounds(b, column, row, 4);
}

/// One column contributes at most 96 to the heuristic either way.
proof fn lemma_col_value_upto_bounds(b: Board, maximizer: Chip, column: int, row: int)
    requires
        0 <= row,
    ensures
        -16 * row <= b.col_value_upto(maximizer, column, row) <= 16 * row,
    decreases row,
{
    if row > 0 {
        lemma_col_value_upto_bounds(b, maximizer, column, row - 1);
        lemma_win_possibilities_bounds(b, column, row - 1);
        assert(-16 <= b.cell_score(maximizer, column, row - 1) <= 16);
    }
}

/// The whole heuristic stays within 672 either way.
pub proof fn lemma_value_of_board_bounds(b: Board, maximizer: Chip, col: int)
    requires
        0 <= col,
    ensures
        -96 * col <= b.value_cols_upto(maximizer, col) <= 96 * col,
    decreases col,
{
    if col > 0 {
        lemma_value_of_board_bounds(b, maximizer, col - 1);
        lemma_col_value_upto_bounds(b, maximizer, col - 1, 6);
    }
}

/// What a search step reports: a bare score for a terminal or leaf
/// position, or a chosen column with its score.
#[derive(Clone, Copy, Debug, PartialEq, Eq, Structural)]
pub enum Minmaxxing {
    Result(i16),
    Position(usize, i16),
}

/// The score a search step carries, whichever variant it is.
pub open spec fn mm_score(m: Minmaxxing) -> int {
    match m {
        Minmaxxing::Result(v) => v as int,
        Minmaxxing::Position(_, v) => v as int,
    }
}

impl Board {
    /// The score of this board seen right after `column`'s chip landed at
    /// `row`: 0 when the board is full, a dominant win or loss score when
    /// that chip completed a line, the scaled heuristic at depth 0, and
    /// otherwise the score of the best reply.
    pub open spec fn after_value(
        self,
        maximizer: Chip,
        turn: Chip,
        column: int,
        row: int,
        depth: int,
    ) -> int
        decreases depth, 0int, 0int,
    {
        if self.filled_spec() {
            0
        } else if self.winner_spec(column, row) is Some {
            if self.winner_spec(column, row) == Some(maximizer) {
                1000
            } else {
                -1000
            }
        } else if depth <= 0 {
            8 * self.value_of_board_spec(maximizer)
        } else {
            self.minmax_value(maximizer, turn, depth - 1)
        }
    }

    /// The score of dropping `turn`'s chip into `column` and searching on.
    pub open spec fn child_value(self, maximizer: Chip, turn: Chip, column: int, depth: int) -> int
        decreases depth, 0int, 1int,
    {
        self.place_spec(column, turn).after_value(
            maximizer,
            turn.spec_opposite(),
            column,
            self.col_height(column),
            depth,
        )
    }

    /// The chosen column and score among the available columns below `c`,
    /// scanned in ascending order: the maximizer's turn keeps the greatest
    /// child score, any other turn the least, and on ties the column met
    /// first.
    pub open spec fn best_upto(self, maximizer: Chip, turn: Chip, depth: int, c: int) -> Option<
        (int, int),
    >
        decreases depth, 1int, c,
    {
        if c <= 0 {
            None
        } else {
            let rest = self.best_upto(maximizer, turn, depth, c - 1);
            if !self.available_spec(c - 1) {
                rest
            } else {
                let v = self.child_value(maximizer, turn, c - 1, depth);
                match rest {
                    None => Some((c - 1, v)),
                    Some(p) => if (turn == maximizer && v > p.1) || (turn != maximizer && v
                        < p.1) {
                        Some((c - 1, v))
                    } else {
                        Some(p)
                    },
                }
            }
        }
    }

    /// The score of the best move over all seven columns.
    pub open spec fn minmax_value(self, maximizer: Chip, turn: Chip, depth: int) -> int
        decreases depth, 1int, 8int,
    {
        match self.best_upto(maximizer, turn, depth, 7) {
            Some(p) => p.1,
            None => 0,
        }
    }
}

/// A column with room keeps its height below 6.
pub proof fn lemma_available_height(b: Board, column: int)
    requires
        b.available_spec(column),
    ensures
        b.col_height(column) < 6,
{
    lemma_col_height_props(b, column);
    if b.col_height(column) == 6 {
        assert(b.occupied(column, 5));
    }
}

/// Search scores stay within 5376: wins dominate every heuristic value.
proof fn lemma_after_value_bounds(
    b: Board,
    maximizer: Chip,
    turn: Chip,
    column: int,
    row: int,
    depth: int,
)
    ensures
        -5376 <= b.after_value(maximizer, turn, column, row, depth) <= 5376,
    decreases depth, 0int, 0int,
{
    if !b.filled_spec() && !(b.winner_spec(column, row) is Some) {
        if depth <= 0 {
            lemma_value_of_board_bounds(b, maximizer, 7);
        } else {
            lemma_minmax_value_bounds(b, maximizer, turn, depth - 1);
        }
    }
}

/// Search scores stay within 5376 after any single drop.
proof fn lemma_child_value_bounds(b: Board, maximizer: Chip, turn: Chip, column: int, depth: int)
    ensures
        -5376 <= b.child_value(maximizer, turn, column, depth) <= 5376,
    decreases depth, 0int, 1int,
{
    lemma_after_value_bounds(
        b.place_spec(column, turn),
        maximizer,
        turn.spec_opposite(),
        column,
        b.col_height(column),
        depth,
    );
}

/// The scan of the first `c` columns chooses an available column exactly
/// when one is available, reports its own child score, and stays bounded.
pub proof fn lemma_best_upto_props(b: Board, maximizer: Chip, turn: Chip, depth: int, c: int)
    requires
        0 <= c <= 7,
    ensures
        ({
            let best = b.best_upto(maximizer, turn, depth, c);
            &&& best is Some <==> exists|c2: int| 0 <= c2 < c && #[trigger] b.available_spec(c2)
            &&& match best {
                Some(p) => 0 <= p.0 < c && b.available_spec(p.0) && p.1 == b.child_value(
                    maximizer,
                    turn,
                    p.0,
                    depth,
                ) && -5376 <= p.1 <= 5376,
                None => true,
            }
        }),
    decreases depth, 1int, c,
{
    if c > 0 {
        lemma_best_upto_props(b, maximizer, turn, depth, c - 1);
        if b.available_spec(c - 1) {
            lemma_child_value_bounds(b, maximizer, turn, c - 1, depth);
        }
    }
}

/// The score of the best move stays within 5376.
proof fn lemma_minmax_value_bounds(b: Board, maximizer: Chip, turn: Chip, depth: int)
    ensures
        -5376 <= b.minmax_value(maximizer, turn, depth) <= 5376,
    decreases depth, 1int, 8int,
{
    lemma_best_upto_props(b, maximizer, turn, depth, 7);
}

impl Board {
    /// One search step on a board just extended at (column, row).
    fn minmax_after_move(
        &self,
        maximizer: Chip,
        turn: Chip,
        column: usize,
        row: usize,
        depth: u8,
    ) -> (r: Minmaxxing)
        requires
            self.wf(),
            column < 7,
            row < 6,
        ensures
            mm_score(r) == self.after_value(
                maximizer,
                turn,
                column as int,
                row as int,
                depth as int,
            ),
        decreases depth as int, 0int,
    {
        if self.filled() {
            return Minmaxxing::Result(0);
        }
        if let Some(winner) = self.winner(column, row) {
            if maximizer == winner {
                return Minmaxxing::Result(1000);
            } else {
                return Minmaxxing::Result(-1000);
            }
        }
        if depth == 0 {
            let value = self.value_of_board(maximizer);
            return Minmaxxing::Result(value * 8);
        }
        proof {
            lemma_unfilled_has_choice(*self);
        }
        self.minmax_children(maximizer, turn, depth - 1)
    }

    /// The full-width search over every available column: each is tried,
    /// scored by `minmax_after_move` on a copy, and the best kept.
    fn minmax_children(&self, maximizer: Chip, turn: Chip, depth: u8) -> (r: Minmaxxing)
        requires
            self.wf(),
            exists|c: int| 0 <= c < 7 && #[trigger] self.available_spec(c),
        ensures
            match r {
                Minmaxxing::Position(c, v) => Some(((c as int), (v as int))) == self.best_upto(
                    maximizer,
                    turn,
                    depth as int,
                    7,
                ),
                Minmaxxing::Result(_) => false,
            },
        decreases depth as int, 1int,
    {
        let choices = self.available_column_choices();
        let mut best: Option<(usize, i16)> = None;
        let mut column: usize = 0;
        while column < 7
            invariant
                self.wf(),
                column <= 7,
                forall|c: int| 0 <= c < 7 ==> choices@[c] == self.available_spec(c),
                match best {
                    None => self.best_upto(maximizer, turn, depth as int, column as int) is None,
                    Some(p) => p.0 < 7 && Some(((p.0 as int), (p.1 as int))) == self.best_upto(
                        maximizer,
                        turn,
                        depth as int,
                        column as int,
                    ),
                },
            decreases 7 - column,
        {
            if choices[column] {
                proof {
                    assert(choices@[column as int] == self.available_spec(column as int));
                    lemma_col_height_props(*self, column as int);
                    lemma_available_height(*self, column as int);
                }
                let mut child = *self;
                let row = match child.place_chip(column, turn) {
                    Ok(row) => row,
                    Err(_) => {
                        proof {
                            assert(false);
                        }
                        0
                    },
                };
                proof {
                    assert((row as int) == self.col_height(column as int));
                    assert(row < 6);
                    assert(child == self.place_spec(column as int, turn));
                }
                let reply = child.minmax_after_move(
                    maximizer,
                    turn.opposite(),
                    column,
                    row,
                    depth,
                );
                let v = match reply {
                    Minmaxxing::Result(v) => v,
                    Minmaxxing::Position(_, v) => v,
                };
                proof {
                    assert(v as int == self.child_value(maximizer, turn, column as int,
                        depth as int));
                }
                match best {
                    None => {
                        best = Some((column, v));
                    },
                    Some(p) => {
                        let better = if turn == maximizer {
                            v > p.1
                        } else {
                            v < p.1
                        };
                        if better {
                            best = Some((column, v));
                        }
                    },
                }
            }
            column += 1;
        }
        match best {
            Some(p) => Minmaxxing::Position(p.0, p.1),
            None => {
                proof {
                    lemma_best_upto_props(*self, maximizer, turn, depth as int, 7);
                    assert(false);
                }
                Minmaxxing::Result(0)
            },
        }
    }

    /// The depth-limited adversarial search: the column `turn` should play
    /// on this board so that `maximizer` fares best five plies ahead, and
    /// that column's score.  The board must not be full.
    pub fn minmax(&self, maximizer: Chip, turn: Chip) -> (r: Minmaxxing)
        requires
            self.wf(),
            !self.filled_spec(),
        ensures
            match r {
                Minmaxxing::Position(c, v) => Some(((c as int), (v as int))) == self.best_upto(
                    maximizer,
                    turn,
                    5,
                    7,
                ),
                Minmaxxing::Result(_) => false,
            },
    {
        proof {
            lemma_unfilled_has_choice(*self);
        }
        self.minmax_children(maximizer, turn, 5)
    }
}

/// 2 raised to a non-negative power, as a plain integer.
pub open spec fn pow2int(n: int) -> int
    decreases n,
{
    if n <= 0 {
        1
    } else {
        2 * pow2int(n - 1)
    }
}

/// The value with `count` low bits set: one less than 2 to the `count`.
pub open spec fn mask_spec(count: int) -> int
    decreases count,
{
    if count <= 0 {
        0
    } else {
        2 * mask_spec(count - 1) + 1
    }
}

/// The value with `count` bits set starting `padding` bits up.
pub open spec fn padded_mask_spec(count: int, padding: int) -> int
    decreases padding,
{
    if padding <= 0 {
        mask_spec(count)
    } else {
        2 * padded_mask_spec(count, padding - 1)
    }
}

proof fn lemma_mask_spec_pow2(n: int)
    ensures
        mask_spec(n) + 1 == pow2int(n),
        mask_spec(n) >= 0,
    decreases n,
{
    if n > 0 {
        lemma_mask_spec_pow2(n - 1);
    }
}

proof fn lemma_mask_spec_mono(a: int, b: int)
    requires
        a <= b,
    ensures
        mask_spec(a) <= mask_spec(b),
    decreases b - a,
{
    if a < b {
        lemma_mask_spec_mono(a, b - 1);
        lemma_mask_spec_pow2(b - 1);
    }
}

proof fn lemma_padded_mask_pow2(count: int, padding: int)
    requires
        0 <= padding,
    ensures
        padded_mask_spec(count, padding) + 1 <= pow2int(count + padding),
        padded_mask_spec(count, padding) >= 0,
    decreases padding,
{
    if padding == 0 {
        lemma_mask_spec_pow2(count);
        if count < 0 {
            lemma_pow2int_mono(count, 0);
        }
    } else {
        lemma_padded_mask_pow2(count, padding - 1);
        lemma_pow2int_mono(count + padding - 1, count + padding);
    }
}

proof fn lemma_pow2int_pos(n: int)
    ensures
        pow2int(n) >= 1,
    decreases n,
{
    if n > 0 {
        lemma_pow2int_pos(n - 1);
    }
}

proof fn lemma_pow2int_mono(a: int, b: int)
    requires
        a <= b,
    ensures
        pow2int(a) <= pow2int(b),
        pow2int(a) >= 1,
    decreases b - a,
{
    lemma_pow2int_pos(a);
    if a < b {
        lemma_pow2int_mono(a, b - 1);
        lemma_pow2int_pos(b - 1);
    }
}

/// One doubling step of a power of two, as a shift.
proof fn lemma_shl_step(n: u128)
    by (bit_vector)
    requires
        1 <= n <= 127,
    ensures
        (1u128 << n) == 2 * (1u128 << ((n - 1) as u128)),
{
}

/// `pow2int` agrees with a left shift of 1 while it fits.
proof fn lemma_pow2int_shift(n: int)
    requires
        0 <= n <= 127,
    ensures
        pow2int(n) == (1u128 << (n as u128)) as int,
    decreases n,
{
    if n == 0 {
        assert((1u128 << 0u128) == 1) by (bit_vector);
    } else {
        lemma_pow2int_shift(n - 1);
        lemma_shl_step(n as u128);
    }
}

/// Shifting a value below 2^127 left by one doubles it.
proof fn lemma_shl1_doubles(x: u128)
    by (bit_vector)
    requires
        x < (1u128 << 127u128),
    ensures
        (x << 1u128) == 2 * x,
        ((x << 1u128) | 1) == 2 * x + 1,
{
}

/// The value with `count` low bits set.
pub fn mask(count: usize) -> (r: u128)
    requires
        count <= 128,
    ensures
        r as int == mask_spec(count as int),
{
    let mut i: usize = 0;
    let mut result: u128 = 0;
    while i < count
        invariant
            i <= count <= 128,
            result as int == mask_spec(i as int),
        decreases count - i,
    {
        proof {
            lemma_mask_spec_mono(i as int, 127);
            lemma_mask_spec_pow2(127);
            lemma_pow2int_shift(127);
            lemma_shl1_doubles(result);
        }
        result = (result << 1u128) | 1;
        i += 1;
    }
    result
}

/// The value with `count` bits set starting `padding` bits up.
pub fn padded_mask(count: usize, padding: usize) -> (r: u128)
    requires
        count + padding <= 128,
    ensures
        r as int == padded_mask_spec(count as int, padding as int),
{
    let mut result: u128 = mask(count);
    let mut j: usize = 0;
    while j < padding
        invariant
            j <= padding,
            count + padding <= 128,
            result as int == padded_mask_spec(count as int, j as int),
        decreases padding - j,
    {
        proof {
            lemma_padded_mask_pow2(count as int, j as int);
            lemma_pow2int_mono(count as int + j as int, 127);
            lemma_pow2int_shift(127);
            lemma_shl1_doubles(result);
        }
        result = result << 1u128;
        j += 1;
    }
    result
}

impl Board {
    /// The column heights summed over the first `c` columns.
    pub open spec fn sum_heights(self, c: int) -> int
        decreases c,
    {
        if c <= 0 {
            0
        } else {
            self.sum_heights(c - 1) + self.col_height(c - 1)
        }
    }

    /// How many chips the whole board holds.
    pub open spec fn count_chips(self) -> int {
        self.sum_heights(7)
    }
}

proof fn lemma_sum_heights_bounds(b: Board, c: int)
    requires
        0 <= c,
    ensures
        0 <= b.sum_heights(c) <= 6 * c,
    decreases c,
{
    if c > 0 {
        lemma_sum_heights_bounds(b, c - 1);
        lemma_col_height_props(b, c - 1);
    }
}

/// A board holds between 0 and 42 chips.
pub proof fn lemma_count_chips_bounds(b: Board)
    ensures
        0 <= b.count_chips() <= 42,
{
    lemma_sum_heights_bounds(b, 7);
}

proof fn lemma_sum_heights_one_change(p: Board, b: Board, col: int, c: int)
    requires
        0 <= col,
        forall|c2: int| 0 <= c2 < c && c2 != col ==> #[trigger] p.col_height(c2) == b.col_height(c2),
        p.col_height(col) == b.col_height(col) + 1,
    ensures
        col < c ==> p.sum_heights(c) == b.sum_heights(c) + 1,
        c <= col ==> p.sum_heights(c) == b.sum_heights(c),
    decreases c,
{
    if c > 0 {
        lemma_sum_heights_one_change(p, b, col, c - 1);
    }
}

/// A drop raises the chip count by exactly one.
pub proof fn lemma_place_count(b: Board, column: int, chip: Chip)
    requires
        b.wf(),
        0 <= column < 7,
        b.col_height(column) < 6,
    ensures
        b.place_spec(column, chip).count_chips() == b.count_chips() + 1,
{
    lemma_place_preserves_wf(b, column, chip);
    lemma_sum_heights_one_change(b.place_spec(column, chip), b, column, 7);
}

proof fn lemma_sum_heights_all_six(b: Board, c: int)
    requires
        0 <= c,
        forall|c2: int| 0 <= c2 < c ==> #[trigger] b.col_height(c2) == 6,
    ensures
        b.sum_heights(c) == 6 * c,
    decreases c,
{
    if c > 0 {
        lemma_sum_heights_all_six(b, c - 1);
    }
}

proof fn lemma_sum_heights_maxed(b: Board, c: int)
    requires
        0 <= c,
        b.sum_heights(c) == 6 * c,
    ensures
        forall|c2: int| 0 <= c2 < c ==> #[trigger] b.col_height(c2) == 6,
    decreases c,
{
    if c > 0 {
        lemma_sum_heights_bounds(b, c - 1);
        lemma_col_height_props(b, c - 1);
        lemma_sum_heights_maxed(b, c - 1);
    }
}

/// A filled board holds exactly 42 chips.
pub proof fn lemma_filled_count(b: Board)
    requires
        b.filled_spec(),
    ensures
        b.count_chips() == 42,
{
    assert forall|c: int| 0 <= c < 7 implies #[trigger] b.col_height(c) == 6 by {
        assert forall|r: int| 0 <= r < 6 implies b.occupied(c, r) by {
            assert(Board::in_bounds(c, r));
        }
        lemma_height_determined(b, c, 6);
    }
    lemma_sum_heights_all_six(b, 7);
}

/// A board holding 42 chips is filled.
pub proof fn lemma_count_full(b: Board)
    requires
        b.count_chips() == 42,
    ensures
        b.filled_spec(),
{
    lemma_sum_heights_maxed(b, 7);
    assert forall|c: int, r: int| Board::in_bounds(c, r) implies b.occupied(c, r) by {
        assert(b.col_height(c) == 6);
        lemma_col_height_props(b, c);
    }
}

/// A board with no chip in any cell holds none at all.
pub proof fn lemma_empty_board_count(b: Board)
    requires
        forall|c: int, r: int| Board::in_bounds(c, r) ==> !b.occupied(c, r),
    ensures
        b.count_chips() == 0,
{
    assert forall|c: int| 0 <= c < 7 implies #[trigger] b.col_height(c) == 0 by {
        assert(Board::in_bounds(c, 0));
        assert(!b.occupied(c, 0));
        lemma_height_determined(b, c, 0);
    }
    lemma_sum_heights_zero(b, 7);
}

proof fn lemma_sum_heights_zero(b: Board, c: int)
    requires
        0 <= c,
        forall|c2: int| 0 <= c2 < c ==> #[trigger] b.col_height(c2) == 0,
    ensures
        b.sum_heights(c) == 0,
    decreases c,
{
    if c > 0 {
        lemma_sum_heights_zero(b, c - 1);
    }
}

/// A winner stands at a cell exactly when the cell is occupied and a
/// four-in-a-row runs through it, and then the winner is that cell's chip;
/// an empty cell reports none.
pub proof fn lemma_winner_characterization(b: Board, column: int, row: int)
    requires
        b.wf(),
        Board::in_bounds(column, row),
    ensures
        b.winner_spec(column, row) is Some <==> b.occupied(column, row) && b.wins_through(
            column,
            row,
        ),
        b.occupied(column, row) && b.wins_through(column, row) ==> b.winner_spec(column, row)
            == b.chip_at_spec(column, row),
        !b.occupied(column, row) ==> b.winner_spec(column, row) is None,
{
    if b.occupied(column, row) {
        assert(b.cell(column, row) != 3);
        lemma_cell_small(b.bits(), column as u128, row as u128);
        assert(b.cell(column, row) == 1 || b.cell(column, row) == 2);
    }
}

/// Dropping a chip keeps a board well-formed, writes exactly one cell, and
/// raises exactly that column's height by one.  In particular no column ever
/// holds more than 6 chips.
pub proof fn lemma_place_preserves_wf(b: Board, column: int, chip: Chip)
    requires
        b.wf(),
        0 <= column < 7,
        b.col_height(column) < 6,
    ensures
        ({
            let h = b.col_height(column);
            let p = b.place_spec(column, chip);
            &&& p.wf()
            &&& p.cell(column, h) == chip.code()
            &&& forall|c: int, r: int|
                Board::in_bounds(c, r) && !(c == column && r == h) ==> (#[trigger] p.cell(c, r))
                    == b.cell(c, r)
            &&& p.col_height(column) == h + 1
            &&& forall|c: int|
                0 <= c < 7 && c != column ==> (#[trigger] p.col_height(c)) == b.col_height(c)
        }),
{
    let h = b.col_height(column);
    let p = b.place_spec(column, chip);
    lemma_col_height_props(b, column);
    lemma_empty_above_height(b, column);
    let ob = b.bits();
    let code = chip.code();
    let colu = column as u128;
    let rowu = h as u128;
    let nb = ob | (code << ((12 * colu + 2 * rowu) as u128));
    assert(nb == b.set_bits(column, h, chip));
    lemma_set_cell_bound(ob, code, colu, rowu);
    assert((1u128 << 84u128) < (1u128 << 96u128)) by (bit_vector);
    lemma_from_bits_roundtrip(nb);
    assert(p.bits() == nb);
    lemma_set_cell_here(ob, code, colu, rowu);
    assert(p.cell(column, h) == code);
    assert forall|c: int, r: int|
        Board::in_bounds(c, r) && !(c == column && r == h) implies #[trigger] p.cell(c, r)
        == b.cell(c, r) by {
        lemma_set_cell_others(ob, code, colu, rowu, c as u128, r as u128);
    }
    assert(code == 1 || code == 2);
    assert forall|c: int, r: int| Board::in_bounds(c, r) implies #[trigger] p.cell(c, r) != 3 by {}
    assert forall|c: int, r: int|
        Board::in_bounds(c, r) && 1 <= r && #[trigger] p.occupied(c, r) implies p.occupied(
        c,
        r - 1,
    ) by {
        if c == column && r == h {
            if h >= 1 {
                assert(b.occupied(column, h - 1));
                assert(p.cell(column, h - 1) == b.cell(column, h - 1));
            }
        } else {
            assert(p.cell(c, r) == b.cell(c, r));
            assert(b.occupied(c, r));
            assert(b.occupied(c, r - 1));
            if c == column && r - 1 == h {
            } else {
                assert(p.cell(c, r - 1) == b.cell(c, r - 1));
            }
        }
    }
    assert forall|r: int| 0 <= r < h + 1 implies p.occupied(column, r) by {
        if r < h {
            assert(b.occupied(column, r));
            assert(p.cell(column, r) == b.cell(column, r));
        } else {
            assert(p.cell(column, h) == code);
        }
    }
    if h + 1 < 6 {
        assert(!b.occupied(column, h + 1));
        assert(p.cell(column, h + 1) == b.cell(column, h + 1));
    }
    lemma_height_determined(p, column, h + 1);
    assert forall|c: int| 0 <= c < 7 && c != column implies p.col_height(c) == b.col_height(c) by {
        lemma_height_agrees(p, b, c, 0);
    }
}

} // verus!

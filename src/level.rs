use vstd::prelude::*;

verus! {

/// Why a level description was refused.
#[derive(Clone, Copy, Debug, PartialEq, Eq, Structural)]
pub enum LevelError {
    /// The description has no rows.
    Empty,
    /// The word at this row and column is not a cell value from 0 to 255.
    BadCell { row: usize, column: usize },
}

/// The UTF-8 bytes of each word of a line, where words are separated by whitespace.
pub uninterp spec fn words_of(line: Seq<char>) -> Seq<Seq<u8>>;

/// Relies on `str::split_whitespace`: the words of the line, in order.
#[verifier::external_body]
fn split_words(line: &String) -> (r: Vec<Vec<u8>>)
    ensures
        r@.map_values(|w: Vec<u8>| w@) == words_of(line@),
{
    line.split_whitespace().map(|w| w.as_bytes().to_vec()).collect()
}

pub open spec fn is_digit(b: u8) -> bool {
    48 <= b <= 57
}

/// Value of a sequence of decimal digits, most significant first.
pub open spec fn decimal(ds: Seq<u8>) -> int
    decreases ds.len(),
{
    if ds.len() == 0 {
        0
    } else {
        decimal(ds.drop_last()) * 10 + (ds.last() - 48)
    }
}

/// The digits of a cell word: the word without one leading `+`.
pub open spec fn cell_digits(w: Seq<u8>) -> Seq<u8> {
    if w.len() > 0 && w[0] == 43 {
        w.drop_first()
    } else {
        w
    }
}

/// The value that a cell word denotes: an optional `+` and at least one decimal digit,
/// with a value of at most 255.
pub open spec fn cell_value(w: Seq<u8>) -> Option<u8> {
    let ds = cell_digits(w);
    if ds.len() > 0 && (forall|i: int| 0 <= i < ds.len() ==> #[trigger] is_digit(ds[i]))
        && decimal(ds) <= 255 {
        Option::Some(decimal(ds) as u8)
    } else {
        Option::None
    }
}

/// A longer run of digits never has a smaller value than its prefix.
proof fn lemma_decimal_prefix(ds: Seq<u8>, k: int)
    requires
        0 <= k <= ds.len(),
        forall|i: int| 0 <= i < ds.len() ==> #[trigger] is_digit(ds[i]),
    ensures
        decimal(ds.take(k)) <= decimal(ds),
    decreases ds.len(),
{
    if k < ds.len() {
        assert(is_digit(ds[ds.len() - 1]));
        assert(ds.drop_last().take(k) =~= ds.take(k));
        lemma_decimal_prefix(ds.drop_last(), k);
        assert(decimal(ds.drop_last()) >= 0) by {
            lemma_decimal_nonneg(ds.drop_last());
        }
    } else {
        assert(ds.take(k) =~= ds);
    }
}

proof fn lemma_decimal_nonneg(ds: Seq<u8>)
    requires
        forall|i: int| 0 <= i < ds.len() ==> #[trigger] is_digit(ds[i]),
    ensures
        decimal(ds) >= 0,
    decreases ds.len(),
{
    if ds.len() > 0 {
        assert(is_digit(ds[ds.len() - 1]));
        lemma_decimal_nonneg(ds.drop_last());
    }
}

/// Reads one cell word.
pub fn parse_cell(w: &Vec<u8>) -> (r: Option<u8>)
    ensures
        r == cell_value(w@),
{
    let ghost ds = cell_digits(w@);
    let start: usize = if w.len() > 0 && w[0] == 43u8 { 1 } else { 0 };
    assert(ds =~= w@.subrange(start as int, w@.len() as int));
    if start >= w.len() {
        return Option::None;
    }
    let mut acc: u32 = 0;
    let mut i: usize = start;
    while i < w.len()
        invariant
            start <= i <= w@.len(),
            ds == cell_digits(w@),
            ds.len() > 0,
            ds =~= w@.subrange(start as int, w@.len() as int),
            forall|k: int| 0 <= k < i - start ==> #[trigger] is_digit(ds[k]),
            acc as int == decimal(ds.take(i - start)),
            acc <= 255,
        decreases w@.len() - i,
    {
        let b = w[i];
        if b < 48u8 || b > 57u8 {
            assert(!is_digit(ds[i - start]));
            return Option::None;
        }
        let ghost next = ds.take(i - start + 1);
        assert(next.drop_last() =~= ds.take(i - start));
        let v = acc * 10 + (b - 48u8) as u32;
        if v > 255 {
            assert(decimal(next) == v);
            proof {
                if forall|k: int| 0 <= k < ds.len() ==> #[trigger] is_digit(ds[k]) {
                    lemma_decimal_prefix(ds, i - start + 1);
                }
            }
            return Option::None;
        }
        acc = v;
        i = i + 1;
    }
    assert(ds.take(ds.len() as int) =~= ds);
    Option::Some(acc as u8)
}

/// The words of each row, as byte sequences.
pub open spec fn words_view(rows: Seq<Vec<Vec<u8>>>) -> Seq<Seq<Seq<u8>>> {
    rows.map_values(|r: Vec<Vec<u8>>| r@.map_values(|w: Vec<u8>| w@))
}

/// The cells of each row.
pub open spec fn grid_view(g: Seq<Vec<u8>>) -> Seq<Seq<u8>> {
    g.map_values(|r: Vec<u8>| r@)
}

/// Every word of the rows above `row`, and of `row` left of `column`, is a cell value.
pub open spec fn cells_ok_before(rows: Seq<Seq<Seq<u8>>>, row: int, column: int) -> bool {
    &&& forall|i: int, j: int|
        0 <= i < row && 0 <= j < rows[i].len() ==> #[trigger] cell_value(rows[i][j]) is Some
    &&& forall|j: int| 0 <= j < column ==> #[trigger] cell_value(rows[row][j]) is Some
}

/// `g` holds, at each row and column, the value of the word there.
pub open spec fn grid_matches(rows: Seq<Seq<Seq<u8>>>, g: Seq<Seq<u8>>) -> bool {
    &&& g.len() == rows.len()
    &&& forall|i: int| 0 <= i < rows.len() ==> #[trigger] g[i].len() == rows[i].len()
    &&& forall|i: int, j: int|
        0 <= i < rows.len() && 0 <= j < rows[i].len() ==> cell_value(rows[i][j]) == Option::Some(
            #[trigger] g[i][j],
        )
}

/// What reading the rows of words `rows` gives: no rows is `Empty`; otherwise the first word
/// in reading order that is not a cell value is `BadCell`; otherwise the grid of values.
pub open spec fn read_outcome(rows: Seq<Seq<Seq<u8>>>, r: Result<Vec<Vec<u8>>, LevelError>) -> bool {
    match r {
        Result::Ok(g) => rows.len() > 0 && grid_matches(rows, grid_view(g@)),
        Result::Err(LevelError::Empty) => rows.len() == 0,
        Result::Err(LevelError::BadCell { row, column }) => {
            &&& rows.len() > 0
            &&& row < rows.len()
            &&& column < rows[row as int].len()
            &&& cell_value(rows[row as int][column as int]) is None
            &&& cells_ok_before(rows, row as int, column as int)
        },
    }
}

/// Reads a level from the words of each of its rows, top row first.
pub fn parse_rows(rows: &Vec<Vec<Vec<u8>>>) -> (r: Result<Vec<Vec<u8>>, LevelError>)
    ensures
        read_outcome(words_view(rows@), r),
{
    let ghost wv = words_view(rows@);
    if rows.len() == 0 {
        return Result::Err(LevelError::Empty);
    }
    let mut grid: Vec<Vec<u8>> = Vec::with_capacity(rows.len());
    let mut i: usize = 0;
    while i < rows.len()
        invariant
            wv == words_view(rows@),
            i <= rows@.len(),
            rows@.len() > 0,
            grid@.len() == i,
            cells_ok_before(wv, i as int, 0),
            forall|k: int| 0 <= k < i ==> #[trigger] grid@[k]@.len() == wv[k].len(),
            forall|k: int, j: int|
                0 <= k < i && 0 <= j < wv[k].len() ==> cell_value(wv[k][j]) == Option::Some(
                    #[trigger] grid@[k]@[j],
                ),
        decreases rows@.len() - i,
    {
        let words = &rows[i];
        assert(wv[i as int] == words@.map_values(|w: Vec<u8>| w@));
        let mut cells: Vec<u8> = Vec::with_capacity(words.len());
        let mut j: usize = 0;
        while j < words.len()
            invariant
                wv == words_view(rows@),
                i < rows@.len(),
                rows@.len() > 0,
                *words == rows@[i as int],
                wv[i as int] == words@.map_values(|w: Vec<u8>| w@),
                j <= words@.len(),
                cells@.len() == j,
                cells_ok_before(wv, i as int, j as int),
                forall|k: int| 0 <= k < j ==> cell_value(wv[i as int][k]) == Option::Some(#[trigger] cells@[k]),
            decreases words@.len() - j,
        {
            match parse_cell(&words[j]) {
                Option::Some(v) => {
                    cells.push(v);
                },
                Option::None => {
                    return Result::Err(LevelError::BadCell { row: i, column: j });
                },
            }
            j = j + 1;
        }
        grid.push(cells);
        i = i + 1;
    }
    assert(grid_matches(wv, grid_view(grid@)));
    Result::Ok(grid)
}

/// The words of each line.
pub open spec fn lines_words(lines: Seq<String>) -> Seq<Seq<Seq<u8>>> {
    lines.map_values(|l: String| words_of(l@))
}

/// Reads a level from its lines of text, top row first; each line holds the cell values of
/// one row as decimal numbers separated by whitespace, 0 for an empty cell.
pub fn parse_level(lines: &Vec<String>) -> (r: Result<Vec<Vec<u8>>, LevelError>)
    ensures
        read_outcome(lines_words(lines@), r),
{
    let mut rows: Vec<Vec<Vec<u8>>> = Vec::with_capacity(lines.len());
    let mut i: usize = 0;
    while i < lines.len()
        invariant
            i <= lines@.len(),
            words_view(rows@) == lines_words(lines@).take(i as int),
        decreases lines@.len() - i,
    {
        let words = split_words(&lines[i]);
        let ghost before = rows@;
        rows.push(words);
        proof {
            let target = lines_words(lines@).take(i as int + 1);
            assert(words_view(before) =~= lines_words(lines@).take(i as int));
            assert(rows@[i as int] == words);
            assert(words_view(rows@)[i as int] == target[i as int]);
            assert(forall|k: int| 0 <= k < i ==> rows@[k] == before[k]);
            assert(words_view(rows@) =~= target);
        }
        i = i + 1;
    }
    assert(lines_words(lines@).take(lines@.len() as int) =~= lines_words(lines@));
    parse_rows(&rows)
}

/// Which texture a block is drawn with.
#[derive(Clone, Copy, Debug, PartialEq, Eq, Structural)]
pub enum BlockTexture {
    /// The texture of blocks that can be broken.
    Breakable,
    /// The texture of solid blocks.
    Solid,
}

/// The colour a block's texture is tinted with.
#[derive(Clone, Copy, Debug, PartialEq, Eq, Structural)]
pub enum Tint {
    Pale,
    Blue,
    Green,
    Yellow,
    Orange,
    White,
}

/// A block of the level: its row and column in the grid and its cell value.
#[derive(Clone, Copy, Debug, PartialEq, Eq, Structural)]
pub struct Block {
    pub row: usize,
    pub column: usize,
    pub value: u8,
}

pub open spec fn texture_of(value: u8) -> BlockTexture {
    if 2 <= value <= 5 {
        BlockTexture::Breakable
    } else {
        BlockTexture::Solid
    }
}

pub open spec fn tint_of(value: u8) -> Tint {
    if value == 1 {
        Tint::Pale
    } else if value == 2 {
        Tint::Blue
    } else if value == 3 {
        Tint::Green
    } else if value == 4 {
        Tint::Yellow
    } else if value == 5 {
        Tint::Orange
    } else {
        Tint::White
    }
}

/// Texture of a block with cell value `value`: values 2 to 5 are breakable, all others solid.
pub fn block_texture(value: u8) -> (r: BlockTexture)
    ensures
        r == texture_of(value),
{
    if 2 <= value && value <= 5 {
        BlockTexture::Breakable
    } else {
        BlockTexture::Solid
    }
}

/// Tint of a block with cell value `value`: one colour for each of the values 1 to 5, white
/// for all others.
pub fn block_tint(value: u8) -> (r: Tint)
    ensures
        r == tint_of(value),
{
    match value {
        1 => Tint::Pale,
        2 => Tint::Blue,
        3 => Tint::Green,
        4 => Tint::Yellow,
        5 => Tint::Orange,
        _ => Tint::White,
    }
}

/// The blocks of one row, left to right: one for each cell whose value is not 0.
pub open spec fn row_blocks(row: usize, cells: Seq<u8>) -> Seq<Block>
    decreases cells.len(),
{
    if cells.len() == 0 {
        Seq::empty()
    } else {
        row_blocks(row, cells.drop_last()) + if cells.last() != 0 {
            seq![Block { row, column: (cells.len() - 1) as usize, value: cells.last() }]
        } else {
            Seq::empty()
        }
    }
}

/// The blocks of a grid, row by row from the top.
pub open spec fn grid_blocks(g: Seq<Seq<u8>>) -> Seq<Block>
    decreases g.len(),
{
    if g.len() == 0 {
        Seq::empty()
    } else {
        grid_blocks(g.drop_last()) + row_blocks((g.len() - 1) as usize, g.last())
    }
}

/// The blocks of a level grid in reading order, one for each cell whose value is not 0.
pub fn layout(grid: &Vec<Vec<u8>>) -> (r: Vec<Block>)
    ensures
        r@ == grid_blocks(grid_view(grid@)),
{
    let ghost gv = grid_view(grid@);
    let mut blocks: Vec<Block> = Vec::new();
    let mut i: usize = 0;
    while i < grid.len()
        invariant
            gv == grid_view(grid@),
            i <= grid@.len(),
            blocks@ == grid_blocks(gv.take(i as int)),
        decreases grid@.len() - i,
    {
        let cells = &grid[i];
        assert(gv[i as int] == cells@);
        let mut j: usize = 0;
        while j < cells.len()
            invariant
                gv == grid_view(grid@),
                i < grid@.len(),
                gv[i as int] == cells@,
                j <= cells@.len(),
                blocks@ == grid_blocks(gv.take(i as int)) + row_blocks(i, cells@.take(j as int)),
            decreases cells@.len() - j,
        {
            assert(cells@.take(j as int + 1).drop_last() =~= cells@.take(j as int));
            let value = cells[j];
            if value != 0 {
                blocks.push(Block { row: i, column: j, value });
            }
            assert(blocks@ =~= grid_blocks(gv.take(i as int)) + row_blocks(i, cells@.take(j as int + 1)));
            j = j + 1;
        }
        assert(cells@.take(cells@.len() as int) =~= cells@);
        assert(gv.take(i as int + 1).drop_last() =~= gv.take(i as int));
        i = i + 1;
    }
    assert(gv.take(grid@.len() as int) =~= gv);
    blocks
}

/// Indices of the two triangles of the quad whose corners are the vertices `4k` (top left),
/// `4k + 1` (top right), `4k + 2` (bottom left) and `4k + 3` (bottom right).
pub open spec fn quad(k: int) -> Seq<u16> {
    seq![
        (4 * k) as u16,
        (4 * k + 1) as u16,
        (4 * k + 2) as u16,
        (4 * k + 1) as u16,
        (4 * k + 3) as u16,
        (4 * k + 2) as u16,
    ]
}

/// Indices of the quads `0` to `n - 1`, in order.
pub open spec fn quads(n: nat) -> Seq<u16>
    decreases n,
{
    if n == 0 {
        Seq::empty()
    } else {
        quads((n - 1) as nat) + quad(n - 1)
    }
}

/// Index buffer for `count` quads laid out four vertices each.
pub fn quad_indices(count: usize) -> (r: Vec<u16>)
    requires
        count <= 16384,
    ensures
        r@ == quads(count as nat),
{
    let mut r: Vec<u16> = Vec::with_capacity(6 * count);
    let mut k: usize = 0;
    while k < count
        invariant
            k <= count <= 16384,
            r@ == quads(k as nat),
        decreases count - k,
    {
        let base: u16 = (k as u16) * 4;
        let ghost before = r@;
        r.push(base);
        r.push(base + 1);
        r.push(base + 2);
        r.push(base + 1);
        r.push(base + 3);
        r.push(base + 2);
        assert(r@ =~= before + quad(k as int));
        k = k + 1;
    }
    r
}

} // verus!

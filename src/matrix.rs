use vstd::arithmetic::div_mod::lemma_fundamental_div_mod_converse;
use vstd::prelude::*;

verus! {

/// Value at row `row`, column `col` of a row-major matrix with row stride `rs`.
pub open spec fn cell(s: Seq<i64>, rs: int, row: int, col: int) -> i64 {
    s[row * rs + col]
}

/// Proof that a row-major cell index is in bounds and names a single cell.
pub proof fn lemma_cell_index(rows: int, rs: int, row: int, col: int)
    requires
        0 <= row < rows,
        0 <= col < rs,
    ensures
        0 <= row * rs + col < rows * rs,
        (row * rs + col) / rs == row,
        (row * rs + col) % rs == col,
{
    assert(0 <= row * rs + col < rows * rs) by (nonlinear_arith)
        requires
            0 <= row < rows,
            0 <= col < rs,
    ;
    lemma_fundamental_div_mod_converse(row * rs + col, rs, row, col);
}

/// Writes `v` in the cell (`row`, `col`) of the `rows` by `rs` matrix `dst`.
pub fn set_cell(dst: &mut Vec<i64>, rows: usize, rs: usize, row: usize, col: usize, v: i64)
    requires
        old(dst)@.len() == rows * rs,
        row < rows,
        col < rs,
    ensures
        final(dst)@.len() == old(dst)@.len(),
        forall|r: int, c: int|
            0 <= r < rows && 0 <= c < rs ==> #[trigger] cell(final(dst)@, rs as int, r, c) == if r
                == row && c == col {
                v
            } else {
                cell(old(dst)@, rs as int, r, c)
            },
{
    let len = dst.len();
    proof {
        lemma_cell_index(rows as int, rs as int, row as int, col as int);
    }
    dst.set(row * rs + col, v);
    proof {
        assert forall|r: int, c: int| 0 <= r < rows && 0 <= c < rs implies #[trigger] cell(
            dst@,
            rs as int,
            r,
            c,
        ) == if r == row && c == col {
            v
        } else {
            cell(old(dst)@, rs as int, r, c)
        } by {
            lemma_cell_index(rows as int, rs as int, r, c);
        }
    }
}

/// Copies the top-left `rm` by `cn` corner of the tile (row stride `tile_rs`) into `dst`
/// (a `rows` by `rs` matrix) at row `row0`, column `col0`.
pub fn set_from_tile(
    dst: &mut Vec<i64>,
    rows: usize,
    rs: usize,
    row0: usize,
    col0: usize,
    rm: usize,
    cn: usize,
    tile: &Vec<i64>,
    tile_rows: usize,
    tile_rs: usize,
)
    requires
        old(dst)@.len() == rows * rs,
        tile@.len() == tile_rows * tile_rs,
        row0 + rm <= rows,
        col0 + cn <= rs,
        rm <= tile_rows,
        cn <= tile_rs,
    ensures
        final(dst)@.len() == old(dst)@.len(),
        forall|r: int, c: int|
            0 <= r < rows && 0 <= c < rs ==> #[trigger] cell(final(dst)@, rs as int, r, c) == if row0
                <= r < row0 + rm && col0 <= c < col0 + cn {
                cell(tile@, tile_rs as int, r - row0, c - col0)
            } else {
                cell(old(dst)@, rs as int, r, c)
            },
{
    let ghost start = dst@;
    let tile_len = tile.len();
    let mut i: usize = 0;
    while i < rm
        invariant
            dst@.len() == rows * rs,
            tile@.len() == tile_rows * tile_rs,
            tile_len == tile@.len(),
            row0 + rm <= rows,
            col0 + cn <= rs,
            rm <= tile_rows,
            cn <= tile_rs,
            i <= rm,
            forall|r: int, c: int|
                0 <= r < rows && 0 <= c < rs ==> #[trigger] cell(dst@, rs as int, r, c) == if row0
                    <= r < row0 + i && col0 <= c < col0 + cn {
                    cell(tile@, tile_rs as int, r - row0, c - col0)
                } else {
                    cell(start, rs as int, r, c)
                },
        decreases rm - i,
    {
        let mut j: usize = 0;
        while j < cn
            invariant
                dst@.len() == rows * rs,
                tile@.len() == tile_rows * tile_rs,
                tile_len == tile@.len(),
                row0 + rm <= rows,
                col0 + cn <= rs,
                rm <= tile_rows,
                cn <= tile_rs,
                i < rm,
                j <= cn,
                forall|r: int, c: int|
                    0 <= r < rows && 0 <= c < rs ==> #[trigger] cell(dst@, rs as int, r, c) == if (
                    row0 <= r < row0 + i && col0 <= c < col0 + cn) || (r == row0 + i && col0 <= c
                        < col0 + j) {
                        cell(tile@, tile_rs as int, r - row0, c - col0)
                    } else {
                        cell(start, rs as int, r, c)
                    },
            decreases cn - j,
        {
            proof {
                lemma_cell_index(tile_rows as int, tile_rs as int, i as int, j as int);
            }
            let v = tile[i * tile_rs + j];
            set_cell(dst, rows, rs, row0 + i, col0 + j, v);
            j = j + 1;
        }
        i = i + 1;
    }
}

} // verus!

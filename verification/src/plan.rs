//! Range merging and the render plan.  For each depth column the merger
//! finds the maximal runs of consecutive rows that share the column's
//! value and agree on every shallower column — only such runs become one
//! merged visual cell.  The plan lists every cell write and merge as
//! plain values for the spreadsheet collaborator to carry out in order.

use vstd::prelude::*;
use vstd::string::StrSliceExecFns;
use vstd::string::StringExecFns;
use crate::grid::ExcelRow;
use crate::grid::ExcelGenerator;
use crate::grid::RowModel;
use crate::grid::clone_row;
use crate::grid::grid_wf;
use crate::grid::is_stats_name;
use crate::grid::is_stats_str;
use crate::grid::items_leveled;
use crate::grid::lemma_rows_spec_wf;
use crate::grid::max_level_spec;
use crate::grid::rows_spec;
use crate::parser::TreeItem;
use crate::text::dec_spec;
use crate::text::dec_string;
use crate::text::str_eq;

verus! {

/// The visual style of a planned cell or range.
#[derive(Debug, Clone, Copy, PartialEq, Eq, Structural)]
pub enum CellStyle {
    HeaderCell,
    DirCell,
    FileCell,
    PathCell,
    NotesCell,
    StatsCell,
}

/// One planned merged range of worksheet cells.
#[derive(Debug)]
pub struct MergeSpan {
    pub first_row: u32,
    pub last_row: u32,
    pub first_col: u16,
    pub last_col: u16,
    pub text: String,
    pub style: CellStyle,
}

/// The mathematical image of a `MergeSpan`.
pub ghost struct SpanModel {
    pub first_row: int,
    pub last_row: int,
    pub first_col: int,
    pub last_col: int,
    pub text: Seq<char>,
    pub style: CellStyle,
}

impl View for MergeSpan {
    type V = SpanModel;

    open spec fn view(&self) -> SpanModel {
        SpanModel {
            first_row: self.first_row as int,
            last_row: self.last_row as int,
            first_col: self.first_col as int,
            last_col: self.last_col as int,
            text: self.text@,
            style: self.style,
        }
    }
}

/// The views of a row list.
pub open spec fn row_views(rows: Seq<ExcelRow>) -> Seq<RowModel> {
    rows.map_values(|row: ExcelRow| row@)
}

/// The views of a span list.
pub open spec fn span_views(spans: Seq<MergeSpan>) -> Seq<SpanModel> {
    spans.map_values(|s: MergeSpan| s@)
}

/// Rows `r` and `r + 1` may share one merged range of column `col`: the
/// value there is non-empty and equal, and every shallower column agrees
/// — the parent-scoped equality rule.
pub open spec fn pair_mergeable(rows: Seq<RowModel>, col: int, r: int) -> bool {
    &&& 0 <= r
    &&& r + 1 < rows.len()
    &&& rows[r].levels[col].len() > 0
    &&& rows[r + 1].levels[col] == rows[r].levels[col]
    &&& forall|c: int| 0 <= c < col ==> #[trigger] rows[r + 1].levels[c] == rows[r].levels[c]
}

/// A merged range of column `col` over the grid rows `lo..=hi` (relative
/// indices): at least two rows, every adjacent pair inside it mergeable.
pub open spec fn span_ok(rows: Seq<RowModel>, col: int, lo: int, hi: int) -> bool {
    &&& 0 <= lo < hi < rows.len()
    &&& forall|r: int| lo <= r < hi ==> #[trigger] pair_mergeable(rows, col, r)
}

/// One sound merge of one level column.
pub open spec fn span_sound(sp: SpanModel, rows: Seq<RowModel>, col: int, start_row: int) -> bool {
    &&& sp.first_col == col
    &&& sp.last_col == col
    &&& sp.style == CellStyle::DirCell
    &&& span_ok(rows, col, sp.first_row - start_row, sp.last_row - start_row)
    &&& sp.text == rows[sp.first_row - start_row].levels[col]
}

/// Every planned merge of this column is sound.
pub open spec fn merges_sound_col(
    spans: Seq<SpanModel>,
    rows: Seq<RowModel>,
    col: int,
    start_row: int,
) -> bool {
    forall|k: int| 0 <= k < spans.len() ==> span_sound(#[trigger] spans[k], rows, col, start_row)
}

/// Some planned merge covers both rows of the pair at `r`.
pub open spec fn covered(spans: Seq<SpanModel>, start_row: int, r: int) -> bool {
    exists|k: int|
        0 <= k < spans.len() && (#[trigger] spans[k]).first_row - start_row <= r && r + 1
            <= spans[k].last_row - start_row
}

/// Row `r` agrees with the run that started at row `i`: same value in the
/// merge column, same values in every shallower column.
spec fn block_ok(rows: Seq<RowModel>, col: int, i: int, r: int) -> bool {
    &&& rows[r].levels[col] == rows[i].levels[col]
    &&& forall|c: int| 0 <= c < col ==> #[trigger] rows[r].levels[c] == rows[i].levels[c]
}

/// Parent-scoped equality holds across a whole merged range: any two
/// rows inside it agree on the merge column and on every shallower
/// column, never merging same-named entries under different parents.
pub proof fn lemma_span_parent_scoped(rows: Seq<RowModel>, col: int, lo: int, hi: int, a: int, b: int)
    requires
        span_ok(rows, col, lo, hi),
        lo <= a <= b <= hi,
    ensures
        rows[b].levels[col] == rows[a].levels[col],
        forall|c: int| 0 <= c < col ==> #[trigger] rows[b].levels[c] == rows[a].levels[c],
    decreases b - a,
{
    if a < b {
        assert(pair_mergeable(rows, col, a));
        lemma_span_parent_scoped(rows, col, lo, hi, a + 1, b);
    }
}

impl ExcelGenerator {
    /// Compute the merged ranges of one level column: the maximal runs of
    /// two or more consecutive rows sharing this column's non-empty value
    /// and agreeing on every shallower column.  `start_row` is the
    /// worksheet row of the first grid row.
    pub fn merge_level_column(
        &self,
        rows: &Vec<ExcelRow>,
        level_idx: usize,
        start_row: u32,
    ) -> (spans: Vec<MergeSpan>)
        requires
            forall|r: int|
                0 <= r < rows@.len() ==> level_idx < (#[trigger] rows@[r])@.levels.len(),
            start_row + rows@.len() <= u32::MAX,
            level_idx < 0x10000,
        ensures
            merges_sound_col(span_views(spans@), row_views(rows@), level_idx as int, start_row as int),
            forall|k1: int, k2: int|
                0 <= k1 < k2 < spans@.len() ==> (#[trigger] spans@[k1])@.last_row < (
                #[trigger] spans@[k2])@.first_row,
            forall|r: int|
                #[trigger] pair_mergeable(row_views(rows@), level_idx as int, r) ==> covered(
                    span_views(spans@),
                    start_row as int,
                    r,
                ),
    {
        let ghost rv = row_views(rows@);
        let ghost col = level_idx as int;
        let mut spans: Vec<MergeSpan> = Vec::new();
        let mut i: usize = 0;
        while i < rows.len()
            invariant
                i <= rows@.len(),
                rv == row_views(rows@),
                col == level_idx as int,
                forall|r: int|
                    0 <= r < rows@.len() ==> level_idx < (#[trigger] rows@[r])@.levels.len(),
                start_row + rows@.len() <= u32::MAX,
                level_idx < 0x10000,
                merges_sound_col(span_views(spans@), rv, col, start_row as int),
                forall|k1: int, k2: int|
                    0 <= k1 < k2 < spans@.len() ==> (#[trigger] spans@[k1])@.last_row < (
                    #[trigger] spans@[k2])@.first_row,
                forall|k: int|
                    0 <= k < spans@.len() ==> (#[trigger] spans@[k])@.last_row - start_row < i,
                forall|r: int|
                    0 <= r && r + 1 <= i ==> #[trigger] pair_mergeable(rv, col, r) ==> covered(
                        span_views(spans@),
                        start_row as int,
                        r,
                    ),
            decreases rows@.len() - i,
        {
            proof {
                assert(rv[i as int] == rows@[i as int]@);
            }
            if rows[i].levels[level_idx].as_str().is_empty() {
                proof {
                    assert(!pair_mergeable(rv, col, i as int));
                }
                i += 1;
            } else {
                let mut j = i + 1;
                let mut stop2 = false;
                while !stop2 && j < rows.len()
                    invariant
                        i < j <= rows@.len(),
                        rv == row_views(rows@),
                        col == level_idx as int,
                        forall|r: int|
                            0 <= r < rows@.len() ==> level_idx < (
                            #[trigger] rows@[r])@.levels.len(),
                        rv[i as int].levels[col].len() > 0,
                        forall|r: int| i <= r < j ==> #[trigger] block_ok(rv, col, i as int, r),
                        stop2 ==> j < rows@.len() && !pair_mergeable(rv, col, j - 1),
                    decreases rows@.len() - j, (if stop2 {
                        0int
                    } else {
                        1int
                    }),
                {
                    proof {
                        assert(rv[j as int] == rows@[j as int]@);
                        assert(rv[j as int].levels[col] == rows@[j as int].levels@[col]@);
                        assert(rv[i as int].levels[col] == rows@[i as int].levels@[col]@);
                        assert(block_ok(rv, col, i as int, j - 1));
                    }
                    let same_val = str_eq(
                        rows[j].levels[level_idx].as_str(),
                        rows[i].levels[level_idx].as_str(),
                    );
                    if !same_val {
                        proof {
                            assert(!pair_mergeable(rv, col, j - 1));
                        }
                        stop2 = true;
                    } else {
                        let mut same_parent = true;
                        let mut c: usize = 0;
                        while c < level_idx
                            invariant
                                c <= level_idx,
                                i < j < rows@.len(),
                                rv == row_views(rows@),
                                col == level_idx as int,
                                forall|r: int|
                                    0 <= r < rows@.len() ==> level_idx < (
                                    #[trigger] rows@[r])@.levels.len(),
                                same_parent ==> forall|cc: int|
                                    0 <= cc < c ==> #[trigger] rv[j as int].levels[cc]
                                        == rv[i as int].levels[cc],
                                !same_parent ==> exists|cc: int|
                                    0 <= cc < col && #[trigger] rv[j as int].levels[cc]
                                        != rv[i as int].levels[cc],
                            decreases level_idx - c,
                        {
                            proof {
                                assert(rv[j as int].levels[c as int]
                                    == rows@[j as int].levels@[c as int]@);
                                assert(rv[i as int].levels[c as int]
                                    == rows@[i as int].levels@[c as int]@);
                            }
                            if !str_eq(rows[j].levels[c].as_str(), rows[i].levels[c].as_str()) {
                                proof {
                                    assert(rv[j as int].levels[c as int]
                                        != rv[i as int].levels[c as int]);
                                }
                                same_parent = false;
                                c = level_idx;
                            } else {
                                c += 1;
                            }
                        }
                        if same_parent {
                            proof {
                                assert(block_ok(rv, col, i as int, j as int));
                            }
                            j += 1;
                        } else {
                            proof {
                                let cc = choose|cc: int|
                                    0 <= cc < col && rv[j as int].levels[cc]
                                        != rv[i as int].levels[cc];
                                assert(block_ok(rv, col, i as int, j - 1));
                                assert(rv[j - 1].levels[cc] == rv[i as int].levels[cc]);
                                assert(!pair_mergeable(rv, col, j - 1));
                            }
                            stop2 = true;
                        }
                    }
                }
                if j - i > 1 {
                    let ghost oldspans = span_views(spans@);
                    let span = MergeSpan {
                        first_row: start_row + i as u32,
                        last_row: start_row + (j - 1) as u32,
                        first_col: level_idx as u16,
                        last_col: level_idx as u16,
                        text: rows[i].levels[level_idx].clone(),
                        style: CellStyle::DirCell,
                    };
                    spans.push(span);
                    proof {
                        assert(span_views(spans@) =~= oldspans.push(
                            SpanModel {
                                first_row: start_row as int + i,
                                last_row: start_row as int + j - 1,
                                first_col: col,
                                last_col: col,
                                text: rv[i as int].levels[col],
                                style: CellStyle::DirCell,
                            },
                        ));
                        assert forall|r: int| i <= r < j - 1 implies #[trigger] pair_mergeable(
                            rv,
                            col,
                            r,
                        ) by {
                            assert(block_ok(rv, col, i as int, r));
                            assert(block_ok(rv, col, i as int, r + 1));
                        }
                        assert(span_ok(rv, col, i as int, j - 1));
                        assert forall|k: int|
                            0 <= k < span_views(spans@).len() implies span_sound(
                            #[trigger] span_views(spans@)[k],
                            rv,
                            col,
                            start_row as int,
                        ) by {
                            if k < oldspans.len() {
                                assert(span_views(spans@)[k] == oldspans[k]);
                            }
                        }
                        assert forall|r: int|
                            0 <= r && r + 1 <= j implies #[trigger] pair_mergeable(rv, col, r)
                            ==> covered(span_views(spans@), start_row as int, r) by {
                            if pair_mergeable(rv, col, r) {
                                if r + 1 <= i {
                                    assert(covered(oldspans, start_row as int, r));
                                    let k0 = choose|k0: int|
                                        0 <= k0 < oldspans.len() && (
                                        #[trigger] oldspans[k0]).first_row - start_row <= r && r + 1
                                            <= oldspans[k0].last_row - start_row;
                                    assert(span_views(spans@)[k0] == oldspans[k0]);
                                    assert(covered(span_views(spans@), start_row as int, r));
                                } else if r < j - 1 {
                                    let k1 = oldspans.len() as int;
                                    assert(span_views(spans@)[k1].first_row - start_row <= r && r
                                        + 1 <= span_views(spans@)[k1].last_row - start_row);
                                    assert(covered(span_views(spans@), start_row as int, r));
                                } else {
                                    assert(r == j - 1);
                                    assert(!pair_mergeable(rv, col, j - 1));
                                }
                            }
                        }
                    }
                } else {
                    proof {
                        assert forall|r: int|
                            0 <= r && r + 1 <= j implies #[trigger] pair_mergeable(rv, col, r)
                            ==> covered(span_views(spans@), start_row as int, r) by {
                            if pair_mergeable(rv, col, r) && r + 1 > i {
                                assert(r == j - 1);
                                assert(!pair_mergeable(rv, col, j - 1));
                            }
                        }
                    }
                }
                i = j;
            }
        }
        spans
    }
}

/// One planned cell write.
#[derive(Debug)]
pub struct CellWrite {
    pub row: u32,
    pub col: u16,
    pub text: String,
    pub style: CellStyle,
}

/// The mathematical image of a `CellWrite`.
pub ghost struct CellModel {
    pub row: int,
    pub col: int,
    pub text: Seq<char>,
    pub style: CellStyle,
}

impl View for CellWrite {
    type V = CellModel;

    open spec fn view(&self) -> CellModel {
        CellModel {
            row: self.row as int,
            col: self.col as int,
            text: self.text@,
            style: self.style,
        }
    }
}

/// The views of a cell list.
pub open spec fn cell_views(cells: Seq<CellWrite>) -> Seq<CellModel> {
    cells.map_values(|c: CellWrite| c@)
}

/// The deepest level column that holds a name, or -1 if none does.
pub open spec fn deepest_filled(levels: Seq<Seq<char>>) -> int
    decreases levels.len(),
{
    if levels.len() == 0 {
        -1
    } else if levels.last().len() > 0 {
        levels.len() - 1
    } else {
        deepest_filled(levels.drop_last())
    }
}

/// The planned level cells of one data row, for columns below `c`: each
/// non-empty value styled as a directory, except the row's own cell — the
/// deepest filled column — which gets the file style on a file row; empty
/// values get no cell.
pub open spec fn level_cells(row: RowModel, rownum: int, c: int) -> Seq<CellModel>
    decreases c,
{
    if c <= 0 {
        Seq::empty()
    } else {
        level_cells(row, rownum, c - 1) + (if row.levels[c - 1].len() > 0 {
            seq![
                CellModel {
                    row: rownum,
                    col: c - 1,
                    text: row.levels[c - 1],
                    style: if row.is_file && c - 1 == deepest_filled(row.levels) {
                        CellStyle::FileCell
                    } else {
                        CellStyle::DirCell
                    },
                },
            ]
        } else {
            Seq::empty()
        })
    }
}

fn deepest_filled_col(levels: &Vec<String>) -> (r: Option<usize>)
    ensures
        match r {
            Some(d) => d as int == deepest_filled(levels@.map_values(|s: String| s@)),
            None => deepest_filled(levels@.map_values(|s: String| s@)) == -1,
        },
{
    let ghost lv = levels@.map_values(|s: String| s@);
    let mut j: usize = levels.len();
    proof {
        assert(lv.take(levels@.len() as int) =~= lv);
    }
    while j > 0
        invariant
            j <= levels@.len(),
            lv == levels@.map_values(|s: String| s@),
            deepest_filled(lv) == deepest_filled(lv.take(j as int)),
        decreases j,
    {
        proof {
            assert(lv.take(j as int).drop_last() =~= lv.take(j - 1));
            assert(lv.take(j as int).last() == lv[j - 1]);
            assert(lv[j - 1] == levels@[j - 1]@);
        }
        if !levels[j - 1].as_str().is_empty() {
            return Some(j - 1);
        }
        j -= 1;
    }
    proof {
        assert(lv.take(0) =~= Seq::<Seq<char>>::empty());
    }
    None
}

/// All planned cells of one data row: its level cells, the full path,
/// and an empty notes cell.
pub open spec fn row_cells(row: RowModel, rownum: int, max_level: int) -> Seq<CellModel> {
    level_cells(row, rownum, row.levels.len() as int) + seq![
        CellModel { row: rownum, col: max_level, text: row.full_path, style: CellStyle::PathCell },
        CellModel {
            row: rownum,
            col: max_level + 1,
            text: Seq::empty(),
            style: CellStyle::NotesCell,
        },
    ]
}

/// The planned cells of all data rows, one worksheet row each from
/// `start_row` on.
pub open spec fn data_cells(rows: Seq<RowModel>, start_row: int, max_level: int) -> Seq<CellModel>
    decreases rows.len(),
{
    if rows.len() == 0 {
        Seq::empty()
    } else {
        data_cells(rows.drop_last(), start_row, max_level) + row_cells(
            rows.last(),
            start_row + rows.len() - 1,
            max_level,
        )
    }
}

/// Every planned merge is a sound merge of some level column.
pub open spec fn merges_sound(
    spans: Seq<SpanModel>,
    rows: Seq<RowModel>,
    max_level: int,
    start_row: int,
) -> bool {
    forall|k: int|
        0 <= k < spans.len() ==> 0 <= (#[trigger] spans[k]).first_col < max_level && span_sound(
            spans[k],
            rows,
            spans[k].first_col,
            start_row,
        )
}

/// Some planned merge of column `c` covers both rows of the pair at `r`.
pub open spec fn covered_col(spans: Seq<SpanModel>, start_row: int, c: int, r: int) -> bool {
    exists|k: int|
        0 <= k < spans.len() && (#[trigger] spans[k]).first_col == c && spans[k].first_row
            - start_row <= r && r + 1 <= spans[k].last_row - start_row
}

/// Every mergeable adjacent pair of every level column lies inside some
/// planned merge of that column.
pub open spec fn merges_complete(
    spans: Seq<SpanModel>,
    rows: Seq<RowModel>,
    max_level: int,
    start_row: int,
) -> bool {
    forall|c: int, r: int|
        0 <= c < max_level && #[trigger] pair_mergeable(rows, c, r) ==> covered_col(
            spans,
            start_row,
            c,
            r,
        )
}

impl ExcelGenerator {
    /// Plan the data rows: first a cell write for every non-empty grid
    /// cell (plus path and notes cells), then the merged ranges of every
    /// level column.
    pub fn write_data_with_merging(
        &self,
        rows: &Vec<ExcelRow>,
        max_level: usize,
        start_row: u32,
    ) -> (r: (Vec<CellWrite>, Vec<MergeSpan>))
        requires
            grid_wf(row_views(rows@), max_level as int),
            start_row + rows@.len() <= u32::MAX,
            max_level + 1 < 0x10000,
        ensures
            cell_views(r.0@) == data_cells(row_views(rows@), start_row as int, max_level as int),
            merges_sound(span_views(r.1@), row_views(rows@), max_level as int, start_row as int),
            merges_complete(
                span_views(r.1@),
                row_views(rows@),
                max_level as int,
                start_row as int,
            ),
    {
        let ghost rv = row_views(rows@);
        let mut cells: Vec<CellWrite> = Vec::new();
        proof {
            assert(rv.take(0) =~= Seq::<RowModel>::empty());
            assert(cell_views(cells@) =~= Seq::<CellModel>::empty());
        }
        let mut ri: usize = 0;
        while ri < rows.len()
            invariant
                ri <= rows@.len(),
                rv == row_views(rows@),
                grid_wf(rv, max_level as int),
                start_row + rows@.len() <= u32::MAX,
                max_level + 1 < 0x10000,
                cell_views(cells@) == data_cells(rv.take(ri as int), start_row as int, max_level as int),
            decreases rows@.len() - ri,
        {
            proof {
                assert(rv[ri as int] == rows@[ri as int]@);
                assert(rv.take(ri + 1).drop_last() =~= rv.take(ri as int));
                assert(rv.take(ri + 1).last() == rv[ri as int]);
            }
            let rownum: u32 = start_row + ri as u32;
            let ghost base = cell_views(cells@);
            let own = deepest_filled_col(&rows[ri].levels);
            let mut c: usize = 0;
            while c < rows[ri].levels.len()
                invariant
                    ri < rows@.len(),
                    c <= rows@[ri as int].levels@.len(),
                    rv == row_views(rows@),
                    grid_wf(rv, max_level as int),
                    max_level + 1 < 0x10000,
                    rv[ri as int] == rows@[ri as int]@,
                    rownum == start_row as int + ri,
                    match own {
                        Some(d) => d as int == deepest_filled(rv[ri as int].levels),
                        None => deepest_filled(rv[ri as int].levels) == -1,
                    },
                    base == data_cells(rv.take(ri as int), start_row as int, max_level as int),
                    cell_views(cells@) == base + level_cells(rv[ri as int], rownum as int, c as int),
                decreases rows@[ri as int].levels@.len() - c,
            {
                proof {
                    assert(rv[ri as int].levels[c as int] == rows@[ri as int].levels@[c as int]@);
                    assert(rv[ri as int].levels.len() == rows@[ri as int].levels@.len());
                }
                let name = &rows[ri].levels[c];
                if !name.as_str().is_empty() {
                    let at_own = match own {
                        Some(d) => c == d,
                        None => false,
                    };
                    let style = if rows[ri].is_file && at_own {
                        CellStyle::FileCell
                    } else {
                        CellStyle::DirCell
                    };
                    let ghost prev = cell_views(cells@);
                    cells.push(
                        CellWrite { row: rownum, col: c as u16, text: name.clone(), style },
                    );
                    proof {
                        assert(cell_views(cells@) =~= prev.push(
                            CellModel {
                                row: rownum as int,
                                col: c as int,
                                text: rv[ri as int].levels[c as int],
                                style,
                            },
                        ));
                        assert(cell_views(cells@) =~= base + level_cells(
                            rv[ri as int],
                            rownum as int,
                            c + 1,
                        ));
                    }
                } else {
                    proof {
                        assert(cell_views(cells@) =~= base + level_cells(
                            rv[ri as int],
                            rownum as int,
                            c + 1,
                        ));
                    }
                }
                c += 1;
            }
            let ghost prev2 = cell_views(cells@);
            cells.push(
                CellWrite {
                    row: rownum,
                    col: max_level as u16,
                    text: rows[ri].full_path.clone(),
                    style: CellStyle::PathCell,
                },
            );
            proof {
                assert(cell_views(cells@) =~= prev2.push(
                    CellModel {
                        row: rownum as int,
                        col: max_level as int,
                        text: rv[ri as int].full_path,
                        style: CellStyle::PathCell,
                    },
                ));
            }
            let ghost prev3 = cell_views(cells@);
            cells.push(
                CellWrite {
                    row: rownum,
                    col: (max_level + 1) as u16,
                    text: String::new(),
                    style: CellStyle::NotesCell,
                },
            );
            proof {
                assert(cell_views(cells@) =~= prev3.push(
                    CellModel {
                        row: rownum as int,
                        col: max_level as int + 1,
                        text: Seq::<char>::empty(),
                        style: CellStyle::NotesCell,
                    },
                ));
                assert(cell_views(cells@) =~= base + row_cells(
                    rv[ri as int],
                    rownum as int,
                    max_level as int,
                ));
                assert(cell_views(cells@) =~= data_cells(
                    rv.take(ri + 1),
                    start_row as int,
                    max_level as int,
                ));
            }
            ri += 1;
        }
        proof {
            assert(rv.take(rows@.len() as int) =~= rv);
        }
        let mut merges: Vec<MergeSpan> = Vec::new();
        let mut col: usize = 0;
        while col < max_level
            invariant
                col <= max_level,
                rv == row_views(rows@),
                grid_wf(rv, max_level as int),
                start_row + rows@.len() <= u32::MAX,
                max_level + 1 < 0x10000,
                merges_sound(span_views(merges@), rv, max_level as int, start_row as int),
                forall|c2: int, r: int|
                    0 <= c2 < col && #[trigger] pair_mergeable(rv, c2, r) ==> covered_col(
                        span_views(merges@),
                        start_row as int,
                        c2,
                        r,
                    ),
            decreases max_level - col,
        {
            proof {
                assert forall|r: int|
                    0 <= r < rows@.len() implies col < (#[trigger] rows@[r])@.levels.len() by {
                    assert(rv[r] == rows@[r]@);
                }
            }
            let mut spans = self.merge_level_column(rows, col, start_row);
            let ghost oldm = span_views(merges@);
            let ghost sv = span_views(spans@);
            while spans.len() > 0
                invariant
                    rv == row_views(rows@),
                    span_views(merges@) + span_views(spans@) == oldm + sv,
                    oldm.len() <= span_views(merges@).len(),
                    merges_sound_col(sv, rv, col as int, start_row as int),
                    merges_sound(span_views(merges@), rv, max_level as int, start_row as int),
                    col < max_level,
                    forall|c2: int, r: int|
                        0 <= c2 < col && #[trigger] pair_mergeable(rv, c2, r) ==> covered_col(
                            span_views(merges@),
                            start_row as int,
                            c2,
                            r,
                        ),
                decreases spans@.len(),
            {
                let ghost mv = span_views(merges@);
                let ghost pv = span_views(spans@);
                let s = spans.remove(0);
                merges.push(s);
                proof {
                    assert(span_views(spans@) =~= pv.drop_first());
                    assert(span_views(merges@) =~= mv.push(pv[0]));
                    assert(span_views(merges@) + span_views(spans@) =~= mv + pv);
                    assert(pv[0] == (mv + pv)[mv.len() as int]);
                    assert(pv[0] == sv[mv.len() - oldm.len()]);
                    assert(span_sound(pv[0], rv, col as int, start_row as int));
                    assert forall|k: int|
                        0 <= k < span_views(merges@).len() implies 0 <= (#[trigger] span_views(
                        merges@,
                    )[k]).first_col < max_level && span_sound(
                        span_views(merges@)[k],
                        rv,
                        span_views(merges@)[k].first_col,
                        start_row as int,
                    ) by {
                        if k < mv.len() {
                            assert(span_views(merges@)[k] == mv[k]);
                        } else {
                            assert(span_views(merges@)[k] == pv[0]);
                        }
                    }
                    assert forall|c2: int, r: int|
                        0 <= c2 < col && #[trigger] pair_mergeable(rv, c2, r) implies covered_col(
                        span_views(merges@),
                        start_row as int,
                        c2,
                        r,
                    ) by {
                        let k0 = choose|k0: int|
                            0 <= k0 < mv.len() && (#[trigger] mv[k0]).first_col == c2
                                && mv[k0].first_row - start_row <= r
                                && r + 1 <= mv[k0].last_row - start_row;
                        assert(span_views(merges@)[k0] == mv[k0]);
                    }
                }
            }
            proof {
                assert(span_views(spans@).len() == 0);
                assert(span_views(merges@) =~= oldm + sv);
                assert forall|c2: int, r: int|
                    0 <= c2 < col + 1 && #[trigger] pair_mergeable(rv, c2, r) implies covered_col(
                    span_views(merges@),
                    start_row as int,
                    c2,
                    r,
                ) by {
                    if c2 < col {
                        let k0 = choose|k0: int|
                            0 <= k0 < oldm.len() && (#[trigger] oldm[k0]).first_col == c2
                                && oldm[k0].first_row - start_row <= r
                                && r + 1 <= oldm[k0].last_row - start_row;
                        assert(span_views(merges@)[k0] == oldm[k0]);
                    } else {
                        assert(covered(sv, start_row as int, r));
                        let k1 = choose|k1: int|
                            0 <= k1 < sv.len() && (#[trigger] sv[k1]).first_row - start_row <= r
                                && r + 1 <= sv[k1].last_row - start_row;
                        assert(span_sound(sv[k1], rv, col as int, start_row as int));
                        assert(span_views(merges@)[oldm.len() + k1] == sv[k1]);
                    }
                }
            }
            col += 1;
        }
        (cells, merges)
    }
}

/// Whether a grid row is the statistics row: its first level column
/// starts with the summary marker.
pub open spec fn is_stats_row(row: RowModel) -> bool {
    is_stats_name(row.levels[0])
}

/// The rows that carry entries, in order.
pub open spec fn data_rows_of(rows: Seq<RowModel>) -> Seq<RowModel>
    decreases rows.len(),
{
    if rows.len() == 0 {
        Seq::empty()
    } else {
        data_rows_of(rows.drop_last()) + (if is_stats_row(rows.last()) {
            Seq::empty()
        } else {
            seq![rows.last()]
        })
    }
}

/// The statistics rows, in order.
pub open spec fn stats_rows_of(rows: Seq<RowModel>) -> Seq<RowModel>
    decreases rows.len(),
{
    if rows.len() == 0 {
        Seq::empty()
    } else {
        stats_rows_of(rows.drop_last()) + (if is_stats_row(rows.last()) {
            seq![rows.last()]
        } else {
            Seq::empty()
        })
    }
}

/// The full-width merged range of each statistics row, one worksheet row
/// each from `base_row` on.
pub open spec fn stats_spans(stats: Seq<RowModel>, base_row: int, max_level: int) -> Seq<SpanModel>
    decreases stats.len(),
{
    if stats.len() == 0 {
        Seq::empty()
    } else {
        stats_spans(stats.drop_last(), base_row, max_level) + seq![
            SpanModel {
                first_row: base_row + stats.len() - 1,
                last_row: base_row + stats.len() - 1,
                first_col: 0,
                last_col: max_level + 1,
                text: stats.last().levels[0],
                style: CellStyle::StatsCell,
            },
        ]
    }
}

proof fn lemma_split_rows_wf(rows: Seq<RowModel>, max_level: int)
    requires
        grid_wf(rows, max_level),
    ensures
        grid_wf(data_rows_of(rows), max_level),
        grid_wf(stats_rows_of(rows), max_level),
        data_rows_of(rows).len() + stats_rows_of(rows).len() == rows.len(),
    decreases rows.len(),
{
    if rows.len() > 0 {
        assert forall|k: int|
            0 <= k < rows.drop_last().len() implies (#[trigger] rows.drop_last()[k]).levels.len()
            == max_level && rows.drop_last()[k].max_level == max_level by {
            assert(rows.drop_last()[k] == rows[k]);
        }
        lemma_split_rows_wf(rows.drop_last(), max_level);
        let d = data_rows_of(rows);
        let st = stats_rows_of(rows);
        assert forall|k: int|
            0 <= k < d.len() implies (#[trigger] d[k]).levels.len() == max_level && d[k].max_level
            == max_level by {
            if k < data_rows_of(rows.drop_last()).len() {
                assert(d[k] == data_rows_of(rows.drop_last())[k]);
            } else {
                assert(d[k] == rows.last());
            }
        }
        assert forall|k: int|
            0 <= k < st.len() implies (#[trigger] st[k]).levels.len() == max_level
            && st[k].max_level == max_level by {
            if k < stats_rows_of(rows.drop_last()).len() {
                assert(st[k] == stats_rows_of(rows.drop_last())[k]);
            } else {
                assert(st[k] == rows.last());
            }
        }
    }
}

/// The whole rendering plan: plain values for the spreadsheet
/// collaborator to carry out in order — cell writes, merged ranges of the
/// level columns, the statistics rows' full-width ranges and their fixed
/// row heights, and the autofilter extent.
#[derive(Debug)]
pub struct RenderPlan {
    pub max_level: usize,
    pub cells: Vec<CellWrite>,
    pub merges: Vec<MergeSpan>,
    pub stats_merges: Vec<MergeSpan>,
    pub stats_row_heights: Vec<u32>,
    pub autofilter_end: Option<(u32, u16)>,
}

impl ExcelGenerator {
    /// Plan everything below the header row: data rows first (with their
    /// level merges), then each statistics row as one full-width merged
    /// range, then the autofilter extent when there is data.
    pub fn write_data(&self, rows: &Vec<ExcelRow>) -> (plan: RenderPlan)
        requires
            rows@.len() > 0 ==> grid_wf(row_views(rows@), rows@[0]@.max_level),
            rows@.len() + 1 <= u32::MAX,
            rows@.len() > 0 ==> rows@[0]@.max_level + 2 < 0x10000,
        ensures
            rows@.len() == 0 ==> plan.max_level == 1 && plan.cells@.len() == 0
                && plan.merges@.len() == 0 && plan.stats_merges@.len() == 0
                && plan.stats_row_heights@.len() == 0 && plan.autofilter_end is None,
            rows@.len() > 0 ==> ({
                let rv = row_views(rows@);
                let ml = rows@[0]@.max_level;
                let data = data_rows_of(rv);
                let stats = stats_rows_of(rv);
                &&& plan.max_level as int == ml
                &&& cell_views(plan.cells@) == data_cells(data, 1, ml)
                &&& merges_sound(span_views(plan.merges@), data, ml, 1)
                &&& merges_complete(span_views(plan.merges@), data, ml, 1)
                &&& span_views(plan.stats_merges@) == stats_spans(stats, 1 + data.len() as int, ml)
                &&& plan.stats_row_heights@.len() == stats.len()
                &&& (forall|s: int|
                    0 <= s < stats.len() ==> (#[trigger] plan.stats_row_heights@[s]) as int == 1
                        + data.len() + s)
                &&& (plan.autofilter_end is Some <==> data.len() > 0)
                &&& (plan.autofilter_end matches Some(e) ==> e.0 as int == data.len()
                    + stats.len() && e.1 as int == ml + 1)
            }),
    {
        if rows.len() == 0 {
            return RenderPlan {
                max_level: 1,
                cells: Vec::new(),
                merges: Vec::new(),
                stats_merges: Vec::new(),
                stats_row_heights: Vec::new(),
                autofilter_end: None,
            };
        }
        let ghost rv = row_views(rows@);
        let max_level = rows[0].max_level;
        proof {
            assert(rv[0] == rows@[0]@);
            lemma_split_rows_wf(rv, max_level as int);
        }
        let mut data: Vec<ExcelRow> = Vec::new();
        let mut stats: Vec<ExcelRow> = Vec::new();
        proof {
            assert(rv.take(0) =~= Seq::<RowModel>::empty());
            assert(row_views(data@) =~= Seq::<RowModel>::empty());
            assert(row_views(stats@) =~= Seq::<RowModel>::empty());
        }
        let mut i: usize = 0;
        while i < rows.len()
            invariant
                i <= rows@.len(),
                rv == row_views(rows@),
                grid_wf(rv, max_level as int),
                max_level as int == rows@[0]@.max_level,
                row_views(data@) == data_rows_of(rv.take(i as int)),
                row_views(stats@) == stats_rows_of(rv.take(i as int)),
            decreases rows@.len() - i,
        {
            proof {
                assert(rv[i as int] == rows@[i as int]@);
                assert(rv.take(i + 1).drop_last() =~= rv.take(i as int));
                assert(rv.take(i + 1).last() == rv[i as int]);
                assert(rv[i as int].levels[0] == rows@[i as int].levels@[0]@);
            }
            let copy = clone_row(&rows[i]);
            if is_stats_str(rows[i].levels[0].as_str()) {
                let ghost prev = row_views(stats@);
                stats.push(copy);
                proof {
                    assert(row_views(stats@) =~= prev.push(rv[i as int]));
                    assert(row_views(stats@) =~= stats_rows_of(rv.take(i + 1)));
                    assert(row_views(data@) =~= data_rows_of(rv.take(i + 1)));
                }
            } else {
                let ghost prev = row_views(data@);
                data.push(copy);
                proof {
                    assert(row_views(data@) =~= prev.push(rv[i as int]));
                    assert(row_views(data@) =~= data_rows_of(rv.take(i + 1)));
                    assert(row_views(stats@) =~= stats_rows_of(rv.take(i + 1)));
                }
            }
            i += 1;
        }
        proof {
            assert(rv.take(rows@.len() as int) =~= rv);
        }
        let (cells, merges) = self.write_data_with_merging(&data, max_level, 1);
        let ghost dv = row_views(data@);
        let ghost sv = row_views(stats@);
        let mut stats_merges: Vec<MergeSpan> = Vec::new();
        let mut heights: Vec<u32> = Vec::new();
        proof {
            assert(sv.take(0) =~= Seq::<RowModel>::empty());
            assert(span_views(stats_merges@) =~= Seq::<SpanModel>::empty());
        }
        let mut s: usize = 0;
        while s < stats.len()
            invariant
                s <= stats@.len(),
                dv == row_views(data@),
                sv == row_views(stats@),
                grid_wf(sv, max_level as int),
                max_level + 2 < 0x10000,
                data@.len() + stats@.len() + 1 <= u32::MAX,
                span_views(stats_merges@) == stats_spans(
                    sv.take(s as int),
                    1 + data@.len() as int,
                    max_level as int,
                ),
                heights@.len() == s,
                forall|x: int|
                    0 <= x < s ==> (#[trigger] heights@[x]) as int == 1 + data@.len() + x,
            decreases stats@.len() - s,
        {
            proof {
                assert(sv[s as int] == stats@[s as int]@);
                assert(sv.take(s + 1).drop_last() =~= sv.take(s as int));
                assert(sv.take(s + 1).last() == sv[s as int]);
                assert(sv[s as int].levels[0] == stats@[s as int].levels@[0]@);
            }
            let rownum: u32 = 1 + data.len() as u32 + s as u32;
            let ghost prev = span_views(stats_merges@);
            stats_merges.push(
                MergeSpan {
                    first_row: rownum,
                    last_row: rownum,
                    first_col: 0,
                    last_col: (max_level + 1) as u16,
                    text: stats[s].levels[0].clone(),
                    style: CellStyle::StatsCell,
                },
            );
            heights.push(rownum);
            proof {
                assert(span_views(stats_merges@) =~= prev.push(
                    SpanModel {
                        first_row: 1 + dv.len() + s,
                        last_row: 1 + dv.len() + s,
                        first_col: 0,
                        last_col: max_level as int + 1,
                        text: sv[s as int].levels[0],
                        style: CellStyle::StatsCell,
                    },
                ));
                assert(span_views(stats_merges@) =~= stats_spans(
                    sv.take(s + 1),
                    1 + dv.len() as int,
                    max_level as int,
                ));
            }
            s += 1;
        }
        proof {
            assert(sv.take(stats@.len() as int) =~= sv);
        }
        let autofilter_end: Option<(u32, u16)> = if data.len() > 0 {
            Some(((data.len() + stats.len()) as u32, (max_level + 1) as u16))
        } else {
            None
        };
        RenderPlan {
            max_level,
            cells,
            merges,
            stats_merges,
            stats_row_heights: heights,
            autofilter_end,
        }
    }
}

/// The planned header cells of the level columns below `max_level`: the
/// label `L` followed by the 1-based column number.
pub open spec fn header_cells(max_level: int) -> Seq<CellModel>
    decreases max_level,
{
    if max_level <= 0 {
        Seq::empty()
    } else {
        header_cells(max_level - 1) + seq![
            CellModel {
                row: 0,
                col: max_level - 1,
                text: "L"@ + dec_spec(max_level),
                style: CellStyle::HeaderCell,
            },
        ]
    }
}

/// The whole planned header row: level labels, then the full-path and
/// notes headers.
pub open spec fn all_header_cells(max_level: int) -> Seq<CellModel> {
    header_cells(max_level) + seq![
        CellModel {
            row: 0,
            col: max_level,
            text: "\u{5b8c}\u{6574}\u{8def}\u{5f84}"@,
            style: CellStyle::HeaderCell,
        },
        CellModel {
            row: 0,
            col: max_level + 1,
            text: "\u{5907}\u{6ce8}"@,
            style: CellStyle::HeaderCell,
        },
    ]
}

impl ExcelGenerator {
    /// Plan the header row: one label per level column, then the full
    /// path and notes headers.
    pub fn setup_worksheet(&self, max_level: usize) -> (cells: Vec<CellWrite>)
        requires
            max_level + 1 < 0x10000,
        ensures
            cell_views(cells@) == all_header_cells(max_level as int),
    {
        let mut cells: Vec<CellWrite> = Vec::new();
        proof {
            assert(cell_views(cells@) =~= Seq::<CellModel>::empty());
        }
        let mut c: usize = 0;
        while c < max_level
            invariant
                c <= max_level,
                max_level + 1 < 0x10000,
                cell_views(cells@) == header_cells(c as int),
            decreases max_level - c,
        {
            let mut label = String::from_str("L");
            let num = dec_string(c + 1);
            label.append(num.as_str());
            let ghost prev = cell_views(cells@);
            cells.push(
                CellWrite { row: 0, col: c as u16, text: label, style: CellStyle::HeaderCell },
            );
            proof {
                assert(cell_views(cells@) =~= prev.push(
                    CellModel {
                        row: 0,
                        col: c as int,
                        text: "L"@ + dec_spec(c + 1),
                        style: CellStyle::HeaderCell,
                    },
                ));
            }
            c += 1;
        }
        cells.push(
            CellWrite {
                row: 0,
                col: max_level as u16,
                text: String::from_str("\u{5b8c}\u{6574}\u{8def}\u{5f84}"),
                style: CellStyle::HeaderCell,
            },
        );
        cells.push(
            CellWrite {
                row: 0,
                col: (max_level + 1) as u16,
                text: String::from_str("\u{5907}\u{6ce8}"),
                style: CellStyle::HeaderCell,
            },
        );
        proof {
            assert(cell_views(cells@) =~= all_header_cells(max_level as int));
        }
        cells
    }

    /// Plan the whole workbook: the header row, every data cell, the
    /// merged ranges of each level column, the statistics rows, and the
    /// autofilter extent.
    pub fn generate(&self, items: Vec<TreeItem>) -> (plan: RenderPlan)
        requires
            items_leveled(items@.map_values(|it: TreeItem| it@)),
            items@.len() + 1 <= u32::MAX,
            max_level_spec(items@.map_values(|it: TreeItem| it@)) + 2 < 0x10000,
        ensures
            ({
                let imv = items@.map_values(|it: TreeItem| it@);
                let rv = rows_spec(imv);
                let ml = max_level_spec(imv);
                &&& plan.max_level as int == ml
                &&& cell_views(plan.cells@) == all_header_cells(ml) + data_cells(
                    data_rows_of(rv),
                    1,
                    ml,
                )
                &&& merges_sound(span_views(plan.merges@), data_rows_of(rv), ml, 1)
                &&& merges_complete(span_views(plan.merges@), data_rows_of(rv), ml, 1)
                &&& span_views(plan.stats_merges@) == stats_spans(
                    stats_rows_of(rv),
                    1 + data_rows_of(rv).len() as int,
                    ml,
                )
                &&& plan.stats_row_heights@.len() == stats_rows_of(rv).len()
                &&& (plan.autofilter_end is Some <==> data_rows_of(rv).len() > 0)
            }),
    {
        let ghost imv = items@.map_values(|it: TreeItem| it@);
        proof {
            lemma_rows_spec_wf(imv);
        }
        let rows = self.convert_to_rows(items);
        let max_level = if rows.len() == 0 {
            1
        } else {
            rows[0].max_level
        };
        proof {
            assert(row_views(rows@) =~= rows_spec(imv));
            if rows@.len() > 0 {
                assert(rows@[0]@ == rows_spec(imv)[0]);
            }
        }
        let mut cells = self.setup_worksheet(max_level);
        let mut plan = self.write_data(&rows);
        proof {
            if rows@.len() == 0 {
                assert(data_rows_of(row_views(rows@)) =~= Seq::<RowModel>::empty());
                assert(stats_rows_of(row_views(rows@)) =~= Seq::<RowModel>::empty());
            }
        }
        let ghost hv = cell_views(cells@);
        let ghost dvc = cell_views(plan.cells@);
        cells.append(&mut plan.cells);
        proof {
            assert(cell_views(cells@) =~= hv + dvc);
        }
        plan.cells = cells;
        plan.max_level = max_level;
        plan
    }
}

} // verus!

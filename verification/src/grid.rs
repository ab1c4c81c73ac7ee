//! Grid projection: turns the ordered item list into spreadsheet rows,
//! one row per item and one column per depth level, with each row's
//! ancestor names filled into their columns and the statistics item on a
//! full-width row of its own.

use vstd::prelude::*;
use vstd::string::StrSliceExecFns;
use crate::parser::ItemModel;
use crate::parser::TreeItem;
use crate::parser::lemma_count_units_nonneg;
use crate::parser::parse_line_spec;
use crate::parser::parse_spec;
use crate::parser::run_lines;
use crate::parser::strip_ansi;
use crate::parser::summary_prefix;
use crate::parser::trunc_stack;
use crate::text::lines_of;

verus! {

/// One spreadsheet row: the ancestor name at each depth column (empty
/// where this row's entry is shallower), the full path, the shared
/// column count, and the file/directory classification.
#[derive(Debug)]
pub struct ExcelRow {
    pub levels: Vec<String>,
    pub full_path: String,
    pub max_level: usize,
    pub is_file: bool,
}

/// The mathematical image of an `ExcelRow`.
pub ghost struct RowModel {
    pub levels: Seq<Seq<char>>,
    pub full_path: Seq<char>,
    pub max_level: int,
    pub is_file: bool,
}

impl View for ExcelRow {
    type V = RowModel;

    open spec fn view(&self) -> RowModel {
        RowModel {
            levels: self.levels@.map_values(|s: String| s@),
            full_path: self.full_path@,
            max_level: self.max_level as int,
            is_file: self.is_file,
        }
    }
}

/// A name that begins with the summary marker: such an item is the
/// statistics row and stands outside the depth grid.
pub open spec fn is_stats_name(n: Seq<char>) -> bool {
    n.len() > 0 && n[0] == '\u{1f4ca}'
}

pub(crate) fn is_stats_str(s: &str) -> (r: bool)
    ensures
        r == is_stats_name(s@),
{
    s.unicode_len() > 0 && s.get_char(0) == '\u{1f4ca}'
}

/// The deepest level among the non-statistics items, if any.
pub open spec fn max_nonstats(items: Seq<ItemModel>) -> Option<int>
    decreases items.len(),
{
    if items.len() == 0 {
        None
    } else {
        let prev = max_nonstats(items.drop_last());
        if is_stats_name(items.last().name) {
            prev
        } else {
            match prev {
                None => Some(items.last().level),
                Some(m) => Some(
                    if items.last().level > m {
                        items.last().level
                    } else {
                        m
                    },
                ),
            }
        }
    }
}

/// The number of depth columns: the deepest non-statistics level, or 1
/// when there is none.
pub open spec fn max_level_spec(items: Seq<ItemModel>) -> int {
    match max_nonstats(items) {
        Some(m) => m,
        None => 1,
    }
}

/// Every non-statistics item sits at depth 1 or deeper.
pub open spec fn items_leveled(items: Seq<ItemModel>) -> bool {
    forall|k: int|
        0 <= k < items.len() ==> is_stats_name((#[trigger] items[k]).name) || items[k].level >= 1
}

/// The level columns of a data row: the ancestor stack entry where the
/// column has one, the empty text elsewhere.
pub open spec fn levels_of_stack(stack: Seq<Seq<char>>, max_level: int) -> Seq<Seq<char>> {
    Seq::new(
        max_level as nat,
        |i: int|
            if i < stack.len() {
                stack[i]
            } else {
                Seq::empty()
            },
    )
}

/// The level columns of the statistics row: its phrase in the first
/// column, the rest empty.
pub open spec fn stats_levels(name: Seq<char>, max_level: int) -> Seq<Seq<char>> {
    Seq::new(
        max_level as nat,
        |i: int|
            if i == 0 {
                name
            } else {
                Seq::empty()
            },
    )
}

/// The grid rows and the ancestor stack while projecting the items.
pub ghost struct GridState {
    pub rows: Seq<RowModel>,
    pub stack: Seq<Seq<char>>,
}

/// The effect of one item on the projection state.
pub open spec fn step_row(st: GridState, item: ItemModel, max_level: int) -> GridState {
    if is_stats_name(item.name) {
        GridState {
            rows: st.rows.push(
                RowModel {
                    levels: stats_levels(item.name, max_level),
                    full_path: item.name,
                    max_level: max_level,
                    is_file: false,
                },
            ),
            stack: st.stack,
        }
    } else {
        let stack1 = trunc_stack(st.stack, item.level).push(item.name);
        GridState {
            rows: st.rows.push(
                RowModel {
                    levels: levels_of_stack(stack1, max_level),
                    full_path: item.full_path,
                    max_level: max_level,
                    is_file: item.is_file,
                },
            ),
            stack: stack1,
        }
    }
}

/// The projection state after all the given items.
pub open spec fn project_rows(items: Seq<ItemModel>, max_level: int) -> GridState
    decreases items.len(),
{
    if items.len() == 0 {
        GridState { rows: Seq::empty(), stack: Seq::empty() }
    } else {
        step_row(project_rows(items.drop_last(), max_level), items.last(), max_level)
    }
}

/// Everything `convert_to_rows` returns for the given items.
pub open spec fn rows_spec(items: Seq<ItemModel>) -> Seq<RowModel> {
    project_rows(items, max_level_spec(items)).rows
}

fn levels_from_stack(stack: &Vec<String>, max_level: usize) -> (r: Vec<String>)
    ensures
        r@.map_values(|s: String| s@) == levels_of_stack(
            stack@.map_values(|s: String| s@),
            max_level as int,
        ),
{
    let ghost sv = stack@.map_values(|s: String| s@);
    let mut levels: Vec<String> = Vec::new();
    let mut j: usize = 0;
    while j < stack.len() && j < max_level
        invariant
            j <= stack@.len(),
            j <= max_level,
            sv == stack@.map_values(|s: String| s@),
            levels@.len() == j,
            forall|x: int| 0 <= x < j ==> (#[trigger] levels@[x])@ == sv[x],
        decreases stack@.len() - j,
    {
        levels.push(stack[j].clone());
        j += 1;
    }
    while levels.len() < max_level
        invariant
            j <= levels@.len() <= max_level,
            j >= stack@.len() || levels@.len() == max_level,
            sv == stack@.map_values(|s: String| s@),
            forall|x: int|
                0 <= x < levels@.len() ==> (#[trigger] levels@[x])@ == (if x < sv.len() && x < j {
                    sv[x]
                } else {
                    Seq::<char>::empty()
                }),
        decreases max_level - levels@.len(),
    {
        levels.push(String::new());
    }
    proof {
        assert forall|x: int|
            0 <= x < levels@.len() implies levels@.map_values(|s: String| s@)[x]
            == levels_of_stack(sv, max_level as int)[x] by {
            assert(levels@.map_values(|s: String| s@)[x] == levels@[x]@);
        }
        assert(levels@.map_values(|s: String| s@) =~= levels_of_stack(sv, max_level as int));
    }
    levels
}

fn levels_for_stats(name: &String, max_level: usize) -> (r: Vec<String>)
    requires
        max_level >= 1,
    ensures
        r@.map_values(|s: String| s@) == stats_levels(name@, max_level as int),
{
    let mut levels: Vec<String> = Vec::new();
    levels.push(name.clone());
    while levels.len() < max_level
        invariant
            1 <= levels@.len() <= max_level,
            levels@[0]@ == name@,
            forall|x: int|
                1 <= x < levels@.len() ==> (#[trigger] levels@[x])@ == Seq::<char>::empty(),
        decreases max_level - levels@.len(),
    {
        levels.push(String::new());
    }
    proof {
        assert forall|x: int|
            0 <= x < levels@.len() implies levels@.map_values(|s: String| s@)[x] == stats_levels(
            name@,
            max_level as int,
        )[x] by {
            assert(levels@.map_values(|s: String| s@)[x] == levels@[x]@);
        }
        assert(levels@.map_values(|s: String| s@) =~= stats_levels(name@, max_level as int));
    }
    levels
}

/// Plans the spreadsheet rendering of an item list.
pub struct ExcelGenerator;

impl ExcelGenerator {
    /// Create a generator.
    pub fn new() -> (r: Self) {
        ExcelGenerator
    }

    /// Project the ordered item list onto grid rows, rebuilding each
    /// item's ancestor stack exactly as the parser did.
    pub fn convert_to_rows(&self, items: Vec<TreeItem>) -> (r: Vec<ExcelRow>)
        requires
            items_leveled(items@.map_values(|it: TreeItem| it@)),
        ensures
            r@.map_values(|row: ExcelRow| row@) == rows_spec(
                items@.map_values(|it: TreeItem| it@),
            ),
    {
        let ghost imv = items@.map_values(|it: TreeItem| it@);
        let mut found = false;
        let mut mx: usize = 0;
        let mut i: usize = 0;
        while i < items.len()
            invariant
                i <= items@.len(),
                imv == items@.map_values(|it: TreeItem| it@),
                items_leveled(imv),
                match max_nonstats(imv.take(i as int)) {
                    Some(m) => found && mx as int == m,
                    None => !found,
                },
                found ==> mx >= 1,
            decreases items@.len() - i,
        {
            proof {
                assert(imv.take(i + 1).drop_last() =~= imv.take(i as int));
            }
            let it = &items[i];
            if !is_stats_str(it.name.as_str()) {
                proof {
                    assert(imv[i as int].level >= 1);
                }
                if !found {
                    mx = it.level;
                    found = true;
                } else if it.level > mx {
                    mx = it.level;
                }
            }
            i += 1;
        }
        proof {
            assert(imv.take(items@.len() as int) =~= imv);
        }
        let max_level: usize = if found {
            mx
        } else {
            1
        };
        proof {
            assert(max_level as int == max_level_spec(imv));
        }
        let mut rows: Vec<ExcelRow> = Vec::new();
        let mut path_stack: Vec<String> = Vec::new();
        proof {
            assert(imv.take(0) =~= Seq::<ItemModel>::empty());
            assert(rows@.map_values(|row: ExcelRow| row@) =~= Seq::<RowModel>::empty());
            assert(path_stack@.map_values(|s: String| s@) =~= Seq::<Seq<char>>::empty());
        }
        let mut idx: usize = 0;
        while idx < items.len()
            invariant
                idx <= items@.len(),
                imv == items@.map_values(|it: TreeItem| it@),
                items_leveled(imv),
                max_level as int == max_level_spec(imv),
                max_level >= 1,
                project_rows(imv.take(idx as int), max_level as int) == (GridState {
                    rows: rows@.map_values(|row: ExcelRow| row@),
                    stack: path_stack@.map_values(|s: String| s@),
                }),
            decreases items@.len() - idx,
        {
            let ghost st = project_rows(imv.take(idx as int), max_level as int);
            proof {
                assert(imv.take(idx + 1).drop_last() =~= imv.take(idx as int));
                assert(project_rows(imv.take(idx + 1), max_level as int) == step_row(
                    st,
                    imv[idx as int],
                    max_level as int,
                ));
            }
            let it = &items[idx];
            if is_stats_str(it.name.as_str()) {
                let levels = levels_for_stats(&it.name, max_level);
                let ghost rv = rows@.map_values(|row: ExcelRow| row@);
                rows.push(
                    ExcelRow {
                        levels,
                        full_path: it.name.clone(),
                        max_level,
                        is_file: false,
                    },
                );
                proof {
                    assert(rows@.map_values(|row: ExcelRow| row@) =~= rv.push(
                        step_row(st, imv[idx as int], max_level as int).rows.last(),
                    ));
                }
            } else {
                proof {
                    assert(imv[idx as int].level >= 1);
                }
                let ghost psv = path_stack@.map_values(|s: String| s@);
                path_stack.truncate(it.level - 1);
                proof {
                    if psv.len() > it.level - 1 {
                        assert(path_stack@.map_values(|s: String| s@) =~= psv.take(
                            it.level - 1,
                        ));
                    } else {
                        assert(path_stack@.map_values(|s: String| s@) =~= psv);
                    }
                }
                let ghost psv1 = path_stack@.map_values(|s: String| s@);
                path_stack.push(it.name.clone());
                proof {
                    assert(path_stack@.map_values(|s: String| s@) =~= psv1.push(
                        imv[idx as int].name,
                    ));
                }
                let levels = levels_from_stack(&path_stack, max_level);
                let ghost rv = rows@.map_values(|row: ExcelRow| row@);
                rows.push(
                    ExcelRow {
                        levels,
                        full_path: it.full_path.clone(),
                        max_level,
                        is_file: it.is_file,
                    },
                );
                proof {
                    assert(rows@.map_values(|row: ExcelRow| row@) =~= rv.push(
                        step_row(st, imv[idx as int], max_level as int).rows.last(),
                    ));
                }
            }
            idx += 1;
        }
        proof {
            assert(imv.take(items@.len() as int) =~= imv);
        }
        rows
    }
}

/// All rows share the same positive number of level columns.
pub open spec fn grid_wf(rows: Seq<RowModel>, max_level: int) -> bool {
    &&& max_level >= 1
    &&& forall|k: int|
        0 <= k < rows.len() ==> (#[trigger] rows[k]).levels.len() == max_level && rows[k].max_level
            == max_level
}

proof fn lemma_project_wf(items: Seq<ItemModel>, max_level: int)
    requires
        max_level >= 1,
    ensures
        grid_wf(project_rows(items, max_level).rows, max_level),
        project_rows(items, max_level).rows.len() == items.len(),
    decreases items.len(),
{
    if items.len() > 0 {
        lemma_project_wf(items.drop_last(), max_level);
        let st = project_rows(items.drop_last(), max_level);
        let stf = project_rows(items, max_level);
        assert forall|k: int|
            0 <= k < stf.rows.len() implies (#[trigger] stf.rows[k]).levels.len() == max_level
            && stf.rows[k].max_level == max_level by {
            if k < st.rows.len() {
                assert(stf.rows[k] == st.rows[k]);
            } else {
                assert(stf.rows[k] == stf.rows.last());
            }
        }
    }
}

proof fn lemma_max_nonstats_pos(items: Seq<ItemModel>)
    requires
        items_leveled(items),
    ensures
        max_nonstats(items) matches Some(m) ==> m >= 1,
    decreases items.len(),
{
    if items.len() > 0 {
        assert forall|k: int|
            0 <= k < items.drop_last().len() implies is_stats_name(
            (#[trigger] items.drop_last()[k]).name,
        ) || items.drop_last()[k].level >= 1 by {
            assert(items.drop_last()[k] == items[k]);
        }
        lemma_max_nonstats_pos(items.drop_last());
    }
}

/// The projected grid is well formed: every row spans the same, positive
/// number of level columns, and there is one row per item.
pub proof fn lemma_rows_spec_wf(items: Seq<ItemModel>)
    requires
        items_leveled(items),
    ensures
        grid_wf(rows_spec(items), max_level_spec(items)),
        rows_spec(items).len() == items.len(),
{
    lemma_max_nonstats_pos(items);
    lemma_project_wf(items, max_level_spec(items));
}

/// A field-for-field copy of a row.
pub(crate) fn clone_row(r: &ExcelRow) -> (c: ExcelRow)
    ensures
        c@ == r@,
{
    let mut levels: Vec<String> = Vec::new();
    let mut k: usize = 0;
    while k < r.levels.len()
        invariant
            k <= r.levels@.len(),
            levels@.len() == k,
            forall|x: int| 0 <= x < k ==> (#[trigger] levels@[x])@ == r.levels@[x]@,
        decreases r.levels@.len() - k,
    {
        levels.push(r.levels[k].clone());
        k += 1;
    }
    proof {
        assert(levels@.map_values(|s: String| s@) =~= r.levels@.map_values(|s: String| s@));
    }
    ExcelRow {
        levels,
        full_path: r.full_path.clone(),
        max_level: r.max_level,
        is_file: r.is_file,
    }
}

proof fn lemma_run_leveled(lines: Seq<Seq<char>>, include_hidden: bool, names: Seq<Seq<char>>)
    ensures
        forall|k: int|
            0 <= k < run_lines(lines, include_hidden, names).items.len() ==> (#[trigger] run_lines(
                lines,
                include_hidden,
                names,
            ).items[k]).level >= 1,
    decreases lines.len(),
{
    if lines.len() > 0 {
        lemma_run_leveled(lines.drop_last(), include_hidden, names);
        let st = run_lines(lines.drop_last(), include_hidden, names);
        let stf = run_lines(lines, include_hidden, names);
        let line = lines.last();
        match parse_line_spec(line) {
            Some(ln) => {
                lemma_count_units_nonneg(strip_ansi(line), 0);
            },
            None => {},
        }
        assert forall|k: int|
            0 <= k < stf.items.len() implies (#[trigger] stf.items[k]).level >= 1 by {
            if k < st.items.len() {
                assert(stf.items[k] == st.items[k]);
            }
        }
    }
}

/// What `parse` returns always meets the grid's expectation: every
/// non-statistics item sits at depth 1 or deeper, and the summary item
/// carries the statistics marker.
pub proof fn lemma_parse_items_leveled(text: Seq<char>, include_hidden: bool, names: Seq<Seq<char>>)
    ensures
        items_leveled(parse_spec(text, include_hidden, names)),
{
    lemma_run_leveled(lines_of(text), include_hidden, names);
    let st = run_lines(lines_of(text), include_hidden, names);
    let items = parse_spec(text, include_hidden, names);
    reveal_strlit("\u{1f4ca} \u{7edf}\u{8ba1}: ");
    assert(summary_prefix().len() > 0);
    assert(summary_prefix()[0] == '\u{1f4ca}');
    assert(items.last().name[0] == '\u{1f4ca}');
    assert(is_stats_name(items.last().name));
    assert forall|k: int|
        0 <= k < items.len() implies is_stats_name((#[trigger] items[k]).name) || items[k].level
        >= 1 by {
        if k < st.items.len() {
            assert(items[k] == st.items[k]);
        } else {
            assert(items[k] == items.last());
        }
    }
}

} // verus!

use tree_to_excel::grid::ExcelGenerator;
use tree_to_excel::grid::ExcelRow;
use tree_to_excel::parser::TreeItem;
use tree_to_excel::parser::TreeParser;
use tree_to_excel::plan::CellStyle;

fn item(name: &str, level: usize, is_file: bool, full_path: &str) -> TreeItem {
    TreeItem {
        name: name.to_string(),
        level,
        is_file,
        full_path: full_path.to_string(),
    }
}

fn row(levels: &[&str], full_path: &str, max_level: usize, is_file: bool) -> ExcelRow {
    ExcelRow {
        levels: levels.iter().map(|s| s.to_string()).collect(),
        full_path: full_path.to_string(),
        max_level,
        is_file,
    }
}

#[test]
fn rows_follow_ancestor_stack() {
    let g = ExcelGenerator::new();
    let items = vec![
        item("a", 1, false, "a"),
        item("b.rs", 2, true, "a/b.rs"),
        item("📊 统计: 1 directories, 1 files", 0, false, "📊 统计: 1 directories, 1 files"),
    ];
    let rows = g.convert_to_rows(items);
    assert_eq!(rows.len(), 3);
    assert_eq!(rows[0].levels, vec!["a".to_string(), "".to_string()]);
    assert_eq!(rows[1].levels, vec!["a".to_string(), "b.rs".to_string()]);
    assert!(rows[2].levels[0].starts_with("📊"));
    assert_eq!(rows[2].levels[1], "");
    assert_eq!(rows[1].max_level, 2);
    assert!(rows[1].is_file);
    assert!(!rows[2].is_file);
}

#[test]
fn same_named_children_under_different_parents_not_merged() {
    let g = ExcelGenerator::new();
    let rows = vec![
        row(&["a", "README"], "a/README", 2, false),
        row(&["b", "README"], "b/README", 2, false),
    ];
    let spans = g.merge_level_column(&rows, 1, 1);
    assert!(spans.is_empty());

    let rows2 = vec![
        row(&["a", "x"], "a/x", 2, false),
        row(&["a", "x"], "a/x", 2, false),
    ];
    let spans2 = g.merge_level_column(&rows2, 1, 1);
    assert_eq!(spans2.len(), 1);
    assert_eq!(spans2[0].first_row, 1);
    assert_eq!(spans2[0].last_row, 2);
    assert_eq!(spans2[0].first_col, 1);
    assert_eq!(spans2[0].text, "x");
}

#[test]
fn column_runs_merge_and_empty_cells_do_not() {
    let g = ExcelGenerator::new();
    let rows = vec![
        row(&["a", ""], "a", 2, false),
        row(&["a", "x"], "a/x", 2, true),
        row(&["b", ""], "b", 2, false),
        row(&["b", "y"], "b/y", 2, true),
    ];
    let spans = g.merge_level_column(&rows, 0, 1);
    assert_eq!(spans.len(), 2);
    assert_eq!((spans[0].first_row, spans[0].last_row), (1, 2));
    assert_eq!((spans[1].first_row, spans[1].last_row), (3, 4));

    let empties = vec![row(&["", ""], "", 2, false), row(&["", ""], "", 2, false)];
    assert!(g.merge_level_column(&empties, 0, 1).is_empty());
    assert!(g.merge_level_column(&rows, 1, 1).is_empty());
}

#[test]
fn full_plan_from_parsed_tree() {
    let parser = TreeParser::new();
    let g = ExcelGenerator::new();
    let items = parser.parse("├── src\n│   ├── main.rs\n│   └── lib.rs\n", false);
    let plan = g.generate(items);
    assert_eq!(plan.max_level, 2);

    assert_eq!(plan.cells[0].text, "L1");
    assert_eq!(plan.cells[0].row, 0);
    assert_eq!(plan.cells[0].col, 0);
    assert_eq!(plan.cells[0].style, CellStyle::HeaderCell);
    assert_eq!(plan.cells[1].text, "L2");
    assert_eq!(plan.cells[2].text, "完整路径");
    assert_eq!(plan.cells[3].text, "备注");

    assert_eq!(plan.cells[4].row, 1);
    assert_eq!(plan.cells[4].col, 0);
    assert_eq!(plan.cells[4].text, "src");
    assert_eq!(plan.cells[4].style, CellStyle::DirCell);

    let main_cell = plan.cells.iter().find(|c| c.text == "main.rs").unwrap();
    assert_eq!(main_cell.style, CellStyle::FileCell);
    assert_eq!(main_cell.row, 2);
    assert_eq!(main_cell.col, 1);

    let path_cell = plan.cells.iter().find(|c| c.text == "src/lib.rs").unwrap();
    assert_eq!(path_cell.style, CellStyle::PathCell);
    assert_eq!(path_cell.col, 2);

    assert_eq!(plan.merges.len(), 1);
    assert_eq!(plan.merges[0].first_row, 1);
    assert_eq!(plan.merges[0].last_row, 3);
    assert_eq!(plan.merges[0].first_col, 0);
    assert_eq!(plan.merges[0].last_col, 0);
    assert_eq!(plan.merges[0].text, "src");
    assert_eq!(plan.merges[0].style, CellStyle::DirCell);

    assert_eq!(plan.stats_merges.len(), 1);
    assert_eq!(plan.stats_merges[0].first_row, 4);
    assert_eq!(plan.stats_merges[0].last_row, 4);
    assert_eq!(plan.stats_merges[0].first_col, 0);
    assert_eq!(plan.stats_merges[0].last_col, 3);
    assert!(plan.stats_merges[0].text.ends_with("1 directories, 2 files"));
    assert_eq!(plan.stats_merges[0].style, CellStyle::StatsCell);

    assert_eq!(plan.stats_row_heights, vec![4]);
    assert_eq!(plan.autofilter_end, Some((4, 3)));
}

#[test]
fn plan_for_no_rows_has_headers_only() {
    let g = ExcelGenerator::new();
    let plan = g.generate(vec![]);
    assert_eq!(plan.max_level, 1);
    assert_eq!(plan.cells.len(), 3);
    assert_eq!(plan.cells[0].text, "L1");
    assert!(plan.merges.is_empty());
    assert!(plan.stats_merges.is_empty());
    assert!(plan.autofilter_end.is_none());
}

#[test]
fn file_style_follows_the_rows_own_cell() {
    let g = ExcelGenerator::new();
    let items = vec![
        item("notes.txt", 1, true, "notes.txt"),
        item("deep", 1, false, "deep"),
        item("inner.rs", 2, true, "deep/inner.rs"),
    ];
    let plan = g.generate(items);
    assert_eq!(plan.max_level, 2);
    let notes_cell = plan.cells.iter().find(|c| c.text == "notes.txt").unwrap();
    assert_eq!(notes_cell.style, CellStyle::FileCell);
    let deep_cell = plan
        .cells
        .iter()
        .find(|c| c.text == "deep" && c.row == 2)
        .unwrap();
    assert_eq!(deep_cell.style, CellStyle::DirCell);
    let inner_cell = plan.cells.iter().find(|c| c.text == "inner.rs").unwrap();
    assert_eq!(inner_cell.style, CellStyle::FileCell);
    let ancestor_cell = plan
        .cells
        .iter()
        .find(|c| c.text == "deep" && c.row == 3)
        .unwrap();
    assert_eq!(ancestor_cell.style, CellStyle::DirCell);
}

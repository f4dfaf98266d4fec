use fop_verified::engine::LayoutEngine;
use fop_verified::table::{fill_grid, TableCellSpec};
use fop_verified::{Area, AreaTree, AreaType, Color, Length, Rect};

fn pt(v: i32) -> Length {
    Length::from_pt(v)
}

fn cell(cols: Option<usize>, rows: Option<usize>) -> Option<TableCellSpec> {
    Some(TableCellSpec { columns_spanned: cols, rows_spanned: rows, background_color: None })
}

#[test]
fn test_grid_places_spanning_cells() {
    let rows = vec![Some(vec![cell(None, Some(2)), cell(Some(2), None)]), Some(vec![cell(None, None), cell(None, None)])];
    let grid = fill_grid(&rows, 3);
    assert_eq!(grid[0], vec![Some((0, 0)), Some((0, 1)), Some((0, 1))]);
    assert_eq!(grid[1], vec![Some((0, 0)), Some((1, 0)), Some((1, 1))]);
}

#[test]
fn test_grid_drops_cells_without_room() {
    let rows = vec![Some(vec![cell(Some(5), None), cell(None, None), None])];
    let grid = fill_grid(&rows, 2);
    assert_eq!(grid[0], vec![Some((0, 0)), Some((0, 0))]);
}

#[test]
fn test_table_body_rows_and_cells() {
    let engine = LayoutEngine::new();
    let mut tree = AreaTree::new();
    let table = tree.add_area(Area::new(AreaType::Block, Rect::new(pt(0), pt(0), pt(180), pt(0))));
    let red = Color { r: 255, g: 0, b: 0 };
    let rows = vec![
        Some(vec![cell(None, Some(2)), Some(TableCellSpec { columns_spanned: Some(2), rows_spanned: None, background_color: Some(red) })]),
        None,
        Some(vec![cell(None, None), cell(None, None)]),
    ];
    let widths = [pt(100), pt(50), pt(30)];
    let end = engine.layout_table_body(&rows, &mut tree, table, pt(10), &widths).unwrap();
    assert_eq!(end, pt(70));
    let row_ids = tree.children(table);
    assert_eq!(row_ids.len(), 2);
    let row0 = &tree.get(row_ids[0]).unwrap().area;
    assert_eq!(row0.geometry, Rect::new(pt(0), pt(10), pt(180), pt(30)));
    let row1 = &tree.get(row_ids[1]).unwrap().area;
    assert_eq!(row1.geometry, Rect::new(pt(0), pt(40), pt(180), pt(30)));
    // row 0: the cell spanning two rows (the non-row child counts as a grid row) and the red
    // cell spanning the last two columns
    let cells0 = tree.children(row_ids[0]);
    assert_eq!(cells0.len(), 2);
    assert_eq!(tree.get(cells0[0]).unwrap().area.geometry, Rect::new(pt(0), pt(0), pt(100), pt(60)));
    let b = &tree.get(cells0[1]).unwrap().area;
    assert_eq!(b.geometry, Rect::new(pt(100), pt(0), pt(80), pt(30)));
    assert_eq!(b.traits.background_color, Some(red));
    // row 2 of the grid: the first column is free, so its cells take columns 0 and 1
    let cells1 = tree.children(row_ids[1]);
    assert_eq!(cells1.len(), 2);
    assert_eq!(tree.get(cells1[0]).unwrap().area.geometry, Rect::new(pt(0), pt(0), pt(100), pt(30)));
    assert_eq!(tree.get(cells1[1]).unwrap().area.geometry, Rect::new(pt(100), pt(0), pt(50), pt(30)));
}

#[test]
fn test_table_body_under_unknown_table() {
    let engine = LayoutEngine::new();
    let mut tree = AreaTree::new();
    let missing = fop_verified::AreaId(7);
    let rows = vec![None, Some(vec![cell(None, None)])];
    let err = engine.layout_table_body(&rows, &mut tree, missing, pt(10), &[pt(50)]);
    match err {
        Err(fop_verified::error::FopError::Generic(m)) => assert_eq!(m, "parent area not found"),
        Ok(_) => panic!("a row under an unknown table must fail"),
    }
    assert_eq!(tree.area_count(), 0);
    let empty: Vec<Option<Vec<Option<TableCellSpec>>>> = vec![None];
    let end = engine.layout_table_body(&empty, &mut tree, missing, pt(10), &[pt(50)]).unwrap();
    assert_eq!(end, pt(10));
}

//! Splitting screens, and what stands on the main screen.

use repodeck::application::layout_service::{
    auto_split_cells, find_windows_on_main_screen, normalized_split_cell, resolve_auto_split,
    split_cell_from_normalized,
};
use repodeck::domain::monitor::AutoSplit;
use repodeck::domain::placement::{bounding_rect, NormalizedRect, PixelRect};
use repodeck::windowing::enumerate::TopLevelWindow;

/// A share of a monitor's side, in billionths.
fn unit(share: f64) -> i64 {
    (share * 1_000_000_000.0).round() as i64
}

fn share(v: i64) -> f64 {
    v as f64 / 1_000_000_000.0
}

#[test]
fn normalized_split_cells_match_auto_split_cells() {
    let work_area = PixelRect::new(100, 200, 1920, 1080);
    for split in [AutoSplit::One, AutoSplit::TwoColumns, AutoSplit::FourGrid] {
        let pixel_cells = auto_split_cells(work_area, split);
        for (index, cell) in pixel_cells.iter().enumerate() {
            let normalized = normalized_split_cell(split, index);
            let expected_x = (cell.x - work_area.x) as f64 / work_area.width as f64;
            let expected_y = (cell.y - work_area.y) as f64 / work_area.height as f64;
            let expected_w = cell.width as f64 / work_area.width as f64;
            let expected_h = cell.height as f64 / work_area.height as f64;
            assert!(
                (share(normalized.x) - expected_x).abs() < 0.001
                    && (share(normalized.y) - expected_y).abs() < 0.001
                    && (share(normalized.width) - expected_w).abs() < 0.001
                    && (share(normalized.height) - expected_h).abs() < 0.001,
                "{split:?} cell {index}: {normalized:?} != {cell:?}"
            );
        }
    }
}

#[test]
fn split_and_cell_round_trip_through_a_normalized_rect() {
    for split in [AutoSplit::One, AutoSplit::TwoColumns, AutoSplit::FourGrid] {
        for cell_index in 0..split.cell_count() {
            let rect = normalized_split_cell(split, cell_index);
            assert_eq!(split_cell_from_normalized(rect), (split, cell_index));
        }
    }
}

#[test]
fn an_unrecognised_rect_reads_as_the_whole_monitor() {
    let odd = NormalizedRect {
        x: unit(0.13),
        y: unit(0.27),
        width: unit(0.41),
        height: unit(0.62),
    };
    assert_eq!(split_cell_from_normalized(odd), (AutoSplit::One, 0));
}

#[test]
fn out_of_range_cell_falls_back_to_the_whole_monitor() {
    let cell = normalized_split_cell(AutoSplit::TwoColumns, 7);
    assert_eq!(cell.width, unit(1.0));
    assert_eq!(cell.height, unit(1.0));
}

#[test]
fn auto_split_one_is_the_whole_area() {
    let area = PixelRect::new(1920, 0, 1920, 1080);
    assert_eq!(auto_split_cells(area, AutoSplit::One), vec![area]);
}

#[test]
fn auto_split_two_columns_splits_left_right_without_gaps_or_overlap() {
    let area = PixelRect::new(1920, 0, 1921, 1080);
    let cells = auto_split_cells(area, AutoSplit::TwoColumns);

    assert_eq!(cells.len(), 2);
    assert_eq!(
        cells[0].right(),
        cells[1].x,
        "no gap or overlap between columns"
    );
    assert_eq!(cells[0].x, area.x);
    assert_eq!(
        cells[1].right(),
        area.right(),
        "odd width fully covered, remainder on the right cell"
    );
    assert_eq!(cells[0].height, area.height);
    assert_eq!(cells[1].height, area.height);
}

#[test]
fn auto_split_four_grid_covers_area_in_four_quadrants() {
    let area = PixelRect::new(0, 0, 2561, 1441);
    let cells = auto_split_cells(area, AutoSplit::FourGrid);

    assert_eq!(cells.len(), 4);
    let bounds = bounding_rect(&cells).unwrap();
    assert_eq!(bounds, area, "quadrants exactly tile the source area");
}

#[test]
fn resolve_auto_split_picks_split_by_work_area_size() {
    let cases = [
        (PixelRect::new(0, 0, 3840, 2160), AutoSplit::FourGrid),
        (PixelRect::new(0, 0, 2560, 1440), AutoSplit::TwoColumns),
        (PixelRect::new(0, 0, 1920, 1080), AutoSplit::One),
        (PixelRect::new(0, 0, 1440, 2560), AutoSplit::One),
    ];
    for (area, expected) in cases {
        assert_eq!(
            resolve_auto_split(area),
            expected,
            "work area {}x{}",
            area.width,
            area.height
        );
    }
}

#[test]
fn find_windows_on_main_screen_filters_by_center_point() {
    let main_bounds = [PixelRect::new(0, 0, 1920, 1080)];

    let on_main = TopLevelWindow {
        hwnd: 1,
        process_id: 100,
        executable_path: None,
        window_class: "Notepad".to_string(),
        title: "on main".to_string(),
        rect_px: PixelRect::new(100, 100, 400, 300),
    };
    let off_main = TopLevelWindow {
        hwnd: 2,
        process_id: 200,
        executable_path: None,
        window_class: "Notepad".to_string(),
        title: "off main".to_string(),
        rect_px: PixelRect::new(2000, 100, 400, 300),
    };

    let found = find_windows_on_main_screen(&[on_main.clone(), off_main], &main_bounds);

    assert_eq!(found.len(), 1);
    assert_eq!(found[0].hwnd, on_main.hwnd);
}

use fabbula::polygon::Rect;
use fabbula::tiles::{compute_density_grid, count_tiles, parse_hex_color, TileConfig, TileLayer};

#[test]
fn test_parse_hex_color() {
    assert_eq!(parse_hex_color("#c0c0c0"), [192, 192, 192]);
    assert_eq!(parse_hex_color("#ff0000"), [255, 0, 0]);
    assert_eq!(parse_hex_color("00ff00"), [0, 255, 0]);
}

#[test]
fn test_density_grid() {
    let rects = vec![Rect::new(0, 0, 100, 100), Rect::new(50, 50, 150, 150)];
    let bb = Rect::new(0, 0, 200, 200);
    let layer = TileLayer { rects: &rects, color: [192, 192, 192], name: "test" };
    let grid = compute_density_grid(&[layer], &bb, 4);
    assert_eq!(grid.len(), 4);
    assert_eq!(grid[0].len(), 4);
    assert!(grid[0][0] > 0);
}

#[test]
fn hex_color_edge_cases() {
    assert_eq!(parse_hex_color("##0a0B0c"), [10, 11, 12]);
    assert_eq!(parse_hex_color("#zz0000"), [192, 0, 0]);
    assert_eq!(parse_hex_color("+f+f+f"), [15, 15, 15]);
    assert_eq!(parse_hex_color("#fff"), [192, 192, 192]);
    assert_eq!(parse_hex_color(""), [192, 192, 192]);
    assert_eq!(parse_hex_color("123456789"), [0x12, 0x34, 0x56]);
}

#[test]
fn density_grid_cells() {
    let rects = vec![Rect::new(0, 0, 1, 1), Rect::new(199, 0, 200, 1), Rect::new(100, 150, 101, 151), Rect::new(49, 51, 50, 52)];
    let bb = Rect::new(0, 0, 200, 200);
    let layers = [TileLayer { rects: &rects[..2], color: [0, 0, 0], name: "a" }, TileLayer { rects: &rects[2..], color: [0, 0, 0], name: "b" }];
    let grid = compute_density_grid(&layers, &bb, 4);
    let mut expected = vec![vec![0u32; 4]; 4];
    expected[0][0] = 1;
    expected[0][3] = 1;
    expected[3][2] = 1;
    expected[1][0] = 1;
    assert_eq!(grid, expected);
    assert!(compute_density_grid(&[], &bb, 0).is_empty());
}

#[test]
fn tiles_over_levels() {
    assert_eq!(count_tiles(512, 300, 256, 1), 2 * 2);
    assert_eq!(count_tiles(512, 300, 256, 2), 4 + 1);
    assert_eq!(count_tiles(1, 1, 256, 3), 3);
    assert_eq!(count_tiles(1000, 1000, 256, 0), 0);
}

#[test]
fn tile_config_default() {
    let c = TileConfig::default();
    assert_eq!((c.tile_size, c.max_resolution), (256, 4096));
}

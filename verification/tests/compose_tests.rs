use mosaic::raster::RgbImg;
use mosaic::compose::{MatchData, compose_all};

fn solid(width: u32, height: u32, r: u8, g: u8, b: u8) -> RgbImg {
    let mut data: Vec<u8> = Vec::with_capacity((3 * width * height) as usize);
    for _ in 0..(width * height) {
        data.push(r);
        data.push(g);
        data.push(b);
    }
    RgbImg { width, height, data }
}

#[test]
fn compose_keeps_the_canvas_dimensions() {
    let mut canvas = solid(6, 4, 0, 0, 0);
    let results = vec![
        MatchData { x: 0, y: 0, tile: solid(3, 4, 255, 0, 0) },
        MatchData { x: 3, y: 0, tile: solid(3, 4, 0, 0, 255) },
    ];
    compose_all(&mut canvas, &results);
    assert_eq!(canvas.width, 6);
    assert_eq!(canvas.height, 4);
    assert_eq!(canvas.data.len(), 3 * 6 * 4);
}

#[test]
fn compose_writes_each_tile_in_place() {
    let mut canvas = solid(6, 4, 9, 9, 9);
    let results = vec![
        MatchData { x: 0, y: 0, tile: solid(3, 4, 255, 0, 0) },
        MatchData { x: 3, y: 0, tile: solid(3, 4, 0, 0, 255) },
    ];
    compose_all(&mut canvas, &results);
    assert_eq!(canvas.get_pixel(0, 0), (255, 0, 0));
    assert_eq!(canvas.get_pixel(2, 3), (255, 0, 0));
    assert_eq!(canvas.get_pixel(3, 0), (0, 0, 255));
    assert_eq!(canvas.get_pixel(5, 3), (0, 0, 255));
}

#[test]
fn compose_leaves_uncovered_pixels_alone() {
    let mut canvas = solid(4, 4, 7, 8, 9);
    let results = vec![MatchData { x: 1, y: 1, tile: solid(2, 2, 250, 0, 0) }];
    compose_all(&mut canvas, &results);
    assert_eq!(canvas.get_pixel(0, 0), (7, 8, 9));
    assert_eq!(canvas.get_pixel(3, 3), (7, 8, 9));
    assert_eq!(canvas.get_pixel(1, 1), (250, 0, 0));
    assert_eq!(canvas.get_pixel(2, 2), (250, 0, 0));
}

#[test]
fn compose_applies_results_in_order() {
    let mut canvas = solid(2, 2, 0, 0, 0);
    let results = vec![
        MatchData { x: 0, y: 0, tile: solid(2, 2, 255, 0, 0) },
        MatchData { x: 0, y: 0, tile: solid(1, 1, 0, 255, 0) },
    ];
    compose_all(&mut canvas, &results);
    assert_eq!(canvas.get_pixel(0, 0), (0, 255, 0));
    assert_eq!(canvas.get_pixel(1, 1), (255, 0, 0));
}

#[test]
fn replace_region_is_exact() {
    let mut canvas = solid(3, 3, 1, 1, 1);
    let patch = solid(2, 1, 40, 50, 60);
    canvas.replace_region(&patch, 1, 2);
    assert_eq!(canvas.get_pixel(0, 0), (1, 1, 1));
    assert_eq!(canvas.get_pixel(1, 2), (40, 50, 60));
    assert_eq!(canvas.get_pixel(2, 2), (40, 50, 60));
    assert_eq!(canvas.get_pixel(0, 2), (1, 1, 1));
}

#[test]
fn crop_reads_the_region() {
    let mut img = solid(4, 4, 0, 0, 0);
    let patch = solid(2, 2, 200, 100, 50);
    img.replace_region(&patch, 2, 2);
    let c = img.crop(2, 2, 2, 2);
    assert_eq!(c.width, 2);
    assert_eq!(c.height, 2);
    assert_eq!(c.get_pixel(0, 0), (200, 100, 50));
    assert_eq!(c.get_pixel(1, 1), (200, 100, 50));
    let d = img.crop(0, 0, 2, 2);
    assert_eq!(d.get_pixel(0, 0), (0, 0, 0));
}

#[test]
fn try_new_checks_the_buffer_length() {
    let good = RgbImg::try_new(2, 2, vec![0u8; 12]);
    assert!(good.is_some());
    let bad = RgbImg::try_new(2, 2, vec![0u8; 11]);
    assert!(bad.is_none());
}

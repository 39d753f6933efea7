use mosaic::raster::RgbImg;
use mosaic::grid::partition;
use mosaic::index::{PicData, get_pic_data};
use mosaic::matcher::{Tile, tiles_from, match_tile, make_match_data};
use mosaic::errors::MosaicError;
use mosaic::rng::StepRng;

fn solid(width: u32, height: u32, r: u8, g: u8, b: u8) -> RgbImg {
    let mut data: Vec<u8> = Vec::with_capacity((3 * width * height) as usize);
    for _ in 0..(width * height) {
        data.push(r);
        data.push(g);
        data.push(b);
    }
    RgbImg { width, height, data }
}

#[test]
fn tiles_from_is_the_cartesian_product_x_major() {
    let xr: Vec<u32> = vec![0, 2, 5];
    let yr: Vec<u32> = vec![0, 3];
    let tiles = tiles_from(&xr, &yr);
    assert_eq!(tiles.len(), 2);
    assert_eq!(tiles[0], Tile { x: 0, y: 0, width: 2, height: 3 });
    assert_eq!(tiles[1], Tile { x: 2, y: 0, width: 3, height: 3 });
}

#[test]
fn tiles_from_two_by_two() {
    let xr: Vec<u32> = vec![0, 4, 10];
    let yr: Vec<u32> = vec![0, 1, 3];
    let tiles = tiles_from(&xr, &yr);
    assert_eq!(tiles.len(), 4);
    assert_eq!(tiles[0], Tile { x: 0, y: 0, width: 4, height: 1 });
    assert_eq!(tiles[1], Tile { x: 0, y: 1, width: 4, height: 2 });
    assert_eq!(tiles[2], Tile { x: 4, y: 0, width: 6, height: 1 });
    assert_eq!(tiles[3], Tile { x: 4, y: 1, width: 6, height: 2 });
}

#[test]
fn get_pic_data_resamples_to_the_fixed_thumbnail() {
    // The wrapped resampler must actually resize: a 256 x 64 source comes
    // back as a 128 x 128 thumbnail, not as the source buffer.
    let img = solid(256, 64, 200, 10, 10);
    let d = get_pic_data(7, &img);
    assert_eq!(d.id, 7);
    assert_eq!(d.width, 256);
    assert_eq!(d.height, 64);
    assert_eq!(d.thumbnail.width, 128);
    assert_eq!(d.thumbnail.height, 128);
    assert_eq!(d.thumbnail.data.len(), 3 * 128 * 128);
    // A solid source resamples to (nearly) the same solid color.
    let (r, g, b) = d.thumbnail.get_pixel(64, 64);
    assert!(r > 150, "red channel lost: {}", r);
    assert!(g < 60 && b < 60);
}

#[test]
fn match_tile_picks_the_matching_candidate() {
    // Target solid green; three candidates red, green, blue with aspects
    // 1.0, 1.5, 0.5. The tile has aspect 1.5, so the green candidate with
    // the matching aspect must win.
    let target = solid(150, 100, 0, 255, 0);
    let pics = vec![
        get_pic_data(0, &solid(100, 100, 255, 0, 0)),
        get_pic_data(1, &solid(150, 100, 0, 255, 0)),
        get_pic_data(2, &solid(50, 100, 0, 0, 255)),
    ];
    let tile = Tile { x: 0, y: 0, width: 150, height: 100 };
    let choice = match_tile(&target, tile, &pics).unwrap();
    assert_eq!(choice.best, 1);
    assert_eq!(choice.tile, tile);
}

#[test]
fn match_tile_reads_the_right_region() {
    // Left half red, right half blue; a tile over the right half must pick
    // the blue candidate.
    let mut target = solid(200, 100, 255, 0, 0);
    let blue_half = solid(100, 100, 0, 0, 255);
    target.replace_region(&blue_half, 100, 0);
    let pics = vec![
        get_pic_data(0, &solid(100, 100, 255, 0, 0)),
        get_pic_data(1, &solid(100, 100, 0, 0, 255)),
    ];
    let tile = Tile { x: 100, y: 0, width: 100, height: 100 };
    let choice = match_tile(&target, tile, &pics).unwrap();
    assert_eq!(choice.best, 1);
}

#[test]
fn match_tile_with_no_candidates_fails() {
    let target = solid(10, 10, 1, 2, 3);
    let pics: Vec<PicData> = Vec::new();
    let tile = Tile { x: 0, y: 0, width: 10, height: 10 };
    let r = match_tile(&target, tile, &pics);
    assert!(matches!(r, Err(MosaicError::NoCandidatesError)));
}

#[test]
fn end_to_end_grid_and_match_on_a_green_target() {
    // A 500 x 300 target with steps drawn from [120, 320) and seed 42: the
    // two rulers are deterministic and partition each axis exactly, and
    // against candidates colored red, green and blue the all-green target
    // selects the green candidate for every tile of the grid.
    let mut rng = StepRng::new(42);
    let x_rulers = partition(500, 120, 320, &mut rng);
    let y_rulers = partition(300, 120, 320, &mut rng);
    let mut rng2 = StepRng::new(42);
    assert_eq!(x_rulers, partition(500, 120, 320, &mut rng2));
    assert_eq!(y_rulers, partition(300, 120, 320, &mut rng2));
    assert_eq!(*x_rulers.last().unwrap(), 500);
    assert_eq!(*y_rulers.last().unwrap(), 300);

    let target = solid(500, 300, 0, 255, 0);
    let pics = vec![
        get_pic_data(0, &solid(100, 100, 255, 0, 0)),
        get_pic_data(1, &solid(150, 100, 0, 255, 0)),
        get_pic_data(2, &solid(50, 100, 0, 0, 255)),
    ];
    let tiles = tiles_from(&x_rulers, &y_rulers);
    assert_eq!(tiles.len(), (x_rulers.len() - 1) * (y_rulers.len() - 1));
    for t in &tiles {
        let choice = match_tile(&target, *t, &pics).unwrap();
        assert_eq!(choice.best, 1, "tile {:?} did not pick the green candidate", t);
    }
}

#[test]
fn make_match_data_resizes_to_the_tile_extent() {
    let img = solid(64, 64, 10, 220, 30);
    let tile = Tile { x: 7, y: 9, width: 5, height: 3 };
    let m = make_match_data(tile, &img);
    assert_eq!(m.x, 7);
    assert_eq!(m.y, 9);
    assert_eq!(m.tile.width, 5);
    assert_eq!(m.tile.height, 3);
    assert_eq!(m.tile.data.len(), 3 * 5 * 3);
}

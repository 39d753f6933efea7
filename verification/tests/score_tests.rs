use mosaic::raster::RgbImg;
use mosaic::index::PicData;
use mosaic::score::{get_pixel_score, find_best_match, MAX_PIXEL_SUM, NORM};

fn solid(width: u32, height: u32, r: u8, g: u8, b: u8) -> RgbImg {
    let mut data: Vec<u8> = Vec::with_capacity((3 * width * height) as usize);
    for _ in 0..(width * height) {
        data.push(r);
        data.push(g);
        data.push(b);
    }
    RgbImg { width, height, data }
}

fn thumb(r: u8, g: u8, b: u8) -> RgbImg {
    solid(128, 128, r, g, b)
}

#[test]
fn score_constants_match_the_design() {
    // The score folds the weights 0.4 and 0.6 and the divisor NORM into
    // integer coefficients over the denominator 5 * NORM * th * dh.
    assert_eq!(NORM, 7_500_000);
    assert_eq!(2 * NORM, 15_000_000);
    assert_eq!(5 * NORM, 37_500_000);
}

#[test]
fn pixel_score_of_identical_thumbnails_is_zero() {
    let a = thumb(10, 200, 47);
    let b = thumb(10, 200, 47);
    assert_eq!(get_pixel_score(&a, &b), 0);
    assert_eq!(get_pixel_score(&a, &a), 0);
}

#[test]
fn pixel_score_single_byte_difference() {
    let a = thumb(0, 0, 0);
    let mut b = thumb(0, 0, 0);
    b.data[1234] = 10;
    assert_eq!(get_pixel_score(&a, &b), 10);
}

#[test]
fn pixel_score_uniform_difference() {
    // Every one of the 3 * 128 * 128 bytes differs by exactly 1.
    let a = thumb(10, 10, 10);
    let b = thumb(11, 11, 11);
    assert_eq!(get_pixel_score(&a, &b), 3 * 128 * 128);
}

#[test]
fn pixel_score_maximal_difference() {
    let a = thumb(0, 0, 0);
    let b = thumb(255, 255, 255);
    assert_eq!(get_pixel_score(&a, &b), MAX_PIXEL_SUM);
    assert_eq!(MAX_PIXEL_SUM, 3 * 128 * 128 * 255);
}

fn pic(id: u64, width: u32, height: u32, r: u8, g: u8, b: u8) -> PicData {
    PicData { id, width, height, thumbnail: thumb(r, g, b) }
}

#[test]
fn best_match_prefers_matching_aspect_and_color() {
    // Candidates with aspect ratios 1.0, 1.5 and 0.5, colored red, green
    // and blue. A 150x100 tile (aspect 1.5) with a green thumbnail must
    // pick the green candidate.
    let pics = vec![
        pic(0, 100, 100, 255, 0, 0),
        pic(1, 150, 100, 0, 255, 0),
        pic(2, 50, 100, 0, 0, 255),
    ];
    let tile_thumb = thumb(0, 255, 0);
    let best = find_best_match(150, 100, &tile_thumb, &pics);
    assert_eq!(best, Some(1));
}

#[test]
fn best_match_color_dominates_among_equal_aspects() {
    let pics = vec![
        pic(0, 100, 100, 255, 0, 0),
        pic(1, 100, 100, 0, 255, 0),
        pic(2, 100, 100, 0, 0, 255),
    ];
    let tile_thumb = thumb(10, 240, 20);
    assert_eq!(find_best_match(200, 200, &tile_thumb, &pics), Some(1));
}

#[test]
fn best_match_ties_keep_the_earliest_descriptor() {
    let pics = vec![
        pic(0, 100, 100, 0, 255, 0),
        pic(1, 100, 100, 0, 255, 0),
        pic(2, 100, 100, 0, 255, 0),
    ];
    let tile_thumb = thumb(0, 255, 0);
    assert_eq!(find_best_match(100, 100, &tile_thumb, &pics), Some(0));
}

#[test]
fn best_match_of_empty_set_is_none() {
    let pics: Vec<PicData> = Vec::new();
    let tile_thumb = thumb(0, 0, 0);
    assert_eq!(find_best_match(100, 100, &tile_thumb, &pics), None);
}

#[test]
fn best_match_sentinel_survives_absurd_aspect() {
    // A candidate whose aspect is four billion against a square tile: its
    // aspect distance alone pushes the combined score far above the
    // sentinel of 100, so no candidate is picked.
    let pics = vec![pic(0, 4_000_000_000, 1, 0, 255, 0)];
    let tile_thumb = thumb(0, 255, 0);
    assert_eq!(find_best_match(1, 1, &tile_thumb, &pics), None);
}

fn black_thumb_at_distance(s: u32) -> RgbImg {
    // A thumbnail whose pixel distance from all-black is exactly `s`.
    let mut t = thumb(0, 0, 0);
    let full = (s / 255) as usize;
    for k in 0..full {
        t.data[k] = 255;
    }
    t.data[full] = (s % 255) as u8;
    t
}

#[test]
fn combined_score_weights_are_exact() {
    // Tile 100 x 100 with an all-black thumbnail.
    // Candidate 0: aspect 1.5, black thumbnail -> score 0.4 * 0.5 = 0.2.
    // Candidate 1: aspect 1.0, thumbnail at pixel distance S from black ->
    // score 0.6 * S / 7_500_000. The two tie exactly at S = 2_500_000, and
    // a tie keeps the earlier candidate; one unit less hands the win to the
    // second candidate.
    let tile_thumb = thumb(0, 0, 0);
    let aspect_candidate = || PicData { id: 0, width: 150, height: 100, thumbnail: thumb(0, 0, 0) };
    let color_candidate =
        |s: u32| PicData { id: 1, width: 100, height: 100, thumbnail: black_thumb_at_distance(s) };

    let tie = vec![aspect_candidate(), color_candidate(2_500_000)];
    assert_eq!(find_best_match(100, 100, &tile_thumb, &tie), Some(0));

    let under = vec![aspect_candidate(), color_candidate(2_499_999)];
    assert_eq!(find_best_match(100, 100, &tile_thumb, &under), Some(1));

    let over = vec![aspect_candidate(), color_candidate(2_500_001)];
    assert_eq!(find_best_match(100, 100, &tile_thumb, &over), Some(0));
}

#[test]
fn best_match_identical_thumbnail_and_aspect_scores_zero_and_wins() {
    // A perfect candidate (score exactly 0) must win against any other.
    let pics = vec![
        pic(0, 99, 100, 77, 77, 77),
        pic(1, 100, 100, 1, 2, 3),
    ];
    let tile_thumb = thumb(1, 2, 3);
    assert_eq!(find_best_match(300, 300, &tile_thumb, &pics), Some(1));
}

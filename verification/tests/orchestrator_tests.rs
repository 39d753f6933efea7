use mosaic::raster::RgbImg;
use mosaic::index::{CandidateInput, PicData, build_index, sort_by_id};
use mosaic::orchestrator::{Phase, ProgressEvent, advance, check_candidates, make_grid};
use mosaic::rng::StepRng;
use mosaic::errors::MosaicError;

fn solid(width: u32, height: u32, r: u8, g: u8, b: u8) -> RgbImg {
    let mut data: Vec<u8> = Vec::with_capacity((3 * width * height) as usize);
    for _ in 0..(width * height) {
        data.push(r);
        data.push(g);
        data.push(b);
    }
    RgbImg { width, height, data }
}

#[test]
fn empty_candidate_set_fails_the_build() {
    let items: Vec<CandidateInput> = Vec::new();
    let (pics, skipped) = build_index(&items);
    assert_eq!(pics.len(), 0);
    assert_eq!(skipped, 0);
    let r = check_candidates(&pics);
    assert!(matches!(r, Err(MosaicError::EmptyCandidateSetError)));
}

#[test]
fn all_candidates_skipped_fails_the_build() {
    let items = vec![
        CandidateInput { id: 0, image: None },
        CandidateInput { id: 1, image: None },
    ];
    let (pics, skipped) = build_index(&items);
    assert_eq!(pics.len(), 0);
    assert_eq!(skipped, 2);
    assert!(matches!(check_candidates(&pics), Err(MosaicError::EmptyCandidateSetError)));
}

#[test]
fn build_index_skips_failed_decodes_and_counts_them() {
    let items = vec![
        CandidateInput { id: 0, image: Some(solid(10, 20, 1, 2, 3)) },
        CandidateInput { id: 1, image: None },
        CandidateInput { id: 2, image: Some(RgbImg { width: 2, height: 2, data: vec![0u8; 5] }) },
        CandidateInput { id: 3, image: Some(solid(30, 10, 4, 5, 6)) },
    ];
    let (pics, skipped) = build_index(&items);
    assert_eq!(pics.len(), 2);
    assert_eq!(skipped, 2);
    assert_eq!(pics[0].id, 0);
    assert_eq!(pics[0].width, 10);
    assert_eq!(pics[0].height, 20);
    assert_eq!(pics[1].id, 3);
    assert!(check_candidates(&pics).is_ok());
}

#[test]
fn sort_by_id_orders_descriptors() {
    let items = vec![
        CandidateInput { id: 9, image: Some(solid(4, 4, 1, 1, 1)) },
        CandidateInput { id: 2, image: Some(solid(5, 5, 2, 2, 2)) },
        CandidateInput { id: 5, image: Some(solid(6, 6, 3, 3, 3)) },
    ];
    let (pics, _) = build_index(&items);
    let sorted: Vec<PicData> = sort_by_id(pics);
    assert_eq!(sorted.len(), 3);
    assert_eq!(sorted[0].id, 2);
    assert_eq!(sorted[1].id, 5);
    assert_eq!(sorted[2].id, 9);
    assert_eq!(sorted[0].width, 5);
    assert_eq!(sorted[2].width, 4);
}

#[test]
fn make_grid_tiles_the_whole_canvas() {
    let mut rng = StepRng::new(42);
    let (xr, yr, tiles) = make_grid(500, 300, 120, 320, &mut rng);
    assert_eq!(xr[0], 0);
    assert_eq!(yr[0], 0);
    assert_eq!(*xr.last().unwrap(), 500);
    assert_eq!(*yr.last().unwrap(), 300);
    assert_eq!(tiles.len(), (xr.len() - 1) * (yr.len() - 1));
    let area: u64 = tiles.iter().map(|t| t.width as u64 * t.height as u64).sum();
    assert_eq!(area, 500 * 300);
    for t in &tiles {
        assert!(t.width > 0 && t.height > 0);
        assert!(t.x + t.width <= 500 && t.y + t.height <= 300);
    }
}

#[test]
fn phases_run_the_pipeline_in_order() {
    let mut p = Phase::Idle;
    p = advance(p, true);
    assert_eq!(p, Phase::Partitioning);
    p = advance(p, true);
    assert_eq!(p, Phase::Indexing);
    p = advance(p, true);
    assert_eq!(p, Phase::Matching);
    p = advance(p, true);
    assert_eq!(p, Phase::Composing);
    p = advance(p, true);
    assert_eq!(p, Phase::Done);
}

#[test]
fn indexing_failure_is_terminal() {
    let p = advance(Phase::Indexing, false);
    assert_eq!(p, Phase::Failed);
    let q = advance(Phase::Matching, false);
    assert_eq!(q, Phase::Failed);
}

#[test]
fn partitioning_cannot_fail() {
    assert_eq!(advance(Phase::Partitioning, false), Phase::Indexing);
}

#[test]
fn error_variants_carry_their_context() {
    let d = MosaicError::DecodeError { path: String::from("broken.png") };
    assert!(matches!(d, MosaicError::DecodeError { path } if path == "broken.png"));
    let io = MosaicError::IoError { path: String::from("out/") };
    assert!(matches!(io, MosaicError::IoError { path } if path == "out/"));
}

#[test]
fn progress_events_carry_their_counts() {
    let e = ProgressEvent::CandidateIndexed { processed: 3, total: 10 };
    assert_eq!(e, ProgressEvent::CandidateIndexed { processed: 3, total: 10 });
    let t = ProgressEvent::TileMatched { processed: 1, total: 4 };
    assert!(matches!(t, ProgressEvent::TileMatched { processed: 1, total: 4 }));
    assert!(matches!(ProgressEvent::Completed, ProgressEvent::Completed));
}

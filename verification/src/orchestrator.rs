use vstd::prelude::*;
use crate::errors::MosaicError;
use crate::grid::{partition, partition_spec, gen_marks, strictly_inc, lemma_partition_shape};
use crate::index::PicData;
use crate::matcher::{Tile, tile_at, tiles_from, lemma_tile_at_fits};
use crate::rng::StepRng;

verus! {

/// The stages of one mosaic build. Failure is terminal: no stage retries.
#[derive(Clone, Copy, PartialEq, Eq, Structural, Debug)]
pub enum Phase {
    Idle,
    Partitioning,
    Indexing,
    Matching,
    Composing,
    Done,
    Failed,
}

/// The transitions a build may take: the straight pipeline, and failure out
/// of indexing (empty candidate set) or matching (no usable candidate).
pub open spec fn phase_steps(from: Phase, to: Phase) -> bool {
    ||| (from == Phase::Idle && to == Phase::Partitioning)
    ||| (from == Phase::Partitioning && to == Phase::Indexing)
    ||| (from == Phase::Indexing && to == Phase::Matching)
    ||| (from == Phase::Matching && to == Phase::Composing)
    ||| (from == Phase::Composing && to == Phase::Done)
    ||| (from == Phase::Indexing && to == Phase::Failed)
    ||| (from == Phase::Matching && to == Phase::Failed)
}

/// The stage that follows `p` when its work ended with outcome `ok`.
pub open spec fn next_phase_spec(p: Phase, ok: bool) -> Phase {
    match p {
        Phase::Idle => Phase::Partitioning,
        Phase::Partitioning => Phase::Indexing,
        Phase::Indexing => if ok {
            Phase::Matching
        } else {
            Phase::Failed
        },
        Phase::Matching => if ok {
            Phase::Composing
        } else {
            Phase::Failed
        },
        Phase::Composing => Phase::Done,
        _ => p,
    }
}

/// Advances the build by one stage. Only indexing and matching can fail;
/// `ok` is ignored elsewhere. Done and Failed are terminal and not accepted.
pub fn advance(p: Phase, ok: bool) -> (q: Phase)
    requires
        p != Phase::Done,
        p != Phase::Failed,
    ensures
        q == next_phase_spec(p, ok),
        phase_steps(p, q),
{
    match p {
        Phase::Idle => Phase::Partitioning,
        Phase::Partitioning => Phase::Indexing,
        Phase::Indexing => if ok {
            Phase::Matching
        } else {
            Phase::Failed
        },
        Phase::Matching => if ok {
            Phase::Composing
        } else {
            Phase::Failed
        },
        Phase::Composing => Phase::Done,
        Phase::Done => Phase::Done,
        Phase::Failed => Phase::Failed,
    }
}

/// One progress event of a build, as the core reports it to the outside
/// observer.
#[derive(Clone, Copy, PartialEq, Eq, Structural, Debug)]
pub enum ProgressEvent {
    /// `processed` of `total` candidates have been indexed.
    CandidateIndexed { processed: usize, total: usize },
    /// `processed` of `total` tiles have been matched.
    TileMatched { processed: usize, total: usize },
    /// The build has finished.
    Completed,
}

/// Derives the whole 2-D grid of one build: the two independent axis
/// partitions, drawn in order from the one generator, and their Cartesian
/// product as the tile set. Every tile fits inside the `width` by `height`
/// canvas.
pub fn make_grid(width: u32, height: u32, min_step: u32, max_step: u32, rng: &mut StepRng) -> (r: (
    Vec<u32>,
    Vec<u32>,
    Vec<Tile>,
))
    requires
        0 < width,
        0 < height,
        0 < min_step < max_step,
    ensures
        r.0@ == partition_spec(width, min_step, max_step, old(rng).state),
        r.1@ == partition_spec(
            height,
            min_step,
            max_step,
            gen_marks(width, min_step, max_step, old(rng).state, 0).1,
        ),
        strictly_inc(r.0@) && r.0@[0] == 0 && r.0@.last() == width,
        strictly_inc(r.1@) && r.1@[0] == 0 && r.1@.last() == height,
        r.2@.len() == (r.0@.len() - 1) * (r.1@.len() - 1),
        forall|i: int, j: int|
            0 <= i < r.0@.len() - 1 && 0 <= j < r.1@.len() - 1 ==> r.2@[i * (r.1@.len() - 1) + j]
                == #[trigger] tile_at(r.0@, r.1@, i, j),
        forall|i: int, j: int|
            0 <= i < r.0@.len() - 1 && 0 <= j < r.1@.len() - 1 ==> (#[trigger] tile_at(
                r.0@,
                r.1@,
                i,
                j,
            )).fits(width as int, height as int),
{
    proof {
        lemma_partition_shape(width, min_step, max_step, rng.state);
    }
    let x_rulers = partition(width, min_step, max_step, rng);
    proof {
        lemma_partition_shape(height, min_step, max_step, rng.state);
    }
    let y_rulers = partition(height, min_step, max_step, rng);
    let tiles = tiles_from(&x_rulers, &y_rulers);
    proof {
        assert forall|i: int, j: int|
            0 <= i < x_rulers@.len() - 1 && 0 <= j < y_rulers@.len() - 1 implies (
        #[trigger] tile_at(x_rulers@, y_rulers@, i, j)).fits(width as int, height as int) by {
            lemma_tile_at_fits(x_rulers@, y_rulers@, i, j);
        }
    }
    (x_rulers, y_rulers, tiles)
}

/// The check made before matching begins: an empty candidate index - every
/// input skipped, or none given - fails the build with
/// EmptyCandidateSetError, and with exactly that error.
pub fn check_candidates(pics_data: &Vec<PicData>) -> (r: Result<(), MosaicError>)
    ensures
        match r {
            Ok(_) => pics_data@.len() > 0,
            Err(e) => e is EmptyCandidateSetError && pics_data@.len() == 0,
        },
{
    if pics_data.len() > 0 {
        Ok(())
    } else {
        Err(MosaicError::EmptyCandidateSetError)
    }
}

} // verus!

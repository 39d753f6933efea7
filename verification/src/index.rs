use vstd::prelude::*;
use vstd::seq_lib::{to_multiset_build, to_multiset_remove, to_multiset_contains};
use vstd::multiset::group_multiset_axioms;
use crate::raster::{RgbImg, lanczos_of, resize_lanczos};

verus! {

/// Edge length of every similarity thumbnail.
pub const THUMB_DIM: u32 = 128;

/// A well-formed square thumbnail.
pub open spec fn is_thumb(t: RgbImg) -> bool {
    t.wf() && t.width == THUMB_DIM && t.height == THUMB_DIM
}

/// Aspect and color profile of one candidate image, computed once at
/// index-build time and immutable afterwards. The aspect ratio is carried as
/// the exact pair (width, height) of the source image.
pub struct PicData {
    /// Stable handle of the candidate: its rank in the caller's path list.
    pub id: u64,
    /// Source width in pixels.
    pub width: u32,
    /// Source height in pixels.
    pub height: u32,
    /// Fixed-size color sample grid.
    pub thumbnail: RgbImg,
}

impl PicData {
    /// Both source dimensions are positive (so the aspect ratio is finite
    /// and positive) and the thumbnail has the fixed size.
    pub open spec fn wf(self) -> bool {
        self.width > 0 && self.height > 0 && is_thumb(self.thumbnail)
    }
}

/// Builds the descriptor of one candidate: its dimensions and a square
/// thumbnail resampled with the same filter used everywhere in the system.
pub fn get_pic_data(id: u64, img: &RgbImg) -> (d: PicData)
    requires
        img.wf(),
        img.width > 0,
        img.height > 0,
    ensures
        d.wf(),
        d.id == id,
        d.width == img.width,
        d.height == img.height,
        d.thumbnail.data@ == lanczos_of(img.data@, img.width, img.height, THUMB_DIM, THUMB_DIM),
{
    let thumbnail = resize_lanczos(img, THUMB_DIM, THUMB_DIM);
    PicData { id, width: img.width, height: img.height, thumbnail }
}

/// One candidate as the caller hands it in: its stable handle and its
/// decoded image, or None where decoding failed.
pub struct CandidateInput {
    pub id: u64,
    pub image: Option<RgbImg>,
}

impl CandidateInput {
    /// An input that contributes a descriptor: it decoded to a well-formed
    /// raster with both dimensions positive.
    pub open spec fn usable(self) -> bool {
        match self.image {
            Some(img) => img.wf() && img.width > 0 && img.height > 0,
            None => false,
        }
    }
}

/// `d` is exactly the descriptor that `it` yields.
pub open spec fn describes(it: CandidateInput, d: PicData) -> bool {
    &&& it.usable()
    &&& d.wf()
    &&& d.id == it.id
    &&& d.width == it.image.unwrap().width
    &&& d.height == it.image.unwrap().height
    &&& d.thumbnail.data@ == lanczos_of(
        it.image.unwrap().data@,
        it.image.unwrap().width,
        it.image.unwrap().height,
        THUMB_DIM,
        THUMB_DIM,
    )
}

/// `ds` holds exactly the descriptors of the usable inputs of `items`, in
/// input order; unusable inputs contribute nothing.
pub open spec fn index_rel(items: Seq<CandidateInput>, ds: Seq<PicData>) -> bool
    decreases items.len(),
{
    if items.len() == 0 {
        ds.len() == 0
    } else if items.last().usable() {
        ds.len() > 0 && describes(items.last(), ds.last()) && index_rel(
            items.drop_last(),
            ds.drop_last(),
        )
    } else {
        index_rel(items.drop_last(), ds)
    }
}

/// Checks the well-formedness of one input at run time.
fn check_usable(it: &CandidateInput) -> (b: bool)
    ensures
        b == it.usable(),
{
    match &it.image {
        Some(img) => {
            if img.width > 0 && img.height > 0 {
                proof {
                    assert(3 * (img.width as int) * (img.height as int) <= 3 * 0xffff_ffff
                        * 0xffff_ffff) by (nonlinear_arith)
                        requires
                            0 <= img.width as int <= 0xffff_ffff,
                            0 <= img.height as int <= 0xffff_ffff;
                }
                let need: u128 = 3u128 * (img.width as u128) * (img.height as u128);
                (img.data.len() as u128) == need
            } else {
                false
            }
        },
        None => false,
    }
}

/// Builds the candidate index: a descriptor for every input that decoded,
/// in input order, together with the count of inputs that were skipped.
pub fn build_index(items: &Vec<CandidateInput>) -> (r: (Vec<PicData>, usize))
    ensures
        index_rel(items@, r.0@),
        r.0@.len() <= items@.len(),
        r.1 == items@.len() - r.0@.len(),
        forall|j: int| 0 <= j < r.0@.len() ==> (#[trigger] r.0@[j]).wf(),
{
    let mut out: Vec<PicData> = Vec::new();
    let mut skipped: usize = 0;
    let mut k: usize = 0;
    while k < items.len()
        invariant
            k <= items@.len(),
            index_rel(items@.take(k as int), out@),
            out@.len() <= k,
            skipped == k - out@.len(),
            forall|j: int| 0 <= j < out@.len() ==> (#[trigger] out@[j]).wf(),
        decreases items@.len() - k,
    {
        let it = &items[k];
        let ghost prefix = items@.take(k as int);
        let ghost out0 = out@;
        if check_usable(it) {
            match &it.image {
                Some(img) => {
                    let d = get_pic_data(it.id, img);
                    out.push(d);
                    proof {
                        assert(out@.drop_last() =~= out0);
                        assert(out@.last() == d);
                        assert(describes(items@[k as int], d));
                    }
                },
                None => {
                    proof {
                        assert(false);
                    }
                },
            }
        } else {
            skipped = skipped + 1;
        }
        proof {
            assert(items@.take(k as int + 1).drop_last() =~= prefix);
            assert(items@.take(k as int + 1).last() == items@[k as int]);
        }
        k = k + 1;
    }
    proof {
        assert(items@.take(items@.len() as int) =~= items@);
    }
    (out, skipped)
}

/// Descriptors ordered by their stable handle.
pub open spec fn sorted_by_id(s: Seq<PicData>) -> bool {
    forall|k: int, l: int| 0 <= k < l < s.len() ==> s[k].id <= s[l].id
}

/// Sorts the descriptors by their stable handle. Parallel collection loses
/// the input order; this fixes the tie-break order the matcher depends on.
/// The result holds exactly the descriptors given, as a multiset.
pub fn sort_by_id(pics: Vec<PicData>) -> (r: Vec<PicData>)
    ensures
        sorted_by_id(r@),
        r@.to_multiset() == pics@.to_multiset(),
        r@.len() == pics@.len(),
        (forall|j: int| 0 <= j < pics@.len() ==> (#[trigger] pics@[j]).wf()) ==> (forall|l: int|
            0 <= l < r@.len() ==> (#[trigger] r@[l]).wf()),
{
    broadcast use group_multiset_axioms;

    let mut work = pics;
    let mut out: Vec<PicData> = Vec::new();
    let ghost all = work@.to_multiset();
    proof {
        assert forall|a: PicData| out@.to_multiset().count(a) == 0 by {
            to_multiset_contains(out@, a);
        }
        assert(out@.to_multiset().add(work@.to_multiset()) =~= all);
    }
    while work.len() > 0
        invariant
            out@.to_multiset().add(work@.to_multiset()) == all,
            all == pics@.to_multiset(),
            out@.len() + work@.len() == pics@.len(),
            sorted_by_id(out@),
            forall|a: int, b: int|
                0 <= a < out@.len() && 0 <= b < work@.len() ==> out@[a].id <= work@[b].id,
        decreases work@.len(),
    {
        let mut m: usize = 0;
        let mut j: usize = 1;
        while j < work.len()
            invariant
                work@.len() > 0,
                j <= work@.len(),
                m < work@.len(),
                forall|b: int| 0 <= b < j ==> work@[m as int].id <= #[trigger] work@[b].id,
            decreases work@.len() - j,
        {
            if work[j].id < work[m].id {
                m = j;
            }
            j = j + 1;
        }
        let ghost before = work@;
        let ghost out0 = out@;
        let v = work.remove(m);
        out.push(v);
        proof {
            assert(before.contains(before[m as int]));
            to_multiset_contains(before, before[m as int]);
            to_multiset_remove(before, m as int);
            to_multiset_build(out0, v);
            assert(work@ == before.remove(m as int));
            assert(out@ == out0.push(v));
            assert(out@.to_multiset().add(work@.to_multiset()) =~= all);
            assert forall|a: int, b: int|
                0 <= a < out@.len() && 0 <= b < work@.len() implies out@[a].id
                <= work@[b].id by {
                assert(work@[b] == (if b < m { before[b] } else { before[b + 1] }));
            }
        }
    }
    proof {
        assert forall|a: PicData| work@.to_multiset().count(a) == 0 by {
            to_multiset_contains(work@, a);
        }
        assert(out@.to_multiset() =~= out@.to_multiset().add(work@.to_multiset()));
        if forall|jx: int| 0 <= jx < pics@.len() ==> (#[trigger] pics@[jx]).wf() {
            assert forall|l: int| 0 <= l < out@.len() implies (#[trigger] out@[l]).wf() by {
                assert(out@.contains(out@[l]));
                to_multiset_contains(out@, out@[l]);
                to_multiset_contains(pics@, out@[l]);
                assert(out@.to_multiset().count(out@[l]) > 0);
                assert(pics@.to_multiset().count(out@[l]) > 0);
                assert(pics@.contains(out@[l]));
                let w = choose|w: int| 0 <= w < pics@.len() && pics@[w] == out@[l];
                assert(pics@[w].wf());
            }
        }
    }
    out
}

} // verus!

//! Detections, and how they are read from the rows of the model's output.
use crate::config::Yolo26Config;
use crate::geometry::{map_box, mapped_box, BoundingBox, Letterbox};
use crate::number::{is_nearest, law_round, value_of, Number};
use crate::single::Single;
use vstd::prelude::*;

verus! {

/// An object in the picture.
#[derive(Debug)]
pub struct Detection {
    pub class_id: i64,
    pub confidence: Single,
    pub bbox: BoundingBox,
    /// Row-major binary mask local to `bbox`; values are 0 or 1.
    pub mask: Vec<u8>,
}

/// The sum of the values of a mask.
pub open spec fn mask_sum(mask: Seq<u8>) -> nat
    decreases mask.len(),
{
    if mask.len() == 0 {
        0
    } else {
        mask_sum(mask.drop_last()) + mask.last() as nat
    }
}

/// The values of a binary mask are 0 or 1.
pub open spec fn is_binary(mask: Seq<u8>) -> bool {
    forall|i: int| 0 <= i < mask.len() ==> #[trigger] mask[i] <= 1
}

proof fn lemma_mask_sum_grows(mask: Seq<u8>, length: nat)
    requires
        length <= mask.len(),
    ensures
        mask_sum(mask.take(length as int)) <= mask_sum(mask),
    decreases mask.len(),
{
    if length == mask.len() {
        assert(mask.take(length as int) =~= mask);
    } else {
        lemma_mask_sum_grows(mask.drop_last(), length);
        assert(mask.drop_last().take(length as int) =~= mask.take(length as int));
    }
}

/// The pixels of a binary mask that are set are counted by its sum, which stays
/// within its size.
pub proof fn law_binary_mask_sum_counts(mask: Seq<u8>)
    requires
        is_binary(mask),
    ensures
        mask_sum(mask) == mask.filter(|value: u8| value == 1).len(),
        mask_sum(mask) <= mask.len(),
    decreases mask.len(),
{
    reveal(Seq::filter);
    if mask.len() > 0 {
        assert(mask[mask.len() - 1] <= 1);
        assert forall|i: int| 0 <= i < mask.drop_last().len() implies #[trigger] mask.drop_last()[i]
            <= 1 by {
            assert(mask[i] <= 1);
        }
        law_binary_mask_sum_counts(mask.drop_last());
    }
}

impl Detection {
    /// The number of pixels of the mask that are set.
    pub fn mask_pixels(&self) -> (pixels: usize)
        requires
            mask_sum(self.mask@) <= usize::MAX,
        ensures
            pixels == mask_sum(self.mask@),
    {
        let mut pixels: usize = 0;
        let mut i: usize = 0;
        proof {
            assert(self.mask@.take(0) =~= Seq::<u8>::empty());
        }
        while i < self.mask.len()
            invariant
                i <= self.mask@.len(),
                pixels == mask_sum(self.mask@.take(i as int)),
                mask_sum(self.mask@) <= usize::MAX,
            decreases self.mask@.len() - i,
        {
            proof {
                lemma_mask_sum_grows(self.mask@, (i + 1) as nat);
                assert(self.mask@.take(i + 1).drop_last() =~= self.mask@.take(i as int));
            }
            pixels = pixels + self.mask[i] as usize;
            i = i + 1;
        }
        proof {
            assert(self.mask@.take(i as int) =~= self.mask@);
        }
        pixels
    }
}

/// A detection whose mask has yet to be drawn.
#[derive(Debug, Clone, Copy)]
pub struct Candidate {
    pub bbox: BoundingBox,
    pub class_id: i64,
    pub confidence: Single,
}

/// The mask of the values that are above a threshold.
pub open spec fn mask_above(values: Seq<Single>, threshold: Number) -> Seq<u8> {
    Seq::new(
        values.len(),
        |i: int|
            if threshold.below(values[i]@) {
                1u8
            } else {
                0u8
            },
    )
}

/// The mask of the values that are above a threshold.
fn threshold_mask(values: &[Single], threshold: Single) -> (mask: Vec<u8>)
    ensures
        mask@ == mask_above(values@, threshold@),
{
    let mut mask: Vec<u8> = Vec::new();
    let mut i: usize = 0;
    while i < values.len()
        invariant
            i <= values@.len(),
            mask@ == mask_above(values@, threshold@).take(i as int),
        decreases values@.len() - i,
    {
        mask.push(
            if threshold.below(values[i]) {
                1
            } else {
                0
            },
        );
        i = i + 1;
        proof {
            assert(mask@ =~= mask_above(values@, threshold@).take(i as int));
        }
    }
    proof {
        assert(mask@ =~= mask_above(values@, threshold@));
    }
    mask
}

impl Candidate {
    /// The detection is the candidate with a mask that is set where the values of
    /// its pixels are above the mask threshold.
    pub open spec fn becomes(
        self,
        detection: Detection,
        values: Seq<Single>,
        config: Yolo26Config,
    ) -> bool {
        &&& detection.class_id == self.class_id
        &&& detection.confidence == self.confidence
        &&& detection.bbox == self.bbox
        &&& detection.mask@ == mask_above(values, config.mask_threshold@)
    }

    /// The detection whose mask is set where the values of its pixels, row by row,
    /// are above the mask threshold.
    pub fn with_mask(self, values: &[Single], config: &Yolo26Config) -> (detection: Detection)
        ensures
            self.becomes(detection, values@, *config),
            detection.class_id == self.class_id,
            detection.confidence == self.confidence,
            detection.bbox == self.bbox,
            detection.mask@.len() == values@.len(),
            forall|i: int|
                0 <= i < values@.len() ==> #[trigger] detection.mask@[i]
                    == if config.mask_threshold@.below(values@[i]@) {
                    1u8
                } else {
                    0u8
                },
    {
        Detection {
            class_id: self.class_id,
            confidence: self.confidence,
            bbox: self.bbox,
            mask: threshold_mask(values, config.mask_threshold),
        }
    }
}

/// The values of a mask are 0 or 1.
pub proof fn law_masks_are_binary(values: Seq<Single>, threshold: Number)
    ensures
        is_binary(mask_above(values, threshold)),
{
}

/// A higher mask threshold keeps the size of a mask, sets no further pixel, and
/// never makes the sum of the mask grow.
pub proof fn law_higher_threshold_thins_mask(values: Seq<Single>, low: Number, high: Number)
    requires
        !(low is NotANumber),
        !(high is NotANumber),
        !high.below(low),
    ensures
        ({
            let wide: Seq<u8> = mask_above(values, low);
            let thin: Seq<u8> = mask_above(values, high);
            &&& thin.len() == wide.len()
            &&& forall|i: int| 0 <= i < values.len() ==> thin[i] <= wide[i]
            &&& mask_sum(thin) <= mask_sum(wide)
        }),
    decreases values.len(),
{
    if values.len() > 0 {
        let shorter: Seq<Single> = values.drop_last();
        law_higher_threshold_thins_mask(shorter, low, high);
        assert(mask_above(values, low).drop_last() =~= mask_above(shorter, low));
        assert(mask_above(values, high).drop_last() =~= mask_above(shorter, high));
    }
}

/// What is kept of the rows of the model's output: the candidates, and the mask
/// coefficients of all of them, one candidate after the other.
pub struct Candidates {
    pub candidates: Vec<Candidate>,
    pub coefficients: Vec<Single>,
}

/// The candidate that a row holds, if the row has the right length, is confident
/// enough, and its box holds a pixel of the picture. A row is a box, a
/// confidence, a class and the mask coefficients.
pub open spec fn row_candidate(
    row: Seq<Single>,
    channels: nat,
    transform: Letterbox,
    source_width: u32,
    source_height: u32,
    threshold: Number,
) -> Option<Candidate> {
    if row.len() != channels + 6 || !(row[4]@ is Finite) || row[4]@.below(threshold) {
        None
    } else {
        match mapped_box(row, transform, source_width, source_height) {
            None => None,
            Some(bbox) => Some(
                Candidate {
                    bbox,
                    class_id: row[5]@.round_within(i64::MIN as int, i64::MAX as int) as i64,
                    confidence: row[4],
                },
            ),
        }
    }
}

/// The candidates and the coefficients of the rows, in their order.
pub open spec fn decoded_rows(
    rows: Seq<Seq<Single>>,
    channels: nat,
    transform: Letterbox,
    source_width: u32,
    source_height: u32,
    threshold: Number,
) -> (Seq<Candidate>, Seq<Single>)
    decreases rows.len(),
{
    if rows.len() == 0 {
        (Seq::empty(), Seq::empty())
    } else {
        let (candidates, coefficients) = decoded_rows(
            rows.drop_last(),
            channels,
            transform,
            source_width,
            source_height,
            threshold,
        );
        let row: Seq<Single> = rows.last();
        match row_candidate(row, channels, transform, source_width, source_height, threshold) {
            None => (candidates, coefficients),
            Some(candidate) => (candidates.push(candidate), coefficients + row.skip(6)),
        }
    }
}

/// The rows, each as a sequence.
pub open spec fn row_views(rows: Seq<Vec<Single>>) -> Seq<Seq<Single>> {
    Seq::new(rows.len(), |i: int| rows[i]@)
}

/// What is kept of the rows under these settings: the candidates and their
/// coefficients.
pub open spec fn decoded(
    rows: Seq<Vec<Single>>,
    channels: nat,
    transform: Letterbox,
    source_width: u32,
    source_height: u32,
    config: Yolo26Config,
) -> (Seq<Candidate>, Seq<Single>) {
    decoded_rows(
        row_views(rows),
        channels,
        transform,
        source_width,
        source_height,
        config.confidence_threshold@,
    )
}

/// The candidate that a row holds.
fn decode_row(
    row: &[Single],
    channels: usize,
    transform: &Letterbox,
    source_width: u32,
    source_height: u32,
    threshold: Single,
) -> (candidate: Option<Candidate>)
    requires
        channels + 6 <= usize::MAX,
    ensures
        candidate == row_candidate(
            row@,
            channels as nat,
            *transform,
            source_width,
            source_height,
            threshold@,
        ),
{
    if row.len() != channels + 6 || !row[4].is_finite() || row[4].below(threshold) {
        return None;
    }
    match map_box(row, transform, source_width, source_height) {
        None => None,
        Some(bbox) => Some(
            Candidate {
                bbox,
                class_id: row[5].to_double().round_to_i64(),
                confidence: row[4],
            },
        ),
    }
}

/// Reads the candidates from the rows of the model's output.
pub fn decode(
    rows: &Vec<Vec<Single>>,
    channels: usize,
    transform: &Letterbox,
    source_width: u32,
    source_height: u32,
    config: &Yolo26Config,
) -> (kept: Candidates)
    requires
        channels + 6 <= usize::MAX,
    ensures
        (kept.candidates@, kept.coefficients@) == decoded(
            rows@,
            channels as nat,
            *transform,
            source_width,
            source_height,
            *config,
        ),
{
    let mut candidates: Vec<Candidate> = Vec::new();
    let mut coefficients: Vec<Single> = Vec::new();
    let ghost views: Seq<Seq<Single>> = row_views(rows@);
    let mut i: usize = 0;
    proof {
        assert(views.take(0) =~= Seq::<Seq<Single>>::empty());
    }
    while i < rows.len()
        invariant
            i <= rows@.len(),
            channels + 6 <= usize::MAX,
            views == row_views(rows@),
            (candidates@, coefficients@) == decoded_rows(
                views.take(i as int),
                channels as nat,
                *transform,
                source_width,
                source_height,
                config.confidence_threshold@,
            ),
        decreases rows@.len() - i,
    {
        let row: &Vec<Single> = &rows[i];
        proof {
            assert(views.take(i + 1).drop_last() =~= views.take(i as int));
            assert(views.take(i + 1).last() == row@);
        }
        match decode_row(
            row.as_slice(),
            channels,
            transform,
            source_width,
            source_height,
            config.confidence_threshold,
        ) {
            None => {},
            Some(candidate) => {
                candidates.push(candidate);
                let ghost before: Seq<Single> = coefficients@;
                let mut k: usize = 6;
                while k < row.len()
                    invariant
                        6 <= k <= row@.len(),
                        coefficients@ == before + row@.subrange(6, k as int),
                    decreases row@.len() - k,
                {
                    coefficients.push(row[k]);
                    proof {
                        assert(row@.subrange(6, k + 1) =~= row@.subrange(6, k as int).push(
                            row@[k as int],
                        ));
                    }
                    k = k + 1;
                }
                proof {
                    assert(row@.subrange(6, k as int) =~= row@.skip(6));
                }
            },
        }
        i = i + 1;
    }
    proof {
        assert(views.take(i as int) =~= views);
    }
    Candidates { candidates, coefficients }
}

/// Of the settings only the confidence threshold has a say in what is kept of the
/// rows: the mask threshold changes neither a candidate nor a coefficient.
pub proof fn law_mask_threshold_keeps_candidates(
    rows: Seq<Vec<Single>>,
    channels: nat,
    transform: Letterbox,
    source_width: u32,
    source_height: u32,
    first: Yolo26Config,
    second: Yolo26Config,
)
    requires
        first.confidence_threshold@ == second.confidence_threshold@,
    ensures
        decoded(rows, channels, transform, source_width, source_height, first) == decoded(
            rows,
            channels,
            transform,
            source_width,
            source_height,
            second,
        ),
{
}

/// A higher mask threshold finds the same objects, with masks of the same size
/// that set no further pixel. `values` holds the values of the pixels of each
/// candidate.
pub proof fn law_mask_threshold_only_thins(
    rows: Seq<Vec<Single>>,
    channels: nat,
    transform: Letterbox,
    source_width: u32,
    source_height: u32,
    low: Yolo26Config,
    high: Yolo26Config,
    values: Seq<Seq<Single>>,
    wide: Seq<Detection>,
    thin: Seq<Detection>,
)
    requires
        low.confidence_threshold@ == high.confidence_threshold@,
        !(low.mask_threshold@ is NotANumber),
        !(high.mask_threshold@ is NotANumber),
        !high.mask_threshold@.below(low.mask_threshold@),
        ({
            let kept: Seq<Candidate> = decoded(
                rows,
                channels,
                transform,
                source_width,
                source_height,
                low,
            ).0;
            &&& wide.len() == kept.len()
            &&& forall|k: int|
                0 <= k < kept.len() ==> (#[trigger] kept[k]).becomes(wide[k], values[k], low)
        }),
        ({
            let kept: Seq<Candidate> = decoded(
                rows,
                channels,
                transform,
                source_width,
                source_height,
                high,
            ).0;
            &&& thin.len() == kept.len()
            &&& forall|k: int|
                0 <= k < kept.len() ==> (#[trigger] kept[k]).becomes(thin[k], values[k], high)
        }),
    ensures
        thin.len() == wide.len(),
        forall|k: int|
            0 <= k < wide.len() ==> {
                &&& (#[trigger] thin[k]).class_id == wide[k].class_id
                &&& thin[k].confidence == wide[k].confidence
                &&& thin[k].bbox == wide[k].bbox
                &&& thin[k].mask@.len() == wide[k].mask@.len()
                &&& forall|i: int|
                    0 <= i < wide[k].mask@.len() ==> thin[k].mask@[i] <= wide[k].mask@[i]
                &&& mask_sum(thin[k].mask@) <= mask_sum(wide[k].mask@)
            },
{
    let kept: Seq<Candidate> = decoded(
        rows,
        channels,
        transform,
        source_width,
        source_height,
        low,
    ).0;
    assert forall|k: int| 0 <= k < wide.len() implies {
        &&& (#[trigger] thin[k]).class_id == wide[k].class_id
        &&& thin[k].confidence == wide[k].confidence
        &&& thin[k].bbox == wide[k].bbox
        &&& thin[k].mask@.len() == wide[k].mask@.len()
        &&& forall|i: int| 0 <= i < wide[k].mask@.len() ==> thin[k].mask@[i] <= wide[k].mask@[i]
        &&& mask_sum(thin[k].mask@) <= mask_sum(wide[k].mask@)
    } by {
        assert(kept[k].becomes(wide[k], values[k], low));
        assert(kept[k].becomes(thin[k], values[k], high));
        law_higher_threshold_thins_mask(
            values[k],
            low.mask_threshold@,
            high.mask_threshold@,
        );
    }
}

/// Rows are read alike for pictures that are fitted into the input alike.
pub proof fn law_like_fit_like_candidates(
    rows: Seq<Seq<Single>>,
    channels: nat,
    first: Letterbox,
    second: Letterbox,
    source_width: u32,
    source_height: u32,
    threshold: Number,
)
    requires
        first.alike(second),
    ensures
        decoded_rows(rows, channels, first, source_width, source_height, threshold) == decoded_rows(
            rows,
            channels,
            second,
            source_width,
            source_height,
            threshold,
        ),
    decreases rows.len(),
{
    if rows.len() > 0 {
        law_like_fit_like_candidates(
            rows.drop_last(),
            channels,
            first,
            second,
            source_width,
            source_height,
            threshold,
        );
    }
}

/// Every candidate brings one coefficient for each channel of the prototypes, is
/// at least as confident as asked, and lies in the picture.
pub proof fn law_decoded_rows(
    rows: Seq<Seq<Single>>,
    channels: nat,
    transform: Letterbox,
    source_width: u32,
    source_height: u32,
    threshold: Number,
)
    ensures
        ({
            let (candidates, coefficients) = decoded_rows(
                rows,
                channels,
                transform,
                source_width,
                source_height,
                threshold,
            );
            &&& candidates.len() <= rows.len()
            &&& coefficients.len() == candidates.len() * channels
            &&& forall|i: int|
                0 <= i < candidates.len() ==> {
                    let candidate: Candidate = #[trigger] candidates[i];
                    &&& candidate.confidence@ is Finite
                    &&& !candidate.confidence@.below(threshold)
                    &&& candidate.bbox.width > 0
                    &&& candidate.bbox.height > 0
                    &&& candidate.bbox.x + candidate.bbox.width <= source_width
                    &&& candidate.bbox.y + candidate.bbox.height <= source_height
                }
        }),
    decreases rows.len(),
{
    if rows.len() == 0 {
        assert(0 * channels == 0) by (nonlinear_arith);
    } else {
        law_decoded_rows(
            rows.drop_last(),
            channels,
            transform,
            source_width,
            source_height,
            threshold,
        );
        let n: nat = decoded_rows(
            rows.drop_last(),
            channels,
            transform,
            source_width,
            source_height,
            threshold,
        ).0.len();
        assert((n + 1) * channels == n * channels + channels) by (nonlinear_arith);
    }
}

/// The row is to be kept: it has a box, a confidence, a class and one coefficient for
/// each channel, its confidence is a finite number that is not below the threshold,
/// and its box holds a pixel of the picture.
pub open spec fn qualifies(
    row: Seq<Single>,
    channels: nat,
    transform: Letterbox,
    source_width: u32,
    source_height: u32,
    threshold: Number,
) -> bool {
    &&& row.len() == 4 + 1 + 1 + channels
    &&& row[4]@ is Finite
    &&& !row[4]@.below(threshold)
    &&& mapped_box(row, transform, source_width, source_height) is Some
}

/// The candidate carries the box, the class and the confidence of the row, and the
/// coefficients from `start` on are those of the row.
pub open spec fn carries(
    candidate: Candidate,
    coefficients: Seq<Single>,
    start: int,
    row: Seq<Single>,
    channels: nat,
    transform: Letterbox,
    source_width: u32,
    source_height: u32,
) -> bool {
    &&& mapped_box(row, transform, source_width, source_height) == Some(candidate.bbox)
    &&& candidate.confidence == row[4]
    &&& is_nearest(row[5]@, candidate.class_id as int, i64::MIN as int, i64::MAX as int)
    &&& 0 <= start <= start + channels <= coefficients.len()
    &&& forall|c: int| 0 <= c < channels ==> #[trigger] coefficients[start + c] == row[6 + c]
}

proof fn lemma_kept_rows(
    rows: Seq<Seq<Single>>,
    channels: nat,
    transform: Letterbox,
    source_width: u32,
    source_height: u32,
    threshold: Number,
) -> (kept: Seq<int>)
    ensures
        ({
            let (candidates, coefficients) = decoded_rows(
                rows,
                channels,
                transform,
                source_width,
                source_height,
                threshold,
            );
            &&& kept.len() == candidates.len()
            &&& coefficients.len() == candidates.len() * channels
            &&& forall|i: int, j: int| 0 <= i < j < kept.len() ==> kept[i] < kept[j]
            &&& forall|j: int| 0 <= j < kept.len() ==> 0 <= #[trigger] kept[j] < rows.len()
            &&& forall|i: int|
                0 <= i < rows.len() ==> (kept.contains(i) <==> qualifies(
                    #[trigger] rows[i],
                    channels,
                    transform,
                    source_width,
                    source_height,
                    threshold,
                ))
            &&& forall|j: int|
                0 <= j < candidates.len() ==> carries(
                    #[trigger] candidates[j],
                    coefficients,
                    j * channels,
                    rows[kept[j]],
                    channels,
                    transform,
                    source_width,
                    source_height,
                )
        }),
    decreases rows.len(),
{
    if rows.len() == 0 {
        assert(0 * channels == 0) by (nonlinear_arith);
        Seq::empty()
    } else {
        let shorter: Seq<Seq<Single>> = rows.drop_last();
        let before: Seq<int> = lemma_kept_rows(
            shorter,
            channels,
            transform,
            source_width,
            source_height,
            threshold,
        );
        let (candidates, coefficients) = decoded_rows(
            shorter,
            channels,
            transform,
            source_width,
            source_height,
            threshold,
        );
        let n: nat = candidates.len();
        let row: Seq<Single> = rows.last();
        let last: int = rows.len() - 1;
        assert((n + 1) * channels == n * channels + channels) by (nonlinear_arith);
        assert forall|i: int| 0 <= i < last implies shorter[i] == #[trigger] rows[i] by {}
        assert(!before.contains(last));
        match row_candidate(row, channels, transform, source_width, source_height, threshold) {
            None => {
                assert forall|i: int| 0 <= i < rows.len() implies (before.contains(i)
                    <==> qualifies(
                    #[trigger] rows[i],
                    channels,
                    transform,
                    source_width,
                    source_height,
                    threshold,
                )) by {
                    if i < last {
                        assert(shorter[i] == rows[i]);
                    }
                }
                before
            },
            Some(candidate) => {
                let kept: Seq<int> = before.push(last);
                let all: Seq<Single> = coefficients + row.skip(6);
                law_round(row[5]@, i64::MIN as int, i64::MAX as int);
                assert forall|i: int| 0 <= i < rows.len() implies (kept.contains(i) <==> qualifies(
                    #[trigger] rows[i],
                    channels,
                    transform,
                    source_width,
                    source_height,
                    threshold,
                )) by {
                    if i < last {
                        assert(shorter[i] == rows[i]);
                        if before.contains(i) {
                            let k: int = choose|k: int| 0 <= k < before.len() && before[k] == i;
                            assert(kept[k] == i);
                        }
                        if kept.contains(i) {
                            let k: int = choose|k: int| 0 <= k < kept.len() && kept[k] == i;
                            assert(before[k] == i);
                        }
                    } else {
                        assert(kept[before.len() as int] == i);
                    }
                }
                assert forall|j: int| 0 <= j < n + 1 implies carries(
                    #[trigger] candidates.push(candidate)[j],
                    all,
                    j * channels,
                    rows[kept[j]],
                    channels,
                    transform,
                    source_width,
                    source_height,
                ) by {
                    if j < n {
                        assert(carries(
                            candidates[j],
                            coefficients,
                            j * channels,
                            shorter[before[j]],
                            channels,
                            transform,
                            source_width,
                            source_height,
                        ));
                        assert forall|c: int| 0 <= c < channels implies #[trigger] all[j * channels
                            + c] == rows[kept[j]][6 + c] by {
                            assert(coefficients[j * channels + c] == shorter[before[j]][6 + c]);
                        }
                    } else {
                        assert forall|c: int| 0 <= c < channels implies #[trigger] all[j * channels
                            + c] == row[6 + c] by {
                            assert(row.skip(6)[c] == row[6 + c]);
                        }
                    }
                }
                kept
            },
        }
    }
}

/// Decoding is complete: the candidates stand, in order and one for one, for the rows
/// that are to be kept, whatever other rows there are. Each carries the box, class,
/// confidence and coefficients of its row. `kept` holds the places of those rows.
pub proof fn law_decoding_is_complete(
    rows: Seq<Vec<Single>>,
    channels: nat,
    transform: Letterbox,
    source_width: u32,
    source_height: u32,
    config: Yolo26Config,
) -> (kept: Seq<int>)
    ensures
        ({
            let (candidates, coefficients) = decoded(
                rows,
                channels,
                transform,
                source_width,
                source_height,
                config,
            );
            &&& kept.len() == candidates.len()
            &&& coefficients.len() == candidates.len() * channels
            &&& forall|i: int, j: int| 0 <= i < j < kept.len() ==> kept[i] < kept[j]
            &&& forall|j: int| 0 <= j < kept.len() ==> 0 <= #[trigger] kept[j] < rows.len()
            &&& forall|i: int|
                0 <= i < rows.len() ==> (kept.contains(i) <==> qualifies(
                    #[trigger] rows[i]@,
                    channels,
                    transform,
                    source_width,
                    source_height,
                    config.confidence_threshold@,
                ))
            &&& forall|j: int|
                0 <= j < candidates.len() ==> carries(
                    #[trigger] candidates[j],
                    coefficients,
                    j * channels,
                    rows[kept[j]]@,
                    channels,
                    transform,
                    source_width,
                    source_height,
                )
        }),
{
    let kept: Seq<int> = lemma_kept_rows(
        row_views(rows),
        channels,
        transform,
        source_width,
        source_height,
        config.confidence_threshold@,
    );
    assert forall|i: int| 0 <= i < rows.len() implies (kept.contains(i) <==> qualifies(
        #[trigger] rows[i]@,
        channels,
        transform,
        source_width,
        source_height,
        config.confidence_threshold@,
    )) by {
        assert(row_views(rows)[i] == rows[i]@);
    }
    kept
}

/// Rows are read one by one: what is kept of some rows and some more is what is kept
/// of the ones and then of the others.
pub proof fn law_rows_are_independent(
    first: Seq<Seq<Single>>,
    second: Seq<Seq<Single>>,
    channels: nat,
    transform: Letterbox,
    source_width: u32,
    source_height: u32,
    threshold: Number,
)
    ensures
        ({
            let (c1, k1) = decoded_rows(
                first,
                channels,
                transform,
                source_width,
                source_height,
                threshold,
            );
            let (c2, k2) = decoded_rows(
                second,
                channels,
                transform,
                source_width,
                source_height,
                threshold,
            );
            decoded_rows(
                first + second,
                channels,
                transform,
                source_width,
                source_height,
                threshold,
            ) == (c1 + c2, k1 + k2)
        }),
    decreases second.len(),
{
    let (c1, k1) = decoded_rows(
        first,
        channels,
        transform,
        source_width,
        source_height,
        threshold,
    );
    if second.len() == 0 {
        assert(first + second =~= first);
        assert(c1 + Seq::<Candidate>::empty() =~= c1);
        assert(k1 + Seq::<Single>::empty() =~= k1);
    } else {
        let all: Seq<Seq<Single>> = first + second;
        law_rows_are_independent(
            first,
            second.drop_last(),
            channels,
            transform,
            source_width,
            source_height,
            threshold,
        );
        assert(all.drop_last() =~= first + second.drop_last());
        assert(all.last() == second.last());
        let (c2, k2) = decoded_rows(
            second.drop_last(),
            channels,
            transform,
            source_width,
            source_height,
            threshold,
        );
        let row: Seq<Single> = second.last();
        match row_candidate(row, channels, transform, source_width, source_height, threshold) {
            Some(candidate) => {
                assert((c1 + c2).push(candidate) =~= c1 + c2.push(candidate));
                assert((k1 + k2) + row.skip(6) =~= k1 + (k2 + row.skip(6)));
            },
            None => {},
        }
    }
}

/// A pixel of a mask is set exactly where the value of that very pixel is above the
/// threshold: for finite ones, where its value is the larger.
pub proof fn law_mask_pixel(values: Seq<Single>, threshold: Number, i: int)
    requires
        0 <= i < values.len(),
    ensures
        mask_above(values, threshold).len() == values.len(),
        match (threshold, values[i]@) {
            (
                Number::Finite { negative: nt, units: t },
                Number::Finite { negative: nv, units: v },
            ) => mask_above(values, threshold)[i] == if value_of(nv, v) > value_of(nt, t) {
                1u8
            } else {
                0u8
            },
            (Number::Finite { .. }, Number::Infinite { negative }) => mask_above(
                values,
                threshold,
            )[i] == if negative {
                0u8
            } else {
                1u8
            },
            (_, Number::NotANumber) => mask_above(values, threshold)[i] == 0,
            (Number::NotANumber, _) => mask_above(values, threshold)[i] == 0,
            (Number::Infinite { negative: false }, _) => mask_above(values, threshold)[i] == 0,
            (Number::Infinite { negative: true }, Number::Infinite { negative }) => mask_above(
                values,
                threshold,
            )[i] == if negative {
                0u8
            } else {
                1u8
            },
            (Number::Infinite { negative: true }, Number::Finite { .. }) => mask_above(
                values,
                threshold,
            )[i] == 1,
        },
{
}

/// To change the value of one pixel changes no other pixel of the mask.
pub proof fn law_mask_pixels_are_independent(
    values: Seq<Single>,
    threshold: Number,
    i: int,
    value: Single,
    k: int,
)
    requires
        0 <= i < values.len(),
        0 <= k < values.len(),
        k != i,
    ensures
        mask_above(values.update(i, value), threshold)[k] == mask_above(values, threshold)[k],
{
}

/// The sum of a mask is the sum of its parts, and that of one value is the value.
pub proof fn law_mask_sum_adds_up(first: Seq<u8>, second: Seq<u8>, value: u8)
    ensures
        mask_sum(Seq::empty()) == 0,
        mask_sum(seq![value]) == value,
        mask_sum(first + second) == mask_sum(first) + mask_sum(second),
    decreases second.len(),
{
    assert(seq![value].drop_last() =~= Seq::<u8>::empty());
    assert(mask_sum(Seq::<u8>::empty()) == 0);
    if second.len() == 0 {
        assert(first + second =~= first);
    } else {
        law_mask_sum_adds_up(first, second.drop_last(), value);
        assert((first + second).drop_last() =~= first + second.drop_last());
    }
}

} // verus!

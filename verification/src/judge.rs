//! Judgment of inputs against an SRAM image by XOR + popcount.
//!
//! An input is fingerprinted; the image's Bloom filter rejects it outright or
//! the records are scanned for a lesson within a Hamming-distance threshold.

use vstd::prelude::*;
use crate::bits::{count_ones, hamming, lemma_hamming_basics};
use crate::fingerprint::{fingerprint, fingerprint_of};
use crate::bloom::BloomFilter;
use crate::sram::{lemma_built_image_finds_records, lemma_same_image_same_answers, lemma_saved_image_reloads, SramImage, SramImageBuilder};
use crate::LessonId;

verus! {

/// Default Hamming distance threshold for fuzzy matching.
pub const DEFAULT_THRESHOLD: u32 = 10;

/// Largest threshold that [`judge`] accepts.
pub const MAX_THRESHOLD: u32 = 64;

/// Hamming distance between two 64-bit values.
pub fn hamming_distance(a: u64, b: u64) -> (d: u32)
    ensures
        d == hamming(a, b),
{
    count_ones(a ^ b)
}

/// Hamming distance between two 64-bit values (portable implementation).
pub fn hamming_distance_portable(a: u64, b: u64) -> (d: u32)
    ensures
        d == hamming(a, b),
{
    count_ones(a ^ b)
}

/// Answer of a judgment of a fingerprint: nothing for a threshold above
/// [`MAX_THRESHOLD`], otherwise the image's judgment of the fingerprint.
pub open spec fn fingerprint_answer(sram: SramImage, input_hash: u64, threshold: u32) -> Option<u32> {
    if threshold > MAX_THRESHOLD {
        None
    } else {
        sram.judge_outcome(input_hash, threshold)
    }
}

/// Answer of [`judge`]: the answer for the input's fingerprint.
pub open spec fn judge_answer(sram: SramImage, input: Seq<char>, seed: u64, threshold: u32) -> Option<u32> {
    fingerprint_answer(sram, fingerprint_of(input, seed), threshold)
}

/// Judging with `threshold` never divides by zero: the threshold is refused
/// outright, or the image's Bloom filter has bits to probe (or no hash function).
pub open spec fn can_judge(sram: SramImage, threshold: u32) -> bool {
    threshold <= MAX_THRESHOLD ==> sram.bloom_filter().usable()
}

/// Judges an input string against an SRAM image: `None` when the threshold exceeds
/// [`MAX_THRESHOLD`] or the Bloom filter rejects the input's fingerprint,
/// otherwise the lesson of the first non-canary record within `threshold` bits.
pub fn judge(sram: &SramImage, input: &str, seed: u64, threshold: u32) -> (lesson: Option<LessonId>)
    requires
        sram.well_formed(),
        can_judge(*sram, threshold),
    ensures
        lesson == judge_answer(*sram, input@, seed, threshold),
{
    if threshold > MAX_THRESHOLD {
        return None;
    }
    let input_hash = fingerprint(input, seed);
    if !sram.bloom_contains(input_hash) {
        return None;
    }
    sram.judge(input_hash, threshold)
}

/// Judges a precomputed fingerprint: `None` when the threshold exceeds
/// [`MAX_THRESHOLD`] or the Bloom filter rejects it, otherwise the lesson of the
/// first non-canary record within `threshold` bits.
pub fn judge_with_fingerprint(sram: &SramImage, input_hash: u64, threshold: u32) -> (lesson: Option<LessonId>)
    requires
        sram.well_formed(),
        can_judge(*sram, threshold),
    ensures
        lesson == fingerprint_answer(*sram, input_hash, threshold),
{
    if threshold > MAX_THRESHOLD {
        return None;
    }
    if !sram.bloom_contains(input_hash) {
        return None;
    }
    sram.judge(input_hash, threshold)
}

/// Judges each `(input, seed, threshold)` triple in turn.
pub fn judge_batch(sram: &SramImage, inputs: &[(&str, u64, u32)]) -> (lessons: Vec<Option<LessonId>>)
    requires
        sram.well_formed(),
        forall|i: int| 0 <= i < inputs@.len() ==> can_judge(*sram, (#[trigger] inputs@[i]).2),
    ensures
        lessons@.len() == inputs@.len(),
        forall|i: int|
            0 <= i < inputs@.len() ==> #[trigger] lessons@[i] == judge_answer(
                *sram,
                inputs@[i].0@,
                inputs@[i].1,
                inputs@[i].2,
            ),
{
    let mut lessons: Vec<Option<LessonId>> = Vec::new();
    let mut i: usize = 0;
    while i < inputs.len()
        invariant
            sram.well_formed(),
            i <= inputs@.len(),
            lessons@.len() == i,
            forall|j: int| 0 <= j < inputs@.len() ==> can_judge(*sram, (#[trigger] inputs@[j]).2),
            forall|j: int|
                0 <= j < i ==> #[trigger] lessons@[j] == judge_answer(
                    *sram,
                    inputs@[j].0@,
                    inputs@[j].1,
                    inputs@[j].2,
                ),
        decreases inputs@.len() - i,
    {
        let (input, seed, threshold) = inputs[i];
        lessons.push(judge(sram, input, seed, threshold));
        i = i + 1;
    }
    lessons
}

/// Judgment with distance information.
#[derive(Debug, Clone)]
pub struct Judgment {
    /// The matched lesson, if any.
    pub lesson_id: Option<LessonId>,
    /// The fingerprint that was judged.
    pub input_hash: u64,
    /// Distance to the closest non-canary record, when the Bloom filter passed.
    pub distance: Option<u32>,
    /// Whether the Bloom filter admitted the fingerprint.
    pub bloom_passed: bool,
}

impl Judgment {
    /// Whether a lesson matched.
    pub fn is_match(&self) -> (matched: bool)
        ensures
            matched == self.lesson_id is Some,
    {
        self.lesson_id.is_some()
    }
}

/// Detailed judgment of a fingerprint: when the Bloom filter admits it, the
/// distance to the closest non-canary record and that record's lesson if the
/// distance is within `threshold`.
pub open spec fn detailed_judgment(sram: SramImage, input_hash: u64, threshold: u32) -> Judgment {
    if sram.bloom_filter().admits(input_hash) {
        let closest = sram.closest_upto(input_hash, sram.count() as int);
        Judgment {
            lesson_id: if closest.0 <= threshold {
                closest.1
            } else {
                None
            },
            input_hash,
            distance: Some(closest.0),
            bloom_passed: true,
        }
    } else {
        Judgment { lesson_id: None, input_hash, distance: None, bloom_passed: false }
    }
}

/// Judges an input string and reports the closest record's distance.
pub fn judge_detailed(sram: &SramImage, input: &str, seed: u64, threshold: u32) -> (judgment: Judgment)
    requires
        sram.well_formed(),
        sram.bloom_filter().usable(),
    ensures
        judgment == detailed_judgment(*sram, fingerprint_of(input@, seed), threshold),
{
    let input_hash = fingerprint(input, seed);
    judge_detailed_with_fingerprint(sram, input_hash, threshold)
}

/// Detailed judgment of a precomputed fingerprint.
pub fn judge_detailed_with_fingerprint(sram: &SramImage, input_hash: u64, threshold: u32) -> (judgment: Judgment)
    requires
        sram.well_formed(),
        sram.bloom_filter().usable(),
    ensures
        judgment == detailed_judgment(*sram, input_hash, threshold),
{
    let bloom_passed = sram.bloom_contains(input_hash);
    if !bloom_passed {
        return Judgment { lesson_id: None, input_hash, distance: None, bloom_passed: false };
    }
    let mut closest_distance = u32::MAX;
    let mut closest_lesson: Option<LessonId> = None;
    let num_records = sram.record_count() as usize;
    let mut i: usize = 0;
    while i < num_records && closest_distance != 0
        invariant
            sram.well_formed(),
            num_records == sram.count(),
            i <= num_records,
            (closest_distance, closest_lesson) == sram.closest_upto(input_hash, i as int),
        decreases num_records - i,
    {
        let record = match sram.get_record(i) {
            Some(r) => r,
            None => {
                proof {
                    assert(false);
                }
                return Judgment { lesson_id: None, input_hash, distance: None, bloom_passed: true };
            },
        };
        if !record.is_canary() {
            let distance = hamming_distance_portable(input_hash, record.fingerprint);
            proof {
                lemma_hamming_basics(input_hash, record.fingerprint);
            }
            if distance < closest_distance {
                closest_distance = distance;
                closest_lesson = Some(record.lesson_id);
            }
        }
        i = i + 1;
    }
    proof {
        if i < num_records {
            sram.lemma_closest_settled(input_hash, i as int, num_records as int);
        }
    }
    Judgment {
        lesson_id: if closest_distance <= threshold {
            closest_lesson
        } else {
            None
        },
        input_hash,
        distance: Some(closest_distance),
        bloom_passed: true,
    }
}

/// A detailed judgment reports the nearest record. When the Bloom filter admits
/// the fingerprint, the reported distance is at most the distance to every
/// non-canary record; a reported lesson is the lesson of a non-canary record at
/// exactly that distance, which is within the threshold; and a lesson is reported
/// whenever some non-canary record lies within the threshold. When the filter
/// rejects the fingerprint, neither a distance nor a lesson is reported.
pub proof fn lemma_detailed_judgment_reports_nearest(sram: SramImage, fp: u64, threshold: u32)
    ensures
        detailed_judgment(sram, fp, threshold).input_hash == fp,
        detailed_judgment(sram, fp, threshold).bloom_passed == sram.bloom_filter().admits(fp),
        !sram.bloom_filter().admits(fp) ==> detailed_judgment(sram, fp, threshold).distance is None
            && detailed_judgment(sram, fp, threshold).lesson_id is None,
        sram.bloom_filter().admits(fp) ==> (detailed_judgment(sram, fp, threshold).distance matches Some(
            d,
        ) && forall|i: int|
            0 <= i < sram.count() && !sram.record_is_canary(i) ==> d <= #[trigger] hamming(
                fp,
                sram.record_fingerprint(i),
            )),
        detailed_judgment(sram, fp, threshold).lesson_id matches Some(l) ==> exists|i: int|
            {
                &&& 0 <= i < sram.count()
                &&& !sram.record_is_canary(i)
                &&& #[trigger] sram.record_lesson(i) == l
                &&& detailed_judgment(sram, fp, threshold).distance == Some(
                    hamming(fp, sram.record_fingerprint(i)) as u32,
                )
                &&& hamming(fp, sram.record_fingerprint(i)) <= threshold
            },
        (sram.bloom_filter().admits(fp) && exists|i: int|
            0 <= i < sram.count() && !sram.record_is_canary(i) && #[trigger] hamming(
                fp,
                sram.record_fingerprint(i),
            ) <= threshold) ==> detailed_judgment(sram, fp, threshold).lesson_id is Some,
{
    let n = sram.count() as int;
    sram.lemma_closest_is_nearest(fp, n);
    let c = sram.closest_upto(fp, n);
    if sram.bloom_filter().admits(fp) {
        if let Some(l) = c.1 {
            if c.0 <= threshold {
                let i = choose|i: int|
                    {
                        &&& 0 <= i < n
                        &&& !sram.record_is_canary(i)
                        &&& #[trigger] sram.record_lesson(i) == l
                        &&& hamming(fp, sram.record_fingerprint(i)) == c.0
                        &&& forall|j: int|
                            0 <= j < i && !sram.record_is_canary(j) ==> #[trigger] hamming(
                                fp,
                                sram.record_fingerprint(j),
                            ) > c.0
                    };
                assert(sram.record_lesson(i) == l);
            }
        }
        if exists|i: int|
            0 <= i < sram.count() && !sram.record_is_canary(i) && #[trigger] hamming(
                fp,
                sram.record_fingerprint(i),
            ) <= threshold {
            let i = choose|i: int|
                0 <= i < sram.count() && !sram.record_is_canary(i) && #[trigger] hamming(
                    fp,
                    sram.record_fingerprint(i),
                ) <= threshold;
            assert(!sram.record_is_canary(i));
            assert(c.0 <= hamming(fp, sram.record_fingerprint(i)));
        }
    }
}

/// Judging a text is judging its fingerprint: [`judge`] and
/// [`judge_with_fingerprint`] on the text's fingerprint give the same answer, at
/// every threshold.
pub proof fn lemma_judge_is_judge_of_fingerprint(sram: SramImage, input: Seq<char>, seed: u64, threshold: u32)
    ensures
        judge_answer(sram, input, seed, threshold) == fingerprint_answer(
            sram,
            fingerprint_of(input, seed),
            threshold,
        ),
{
}

/// A lesson baked into an image (built without an explicit Bloom filter) is
/// matched when its own text is judged with the same seed, at any threshold up to
/// [`MAX_THRESHOLD`].
pub proof fn lemma_judge_finds_baked_lesson(
    builder: SramImageBuilder,
    sized_bloom: BloomFilter,
    image: SramImage,
    j: int,
    text: Seq<char>,
    seed: u64,
    threshold: u32,
)
    requires
        builder.chosen_bloom() is None,
        sized_bloom.well_formed(),
        sized_bloom.usable(),
        builder.built(sized_bloom, image),
        builder.records().len() <= u32::MAX,
        forall|k: int| 0 <= k < builder.records().len() ==> !(#[trigger] builder.records()[k]).canary_flag(),
        0 <= j < builder.records().len(),
        builder.records()[j].fingerprint == fingerprint_of(text, seed),
        threshold <= MAX_THRESHOLD,
    ensures
        can_judge(image, threshold),
        judge_answer(image, text, seed, threshold) is Some,
{
    lemma_built_image_finds_records(builder, sized_bloom, image, j, threshold);
}

/// Judging the image loaded back from a saved image answers as judging the saved
/// image does.
pub proof fn lemma_reloaded_image_judges_alike(
    image: SramImage,
    loaded: SramImage,
    text: Seq<char>,
    seed: u64,
    threshold: u32,
)
    requires
        image.well_formed(),
        image.bloom_filter().hash_count() <= u32::MAX,
        image.bloom_filter().size_in_bits() <= u32::MAX,
        image.bloom_filter().expected_capacity() <= u32::MAX,
        loaded.loaded_from(image.saved_bytes()),
    ensures
        can_judge(loaded, threshold) == can_judge(image, threshold),
        judge_answer(loaded, text, seed, threshold) == judge_answer(image, text, seed, threshold),
        detailed_judgment(loaded, fingerprint_of(text, seed), threshold) == detailed_judgment(
            image,
            fingerprint_of(text, seed),
            threshold,
        ),
{
    lemma_saved_image_reloads(image, loaded);
    let fp = fingerprint_of(text, seed);
    lemma_same_image_same_answers(image, loaded, fp, threshold);
    crate::bloom::lemma_same_filter_same_answers(image.bloom_filter(), loaded.bloom_filter(), fp);
}

} // verus!

//! SigMF recordings: a JSON description, and raw samples.
//!
//! The samples are pairs of little-endian single-precision numbers, the
//! in-phase part first. They are carried as the bit patterns of those numbers.

use crate::json;
use vstd::prelude::*;

verus! {

/// The member `key`, where there is a value and it is an object that has one.
pub open spec fn member_of(value: Option<serde_json::Value>, key: Seq<char>) -> Option<
    serde_json::Value,
> {
    match value {
        Some(value) if json::json_members(value).contains_key(key) => Some(json::json_members(value)[key]),
        _ => None,
    }
}

/// The first element, where there is a value and it is an array that has one.
pub open spec fn first_of(value: Option<serde_json::Value>) -> Option<serde_json::Value> {
    match value {
        Some(value) if json::json_elements(value).len() > 0 => Some(json::json_elements(value)[0]),
        _ => None,
    }
}

/// The integer, where there is a value and it is one that fits.
pub open spec fn unsigned_of(value: Option<serde_json::Value>) -> Option<u64> {
    match value {
        Some(value) => json::json_unsigned(value),
        None => None,
    }
}

/// The sample rate that a description gives.
pub open spec fn described_rate(document: serde_json::Value) -> Option<u64> {
    unsigned_of(member_of(member_of(Some(document), "global"@), "core:sample_rate"@))
}

/// The frequency that a description gives for its first capture.
pub open spec fn described_frequency(document: serde_json::Value) -> Option<u64> {
    unsigned_of(member_of(first_of(member_of(Some(document), "captures"@)), "core:frequency"@))
}

/// Why a description cannot be used.
#[derive(Debug)]
pub enum MetaError {
    /// It is not valid JSON.
    Json(serde_json::Error),
    /// It gives no sample rate.
    MissingSampleRate,
    /// It gives no frequency.
    MissingFrequency,
}

/// What a description tells of a recording.
#[derive(Copy, Clone, Debug, PartialEq, Eq, Structural)]
pub struct CaptureMeta {
    pub sample_rate: u32,
    pub center_frequency: u64,
}

/// The member `key` of a value that may be there.
fn find_member<'a>(value: Option<&'a serde_json::Value>, key: &str) -> (found: Option<
    &'a serde_json::Value,
>)
    ensures
        match value {
            Some(value) => match found {
                Some(found) => member_of(Some(*value), key@) == Some(*found),
                None => member_of(Some(*value), key@) is None,
            },
            None => found is None,
        },
{
    match value {
        Some(value) => json::member(value, key),
        None => None,
    }
}

/// Judges the two fields of a description that matter. The sample rate is cut
/// to its low 32 bits.
pub fn meta_from_fields(sample_rate: Option<u64>, frequency: Option<u64>) -> (meta: Result<
    CaptureMeta,
    MetaError,
>)
    ensures
        match meta {
            Ok(meta) => {
                &&& sample_rate matches Some(rate) && meta.sample_rate == rate % 0x1_0000_0000
                &&& frequency == Some(meta.center_frequency)
            },
            Err(error) => {
                &&& error == if sample_rate is None {
                    MetaError::MissingSampleRate
                } else {
                    MetaError::MissingFrequency
                }
                &&& sample_rate is None || frequency is None
            },
        },
{
    match sample_rate {
        None => Err(MetaError::MissingSampleRate),
        Some(rate) => match frequency {
            None => Err(MetaError::MissingFrequency),
            Some(center_frequency) => {
                let low: u64 = rate % 0x1_0000_0000;
                Ok(CaptureMeta { sample_rate: low as u32, center_frequency })
            },
        },
    }
}

/// Reads the description of a recording.
pub fn parse_meta(text: &str) -> (meta: Result<CaptureMeta, MetaError>)
    ensures
        match json::json_document(text@) {
            None => meta matches Err(MetaError::Json(_)),
            Some(document) => match (described_rate(document), described_frequency(document)) {
                (Some(rate), Some(frequency)) => {
                    &&& meta matches Ok(meta)
                    &&& meta.sample_rate == rate % 0x1_0000_0000
                    &&& meta.center_frequency == frequency
                },
                (Some(_), None) => meta == Err::<CaptureMeta, _>(MetaError::MissingFrequency),
                (None, _) => meta == Err::<CaptureMeta, _>(MetaError::MissingSampleRate),
            },
        },
{
    match json::parse_json(text) {
        Err(error) => Err(MetaError::Json(error)),
        Ok(document) => {
            let global = find_member(Some(&document), "global");
            let sample_rate: Option<u64> = match find_member(global, "core:sample_rate") {
                Some(value) => json::unsigned(value),
                None => None,
            };
            let first = match find_member(Some(&document), "captures") {
                Some(captures) => json::element(captures, 0),
                None => None,
            };
            let frequency: Option<u64> = match find_member(first, "core:frequency") {
                Some(value) => json::unsigned(value),
                None => None,
            };
            meta_from_fields(sample_rate, frequency)
        },
    }
}

/// One sample: the bit patterns of its two single-precision parts.
#[derive(Copy, Clone, Debug, PartialEq, Eq, Structural)]
pub struct IqBits {
    pub re: u32,
    pub im: u32,
}

/// A recording.
#[derive(Debug)]
pub struct Capture {
    pub samples: Vec<IqBits>,
    pub sample_rate: u32,
    pub center_frequency: u64,
}

/// The number whose little-endian bytes stand at `at`.
pub open spec fn word_at(raw: Seq<u8>, at: int) -> u32 {
    (raw[at] + raw[at + 1] * 0x100 + raw[at + 2] * 0x1_0000 + raw[at + 3] * 0x100_0000) as u32
}

/// The samples that raw bytes hold. Bytes behind the last whole sample are left out.
pub open spec fn samples_of(raw: Seq<u8>) -> Seq<IqBits> {
    Seq::new(
        raw.len() / 8,
        |i: int| IqBits { re: word_at(raw, 8 * i), im: word_at(raw, 8 * i + 4) },
    )
}

/// Byte `k` of a word, the lowest first.
pub open spec fn word_byte(word: u32, k: int) -> u8 {
    if k == 0 {
        (word % 0x100) as u8
    } else if k == 1 {
        (word / 0x100 % 0x100) as u8
    } else if k == 2 {
        (word / 0x1_0000 % 0x100) as u8
    } else {
        (word / 0x100_0000) as u8
    }
}

/// The raw bytes of samples.
pub open spec fn bytes_of(samples: Seq<IqBits>) -> Seq<u8> {
    Seq::new(
        8 * samples.len(),
        |i: int|
            if i % 8 < 4 {
                word_byte(samples[i / 8].re, i % 8)
            } else {
                word_byte(samples[i / 8].im, i % 8 - 4)
            },
    )
}

/// The number whose little-endian bytes stand at `at`.
fn read_word(raw: &[u8], at: usize) -> (word: u32)
    requires
        at + 4 <= raw@.len(),
    ensures
        word == word_at(raw@, at as int),
{
    let len: usize = raw.len();
    assert(at + 4 <= len);
    raw[at] as u32 + raw[at + 1] as u32 * 0x100 + raw[at + 2] as u32 * 0x1_0000 + raw[at + 3] as u32
        * 0x100_0000
}

/// Reads raw samples. Bytes behind the last whole sample are left out.
pub fn samples_from_bytes(raw: &[u8]) -> (samples: Vec<IqBits>)
    ensures
        samples@ == samples_of(raw@),
{
    let n: usize = raw.len() / 8;
    let mut samples: Vec<IqBits> = Vec::with_capacity(n);
    let mut i: usize = 0;
    while i < n
        invariant
            i <= n == raw@.len() / 8,
            8 * n <= usize::MAX,
            samples@ =~= samples_of(raw@).take(i as int),
        decreases n - i,
    {
        let sample = IqBits { re: read_word(raw, i * 8), im: read_word(raw, i * 8 + 4) };
        samples.push(sample);
        assert(samples_of(raw@)[i as int] == sample);
        i += 1;
    }
    assert(samples@ =~= samples_of(raw@));
    samples
}

/// Appends the little-endian bytes of a word.
fn push_word(raw: &mut Vec<u8>, word: u32)
    ensures
        final(raw)@ == old(raw)@ + Seq::new(4, |k: int| word_byte(word, k)),
{
    let ghost start = raw@;
    raw.push((word % 0x100) as u8);
    raw.push((word / 0x100 % 0x100) as u8);
    raw.push((word / 0x1_0000 % 0x100) as u8);
    raw.push((word / 0x100_0000) as u8);
    assert(raw@ =~= start + Seq::new(4, |k: int| word_byte(word, k)));
}

/// The raw bytes of samples.
pub fn samples_to_bytes(samples: &[IqBits]) -> (raw: Vec<u8>)
    ensures
        raw@ == bytes_of(samples@),
{
    let mut raw: Vec<u8> = Vec::new();
    let mut i: usize = 0;
    while i < samples.len()
        invariant
            i <= samples@.len(),
            raw@ == bytes_of(samples@.take(i as int)),
        decreases samples@.len() - i,
    {
        let ghost before = raw@;
        push_word(&mut raw, samples[i].re);
        push_word(&mut raw, samples[i].im);
        assert(raw@ =~= bytes_of(samples@.take(i + 1)));
        i += 1;
    }
    assert(samples@.take(i as int) =~= samples@);
    raw
}

impl Capture {
    /// Puts a recording together from its description and its raw samples.
    pub fn assemble(meta: CaptureMeta, raw: &[u8]) -> (capture: Capture)
        ensures
            capture.samples@ == samples_of(raw@),
            capture.sample_rate == meta.sample_rate,
            capture.center_frequency == meta.center_frequency,
    {
        Capture {
            samples: samples_from_bytes(raw),
            sample_rate: meta.sample_rate,
            center_frequency: meta.center_frequency,
        }
    }
}

/// The name of the file that describes the recording `name`.
pub fn meta_file_name(name: &str) -> (file: String)
    ensures
        file@ == name@ + ".sigmf-meta"@,
{
    let mut file: String = name.to_owned();
    file.append(".sigmf-meta");
    file
}

/// The name of the file that holds the samples of the recording `name`.
pub fn data_file_name(name: &str) -> (file: String)
    ensures
        file@ == name@ + ".sigmf-data"@,
{
    let mut file: String = name.to_owned();
    file.append(".sigmf-data");
    file
}

/// Samples that were written are read back as they were.
pub proof fn written_samples_read_back(samples: Seq<IqBits>)
    ensures
        samples_of(bytes_of(samples)) == samples,
{
    let raw = bytes_of(samples);
    assert forall|i: int| 0 <= i < samples.len() implies #[trigger] samples_of(raw)[i]
        == samples[i] by {
        lemma_word_at(raw, 8 * i, samples[i].re);
        lemma_word_at(raw, 8 * i + 4, samples[i].im);
    }
    assert(samples_of(raw) =~= samples);
}

proof fn lemma_word_at(raw: Seq<u8>, at: int, word: u32)
    requires
        forall|k: int| 0 <= k < 4 ==> #[trigger] raw[at + k] == word_byte(word, k),
    ensures
        word_at(raw, at) == word,
{
    assert(raw[at + 0] == word_byte(word, 0));
    assert(raw[at + 1] == word_byte(word, 1));
    assert(raw[at + 2] == word_byte(word, 2));
    assert(raw[at + 3] == word_byte(word, 3));
}

proof fn lemma_lowest_byte(a: u8, rest: int)
    requires
        0 <= rest,
    ensures
        (a + rest * 0x100) % 0x100 == a,
{
}

proof fn lemma_second_byte(a: u8, b: u8, rest: int)
    requires
        0 <= rest,
    ensures
        (a + b * 0x100 + rest * 0x1_0000) / 0x100 % 0x100 == b,
{
    assert((a + b * 0x100 + rest * 0x1_0000) / 0x100 == b + rest * 0x100);
}

proof fn lemma_third_byte(a: u8, b: u8, c: u8, rest: int)
    requires
        0 <= rest,
    ensures
        (a + b * 0x100 + c * 0x1_0000 + rest * 0x100_0000) / 0x1_0000 % 0x100 == c,
{
    assert((a + b * 0x100 + c * 0x1_0000 + rest * 0x100_0000) / 0x1_0000 == c + rest * 0x100);
}

proof fn lemma_highest_byte(a: u8, b: u8, c: u8, d: u8)
    ensures
        (a + b * 0x100 + c * 0x1_0000 + d * 0x100_0000) / 0x100_0000 == d,
{
}

proof fn lemma_bytes_of_word(raw: Seq<u8>, at: int, k: int)
    requires
        0 <= k < 4,
    ensures
        word_byte(word_at(raw, at), k) == raw[at + k],
{
    let (a, b, c, d) = (raw[at], raw[at + 1], raw[at + 2], raw[at + 3]);
    if k == 0 {
        lemma_lowest_byte(a, b + c * 0x100 + d * 0x1_0000);
    } else if k == 1 {
        lemma_second_byte(a, b, c + d * 0x100);
    } else if k == 2 {
        lemma_third_byte(a, b, c, d as int);
    } else {
        lemma_highest_byte(a, b, c, d);
    }
}

/// Writing the samples that were read gives back the raw bytes, but for those
/// behind the last whole sample.
pub proof fn read_samples_write_back(raw: Seq<u8>)
    ensures
        bytes_of(samples_of(raw)) == raw.take((raw.len() / 8 * 8) as int),
{
    let written = bytes_of(samples_of(raw));
    assert forall|i: int| 0 <= i < written.len() implies #[trigger] written[i] == raw[i] by {
        let at = 8 * (i / 8);
        let k = i % 8;
        if k < 4 {
            lemma_bytes_of_word(raw, at, k);
        } else {
            lemma_bytes_of_word(raw, at + 4, k - 4);
        }
    }
    assert(written =~= raw.take((raw.len() / 8 * 8) as int));
}

/// Sample `i` is made of the eight bytes from `8 * i` on: four of the in-phase part, the
/// lowest first, then four of the other. There are as many samples as whole groups of
/// eight bytes.
pub proof fn samples_are_made_of_bytes(raw: Seq<u8>, i: int)
    ensures
        samples_of(raw).len() == raw.len() / 8,
        0 <= i < raw.len() / 8 ==> {
            let sample = samples_of(raw)[i];
            &&& sample.re % 0x100 == raw[8 * i]
            &&& sample.re / 0x100 % 0x100 == raw[8 * i + 1]
            &&& sample.re / 0x1_0000 % 0x100 == raw[8 * i + 2]
            &&& sample.re / 0x100_0000 == raw[8 * i + 3]
            &&& sample.im % 0x100 == raw[8 * i + 4]
            &&& sample.im / 0x100 % 0x100 == raw[8 * i + 5]
            &&& sample.im / 0x1_0000 % 0x100 == raw[8 * i + 6]
            &&& sample.im / 0x100_0000 == raw[8 * i + 7]
        },
{
    if 0 <= i < raw.len() / 8 {
        lemma_bytes_of_word(raw, 8 * i, 0);
        lemma_bytes_of_word(raw, 8 * i, 1);
        lemma_bytes_of_word(raw, 8 * i, 2);
        lemma_bytes_of_word(raw, 8 * i, 3);
        lemma_bytes_of_word(raw, 8 * i + 4, 0);
        lemma_bytes_of_word(raw, 8 * i + 4, 1);
        lemma_bytes_of_word(raw, 8 * i + 4, 2);
        lemma_bytes_of_word(raw, 8 * i + 4, 3);
    }
}

/// The sample rate is that of `core:sample_rate` under `global`, and the frequency that of
/// `core:frequency` under the first of the `captures`, where these are integers.
pub proof fn description_is_read(
    document: serde_json::Value,
    global: serde_json::Value,
    rate: serde_json::Value,
    captures: serde_json::Value,
    frequency: serde_json::Value,
)
    ensures
        json::json_members(document).contains_pair("global"@, global) && json::json_members(
            global,
        ).contains_pair("core:sample_rate"@, rate) ==> described_rate(document)
            == json::json_unsigned(rate),
        json::json_members(document).contains_pair("captures"@, captures) && json::json_elements(
            captures,
        ).len() > 0 && json::json_members(json::json_elements(captures)[0]).contains_pair(
            "core:frequency"@,
            frequency,
        ) ==> described_frequency(document) == json::json_unsigned(frequency),
        !json::json_members(document).contains_key("global"@) ==> described_rate(document) is None,
        json::json_members(document).contains_pair("global"@, global) && !json::json_members(
            global,
        ).contains_key("core:sample_rate"@) ==> described_rate(document) is None,
        !json::json_members(document).contains_key("captures"@) ==> described_frequency(
            document,
        ) is None,
        json::json_members(document).contains_pair("captures"@, captures) && (json::json_elements(
            captures,
        ).len() == 0 || !json::json_members(json::json_elements(captures)[0]).contains_key(
            "core:frequency"@,
        )) ==> described_frequency(document) is None,
{
}

} // verus!

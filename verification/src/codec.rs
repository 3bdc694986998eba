//! The compressor: zstd, with a level and an optional dictionary.
//!
//! What zstd writes and reads is not modelled byte by byte. The frame it
//! writes, the content it reads and the length of a frame each have a
//! name, and the contracts of this library speak of those names. Of a
//! dictionary that it trains only bounds on the length are known.

use crate::wire::byte_views;
use vstd::prelude::*;

verus! {
/// Largest dictionary that is trained, in bytes.
pub const DICTIONARY_SIZE: usize = 65536;

/// Largest number of samples that a dictionary is trained on.
pub const MAX_SAMPLES: usize = 100;

/// Largest sample that a dictionary is trained on, in bytes.
pub const MAX_SAMPLE_SIZE: usize = 65536;

/// Fewest bytes that the trainer trains on.
pub const MIN_TRAINING_SIZE: usize = 8;

/// Fewest bytes in a trained dictionary: those of its header.
pub const DICTIONARY_HEADER_SIZE: usize = 8;

/// The frame that zstd writes for `data` at `level` with `dictionary`, or
/// nothing where it refuses them; an empty dictionary stands for none.
pub uninterp spec fn zstd_frame(data: Seq<u8>, level: int, dictionary: Seq<u8>) -> Option<Seq<u8>>;

/// The bytes of that frame; none where zstd writes no frame.
pub open spec fn frame_bytes(data: Seq<u8>, level: int, dictionary: Seq<u8>) -> Seq<u8> {
    match zstd_frame(data, level, dictionary) {
        Some(frame) => frame,
        None => Seq::empty(),
    }
}

/// What zstd reads out of `frames` with `dictionary`, or nothing where it
/// refuses them.
pub uninterp spec fn zstd_content(frames: Seq<u8>, dictionary: Seq<u8>) -> Option<Seq<u8>>;

/// The length of the first zstd frame at the start of `bytes`, or nothing
/// where no whole frame starts there.
pub uninterp spec fn zstd_first_frame_len(bytes: Seq<u8>) -> Option<nat>;

/// `frame` is one whole frame: whatever follows it in a buffer, the frame
/// that starts the buffer ends where `frame` does.
pub open spec fn is_single_frame(frame: Seq<u8>) -> bool {
    forall|tail: Seq<u8>| #[trigger] zstd_first_frame_len(frame + tail) == Some(frame.len())
}

/// `zstd::stream::read::Encoder::with_dictionary`, read to its end: the
/// compression of `data` in one frame. Claimed: whether a frame comes
/// back, and which, is a function of the three arguments; an error says
/// that zstd refuses them. Of a frame that comes back: read with the same
/// dictionary it gives `data` again, and it is a single whole frame.
#[verifier::external_body]
pub(crate) fn zstd_encode(data: &[u8], level: i32, dictionary: &[u8]) -> (r: Result<
    Vec<u8>,
    std::io::Error,
>)
    ensures
        match r {
            Ok(frame) => zstd_frame(data@, level as int, dictionary@) == Some(frame@)
                && zstd_content(frame@, dictionary@) == Some(data@) && is_single_frame(frame@),
            Err(_) => zstd_frame(data@, level as int, dictionary@) is None,
        },
{
    let mut frame = Vec::new();
    let mut encoder = zstd::stream::read::Encoder::with_dictionary(data, level, dictionary)?;
    std::io::Read::read_to_end(&mut encoder, &mut frame)?;
    Ok(frame)
}

/// `zstd::stream::read::Decoder::with_dictionary`, read to its end: the
/// content of `frames`. Claimed: whether content comes back, and which, is
/// a function of the two arguments; an error says that zstd refuses them.
#[verifier::external_body]
pub(crate) fn zstd_decode(frames: &[u8], dictionary: &[u8]) -> (r: Result<
    Vec<u8>,
    std::io::Error,
>)
    ensures
        match r {
            Ok(data) => zstd_content(frames@, dictionary@) == Some(data@),
            Err(_) => zstd_content(frames@, dictionary@) is None,
        },
{
    let mut data = Vec::new();
    let mut decoder = zstd::stream::read::Decoder::with_dictionary(frames, dictionary)?;
    std::io::Read::read_to_end(&mut decoder, &mut data)?;
    Ok(data)
}

/// `zstd_safe::find_frame_compressed_size`: the length of the frame at the
/// start of `bytes`, a function of `bytes`.
#[verifier::external_body]
pub(crate) fn zstd_frame_len(bytes: &[u8]) -> (r: Option<usize>)
    ensures
        match r {
            Some(n) => zstd_first_frame_len(bytes@) == Some(n as nat),
            None => zstd_first_frame_len(bytes@) is None,
        },
{
    zstd::zstd_safe::find_frame_compressed_size(bytes).ok()
}

/// Of `n` samples, the number that the trainer trains on: the first three
/// quarters. It tests what it made on the rest.
pub open spec fn training_count(n: nat) -> nat {
    3 * n / 4
}

/// Number of bytes in `samples`, all together.
pub open spec fn total_len(samples: Seq<Seq<u8>>) -> nat
    decreases samples.len(),
{
    if samples.len() == 0 {
        0
    } else {
        total_len(samples.drop_last()) + samples.last().len()
    }
}

/// A dictionary can be trained on `samples`: there are `MAX_SAMPLES` of
/// them at most, none has more than `MAX_SAMPLE_SIZE` bytes, and those
/// that the trainer trains on hold `MIN_TRAINING_SIZE` bytes or more.
pub open spec fn trainable(samples: Seq<Seq<u8>>) -> bool {
    &&& samples.len() <= MAX_SAMPLES
    &&& forall|i: int| 0 <= i < samples.len() ==> (#[trigger] samples[i]).len() <= MAX_SAMPLE_SIZE
    &&& total_len(samples.take(training_count(samples.len()) as int)) >= MIN_TRAINING_SIZE
}

/// `zstd::dict::from_samples`: a dictionary trained on `samples`, made
/// for a size of `max_size` bytes. Claimed of a dictionary that comes
/// back: it holds its header, of `DICTIONARY_HEADER_SIZE` bytes, or more.
/// Nothing else is claimed of it. Samples whose training share is under
/// `MIN_TRAINING_SIZE` bytes are kept away: the trainer tests the size of
/// all samples together, then takes the number of places it looks at as
/// the size of the training share less seven, which wraps around below
/// eight.
#[verifier::external_body]
pub(crate) fn zstd_train(samples: &Vec<Vec<u8>>, max_size: usize) -> (r: Result<
    Vec<u8>,
    std::io::Error,
>)
    requires
        trainable(byte_views(samples@)),
        max_size <= DICTIONARY_SIZE,
    ensures
        r matches Ok(d) ==> d@.len() >= DICTIONARY_HEADER_SIZE,
{
    zstd::dict::from_samples(samples, max_size)
}
} // verus!

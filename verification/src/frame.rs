//! The layout of a PMS5003 data frame.

use bincode::Options;
use vstd::prelude::*;

verus! {

/// The number of bytes in a frame's payload: fourteen big-endian words.
pub const EXPECT_FRAME_SIZE: usize = 28;

/// The number of bytes in a frame with its start marker and its size.
pub const FULL_FRAME_SIZE: usize = 32;

/// The first byte of the start marker, `b'B'`.
pub const START_OF_FRAME_0: u8 = 0x42;

/// The second byte of the start marker, `b'M'`.
pub const START_OF_FRAME_1: u8 = 0x4d;

/// The sum of a frame's first four bytes, which are the same in every frame.
pub const SUM_BASE: u16 = 171;

/// A PMS5003 data frame, verbatim.
#[derive(Debug, Clone, Copy, PartialEq, Eq, Structural)]
pub struct Frame {
    /// PM1.0 concentration in standard units
    pub pm10_standard: u16,
    /// PM2.5 concentration in standard units
    pub pm25_standard: u16,
    /// PM10.0 concentration in standard units
    pub pm100_standard: u16,
    /// PM1.0 concentration in environmental units
    pub pm10_env: u16,
    /// PM2.5 concentration in environmental units
    pub pm25_env: u16,
    /// PM10.0 concentration in environmental units
    pub pm100_env: u16,
    /// Number of 0.3um particles detected per 0.1L unit of air
    pub particles_03um: u16,
    /// Number of 0.5um particles detected per 0.1L unit of air
    pub particles_05um: u16,
    /// Number of 1.0um particles detected per 0.1L unit of air
    pub particles_10um: u16,
    /// Number of 2.5um particles detected per 0.1L unit of air
    pub particles_25um: u16,
    /// Number of 5.0um particles detected per 0.1L unit of air
    pub particles_50um: u16,
    /// Number of 10.0um particles detected per 0.1L unit of air
    pub particles_100um: u16,
    /// Reserved by the sensor
    pub _unused: u16,
    /// Sum of all the bytes of the frame before this word
    pub checksum: u16,
}

/// The word that a high and a low byte spell.
pub open spec fn be16(hi: u8, lo: u8) -> u16 {
    (hi * 256 + lo) as u16
}

/// The `i`th big-endian word of `bytes`.
pub open spec fn word_at(bytes: Seq<u8>, i: int) -> u16 {
    be16(bytes[2 * i], bytes[2 * i + 1])
}

/// The sum of `bytes`.
pub open spec fn byte_sum(bytes: Seq<u8>) -> nat
    decreases bytes.len(),
{
    if bytes.len() == 0 {
        0
    } else {
        byte_sum(bytes.drop_last()) + bytes.last() as nat
    }
}

/// The start marker and the size, with which every frame begins.
pub open spec fn header() -> Seq<u8> {
    seq![START_OF_FRAME_0, START_OF_FRAME_1, 0u8, EXPECT_FRAME_SIZE as u8]
}

/// The checksum that a payload ought to carry: the sum of every byte of the frame before the
/// checksum itself.
pub open spec fn expected_checksum(payload: Seq<u8>) -> nat {
    byte_sum(header() + payload.take(EXPECT_FRAME_SIZE - 2))
}

/// The frame that a payload spells.
pub open spec fn frame_of(payload: Seq<u8>) -> Frame {
    Frame {
        pm10_standard: word_at(payload, 0),
        pm25_standard: word_at(payload, 1),
        pm100_standard: word_at(payload, 2),
        pm10_env: word_at(payload, 3),
        pm25_env: word_at(payload, 4),
        pm100_env: word_at(payload, 5),
        particles_03um: word_at(payload, 6),
        particles_05um: word_at(payload, 7),
        particles_10um: word_at(payload, 8),
        particles_25um: word_at(payload, 9),
        particles_50um: word_at(payload, 10),
        particles_100um: word_at(payload, 11),
        _unused: word_at(payload, 12),
        checksum: word_at(payload, 13),
    }
}

/// The words of a frame, in the order in which the sensor sends them.
pub open spec fn words_of(frame: Frame) -> Seq<u16> {
    seq![
        frame.pm10_standard,
        frame.pm25_standard,
        frame.pm100_standard,
        frame.pm10_env,
        frame.pm25_env,
        frame.pm100_env,
        frame.particles_03um,
        frame.particles_05um,
        frame.particles_10um,
        frame.particles_25um,
        frame.particles_50um,
        frame.particles_100um,
        frame._unused,
        frame.checksum,
    ]
}

/// The bytes of a sequence of words, the high byte of each first.
pub open spec fn word_bytes(words: Seq<u16>) -> Seq<u8> {
    Seq::new(
        2 * words.len(),
        |i: int|
            if i % 2 == 0 {
                (words[i / 2] / 256) as u8
            } else {
                (words[i / 2] % 256) as u8
            },
    )
}

/// The payload that spells a frame.
pub open spec fn payload_of(frame: Frame) -> Seq<u8> {
    word_bytes(words_of(frame))
}

/// The bytes that the sensor sends for a frame.
pub open spec fn wire(frame: Frame) -> Seq<u8> {
    header() + payload_of(frame)
}

/// Whether a frame carries the checksum that its other words call for.
pub open spec fn intact(frame: Frame) -> bool {
    frame.checksum == expected_checksum(payload_of(frame))
}

/// What bincode says about bytes that it could not decode.
#[verifier::external_type_specification]
#[verifier::external_body]
pub struct ExBincodeErrorKind(bincode::ErrorKind);

/// Calls `bincode::Options::deserialize` with big-endian, fixed-width integers and trailing bytes
/// rejected. Fourteen words take twenty-eight bytes: the call succeeds on exactly that many, and
/// each word is then the two bytes at its place, high byte first.
#[verifier::external_body]
fn decode_words(bytes: &[u8]) -> (words: Result<[u16; 14], bincode::Error>)
    ensures
        words is Ok <==> bytes@.len() == EXPECT_FRAME_SIZE,
        words matches Ok(w) ==> forall|i: int| 0 <= i < 14 ==> w@[i] == word_at(bytes@, i),
{
    bincode::DefaultOptions::new().with_big_endian().with_fixint_encoding().deserialize(bytes)
}

impl Frame {
    /// Decodes a payload.
    pub fn decode(payload: &[u8]) -> (frame: Result<Frame, bincode::Error>)
        ensures
            frame is Ok <==> payload@.len() == EXPECT_FRAME_SIZE,
            frame matches Ok(f) ==> f == frame_of(payload@),
    {
        match decode_words(payload) {
            Ok(w) => Ok(
                Frame {
                    pm10_standard: w[0],
                    pm25_standard: w[1],
                    pm100_standard: w[2],
                    pm10_env: w[3],
                    pm25_env: w[4],
                    pm100_env: w[5],
                    particles_03um: w[6],
                    particles_05um: w[7],
                    particles_10um: w[8],
                    particles_25um: w[9],
                    particles_50um: w[10],
                    particles_100um: w[11],
                    _unused: w[12],
                    checksum: w[13],
                },
            ),
            Err(e) => Err(e),
        }
    }
}

/// Computes the checksum that a payload ought to carry.
pub fn payload_checksum(payload: &[u8]) -> (sum: u16)
    requires
        payload@.len() == EXPECT_FRAME_SIZE,
    ensures
        sum == expected_checksum(payload@),
{
    let mut sum: u16 = SUM_BASE;
    let mut i: usize = 0;
    proof {
        reveal_with_fuel(byte_sum, 5);
        assert(header() + payload@.take(0) =~= header());
        assert(header().drop_last().drop_last().drop_last().drop_last() =~= Seq::<u8>::empty());
    }
    while i < EXPECT_FRAME_SIZE - 2
        invariant
            payload@.len() == EXPECT_FRAME_SIZE,
            i <= EXPECT_FRAME_SIZE - 2,
            sum == byte_sum(header() + payload@.take(i as int)),
            sum <= SUM_BASE + 255 * i,
        decreases EXPECT_FRAME_SIZE - i,
    {
        proof {
            let next = header() + payload@.take(i + 1);
            assert(next.drop_last() =~= header() + payload@.take(i as int));
            assert(next.last() == payload@[i as int]);
        }
        sum = sum + payload[i] as u16;
        i = i + 1;
    }
    sum
}

/// The words of the bytes of some words are those words.
proof fn lemma_word_of_bytes(words: Seq<u16>, i: int)
    requires
        0 <= i < words.len(),
    ensures
        word_at(word_bytes(words), i) == words[i],
{
    assert((2 * i) % 2 == 0 && (2 * i) / 2 == i);
    assert((2 * i + 1) % 2 == 1 && (2 * i + 1) / 2 == i);
}

/// The bytes of the words of some bytes are those bytes.
proof fn lemma_bytes_of_words(words: Seq<u16>, bytes: Seq<u8>)
    requires
        bytes.len() == 2 * words.len(),
        forall|k: int| 0 <= k < words.len() ==> words[k] == word_at(bytes, k),
    ensures
        word_bytes(words) == bytes,
{
    assert forall|i: int| 0 <= i < bytes.len() implies word_bytes(words)[i] == bytes[i] by {
        let k = i / 2;
        assert(words[k] == word_at(bytes, k));
        assert(i == 2 * k || i == 2 * k + 1);
    }
    assert(word_bytes(words) =~= bytes);
}

/// Decoding the payload that spells a frame gives that frame back.
pub proof fn law_decode_of_encode(frame: Frame)
    ensures
        payload_of(frame).len() == EXPECT_FRAME_SIZE,
        frame_of(payload_of(frame)) == frame,
{
    let words = words_of(frame);
    assert forall|i: int| 0 <= i < words.len() implies #[trigger] word_at(word_bytes(words), i)
        == words[i] by {
        lemma_word_of_bytes(words, i);
    }
}

/// The frame that a payload spells is spelled by that payload alone.
pub proof fn law_encode_of_decode(payload: Seq<u8>)
    requires
        payload.len() == EXPECT_FRAME_SIZE,
    ensures
        payload_of(frame_of(payload)) == payload,
{
    lemma_bytes_of_words(words_of(frame_of(payload)), payload);
}

/// Whether a payload spells a frame: its fields in the sensor's order, two bytes each, the high one
/// first.
pub open spec fn spells(payload: Seq<u8>, frame: Frame) -> bool {
    &&& frame.pm10_standard == payload[0] * 256 + payload[1]
    &&& frame.pm25_standard == payload[2] * 256 + payload[3]
    &&& frame.pm100_standard == payload[4] * 256 + payload[5]
    &&& frame.pm10_env == payload[6] * 256 + payload[7]
    &&& frame.pm25_env == payload[8] * 256 + payload[9]
    &&& frame.pm100_env == payload[10] * 256 + payload[11]
    &&& frame.particles_03um == payload[12] * 256 + payload[13]
    &&& frame.particles_05um == payload[14] * 256 + payload[15]
    &&& frame.particles_10um == payload[16] * 256 + payload[17]
    &&& frame.particles_25um == payload[18] * 256 + payload[19]
    &&& frame.particles_50um == payload[20] * 256 + payload[21]
    &&& frame.particles_100um == payload[22] * 256 + payload[23]
    &&& frame._unused == payload[24] * 256 + payload[25]
    &&& frame.checksum == payload[26] * 256 + payload[27]
}

/// The sum of the bytes of a frame before its checksum: those of the marker and the size, and the
/// payload's but for the last two.
pub open spec fn bytes_before_checksum(payload: Seq<u8>) -> int {
    0x42 + 0x4d + 0 + 28 + payload.take(26).fold_left(0int, |sum: int, b: u8| sum + b)
}

proof fn lemma_byte_sum_append(front: Seq<u8>, back: Seq<u8>)
    ensures
        byte_sum(front + back) == byte_sum(front) + byte_sum(back),
    decreases back.len(),
{
    if back.len() == 0 {
        assert(front + back =~= front);
    } else {
        assert((front + back).drop_last() =~= front + back.drop_last());
        lemma_byte_sum_append(front, back.drop_last());
    }
}

proof fn lemma_byte_sum_is_fold(bytes: Seq<u8>)
    ensures
        byte_sum(bytes) == bytes.fold_left(0int, |sum: int, b: u8| sum + b),
        byte_sum(bytes) <= 255 * bytes.len(),
    decreases bytes.len(),
{
    reveal_with_fuel(Seq::fold_left, 2);
    if bytes.len() > 0 {
        lemma_byte_sum_is_fold(bytes.drop_last());
    }
}

/// Every field of a decoded frame is the two bytes at its place in the payload.
pub proof fn law_fields_in_order(payload: Seq<u8>)
    requires
        payload.len() == 28,
    ensures
        spells(payload, frame_of(payload)),
{
}

/// The checksum that is expected of a payload adds up all the bytes of the frame before the
/// checksum, each once.
pub proof fn law_checksum_adds_every_byte(payload: Seq<u8>)
    requires
        payload.len() == 28,
    ensures
        expected_checksum(payload) == bytes_before_checksum(payload),
        expected_checksum(payload) <= u16::MAX,
{
    lemma_byte_sum_append(header(), payload.take(26));
    lemma_byte_sum_is_fold(payload.take(26));
    reveal_with_fuel(byte_sum, 5);
    assert(header().drop_last().drop_last().drop_last().drop_last() =~= Seq::<u8>::empty());
}

/// Payloads of twenty-eight bytes can be decoded and no others, and each field is then read at its
/// place.
pub proof fn law_decode_reads_every_field(payload: &[u8], frame: Result<Frame, bincode::Error>)
    requires
        call_ensures(Frame::decode, (payload,), frame),
    ensures
        frame is Ok <==> payload@.len() == 28,
        frame matches Ok(f) ==> spells(payload@, f),
{
    if payload@.len() == 28 {
        law_fields_in_order(payload@);
    }
}

/// The checksum that is computed for a payload adds up all the bytes of the frame before the
/// checksum.
pub proof fn law_computed_checksum_adds_every_byte(payload: &[u8], sum: u16)
    requires
        payload@.len() == 28,
        call_ensures(payload_checksum, (payload,), sum),
    ensures
        sum == bytes_before_checksum(payload@),
{
    law_checksum_adds_every_byte(payload@);
}

} // verus!

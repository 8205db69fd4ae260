//! How long an MP3 file plays.

use vstd::prelude::*;

use crate::metadata::id3v2::{
    counts_frames, duration_of, first_frame, measurable, mpeg_header, xing_place, MpegInfo,
};

verus! {

/// The bit rates of MPEG 1 Layer I frames, in thousands of bits per second.
pub open spec fn rates_1_1() -> Seq<int> {
    seq![32int, 64, 96, 128, 160, 192, 224, 256, 288, 320, 352, 384, 416, 448]
}

/// The bit rates of MPEG 1 Layer II frames.
pub open spec fn rates_1_2() -> Seq<int> {
    seq![32int, 48, 56, 64, 80, 96, 112, 128, 160, 192, 224, 256, 320, 384]
}

/// The bit rates of MPEG 1 Layer III frames.
pub open spec fn rates_1_3() -> Seq<int> {
    seq![32int, 40, 48, 56, 64, 80, 96, 112, 128, 160, 192, 224, 256, 320]
}

/// The bit rates of MPEG 2 and 2.5 Layer I frames.
pub open spec fn rates_2_1() -> Seq<int> {
    seq![32int, 48, 56, 64, 80, 96, 112, 128, 144, 160, 176, 192, 224, 256]
}

/// The bit rates of MPEG 2 and 2.5 Layer II and III frames.
pub open spec fn rates_2_3() -> Seq<int> {
    seq![8int, 16, 24, 32, 40, 48, 56, 64, 80, 96, 112, 128, 144, 160]
}

/// Whether a frame header starts with the sync word, has this second byte (whatever its lowest
/// bit), and announces bit rate number `rate` and sample rate number `hz`, counted from zero.
pub open spec fn heads(h: Seq<u8>, second: int, rate: int, hz: int) -> bool {
    &&& h.len() == 4
    &&& h[0] == 0xFF
    &&& h[1] == second || h[1] == second + 1
    &&& 0 <= rate < 14
    &&& 0 <= hz < 3
    &&& h[2] / 16 == rate + 1
    &&& h[2] / 4 % 4 == hz
}

/// What the header of an MPEG 1 frame says: the bit rates and sample rates of the standard, and
/// 384 samples in a Layer I frame, 1152 in any other.
pub proof fn law_mpeg1_header(h: Seq<u8>, rate: int, hz: int)
    ensures
        heads(h, 0xFE, rate, hz) ==> (mpeg_header(h) matches Some(info) && info.bitrate
            == rates_1_1()[rate] * 1000 && info.samples_per_frame == 384 && info.sample_rate
            == seq![44100int, 48000, 32000][hz] && info.version_mpeg1),
        heads(h, 0xFC, rate, hz) ==> (mpeg_header(h) matches Some(info) && info.bitrate
            == rates_1_2()[rate] * 1000 && info.samples_per_frame == 1152 && info.sample_rate
            == seq![44100int, 48000, 32000][hz] && info.version_mpeg1),
        heads(h, 0xFA, rate, hz) ==> (mpeg_header(h) matches Some(info) && info.bitrate
            == rates_1_3()[rate] * 1000 && info.samples_per_frame == 1152 && info.sample_rate
            == seq![44100int, 48000, 32000][hz] && info.version_mpeg1),
{
}

/// What the header of an MPEG 2 frame says: as for MPEG 1, with half the sample rates, other bit
/// rates, and 576 samples in a Layer III frame.
pub proof fn law_mpeg2_header(h: Seq<u8>, rate: int, hz: int)
    ensures
        heads(h, 0xF6, rate, hz) ==> (mpeg_header(h) matches Some(info) && info.bitrate
            == rates_2_1()[rate] * 1000 && info.samples_per_frame == 384 && info.sample_rate
            == seq![22050int, 24000, 16000][hz] && !info.version_mpeg1),
        heads(h, 0xF4, rate, hz) ==> (mpeg_header(h) matches Some(info) && info.bitrate
            == rates_2_3()[rate] * 1000 && info.samples_per_frame == 1152 && info.sample_rate
            == seq![22050int, 24000, 16000][hz] && !info.version_mpeg1),
        heads(h, 0xF2, rate, hz) ==> (mpeg_header(h) matches Some(info) && info.bitrate
            == rates_2_3()[rate] * 1000 && info.samples_per_frame == 576 && info.sample_rate
            == seq![22050int, 24000, 16000][hz] && !info.version_mpeg1),
{
}

/// What the header of an MPEG 2.5 frame says: as for MPEG 2, with half the sample rates again.
pub proof fn law_mpeg25_header(h: Seq<u8>, rate: int, hz: int)
    ensures
        heads(h, 0xE6, rate, hz) ==> (mpeg_header(h) matches Some(info) && info.bitrate
            == rates_2_1()[rate] * 1000 && info.samples_per_frame == 384 && info.sample_rate
            == seq![11025int, 12000, 8000][hz] && !info.version_mpeg1),
        heads(h, 0xE4, rate, hz) ==> (mpeg_header(h) matches Some(info) && info.bitrate
            == rates_2_3()[rate] * 1000 && info.samples_per_frame == 1152 && info.sample_rate
            == seq![11025int, 12000, 8000][hz] && !info.version_mpeg1),
        heads(h, 0xE2, rate, hz) ==> (mpeg_header(h) matches Some(info) && info.bitrate
            == rates_2_3()[rate] * 1000 && info.samples_per_frame == 576 && info.sample_rate
            == seq![11025int, 12000, 8000][hz] && !info.version_mpeg1),
{
}

/// A frame of Layer II or III takes 144 times the bit rate divided by the sample rate in bytes,
/// rounded down, and one more where it is padded. A frame of Layer I takes 12 times that quotient in
/// slots of four bytes, and one slot more where it is padded.
pub proof fn law_frame_length(h: Seq<u8>)
    requires
        h.len() == 4,
        mpeg_header(h) is Some,
    ensures
        ({
            let info = mpeg_header(h)->0;
            let padding = (h[2] / 2 % 2) as int;
            &&& h[1] / 2 % 4 != 3 ==> info.frame_length == 144 * info.bitrate / (
            info.sample_rate as int) + padding
            &&& h[1] / 2 % 4 == 3 ==> info.frame_length == (12 * info.bitrate / (
            info.sample_rate as int) + padding) * 4
        }),
{
    let info = mpeg_header(h)->0;
    let rate = info.bitrate as int;
    let hz = info.sample_rate as int;
    assert(0 < rate <= 448_000 && hz >= 8000);
    assert(0 <= 144 * rate / hz <= 144 * rate) by (nonlinear_arith)
        requires
            0 < rate,
            hz >= 1,
    ;
    assert(0 <= 12 * rate / hz <= 12 * rate) by (nonlinear_arith)
        requires
            0 < rate,
            hz >= 1,
    ;
}

/// Bit rates rise with their numbers, whatever the version and the layer.
pub proof fn law_bitrates_rise(h: Seq<u8>, g: Seq<u8>)
    requires
        h.len() == 4,
        g.len() == 4,
        h[1] == g[1],
        h[2] / 16 < g[2] / 16,
        mpeg_header(h) is Some,
        mpeg_header(g) is Some,
    ensures
        mpeg_header(h)->0.bitrate < mpeg_header(g)->0.bitrate,
{
}

/// Four bytes are a frame header exactly if they start with eleven set bits and neither the
/// version, the layer, the bit rate nor the sample rate is one of the reserved values.
pub proof fn law_frame_headers(h: Seq<u8>)
    requires
        h.len() == 4,
    ensures
        mpeg_header(h) is Some <==> h[0] == 0xFF && h[1] / 32 == 7 && h[1] / 8 % 4 != 1 && h[1] / 2
            % 4 != 0 && 1 <= h[2] / 16 <= 14 && h[2] / 4 % 4 != 3,
{
}

/// Whether the first frame starts at `pos`: nothing before it looks like a sync word.
pub open spec fn starts_at(audio: Seq<u8>, pos: int) -> bool {
    &&& 0 <= pos < 999_996
    &&& pos + 4 < audio.len()
    &&& forall|p: int| 0 <= p < pos ==> !(#[trigger] audio[p] == 0xFF && audio[p + 1] >= 0xE0)
}

proof fn lemma_first_frame(audio: Seq<u8>, from: int, pos: int)
    requires
        starts_at(audio, pos),
        0 <= from <= pos,
        mpeg_header(audio.subrange(pos, pos + 4)) is Some,
    ensures
        first_frame(audio, from) == Some(pos),
    decreases pos - from,
{
    if from < pos {
        let h = audio.subrange(from, from + 4);
        assert(h[0] == audio[from] && h[1] == audio[from + 1]);
        assert(mpeg_header(h) is None);
        lemma_first_frame(audio, from + 1, pos);
    }
}

/// Where a frame header at `pos` leaves room for the count of frames: behind the side information,
/// which takes 32 bytes in an MPEG 1 frame (17 if it is mono) and 17 in any other (9 if it is mono).
pub open spec fn count_place(audio: Seq<u8>, pos: int) -> int {
    let mpeg1 = audio[pos + 1] / 8 % 4 == 3;
    let mono = audio[pos + 3] / 64 == 3;
    pos + 4 + (if mpeg1 && !mono {
        32int
    } else if mpeg1 || !mono {
        17
    } else {
        9
    })
}

/// Whether the bytes at `at` are `Xing` or `Info`.
pub open spec fn marked(audio: Seq<u8>, at: int) -> bool {
    &&& 0 <= at
    &&& at + 8 <= audio.len()
    &&& audio.subrange(at, at + 4) == seq![0x58u8, 0x69, 0x6e, 0x67] || audio.subrange(at, at + 4)
        == seq![0x49u8, 0x6e, 0x66, 0x6f]
}

/// A file of constant bit rate plays as many seconds as its bits take at that rate: eight times
/// the bytes from the first frame on, divided by the bits per second.
pub proof fn law_constant_rate(audio: Seq<u8>, pos: int, info: MpegInfo)
    requires
        starts_at(audio, pos),
        mpeg_header(audio.subrange(pos, pos + 4)) == Some(info),
        !marked(audio, count_place(audio, pos)),
        (audio.len() - pos) * 8 < 0x1_0000_0000 * 8000,
    ensures
        measurable(audio),
        ({
            let bits = (audio.len() - pos) * 8;
            let seconds = duration_of(audio);
            seconds * info.bitrate <= bits < (seconds + 1) * info.bitrate
        }),
{
    lemma_first_frame(audio, 0, pos);
    let h = audio.subrange(pos, pos + 4);
    assert(h[1] == audio[pos + 1] && h[3] == audio[pos + 3]);
    assert(xing_place(audio, pos) == count_place(audio, pos));
    let bits = (audio.len() - pos) * 8;
    let rate = info.bitrate as int;
    assert(rate >= 8000);
    let q = bits / rate;
    vstd::arithmetic::div_mod::lemma_fundamental_div_mod(bits, rate);
    assert(q * rate <= bits < (q + 1) * rate) by (nonlinear_arith)
        requires
            bits == rate * q + bits % rate,
            0 <= bits % rate < rate,
    ;
    assert(0 <= q < 0x1_0000_0000) by (nonlinear_arith)
        requires
            q * rate <= bits,
            bits < (q + 1) * rate,
            0 <= bits < 0x1_0000_0000 * 8000,
            rate >= 8000,
    ;
}

/// A file of constant bit rate that is MPEG 1 Layer III, as most are, plays for eight times its
/// bytes divided by the bit rate in its header.
pub proof fn law_constant_layer3(audio: Seq<u8>, rate: int, hz: int)
    requires
        audio.len() > 4,
        audio.len() * 8 < 0x1_0000_0000 * 8000,
        heads(audio.subrange(0, 4), 0xFA, rate, hz),
        !marked(audio, 36),
        !marked(audio, 21),
    ensures
        duration_of(audio) == (audio.len() * 8) as int / (rates_1_3()[rate] * 1000),
{
    let h = audio.subrange(0, 4);
    law_mpeg1_header(h, rate, hz);
    assert(h[1] == audio[1] && h[3] == audio[3]);
    let info = mpeg_header(h)->0;
    law_constant_rate(audio, 0, info);
    let bits = (audio.len() * 8) as int;
    let seconds = duration_of(audio);
    let per = info.bitrate as int;
    assert(0 <= bits - seconds * per < per) by (nonlinear_arith)
        requires
            seconds * per <= bits < (seconds + 1) * per,
    ;
    vstd::arithmetic::div_mod::lemma_fundamental_div_mod_converse(
        bits,
        per,
        seconds,
        bits - seconds * per,
    );
}

/// A file whose first frame counts the frames plays as long as their samples take: the count, in
/// four bytes behind the flags, times the samples in a frame, divided by the sample rate.
pub proof fn law_counted_frames(audio: Seq<u8>, pos: int, info: MpegInfo, frames: int)
    requires
        starts_at(audio, pos),
        mpeg_header(audio.subrange(pos, pos + 4)) == Some(info),
        ({
            let at = count_place(audio, pos);
            &&& marked(audio, at)
            &&& at + 12 <= audio.len()
            &&& audio[at + 7] % 2 == 1
            &&& frames == ((audio[at + 8] * 256 + audio[at + 9]) * 256 + audio[at + 10]) * 256
                + audio[at + 11]
        }),
    ensures
        measurable(audio),
        duration_of(audio) == frames * info.samples_per_frame / (info.sample_rate as int),
{
    lemma_first_frame(audio, 0, pos);
    let h = audio.subrange(pos, pos + 4);
    assert(h[1] == audio[pos + 1] && h[3] == audio[pos + 3]);
    let at = count_place(audio, pos);
    assert(xing_place(audio, pos) == at);
    assert(counts_frames(audio, at));
    assert(crate::bytes::be32(audio, at + 8) == frames);
}

/// Audio without a frame header among its first million bytes has no length.
pub proof fn law_no_frames(audio: Seq<u8>)
    requires
        forall|p: int|
            0 <= p < 999_996 && p + 1 < audio.len() ==> !(#[trigger] audio[p] == 0xFF && audio[p + 1]
                >= 0xE0),
    ensures
        duration_of(audio) == 0,
{
    lemma_none(audio, 0);
}

proof fn lemma_none(audio: Seq<u8>, from: int)
    requires
        0 <= from,
        forall|p: int|
            0 <= p < 999_996 && p + 1 < audio.len() ==> !(#[trigger] audio[p] == 0xFF && audio[p + 1]
                >= 0xE0),
    ensures
        first_frame(audio, from) is None,
    decreases audio.len() - from,
{
    if from + 4 < audio.len() && from + 4 < 1_000_000 {
        let h = audio.subrange(from, from + 4);
        assert(h[0] == audio[from] && h[1] == audio[from + 1]);
        lemma_none(audio, from + 1);
    }
}

} // verus!

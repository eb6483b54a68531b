//! The identification header: nineteen bytes in the one segment of the
//! first page.

use crate::error::{check_prefix, yields, Error, ErrorView};
use crate::ogg::{lacing, segments_of, OggPage, PageView};
use crate::text::{byte_list, decimal, push_byte_list, push_decimal};
use vstd::bytes::{
    spec_u16_from_le_bytes, spec_u16_to_le_bytes, spec_u32_from_le_bytes, spec_u32_to_le_bytes,
    u16_from_le_bytes, u16_to_le_bytes, u32_from_le_bytes, u32_to_le_bytes,
};
use vstd::prelude::*;
use vstd::slice::slice_subrange;
use vstd::std_specs::convert::{FromSpecImpl, TryFromSpecImpl};
use vstd::string::*;

verus! {

/// The highest version of an identification header that is read.
pub const HEAD_VERSION_LIMIT: u8 = 15;

/// The length of an identification header without a channel mapping table.
pub const HEAD_LEN: usize = 19;

/// The eight bytes that an identification header starts with: "OpusHead".
pub open spec fn head_magic() -> Seq<u8> {
    seq![0x4fu8, 0x70u8, 0x75u8, 0x73u8, 0x48u8, 0x65u8, 0x61u8, 0x64u8]
}

/// How the channels of a stream are laid out.
#[derive(Debug, PartialEq, Eq, Clone, Copy)]
pub enum MappingFamily {
    RTP,
    VorbisChannelOrder,
    NotDefined(u8),
}

/// The mapping family that a byte stands for.
pub open spec fn mapping_family_of(value: u8) -> MappingFamily {
    if value == 0 {
        MappingFamily::RTP
    } else if value == 1 {
        MappingFamily::VorbisChannelOrder
    } else {
        MappingFamily::NotDefined(value)
    }
}

/// The byte that a mapping family is written as.
pub open spec fn mapping_family_byte(family: MappingFamily) -> u8 {
    match family {
        MappingFamily::RTP => 0,
        MappingFamily::VorbisChannelOrder => 1,
        MappingFamily::NotDefined(value) => value,
    }
}

impl From<u8> for MappingFamily {
    fn from(value: u8) -> (r: Self) {
        match value {
            0 => Self::RTP,
            1 => Self::VorbisChannelOrder,
            value => Self::NotDefined(value),
        }
    }
}

impl FromSpecImpl<u8> for MappingFamily {
    open spec fn obeys_from_spec() -> bool {
        true
    }

    open spec fn from_spec(value: u8) -> Self {
        mapping_family_of(value)
    }
}

impl From<MappingFamily> for u8 {
    fn from(value: MappingFamily) -> (r: u8) {
        match value {
            MappingFamily::RTP => 0,
            MappingFamily::VorbisChannelOrder => 1,
            MappingFamily::NotDefined(nr) => nr,
        }
    }
}

impl FromSpecImpl<MappingFamily> for u8 {
    open spec fn obeys_from_spec() -> bool {
        true
    }

    open spec fn from_spec(value: MappingFamily) -> u8 {
        mapping_family_byte(value)
    }
}

/// The sample rates that a stream can name.
#[derive(Debug, PartialEq, Eq, Clone, Copy)]
pub enum SampleRate {
    KHz8,
    KHz12,
    KHz16,
    KHz24,
    KHz48,
}

/// A sample rate in hertz.
pub open spec fn sample_rate_hz(rate: SampleRate) -> u32 {
    match rate {
        SampleRate::KHz8 => 8000,
        SampleRate::KHz12 => 12000,
        SampleRate::KHz16 => 16000,
        SampleRate::KHz24 => 24000,
        SampleRate::KHz48 => 48000,
    }
}

/// The sample rate of so many hertz, where there is one.
pub open spec fn sample_rate_of(value: u32) -> Result<SampleRate, u32> {
    if value == 8000 {
        Ok(SampleRate::KHz8)
    } else if value == 12000 {
        Ok(SampleRate::KHz12)
    } else if value == 16000 {
        Ok(SampleRate::KHz16)
    } else if value == 24000 {
        Ok(SampleRate::KHz24)
    } else if value == 48000 {
        Ok(SampleRate::KHz48)
    } else {
        Err(value)
    }
}

impl From<SampleRate> for u32 {
    fn from(value: SampleRate) -> (r: u32) {
        match value {
            SampleRate::KHz8 => 8000,
            SampleRate::KHz12 => 12000,
            SampleRate::KHz16 => 16000,
            SampleRate::KHz24 => 24000,
            SampleRate::KHz48 => 48000,
        }
    }
}

impl FromSpecImpl<SampleRate> for u32 {
    open spec fn obeys_from_spec() -> bool {
        true
    }

    open spec fn from_spec(value: SampleRate) -> u32 {
        sample_rate_hz(value)
    }
}

impl TryFrom<u32> for SampleRate {
    type Error = u32;

    fn try_from(value: u32) -> (r: Result<Self, u32>) {
        match value {
            8000 => Ok(Self::KHz8),
            12000 => Ok(Self::KHz12),
            16000 => Ok(Self::KHz16),
            24000 => Ok(Self::KHz24),
            48000 => Ok(Self::KHz48),
            sr => Err(sr),
        }
    }
}

impl TryFromSpecImpl<u32> for SampleRate {
    open spec fn obeys_try_from_spec() -> bool {
        true
    }

    open spec fn try_from_spec(value: u32) -> Result<Self, u32> {
        sample_rate_of(value)
    }
}

/// An output gain as a fixed-point number: `m` is the signed whole part and
/// `n` counts 256ths.
#[derive(Debug, PartialEq, Eq, Clone, Copy)]
pub struct Gain {
    pub m: i8,
    pub n: u8,
}

/// What the identification header says of a stream.
#[derive(Debug, PartialEq, Eq, Clone, Copy)]
pub struct OpusHead {
    pub version: u8,
    pub channel_count: u8,
    pub pre_skip: u16,
    pub sample_rate: SampleRate,
    pub gain: Gain,
    pub channel_map: MappingFamily,
}

/// The nineteen bytes that an identification header is written as.
pub open spec fn head_bytes(head: OpusHead) -> Seq<u8> {
    head_magic() + seq![head.version, head.channel_count] + spec_u16_to_le_bytes(head.pre_skip)
        + spec_u32_to_le_bytes(sample_rate_hz(head.sample_rate)) + seq![
        head.gain.m as u8,
        head.gain.n,
        mapping_family_byte(head.channel_map),
    ]
}

/// The reason given for a header page that has moved on in time.
pub open spec fn granule_reason(granule_position: u64) -> Seq<char> {
    "granule position needs to be zero, but was "@ + decimal(granule_position as nat)
}

/// The reason given for an identification header that is not one segment.
pub open spec fn segment_count_reason(segments: Seq<Seq<u8>>) -> Seq<char> {
    "expected one segment, but got segments of sizes "@ + byte_list(lacing(segments))
}

/// The reason given for an identification header of another length.
pub open spec fn head_length_reason(len: nat) -> Seq<char> {
    "OpusHead needs to be length 19, but was "@ + decimal(len)
}

/// The reason given for a sample rate that a stream cannot name.
pub open spec fn sample_rate_reason(value: u32) -> Seq<char> {
    "unsupported sample rate "@ + decimal(value as nat)
}

/// The identification header that `page` carries, or why it carries none.
pub open spec fn decode_head(page: PageView) -> Result<OpusHead, ErrorView> {
    if page.granule_position != 0 {
        Err(ErrorView::MalformedData(granule_reason(page.granule_position)))
    } else if page.segments.len() != 1 {
        Err(ErrorView::MalformedData(segment_count_reason(page.segments)))
    } else {
        let bytes = page.segments[0];
        if bytes.len() != HEAD_LEN {
            Err(ErrorView::MalformedData(head_length_reason(bytes.len())))
        } else if check_prefix(bytes, head_magic()) is Err {
            Err(check_prefix(bytes, head_magic())->Err_0)
        } else if bytes[8] > HEAD_VERSION_LIMIT {
            Err(ErrorView::UnsupportetVersion(bytes[8]))
        } else {
            match sample_rate_of(spec_u32_from_le_bytes(bytes.subrange(12, 16))) {
                Err(value) => Err(ErrorView::MalformedData(sample_rate_reason(value))),
                Ok(sample_rate) => Ok(
                    OpusHead {
                        version: bytes[8],
                        channel_count: bytes[9],
                        pre_skip: spec_u16_from_le_bytes(bytes.subrange(10, 12)),
                        sample_rate,
                        gain: Gain { m: bytes[16] as i8, n: bytes[17] },
                        channel_map: mapping_family_of(bytes[18]),
                    },
                ),
            }
        }
    }
}

/// The reason for a page whose granule position is not zero.
pub(crate) fn granule_error(granule_position: u64) -> (error: Error)
    ensures
        error@ == ErrorView::MalformedData(granule_reason(granule_position)),
{
    let mut reason = String::from_str("granule position needs to be zero, but was ");
    push_decimal(&mut reason, granule_position);
    Error::MalformedData(reason)
}

impl OpusHead {
    /// The bytes that the header is written as.
    pub fn to_bytes(&self) -> (bytes: Vec<u8>)
        ensures
            bytes@ == head_bytes(*self),
            bytes@.len() == HEAD_LEN,
    {
        let mut buf: Vec<u8> = vec![0x4fu8, 0x70u8, 0x75u8, 0x73u8, 0x48u8, 0x65u8, 0x61u8, 0x64u8];
        buf.push(self.version);
        buf.push(self.channel_count);
        let pre_skip = u16_to_le_bytes(self.pre_skip);
        buf.extend_from_slice(pre_skip.as_slice());
        let sample_rate = u32_to_le_bytes(u32::from(self.sample_rate));
        buf.extend_from_slice(sample_rate.as_slice());
        buf.push(self.gain.m as u8);
        buf.push(self.gain.n);
        buf.push(u8::from(self.channel_map));
        assert(buf@ =~= head_bytes(*self));
        buf
    }

    /// Reads the identification header that `ogg_head` carries.
    pub fn from(ogg_head: &OggPage) -> (r: Result<Self, Error>)
        ensures
            yields(r, decode_head(ogg_head@)),
    {
        if ogg_head.granule_position != 0 {
            return Err(granule_error(ogg_head.granule_position));
        }
        let table = ogg_head.segment_table();
        if table.len() != 1 {
            let mut sizes: Vec<u8> = Vec::new();
            let mut i: usize = 0;
            while i < table.len()
                invariant
                    i <= table@.len(),
                    segments_of(table@) == ogg_head@.segments,
                    sizes@ == lacing(ogg_head@.segments).take(i as int),
                decreases table@.len() - i,
            {
                assert(segments_of(table@)[i as int] == table@[i as int]@);
                sizes.push(table[i].len() as u8);
                assert(lacing(ogg_head@.segments).take(i + 1) =~= lacing(ogg_head@.segments).take(
                    i as int,
                ).push(lacing(ogg_head@.segments)[i as int]));
                i = i + 1;
            }
            assert(lacing(ogg_head@.segments).take(i as int) =~= lacing(ogg_head@.segments));
            let mut reason = String::from_str("expected one segment, but got segments of sizes ");
            push_byte_list(&mut reason, sizes.as_slice());
            return Err(Error::MalformedData(reason));
        }
        assert(segments_of(table@)[0] == table@[0]@);
        let buf = table[0].as_slice();
        if buf.len() != HEAD_LEN {
            let mut reason = String::from_str("OpusHead needs to be length 19, but was ");
            push_decimal(&mut reason, buf.len() as u64);
            return Err(Error::MalformedData(reason));
        }
        let expect: Vec<u8> = vec![0x4fu8, 0x70u8, 0x75u8, 0x73u8, 0x48u8, 0x65u8, 0x61u8, 0x64u8];
        assert(expect@ =~= head_magic());
        Error::expect_starts_with(buf, expect.as_slice())?;
        let version = buf[8];
        if version > HEAD_VERSION_LIMIT {
            return Err(Error::UnsupportetVersion(version));
        }
        let channel_count = buf[9];
        let channel_map = MappingFamily::from(buf[18]);
        let sample_rate = match SampleRate::try_from(u32_from_le_bytes(slice_subrange(buf, 12, 16))) {
            Err(value) => {
                let mut reason = String::from_str("unsupported sample rate ");
                push_decimal(&mut reason, value as u64);
                return Err(Error::MalformedData(reason));
            },
            Ok(sample_rate) => sample_rate,
        };
        Ok(
            Self {
                version,
                channel_count,
                pre_skip: u16_from_le_bytes(slice_subrange(buf, 10, 12)),
                sample_rate,
                gain: Gain { m: buf[16] as i8, n: buf[17] },
                channel_map,
            },
        )
    }
}

} // verus!

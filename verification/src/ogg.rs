//! One page of an Ogg stream: its header fields, its table of segments, the
//! bytes it is written as, and the pages of a stream one after the other.
//!
//! What is stated of written and read pages is proved in [`laws`].

pub mod laws;

use self::laws::{lemma_frame_layout, lemma_lacing_sum_grows};
use crate::checksum::{checksum, crc32};
use crate::error::{check_prefix, yields_view, Error, ErrorView};
use crate::stream::{after_fill, filled, ByteSource};
use crate::text::{decimal, push_decimal};
use vstd::bytes::{
    spec_u32_from_le_bytes, spec_u32_to_le_bytes, spec_u64_from_le_bytes, spec_u64_to_le_bytes,
    u32_from_le_bytes, u32_to_le_bytes, u64_from_le_bytes, u64_to_le_bytes,
};
use vstd::prelude::*;
use vstd::slice::slice_subrange;
use vstd::std_specs::convert::{FromSpecImpl, TryFromSpecImpl};
use vstd::string::*;

verus! {

/// The most segments that a page holds, and the most bytes that a segment holds.
pub const SEGMENT_LIMIT: usize = 255;

/// What a page is within its logical stream.
#[derive(Debug, PartialEq, Eq, Clone, Copy)]
pub enum HeaderType {
    Simple,
    Continuation,
    BoS,
    EoS,
}

/// The byte that a header type is written as.
pub open spec fn header_type_byte(header_type: HeaderType) -> u8 {
    match header_type {
        HeaderType::Simple => 0x00,
        HeaderType::Continuation => 0x01,
        HeaderType::BoS => 0x02,
        HeaderType::EoS => 0x04,
    }
}

/// The header type that a byte stands for, where it stands for one.
pub open spec fn header_type_of(value: u8) -> Result<HeaderType, u8> {
    if value == 0x00 {
        Ok(HeaderType::Simple)
    } else if value == 0x01 {
        Ok(HeaderType::Continuation)
    } else if value == 0x02 {
        Ok(HeaderType::BoS)
    } else if value == 0x04 {
        Ok(HeaderType::EoS)
    } else {
        Err(value)
    }
}

impl TryFrom<u8> for HeaderType {
    type Error = u8;

    fn try_from(value: u8) -> (r: Result<Self, u8>) {
        match value {
            0x00 => Ok(Self::Simple),
            0x01 => Ok(Self::Continuation),
            0x02 => Ok(Self::BoS),
            0x04 => Ok(Self::EoS),
            value => Err(value),
        }
    }
}

impl TryFromSpecImpl<u8> for HeaderType {
    open spec fn obeys_try_from_spec() -> bool {
        true
    }

    open spec fn try_from_spec(value: u8) -> Result<Self, u8> {
        header_type_of(value)
    }
}

impl From<HeaderType> for u8 {
    fn from(value: HeaderType) -> (r: u8) {
        match value {
            HeaderType::Simple => 0x00,
            HeaderType::Continuation => 0x01,
            HeaderType::BoS => 0x02,
            HeaderType::EoS => 0x04,
        }
    }
}

impl FromSpecImpl<HeaderType> for u8 {
    open spec fn obeys_from_spec() -> bool {
        true
    }

    open spec fn from_spec(value: HeaderType) -> u8 {
        header_type_byte(value)
    }
}

/// Why a table of segments is refused.
#[derive(Debug, PartialEq, Eq, Clone, Copy)]
pub enum SegmentToLarge {
    /// The segment at `position` holds `size` bytes, more than a segment may.
    SegmentToLong { size: usize, position: usize },
    /// The table would hold `size` segments, more than a page may.
    TooManySegments { size: usize },
}

/// A table of segments as contracts speak of it.
pub open spec fn segments_of(table: Seq<Vec<u8>>) -> Seq<Seq<u8>> {
    table.map_values(|segment: Vec<u8>| segment@)
}

/// A table fits a page: at most 255 segments of at most 255 bytes each.
pub open spec fn valid_segments(segments: Seq<Seq<u8>>) -> bool {
    &&& segments.len() <= SEGMENT_LIMIT
    &&& forall|i: int| 0 <= i < segments.len() ==> (#[trigger] segments[i]).len() <= SEGMENT_LIMIT
}

/// `refusal` is what a table that does not fit is answered with: too many
/// segments come before a segment that is too long, and of those the first
/// is named.
pub open spec fn refuses(segments: Seq<Seq<u8>>, refusal: SegmentToLarge) -> bool {
    match refusal {
        SegmentToLarge::TooManySegments { size } => {
            &&& segments.len() > SEGMENT_LIMIT
            &&& size == segments.len()
        },
        SegmentToLarge::SegmentToLong { size, position } => {
            &&& segments.len() <= SEGMENT_LIMIT
            &&& position < segments.len()
            &&& size == segments[position as int].len()
            &&& size > SEGMENT_LIMIT
            &&& forall|i: int| 0 <= i < position ==> (#[trigger] segments[i]).len() <= SEGMENT_LIMIT
        },
    }
}

/// `refusal` is what one more segment is answered with where the table cannot take it.
pub open spec fn refuses_new(
    segments: Seq<Seq<u8>>,
    new: Seq<u8>,
    refusal: SegmentToLarge,
) -> bool {
    match refusal {
        SegmentToLarge::TooManySegments { size } => {
            &&& segments.len() + 1 > SEGMENT_LIMIT
            &&& size == segments.len() + 1
        },
        SegmentToLarge::SegmentToLong { size, position } => {
            &&& segments.len() + 1 <= SEGMENT_LIMIT
            &&& new.len() > SEGMENT_LIMIT
            &&& size == new.len()
            &&& position == segments.len()
        },
    }
}

/// The reason given for a table that is refused.
pub open spec fn refusal_reason(refusal: SegmentToLarge) -> Seq<char> {
    match refusal {
        SegmentToLarge::SegmentToLong { size, position } => decimal(size as nat)
            + " bytes in segment "@ + decimal(position as nat)
            + " are too many, only 255 allowed"@,
        SegmentToLarge::TooManySegments { size } => decimal(size as nat)
            + " segments are too many, only 255 allowed"@,
    }
}

impl SegmentToLarge {
    /// Why the table was refused, in words.
    pub fn reason(&self) -> (reason: String)
        ensures
            reason@ == refusal_reason(*self),
    {
        let mut reason = String::new();
        match self {
            SegmentToLarge::SegmentToLong { size, position } => {
                push_decimal(&mut reason, *size as u64);
                reason.append(" bytes in segment ");
                push_decimal(&mut reason, *position as u64);
                reason.append(" are too many, only 255 allowed");
            },
            SegmentToLarge::TooManySegments { size } => {
                push_decimal(&mut reason, *size as u64);
                reason.append(" segments are too many, only 255 allowed");
            },
        }
        assert(reason@ =~= refusal_reason(*self));
        reason
    }

    /// Checks a whole table.
    pub fn validate(data: &Vec<Vec<u8>>) -> (r: Result<(), Self>)
        ensures
            match r {
                Ok(_) => valid_segments(segments_of(data@)),
                Err(refusal) => refuses(segments_of(data@), refusal),
            },
    {
        if data.len() > SEGMENT_LIMIT {
            return Err(Self::TooManySegments { size: data.len() });
        }
        let mut i: usize = 0;
        while i < data.len()
            invariant
                i <= data@.len(),
                data@.len() <= SEGMENT_LIMIT,
                forall|j: int| 0 <= j < i ==> (#[trigger] segments_of(data@)[j]).len() <= SEGMENT_LIMIT,
            decreases data@.len() - i,
        {
            if data[i].len() > SEGMENT_LIMIT {
                return Err(Self::SegmentToLong { size: data[i].len(), position: i });
            }
            i = i + 1;
        }
        Ok(())
    }

    /// Checks one more segment for a table.
    pub fn validate_new(data: &Vec<Vec<u8>>, new: &Vec<u8>) -> (r: Result<(), Self>)
        requires
            data@.len() < usize::MAX,
        ensures
            match r {
                Ok(_) => data@.len() + 1 <= SEGMENT_LIMIT && new@.len() <= SEGMENT_LIMIT,
                Err(refusal) => refuses_new(segments_of(data@), new@, refusal),
            },
    {
        if data.len() + 1 > SEGMENT_LIMIT {
            return Err(Self::TooManySegments { size: data.len() + 1 });
        }
        if new.len() > SEGMENT_LIMIT {
            return Err(Self::SegmentToLong { size: new.len(), position: data.len() });
        }
        Ok(())
    }
}

/// The segments of one page, in their order.
#[derive(Debug, PartialEq, Eq)]
pub struct SegmentTable {
    segments: Vec<Vec<u8>>,
}

impl View for SegmentTable {
    type V = Seq<Seq<u8>>;

    closed spec fn view(&self) -> Seq<Seq<u8>> {
        segments_of(self.segments@)
    }
}

impl SegmentTable {
    /// A table never holds more than a page can.
    #[verifier::type_invariant]
    pub open spec fn fits(&self) -> bool {
        valid_segments(self@)
    }
}

/// One page.
#[derive(Debug, PartialEq, Eq)]
pub struct OggPage {
    pub header_type: HeaderType,
    pub granule_position: u64,
    pub bitstream_serial_number: u32,
    pub page_sequence_number: u32,
    pub segment_table: SegmentTable,
}

/// A page as contracts speak of it.
pub struct PageView {
    pub header_type: HeaderType,
    pub granule_position: u64,
    pub bitstream_serial_number: u32,
    pub page_sequence_number: u32,
    pub segments: Seq<Seq<u8>>,
}

impl View for OggPage {
    type V = PageView;

    open spec fn view(&self) -> PageView {
        PageView {
            header_type: self.header_type,
            granule_position: self.granule_position,
            bitstream_serial_number: self.bitstream_serial_number,
            page_sequence_number: self.page_sequence_number,
            segments: self.segment_table@,
        }
    }
}

impl OggPage {
    /// A page of the given fields, where the table fits.
    pub fn new(
        header_type: HeaderType,
        granule_position: u64,
        bitstream_serial_number: u32,
        page_sequence_number: u32,
        segment_table: Vec<Vec<u8>>,
    ) -> (r: Result<Self, SegmentToLarge>)
        ensures
            match r {
                Ok(page) => {
                    &&& valid_segments(segments_of(segment_table@))
                    &&& page@ == (PageView {
                        header_type,
                        granule_position,
                        bitstream_serial_number,
                        page_sequence_number,
                        segments: segments_of(segment_table@),
                    })
                },
                Err(refusal) => refuses(segments_of(segment_table@), refusal),
            },
    {
        match SegmentToLarge::validate(&segment_table) {
            Ok(_) => Ok(
                Self {
                    header_type,
                    granule_position,
                    bitstream_serial_number,
                    page_sequence_number,
                    segment_table: SegmentTable { segments: segment_table },
                },
            ),
            Err(refusal) => Err(refusal),
        }
    }

    /// The table of segments, which keeps within the bounds of a page.
    pub fn segment_table(&self) -> (table: &Vec<Vec<u8>>)
        ensures
            segments_of(table@) == self@.segments,
            valid_segments(self@.segments),
    {
        proof {
            use_type_invariant(&self.segment_table);
        }
        &self.segment_table.segments
    }

    /// Puts `segment_table` in the place of the page's table, where it fits;
    /// where it does not, the page stays as it was.
    pub fn set_segment_table(&mut self, segment_table: Vec<Vec<u8>>) -> (r: Result<
        (),
        SegmentToLarge,
    >)
        ensures
            match r {
                Ok(_) => {
                    &&& valid_segments(segments_of(segment_table@))
                    &&& final(self)@ == (PageView {
                        segments: segments_of(segment_table@),
                        ..old(self)@
                    })
                },
                Err(refusal) => {
                    &&& refuses(segments_of(segment_table@), refusal)
                    &&& *final(self) == *old(self)
                },
            },
    {
        match SegmentToLarge::validate(&segment_table) {
            Ok(_) => {
                self.segment_table = SegmentTable { segments: segment_table };
                Ok(())
            },
            Err(refusal) => Err(refusal),
        }
    }

    /// Adds `segment` at the end of the page's table, where the table can
    /// take it; where it cannot, the page stays as it was.
    pub fn add_segment(&mut self, segment: Vec<u8>) -> (r: Result<(), SegmentToLarge>)
        ensures
            match r {
                Ok(_) => {
                    &&& valid_segments(old(self)@.segments.push(segment@))
                    &&& final(self)@ == (PageView {
                        segments: old(self)@.segments.push(segment@),
                        ..old(self)@
                    })
                },
                Err(refusal) => {
                    &&& refuses_new(old(self)@.segments, segment@, refusal)
                    &&& *final(self) == *old(self)
                },
            },
    {
        proof {
            use_type_invariant(&self.segment_table);
        }
        match SegmentToLarge::validate_new(&self.segment_table.segments, &segment) {
            Ok(_) => {
                let mut table = SegmentTable { segments: Vec::new() };
                core::mem::swap(&mut self.segment_table, &mut table);
                let SegmentTable { mut segments } = table;
                segments.push(segment);
                assert(segments_of(segments@) =~= old(self).segment_table@.push(segment@));
                self.segment_table = SegmentTable { segments };
                Ok(())
            },
            Err(refusal) => Err(refusal),
        }
    }
}

/// The four bytes that every page starts with: "OggS".
pub open spec fn magic() -> Seq<u8> {
    seq![0x4fu8, 0x67u8, 0x67u8, 0x53u8]
}

/// The length of a page's header before the table of segment lengths.
pub const HEADER_LEN: usize = 27;

/// Where the checksum stands in the header.
pub const CHECKSUM_AT: usize = 22;

/// The checksum field as it stands while the checksum is computed.
pub open spec fn blank() -> Seq<u8> {
    seq![0u8, 0u8, 0u8, 0u8]
}

/// The lengths of the segments, one byte each.
pub open spec fn lacing(segments: Seq<Seq<u8>>) -> Seq<u8> {
    Seq::new(segments.len(), |i: int| segments[i].len() as u8)
}

/// The bytes of the segments, one segment after the other.
pub open spec fn body(segments: Seq<Seq<u8>>) -> Seq<u8>
    decreases segments.len(),
{
    if segments.len() == 0 {
        Seq::empty()
    } else {
        body(segments.drop_last()) + segments.last()
    }
}

/// The bytes of a page with `check` in the place of the checksum.
pub open spec fn frame(page: PageView, check: Seq<u8>) -> Seq<u8> {
    magic() + seq![0u8, header_type_byte(page.header_type)] + spec_u64_to_le_bytes(
        page.granule_position,
    ) + spec_u32_to_le_bytes(page.bitstream_serial_number) + spec_u32_to_le_bytes(
        page.page_sequence_number,
    ) + check + seq![page.segments.len() as u8] + lacing(page.segments) + body(page.segments)
}

/// The bytes that a page is written as: the checksum is taken over the whole
/// page with the checksum field blank and then stands in that field.
pub open spec fn encode_page(page: PageView) -> Seq<u8> {
    frame(page, spec_u32_to_le_bytes(crc32(frame(page, blank()))))
}

/// `bytes` with the checksum field blanked.
pub open spec fn blanked(bytes: Seq<u8>) -> Seq<u8> {
    bytes.take(CHECKSUM_AT as int) + blank() + bytes.skip(CHECKSUM_AT + 4)
}

/// The sum of segment lengths.
pub open spec fn lacing_sum(lengths: Seq<u8>) -> nat
    decreases lengths.len(),
{
    if lengths.len() == 0 {
        0
    } else {
        lacing_sum(lengths.drop_last()) + lengths.last() as nat
    }
}

/// The segments that `lengths` cut out of `bytes`, one after the other from
/// the start.
pub open spec fn split_body(bytes: Seq<u8>, lengths: Seq<u8>) -> Seq<Seq<u8>> {
    Seq::new(
        lengths.len(),
        |k: int|
            bytes.subrange(
                lacing_sum(lengths.take(k)) as int,
                lacing_sum(lengths.take(k)) + lengths[k],
            ),
    )
}

/// The lengths that the header at the start of `stream` announces.
pub open spec fn announced(stream: Seq<u8>) -> Seq<u8> {
    stream.subrange(HEADER_LEN as int, HEADER_LEN + stream[26])
}

/// The length of the page that the header at the start of `stream` announces.
pub open spec fn announced_len(stream: Seq<u8>) -> nat {
    HEADER_LEN as nat + stream[26] as nat + lacing_sum(announced(stream))
}

/// The reason given for a page whose checksum is not that of its bytes.
pub open spec fn checksum_reason() -> Seq<char> {
    "checksum wrong"@
}

/// The reason given for a header type byte that stands for no header type.
pub open spec fn header_type_reason(value: u8) -> Seq<char> {
    "unknown header_type "@ + decimal(value as nat)
}

/// The page that the whole of `bytes` holds, or why it holds none. The magic
/// and the lengths are taken as checked.
pub open spec fn decode_frame(bytes: Seq<u8>) -> Result<PageView, ErrorView> {
    if spec_u32_from_le_bytes(bytes.subrange(CHECKSUM_AT as int, CHECKSUM_AT + 4)) != crc32(
        blanked(bytes),
    ) {
        Err(ErrorView::MalformedData(checksum_reason()))
    } else if bytes[4] != 0 {
        Err(ErrorView::UnsupportetVersion(bytes[4]))
    } else {
        match header_type_of(bytes[5]) {
            Err(value) => Err(ErrorView::MalformedData(header_type_reason(value))),
            Ok(header_type) => Ok(
                PageView {
                    header_type,
                    granule_position: spec_u64_from_le_bytes(bytes.subrange(6, 14)),
                    bitstream_serial_number: spec_u32_from_le_bytes(bytes.subrange(14, 18)),
                    page_sequence_number: spec_u32_from_le_bytes(bytes.subrange(18, 22)),
                    segments: split_body(
                        bytes.skip(HEADER_LEN + bytes[26]),
                        bytes.subrange(HEADER_LEN as int, HEADER_LEN + bytes[26]),
                    ),
                },
            ),
        }
    }
}

/// The page at the start of `stream`, or why none is read there.
pub open spec fn decode_page(stream: Seq<u8>) -> Result<PageView, ErrorView> {
    if stream.len() == 0 {
        Err(ErrorView::NoMoreData)
    } else if stream.len() < HEADER_LEN {
        Err(ErrorView::UnexpectedEoF)
    } else if check_prefix(stream, magic()) is Err {
        Err(check_prefix(stream, magic())->Err_0)
    } else if stream.len() < HEADER_LEN + stream[26] {
        Err(ErrorView::UnexpectedEoF)
    } else if stream.len() < announced_len(stream) {
        Err(ErrorView::UnexpectedEoF)
    } else {
        decode_frame(stream.take(announced_len(stream) as int))
    }
}

/// How many bytes of `stream` an attempt to read a page takes: the page
/// where there is a whole one, a header that does not start as it must, and
/// else all there is.
pub open spec fn page_taken(stream: Seq<u8>) -> nat {
    if stream.len() < HEADER_LEN {
        stream.len()
    } else if check_prefix(stream, magic()) is Err {
        HEADER_LEN as nat
    } else if stream.len() < HEADER_LEN + stream[26] {
        stream.len()
    } else if stream.len() < announced_len(stream) {
        stream.len()
    } else {
        announced_len(stream)
    }
}

/// Fills `buf` from `read`. Where the source ends first, all of it is taken
/// and the call fails: with `NoMoreData` where the source was at its end
/// already, with `UnexpectedEoF` where it gave some bytes.
pub fn read_exact<R: ByteSource>(read: &mut R, buf: &mut [u8]) -> (r: Result<(), Error>)
    ensures
        filled(old(read).remaining(), old(buf)@, final(buf)@),
        final(read).remaining() == after_fill(old(read).remaining(), old(buf)@.len()),
        r is Ok <==> old(buf)@.len() <= old(read).remaining().len(),
        r is Err ==> r->Err_0@ == (if old(read).remaining().len() == 0 {
            ErrorView::NoMoreData
        } else {
            ErrorView::UnexpectedEoF
        }),
{
    let ghost source = read.remaining();
    let ghost before = buf@;
    let total = buf.len();
    let mut starts_at_eof = total != 0;
    let mut done: usize = 0;
    while done < total
        invariant
            source == old(read).remaining(),
            before == old(buf)@,
            total == before.len(),
            done <= total,
            done <= source.len(),
            starts_at_eof <==> done == 0 && total != 0,
            buf@ == source.take(done as int) + before.skip(done as int),
            read.remaining() == source.skip(done as int),
        decreases total - done,
    {
        let (_, rest) = buf.split_at_mut(done);
        let n = read.read(rest);
        if n == 0 {
            assert(buf@ =~= source.take(done as int) + before.skip(done as int));
            assert(source.skip(done as int).len() == 0);
            assert(source.take(done as int) =~= source);
            if starts_at_eof {
                return Err(Error::NoMoreData);
            } else {
                return Err(Error::UnexpectedEoF);
            }
        }
        starts_at_eof = false;
        assert(buf@ =~= source.take(done + n) + before.skip(done + n));
        assert(source.skip(done as int).skip(n as int) =~= source.skip(done + n));
        done = done + n;
    }
    Ok(())
}

impl OggPage {
    /// Blanks the checksum field of `buf` and tells whether the checksum that
    /// stood there is that of the blanked bytes.
    pub fn validate_checksum(buf: &mut [u8]) -> (valid: bool)
        requires
            old(buf)@.len() >= CHECKSUM_AT + 4,
        ensures
            final(buf)@ == blanked(old(buf)@),
            valid == (spec_u32_from_le_bytes(
                old(buf)@.subrange(CHECKSUM_AT as int, CHECKSUM_AT + 4),
            ) == crc32(blanked(old(buf)@))),
    {
        let stored = u32_from_le_bytes(slice_subrange(buf, CHECKSUM_AT, CHECKSUM_AT + 4));
        let mut i: usize = 0;
        while i < 4
            invariant
                i <= 4,
                buf@.len() == old(buf)@.len(),
                buf@.len() >= CHECKSUM_AT + 4,
                forall|j: int|
                    0 <= j < buf@.len() ==> buf@[j] == (if CHECKSUM_AT <= j < CHECKSUM_AT + i {
                        0u8
                    } else {
                        old(buf)@[j]
                    }),
            decreases 4 - i,
        {
            buf[CHECKSUM_AT + i] = 0;
            i = i + 1;
        }
        assert(buf@ =~= blanked(old(buf)@));
        stored == checksum(buf)
    }

    /// Puts the checksum of `buf` into its checksum field, which has to be blank.
    pub fn calculate_checksum(buf: &mut [u8])
        requires
            old(buf)@.len() >= CHECKSUM_AT + 4,
            old(buf)@.subrange(CHECKSUM_AT as int, CHECKSUM_AT + 4) == blank(),
        ensures
            final(buf)@ == old(buf)@.take(CHECKSUM_AT as int) + spec_u32_to_le_bytes(
                crc32(old(buf)@),
            ) + old(buf)@.skip(CHECKSUM_AT + 4),
    {
        let check_bytes = u32_to_le_bytes(checksum(buf));
        let mut i: usize = 0;
        while i < 4
            invariant
                i <= 4,
                check_bytes@.len() == 4,
                buf@.len() == old(buf)@.len(),
                buf@.len() >= CHECKSUM_AT + 4,
                forall|j: int|
                    0 <= j < buf@.len() ==> buf@[j] == (if CHECKSUM_AT <= j < CHECKSUM_AT + i {
                        check_bytes@[j - CHECKSUM_AT]
                    } else {
                        old(buf)@[j]
                    }),
            decreases 4 - i,
        {
            buf[CHECKSUM_AT + i] = check_bytes[i];
            i = i + 1;
        }
        assert(buf@ =~= old(buf)@.take(CHECKSUM_AT as int) + check_bytes@ + old(buf)@.skip(
            CHECKSUM_AT + 4,
        ));
    }

    /// Reads the page at the front of `data`.
    ///
    /// Fails with `NoMoreData` where `data` is at its end, and with
    /// `UnexpectedEoF` where it ends inside the page.
    pub fn read_next_from<R: ByteSource>(data: &mut R) -> (r: Result<Self, Error>)
        ensures
            yields_view(r, decode_page(old(data).remaining())),
            final(data).remaining() == old(data).remaining().skip(
                page_taken(old(data).remaining()) as int,
            ),
    {
        let ghost stream = data.remaining();
        assert(stream.skip(stream.len() as int) =~= Seq::<u8>::empty());
        let mut buf: Vec<u8> = vec![0u8; HEADER_LEN];
        read_exact(data, buf.as_mut_slice())?;
        let expect: Vec<u8> = vec![0x4fu8, 0x67u8, 0x67u8, 0x53u8];
        assert(expect@ =~= magic());
        assert(buf@.take(4) =~= stream.take(4));
        Error::expect_starts_with(buf.as_slice(), expect.as_slice())?;
        let page_segments = buf[26];
        let mut segment_sizes: Vec<u8> = vec![0u8; page_segments as usize];
        data.read_exact(segment_sizes.as_mut_slice())?;
        let ghost lengths = announced(stream);
        let ghost start = HEADER_LEN + page_segments;
        assert(segment_sizes@ =~= lengths);
        buf.extend_from_slice(segment_sizes.as_slice());
        assert(buf@ =~= stream.take(start));
        assert(stream.skip(HEADER_LEN as int).skip(page_segments as int) =~= stream.skip(start));
        let mut segment_table: Vec<Vec<u8>> = Vec::new();
        let mut i: usize = 0;
        assert(lengths.take(0) =~= Seq::<u8>::empty());
        while i < segment_sizes.len()
            invariant
                stream == old(data).remaining(),
                stream.len() >= start,
                start == HEADER_LEN + stream[26],
                check_prefix(stream, magic()) is Ok,
                lengths == announced(stream),
                segment_sizes@ == lengths,
                lengths.len() == stream[26],
                stream.skip(stream.len() as int) == Seq::<u8>::empty(),
                i <= lengths.len(),
                start + lacing_sum(lengths.take(i as int)) <= stream.len(),
                data.remaining() == stream.skip(start + lacing_sum(lengths.take(i as int))),
                buf@ == stream.take(start + lacing_sum(lengths.take(i as int))),
                segment_table@.len() == i,
                forall|k: int|
                    0 <= k < i ==> (#[trigger] segment_table@[k])@ == stream.subrange(
                        start + lacing_sum(lengths.take(k)),
                        start + lacing_sum(lengths.take(k)) + lengths[k],
                    ),
                forall|k: int| 0 <= k < i ==> (#[trigger] segment_table@[k])@.len() == lengths[k],
            decreases lengths.len() - i,
        {
            let ghost at = start + lacing_sum(lengths.take(i as int));
            let size = segment_sizes[i];
            proof {
                lemma_lacing_sum_grows(lengths, i as int, i as int);
                lemma_lacing_sum_grows(lengths, i + 1, i + 1);
            }
            let mut segment: Vec<u8> = vec![0u8; size as usize];
            data.read_exact(segment.as_mut_slice())?;
            assert(segment@ =~= stream.subrange(at, at + size));
            assert(stream.skip(at).skip(size as int) =~= stream.skip(at + size));
            buf.extend_from_slice(segment.as_slice());
            assert(buf@ =~= stream.take(at + size));
            segment_table.push(segment);
            i = i + 1;
        }
        assert(lengths.take(i as int) =~= lengths);
        let ghost whole = stream.take(announced_len(stream) as int);
        assert(buf@ == whole);
        if !Self::validate_checksum(buf.as_mut_slice()) {
            return Err(Error::MalformedData(String::from_str("checksum wrong")));
        }
        let version = buf[4];
        if version != 0 {
            return Err(Error::UnsupportetVersion(version));
        }
        let header_type = match HeaderType::try_from(buf[5]) {
            Err(value) => {
                let mut reason = String::from_str("unknown header_type ");
                push_decimal(&mut reason, value as u64);
                return Err(Error::MalformedData(reason));
            },
            Ok(header_type) => header_type,
        };
        let granule_position = u64_from_le_bytes(slice_subrange(buf.as_slice(), 6, 14));
        let bitstream_serial_number = u32_from_le_bytes(slice_subrange(buf.as_slice(), 14, 18));
        let page_sequence_number = u32_from_le_bytes(slice_subrange(buf.as_slice(), 18, 22));
        assert(buf@.subrange(6, 14) =~= whole.subrange(6, 14));
        assert(buf@.subrange(14, 18) =~= whole.subrange(14, 18));
        assert(buf@.subrange(18, 22) =~= whole.subrange(18, 22));
        let page = Self {
            header_type,
            granule_position,
            bitstream_serial_number,
            page_sequence_number,
            segment_table: SegmentTable { segments: segment_table },
        };
        proof {
            let cut = split_body(whole.skip(start), whole.subrange(HEADER_LEN as int, start));
            assert(whole.subrange(HEADER_LEN as int, start) =~= lengths);
            assert forall|k: int| 0 <= k < lengths.len() implies page@.segments[k] == cut[k] by {
                lemma_lacing_sum_grows(lengths, k, k);
                lemma_lacing_sum_grows(lengths, k + 1, k + 1);
                assert(whole.skip(start).subrange(
                    lacing_sum(lengths.take(k)) as int,
                    lacing_sum(lengths.take(k)) + lengths[k],
                ) =~= stream.subrange(
                    start + lacing_sum(lengths.take(k)),
                    start + lacing_sum(lengths.take(k)) + lengths[k],
                ));
            }
            assert(page@.segments =~= cut);
            assert forall|k: int| 0 <= k < page@.segments.len() implies (
            #[trigger] page@.segments[k]).len() <= SEGMENT_LIMIT by {
                assert(page@.segments[k] == segment_table@[k]@);
            }
        }
        Ok(page)
    }

    /// Writes the page at the end of `writer`.
    pub fn write_to(self, writer: &mut Vec<u8>)
        ensures
            final(writer)@ == old(writer)@ + encode_page(self@),
    {
        let ghost page = self@;
        let table = self.segment_table();
        let mut buf: Vec<u8> = vec![0x4fu8, 0x67u8, 0x67u8, 0x53u8];
        buf.push(0);
        buf.push(u8::from(self.header_type));
        let granule = u64_to_le_bytes(self.granule_position);
        buf.extend_from_slice(granule.as_slice());
        let serial = u32_to_le_bytes(self.bitstream_serial_number);
        buf.extend_from_slice(serial.as_slice());
        let sequence = u32_to_le_bytes(self.page_sequence_number);
        buf.extend_from_slice(sequence.as_slice());
        let mut i: usize = 0;
        while i < 4
            invariant
                i <= 4,
                buf@ == magic() + seq![0u8, header_type_byte(page.header_type)]
                    + spec_u64_to_le_bytes(page.granule_position) + spec_u32_to_le_bytes(
                    page.bitstream_serial_number,
                ) + spec_u32_to_le_bytes(page.page_sequence_number) + blank().take(i as int),
            decreases 4 - i,
        {
            buf.push(0);
            assert(blank().take(i + 1) =~= blank().take(i as int).push(0u8));
            i = i + 1;
        }
        assert(blank().take(4) =~= blank());
        buf.push(table.len() as u8);
        let ghost head = buf@;
        let mut i: usize = 0;
        while i < table.len()
            invariant
                i <= table@.len(),
                segments_of(table@) == page.segments,
                buf@ == head + lacing(page.segments).take(i as int),
            decreases table@.len() - i,
        {
            assert(segments_of(table@)[i as int] == table@[i as int]@);
            buf.push(table[i].len() as u8);
            assert(lacing(page.segments).take(i + 1) =~= lacing(page.segments).take(i as int).push(
                lacing(page.segments)[i as int],
            ));
            i = i + 1;
        }
        assert(lacing(page.segments).take(i as int) =~= lacing(page.segments));
        let ghost head = buf@;
        let mut i: usize = 0;
        while i < table.len()
            invariant
                i <= table@.len(),
                segments_of(table@) == page.segments,
                buf@ == head + body(page.segments.take(i as int)),
            decreases table@.len() - i,
        {
            assert(segments_of(table@)[i as int] == table@[i as int]@);
            buf.extend_from_slice(table[i].as_slice());
            proof {
                let now = page.segments.take(i + 1);
                assert(now.drop_last() =~= page.segments.take(i as int));
                assert(now.last() == table@[i as int]@);
                assert(buf@ =~= head + body(now));
            }
            i = i + 1;
        }
        assert(page.segments.take(i as int) =~= page.segments);
        assert(buf@ =~= frame(page, blank()));
        assert(buf@.subrange(CHECKSUM_AT as int, CHECKSUM_AT + 4) =~= blank()) by {
            lemma_frame_layout(page, blank());
        }
        Self::calculate_checksum(buf.as_mut_slice());
        assert(buf@ =~= encode_page(page)) by {
            vstd::bytes::lemma_auto_spec_u32_to_from_le_bytes();
            lemma_frame_layout(page, blank());
            lemma_frame_layout(page, spec_u32_to_le_bytes(crc32(frame(page, blank()))));
        }
        writer.extend_from_slice(buf.as_slice());
        assert(writer@ =~= old(writer)@ + encode_page(page));
    }
}

/// The pages of a source, one after the other. It is active until a read
/// fails or the source ends, and exhausted from then on.
pub struct PageIter<R: ByteSource> {
    data: R,
    is_finished: bool,
}

impl<R: ByteSource> PageIter<R> {
    /// Nothing more is read: the source ended or a read failed.
    pub closed spec fn exhausted(&self) -> bool {
        self.is_finished
    }

    /// The bytes that the source still holds.
    pub closed spec fn source(&self) -> Seq<u8> {
        self.data.remaining()
    }

    /// The next page, or the error that ends the pages; nothing where the
    /// source ended between two pages, and nothing ever after an end or an
    /// error.
    pub fn next(&mut self) -> (r: Option<Result<OggPage, Error>>)
        ensures
            old(self).exhausted() ==> {
                &&& r is None
                &&& final(self).exhausted()
                &&& final(self).source() == old(self).source()
            },
            !old(self).exhausted() ==> {
                &&& final(self).exhausted() == (decode_page(old(self).source()) is Err)
                &&& final(self).source() == old(self).source().skip(
                    page_taken(old(self).source()) as int,
                )
                &&& match r {
                    None => decode_page(old(self).source()) == Err::<PageView, ErrorView>(
                        ErrorView::NoMoreData,
                    ),
                    Some(read) => {
                        &&& yields_view(read, decode_page(old(self).source()))
                        &&& decode_page(old(self).source()) != Err::<PageView, ErrorView>(
                            ErrorView::NoMoreData,
                        )
                    },
                }
            },
    {
        if self.is_finished {
            return None;
        }
        match OggPage::read_next_from(&mut self.data) {
            Err(error) => {
                self.is_finished = true;
                match error {
                    Error::NoMoreData => None,
                    _ => Some(Err(error)),
                }
            },
            Ok(page) => Some(Ok(page)),
        }
    }

    /// Hands the source back, with what it still holds.
    pub fn into_inner(self) -> (data: R)
        ensures
            data.remaining() == self.source(),
    {
        self.data
    }
}

impl OggPage {
    /// The pages of `data`, read as they are asked for.
    pub fn iterate_read<R: ByteSource>(data: R) -> (pages: PageIter<R>)
        ensures
            !pages.exhausted(),
            pages.source() == data.remaining(),
    {
        PageIter { data, is_finished: false }
    }
}

} // verus!

//! The two headers of an Opus stream, the identification header on the
//! first page and the comments on the second, and the rewriting of a stream
//! with other comments.
//!
//! [`head`] reads and writes the identification header, [`comment`] the
//! comments; what is stated of them and of a rewritten stream is proved in
//! [`laws`].

pub mod comment;
pub mod head;
pub mod laws;

pub use self::comment::{
    read_length_encode_str, read_u32, write_length_encode_str, Comment, CommentView, TagsView,
    VorbisComment,
};
pub use self::head::{Gain, MappingFamily, OpusHead, SampleRate};

use self::comment::{decode_tags, encodable, tags_bytes, tags_magic};
use self::head::decode_head;
use self::laws::lemma_chunked_shape;
use crate::error::{yields_view, Error, ErrorView};
use crate::ogg::{
    decode_page, encode_page, page_taken, refusal_reason, segments_of, valid_segments, OggPage,
    PageIter, PageView, SegmentToLarge, SEGMENT_LIMIT,
};
use crate::stream::{copy_remaining, ByteSource};
use vstd::prelude::*;
use vstd::slice::{slice_subrange, slice_to_vec};
use vstd::string::*;

verus! {

/// The most bytes that the segments of one page hold together.
pub const PAGE_CAPACITY: usize = 65025;

/// In how many segments a packet of so many bytes is laid.
pub open spec fn chunk_count(len: nat) -> nat {
    (len + SEGMENT_LIMIT - 1) as nat / (SEGMENT_LIMIT as nat)
}

/// A packet laid into segments: each takes 255 bytes but the last, which
/// takes what is left. A packet that fills its last segment is not followed
/// by an empty one.
pub open spec fn chunked(bytes: Seq<u8>) -> Seq<Seq<u8>> {
    Seq::new(
        chunk_count(bytes.len()),
        |i: int|
            bytes.subrange(
                i * SEGMENT_LIMIT,
                if (i + 1) * SEGMENT_LIMIT <= bytes.len() {
                    (i + 1) * SEGMENT_LIMIT
                } else {
                    bytes.len() as int
                },
            ),
    )
}

/// Lays `bytes` into segments of 255 bytes, the last one of what is left.
pub fn split_into_segments(bytes: &[u8]) -> (table: Vec<Vec<u8>>)
    ensures
        segments_of(table@) == chunked(bytes@),
{
    let len = bytes.len();
    let count = if len % SEGMENT_LIMIT == 0 {
        len / SEGMENT_LIMIT
    } else {
        len / SEGMENT_LIMIT + 1
    };
    assert(count == chunk_count(bytes@.len()));
    let mut table: Vec<Vec<u8>> = Vec::new();
    let mut i: usize = 0;
    while i < count
        invariant
            i <= count,
            len == bytes@.len(),
            count == chunk_count(bytes@.len()),
            table@.len() == i,
            forall|k: int| 0 <= k < i ==> (#[trigger] table@[k])@ == chunked(bytes@)[k],
        decreases count - i,
    {
        let start = i * SEGMENT_LIMIT;
        let end = if len - start > SEGMENT_LIMIT {
            start + SEGMENT_LIMIT
        } else {
            len
        };
        let segment = slice_to_vec(slice_subrange(bytes, start, end));
        table.push(segment);
        i = i + 1;
    }
    assert(segments_of(table@) =~= chunked(bytes@));
    table
}

/// The reason given for a stream without a first page.
pub open spec fn missing_head_reason() -> Seq<char> {
    "missing first ogg_packet"@
}

/// The reason given for a stream without a second page.
pub open spec fn missing_tags_reason() -> Seq<char> {
    "missing second ogg_packet"@
}

/// The page at the start of `stream`, where one is needed: a stream that
/// has ended lacks it, for the reason `missing`.
pub open spec fn needed_page(stream: Seq<u8>, missing: Seq<char>) -> Result<PageView, ErrorView> {
    match decode_page(stream) {
        Err(ErrorView::NoMoreData) => Err(ErrorView::MalformedData(missing)),
        other => other,
    }
}

/// The reason given for comments that need more segments than a page holds.
pub open spec fn oversize_reason(segments: Seq<Seq<u8>>) -> Seq<char> {
    refusal_reason(SegmentToLarge::TooManySegments { size: segments.len() as usize })
}

/// The stream with its comments replaced by `tags`, or why `stream` is not
/// rewritten: the first page as it was, the second page with `tags` laid into
/// its segments, and then all that followed the second page, byte for byte.
///
/// The first page is read and has to carry an identification header, then
/// the second page is read and has to carry comments, and then the new
/// comments have to fit the segments of one page.
pub open spec fn rewritten(tags: TagsView, stream: Seq<u8>) -> Result<Seq<u8>, ErrorView> {
    match needed_page(stream, missing_head_reason()) {
        Err(error) => Err(error),
        Ok(head_page) => if decode_head(head_page) is Err {
            Err(decode_head(head_page)->Err_0)
        } else {
            let after_head = stream.skip(page_taken(stream) as int);
            match needed_page(after_head, missing_tags_reason()) {
                Err(error) => Err(error),
                Ok(tags_page) => {
                    let rest = after_head.skip(page_taken(after_head) as int);
                    let table = chunked(tags_bytes(tags, tags_magic()));
                    if decode_tags(tags_page, tags_magic()) is Err {
                        Err(decode_tags(tags_page, tags_magic())->Err_0)
                    } else if !valid_segments(table) {
                        Err(ErrorView::MalformedData(oversize_reason(table)))
                    } else {
                        Ok(
                            encode_page(head_page) + encode_page(
                                PageView { segments: table, ..tags_page },
                            ) + rest,
                        )
                    }
                },
            }
        },
    }
}

/// The bytes "OpusTags".
fn tags_magic_bytes() -> (magic: Vec<u8>)
    ensures
        magic@ == tags_magic(),
{
    let magic: Vec<u8> = vec![0x4fu8, 0x70u8, 0x75u8, 0x73u8, 0x54u8, 0x61u8, 0x67u8, 0x73u8];
    assert(magic@ =~= tags_magic());
    magic
}

/// The next page of `pages`, where one is needed.
fn need_page<R: ByteSource>(pages: &mut PageIter<R>, missing: &str) -> (r: Result<OggPage, Error>)
    requires
        !old(pages).exhausted(),
    ensures
        yields_view(r, needed_page(old(pages).source(), missing@)),
        r is Ok ==> !final(pages).exhausted(),
        final(pages).source() == old(pages).source().skip(page_taken(old(pages).source()) as int),
{
    match pages.next() {
        None => Err(Error::MalformedData(String::from_str(missing))),
        Some(Err(error)) => Err(error),
        Some(Ok(page)) => Ok(page),
    }
}

impl VorbisComment {
    /// Reads a stream from `from` and writes it to the end of `to` with its
    /// comments replaced by these. Nothing is written where the stream does
    /// not start with the two header pages of an Opus stream, or where these
    /// comments need more segments than a page holds.
    pub fn update_opus_tags<R: ByteSource>(&self, from: R, to: &mut Vec<u8>) -> (r: Result<
        (),
        Error,
    >)
        requires
            encodable(self@),
        ensures
            match rewritten(self@, from.remaining()) {
                Ok(stream) => r is Ok && final(to)@ == old(to)@ + stream,
                Err(error) => r is Err && r->Err_0@ == error && final(to)@ == old(to)@,
            },
    {
        let ghost stream = from.remaining();
        let ghost after_head = stream.skip(page_taken(stream) as int);
        let ghost rest = after_head.skip(page_taken(after_head) as int);
        let magic = tags_magic_bytes();
        let mut pages = OggPage::iterate_read(from);
        let head_ogg = need_page(&mut pages, "missing first ogg_packet")?;
        OpusHead::from(&head_ogg)?;
        let mut tags_ogg = need_page(&mut pages, "missing second ogg_packet")?;
        let ghost head_page = head_ogg@;
        let ghost tags_page = tags_ogg@;
        let mut from = pages.into_inner();
        assert(from.remaining() == rest);
        Self::from(&tags_ogg, magic.as_slice())?;
        let bytes = self.to_bytes(magic.as_slice());
        let table = split_into_segments(bytes.as_slice());
        proof {
            lemma_chunked_shape(bytes@);
        }
        match tags_ogg.set_segment_table(table) {
            Err(refusal) => {
                assert(refusal == (SegmentToLarge::TooManySegments {
                    size: chunked(bytes@).len() as usize,
                })) by {
                    if let SegmentToLarge::SegmentToLong { size, position } = refusal {
                        assert(chunked(bytes@)[position as int].len() > SEGMENT_LIMIT);
                    }
                }
                return Err(Error::MalformedData(refusal.reason()));
            },
            Ok(_) => {},
        }
        let ghost new_page = PageView { segments: chunked(bytes@), ..tags_page };
        assert(tags_ogg@ == new_page);
        assert(rewritten(self@, stream) == Ok::<Seq<u8>, ErrorView>(
            encode_page(head_page) + encode_page(new_page) + rest,
        ));
        head_ogg.write_to(to);
        tags_ogg.write_to(to);
        copy_remaining(&mut from, to);
        assert(to@ =~= old(to)@ + (encode_page(head_page) + encode_page(new_page) + rest));
        Ok(())
    }
}

/// What the first two pages of an Opus stream say of it.
#[derive(Debug, PartialEq, Eq)]
pub struct OpusMeta {
    pub head: OpusHead,
    pub tags: VorbisComment,
}

/// What the headers say as contracts speak of it.
pub struct MetaView {
    pub head: OpusHead,
    pub tags: TagsView,
}

impl View for OpusMeta {
    type V = MetaView;

    open spec fn view(&self) -> MetaView {
        MetaView { head: self.head, tags: self.tags@ }
    }
}

/// What the first two pages of `stream` say, or why they say nothing.
pub open spec fn decode_meta(stream: Seq<u8>) -> Result<MetaView, ErrorView> {
    match needed_page(stream, missing_head_reason()) {
        Err(error) => Err(error),
        Ok(head_page) => match decode_head(head_page) {
            Err(error) => Err(error),
            Ok(head) => {
                let after_head = stream.skip(page_taken(stream) as int);
                match needed_page(after_head, missing_tags_reason()) {
                    Err(error) => Err(error),
                    Ok(tags_page) => match decode_tags(tags_page, tags_magic()) {
                        Err(error) => Err(error),
                        Ok(tags) => Ok(MetaView { head, tags }),
                    },
                }
            },
        },
    }
}

impl OpusMeta {
    /// Reads the identification header and the comments from the first two pages of `data`.
    pub fn read_from<R: ByteSource>(data: R) -> (r: Result<Self, Error>)
        ensures
            yields_view(r, decode_meta(data.remaining())),
    {
        let magic = tags_magic_bytes();
        let mut pages = OggPage::iterate_read(data);
        let head_ogg = need_page(&mut pages, "missing first ogg_packet")?;
        let head = OpusHead::from(&head_ogg)?;
        let tags_ogg = need_page(&mut pages, "missing second ogg_packet")?;
        let tags = VorbisComment::from(&tags_ogg, magic.as_slice())?;
        Ok(Self { head, tags })
    }
}

} // verus!

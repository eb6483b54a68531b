//! What holds of pages that are written and read: a written page is read
//! back as it was, a changed byte is found out by the checksum, and a stream
//! that ends early is told from one that ends between two pages.

use crate::checksum::{crc32, lemma_single_byte_changes_checksum};
use crate::error::{check_prefix, prefix_reason, ErrorView};
use crate::ogg::{
    announced, announced_len, blank, blanked, body, checksum_reason, decode_frame, decode_page,
    encode_page, frame, header_type_byte, header_type_of, lacing, lacing_sum, magic, page_taken,
    refuses,
    split_body, valid_segments, PageView, SegmentToLarge, CHECKSUM_AT, HEADER_LEN, SEGMENT_LIMIT,
};
use vstd::bytes::{
    spec_u32_from_le_bytes, spec_u32_to_le_bytes, spec_u64_from_le_bytes, spec_u64_to_le_bytes,
};
use vstd::prelude::*;

verus! {

/// A table is refused where it does not fit a page and nowhere else, and
/// then in one way only.
pub proof fn lemma_refused_in_one_way(
    segments: Seq<Seq<u8>>,
    first: SegmentToLarge,
    second: SegmentToLarge,
)
    requires
        refuses(segments, first),
        refuses(segments, second),
    ensures
        first == second,
        !valid_segments(segments),
{
    match (first, second) {
        (
            SegmentToLarge::SegmentToLong { size: a, position: i },
            SegmentToLarge::SegmentToLong { size: b, position: j },
        ) => {
            assert(segments[i as int].len() > SEGMENT_LIMIT);
            assert(segments[j as int].len() > SEGMENT_LIMIT);
            assert(i == j);
        },
        (SegmentToLarge::SegmentToLong { size, position }, _) => {
            assert(segments[position as int].len() > SEGMENT_LIMIT);
        },
        (_, SegmentToLarge::SegmentToLong { size, position }) => {
            assert(segments[position as int].len() > SEGMENT_LIMIT);
        },
        _ => {},
    }
}

/// The sum of the first lengths grows with their number and ends at the sum of all.
pub proof fn lemma_lacing_sum_grows(lengths: Seq<u8>, i: int, j: int)
    requires
        0 <= i <= j <= lengths.len(),
    ensures
        lacing_sum(lengths.take(i)) <= lacing_sum(lengths.take(j)),
        lacing_sum(lengths.take(j)) <= lacing_sum(lengths),
        j < lengths.len() ==> lacing_sum(lengths.take(j + 1)) == lacing_sum(lengths.take(j))
            + lengths[j],
    decreases lengths.len() - i, lengths.len() - j,
{
    if j < lengths.len() {
        assert(lengths.take(j + 1).drop_last() =~= lengths.take(j));
        lemma_lacing_sum_grows(lengths, j + 1, j + 1);
        lemma_lacing_sum_grows(lengths, i, j + 1);
    } else {
        assert(lengths.take(j) =~= lengths);
    }
    if i < j {
        assert(lengths.take(i + 1).drop_last() =~= lengths.take(i));
        lemma_lacing_sum_grows(lengths, i + 1, j);
    }
}

/// Where the parts of a page stand in its bytes.
pub proof fn lemma_frame_layout(page: PageView, check: Seq<u8>)
    requires
        check.len() == 4,
    ensures
        frame(page, check).len() == HEADER_LEN + page.segments.len() + body(page.segments).len(),
        frame(page, check).take(4) == magic(),
        frame(page, check)[4] == 0,
        frame(page, check)[5] == header_type_byte(page.header_type),
        frame(page, check).subrange(6, 14) == spec_u64_to_le_bytes(page.granule_position),
        frame(page, check).subrange(14, 18) == spec_u32_to_le_bytes(page.bitstream_serial_number),
        frame(page, check).subrange(18, 22) == spec_u32_to_le_bytes(page.page_sequence_number),
        frame(page, check).subrange(22, 26) == check,
        frame(page, check)[26] == page.segments.len() as u8,
        frame(page, check).subrange(27, 27 + page.segments.len() as int) == lacing(page.segments),
        frame(page, check).skip(27 + page.segments.len() as int) == body(page.segments),
        frame(page, check).take(22) == frame(page, blank()).take(22),
        frame(page, check).skip(26) == frame(page, blank()).skip(26),
{
    vstd::bytes::lemma_auto_spec_u64_to_from_le_bytes();
    vstd::bytes::lemma_auto_spec_u32_to_from_le_bytes();
    let f = frame(page, check);
    let granule = spec_u64_to_le_bytes(page.granule_position);
    let serial = spec_u32_to_le_bytes(page.bitstream_serial_number);
    let sequence = spec_u32_to_le_bytes(page.page_sequence_number);
    assert(granule.len() == 8);
    assert(serial.len() == 4);
    assert(sequence.len() == 4);
    assert(f.take(4) =~= magic());
    assert(f.subrange(6, 14) =~= granule);
    assert(f.subrange(14, 18) =~= serial);
    assert(f.subrange(18, 22) =~= sequence);
    assert(f.subrange(22, 26) =~= check);
    assert(f.subrange(27, 27 + page.segments.len() as int) =~= lacing(page.segments));
    assert(f.skip(27 + page.segments.len() as int) =~= body(page.segments));
    assert(f.take(22) =~= frame(page, blank()).take(22));
    assert(f.skip(26) =~= frame(page, blank()).skip(26));
}

/// The lengths of the segments of a table that fits add up to the length of
/// its bytes.
pub proof fn lemma_lacing_measures_body(segments: Seq<Seq<u8>>)
    requires
        valid_segments(segments),
    ensures
        lacing_sum(lacing(segments)) == body(segments).len(),
    decreases segments.len(),
{
    if segments.len() > 0 {
        assert(lacing(segments).drop_last() =~= lacing(segments.drop_last()));
        lemma_lacing_measures_body(segments.drop_last());
    }
}

/// The bytes of the first `k` segments stand at the start of the bytes of all.
pub proof fn lemma_body_starts_with(segments: Seq<Seq<u8>>, k: int)
    requires
        0 <= k <= segments.len(),
    ensures
        body(segments.take(k)).len() <= body(segments).len(),
        body(segments).take(body(segments.take(k)).len() as int) == body(segments.take(k)),
    decreases segments.len(),
{
    if k == segments.len() {
        assert(segments.take(k) =~= segments);
        assert(body(segments).take(body(segments).len() as int) =~= body(segments));
    } else {
        assert(segments.drop_last().take(k) =~= segments.take(k));
        lemma_body_starts_with(segments.drop_last(), k);
        assert(body(segments).take(body(segments.take(k)).len() as int) =~= body(
            segments.drop_last(),
        ).take(body(segments.take(k)).len() as int));
    }
}

/// Cutting the bytes of a table that fits by its own lengths gives the table back.
pub proof fn lemma_split_body_of_body(segments: Seq<Seq<u8>>)
    requires
        valid_segments(segments),
    ensures
        split_body(body(segments), lacing(segments)) == segments,
{
    let cut = split_body(body(segments), lacing(segments));
    assert forall|k: int| 0 <= k < segments.len() implies cut[k] == segments[k] by {
        let first = segments.take(k);
        let next = segments.take(k + 1);
        assert(lacing(segments).take(k) =~= lacing(first));
        lemma_lacing_measures_body(first);
        assert(next.drop_last() =~= first);
        assert(next.last() == segments[k]);
        lemma_body_starts_with(segments, k + 1);
        let from = body(first).len() as int;
        assert(body(segments).subrange(from, from + segments[k].len()) =~= body(next).subrange(
            from,
            from + segments[k].len(),
        ));
        assert(body(next).subrange(from, from + segments[k].len()) =~= segments[k]);
    }
    assert(cut =~= segments);
}

/// What stands at the start of a stream that begins with a written page.
proof fn lemma_written_page_frames(page: PageView, check: Seq<u8>, rest: Seq<u8>)
    requires
        valid_segments(page.segments),
        check.len() == 4,
    ensures
        announced(frame(page, check) + rest) == lacing(page.segments),
        announced_len(frame(page, check) + rest) == frame(page, check).len(),
        check_prefix(frame(page, check) + rest, magic()) is Ok,
        (frame(page, check) + rest).take(frame(page, check).len() as int) == frame(page, check),
        (frame(page, check) + rest)[26] == page.segments.len(),
        frame(page, check).len() >= HEADER_LEN + page.segments.len(),
        blanked(frame(page, check)) == frame(page, blank()),
{
    let written = frame(page, check);
    let stream = written + rest;
    lemma_frame_layout(page, check);
    lemma_frame_layout(page, blank());
    lemma_lacing_measures_body(page.segments);
    assert(stream.take(4) =~= written.take(4));
    assert(stream[26] == written[26]);
    assert(announced(stream) =~= written.subrange(27, 27 + page.segments.len() as int));
    assert(stream.take(written.len() as int) =~= written);
    assert(written.skip(CHECKSUM_AT + 4) == frame(page, blank()).skip(CHECKSUM_AT + 4));
    assert(frame(page, blank()) =~= frame(page, blank()).take(CHECKSUM_AT as int) + blank()
        + frame(page, blank()).skip(CHECKSUM_AT + 4));
}

/// A page that was written is read back as it was, whatever follows it in
/// the stream, and reading takes the bytes of that page and no more.
pub proof fn lemma_read_after_write(page: PageView, rest: Seq<u8>)
    requires
        valid_segments(page.segments),
    ensures
        decode_page(encode_page(page) + rest) == Ok::<PageView, ErrorView>(page),
        page_taken(encode_page(page) + rest) == encode_page(page).len(),
{
    vstd::bytes::lemma_auto_spec_u64_to_from_le_bytes();
    vstd::bytes::lemma_auto_spec_u32_to_from_le_bytes();
    let check = spec_u32_to_le_bytes(crc32(frame(page, blank())));
    let written = encode_page(page);
    lemma_written_page_frames(page, check, rest);
    lemma_frame_layout(page, check);
    lemma_split_body_of_body(page.segments);
    assert(written.skip(HEADER_LEN + written[26]) == body(page.segments));
    assert(written.subrange(HEADER_LEN as int, HEADER_LEN + written[26]) == lacing(page.segments));
    let read = decode_frame(written)->Ok_0;
    assert(read.segments == page.segments);
    assert(read == page);
}

/// A written page in which one byte was changed is refused for its checksum,
/// whatever follows it in the stream. The byte is any but those that say
/// where the page starts and ends: the four at the start, the number of
/// segments and the lengths of the segments.
pub proof fn lemma_changed_byte_fails_checksum(page: PageView, rest: Seq<u8>, at: int, value: u8)
    requires
        valid_segments(page.segments),
        0 <= at < encode_page(page).len(),
        4 <= at < 26 || HEADER_LEN + page.segments.len() <= at,
        value != encode_page(page)[at],
    ensures
        decode_page(encode_page(page).update(at, value) + rest) == Err::<PageView, ErrorView>(
            ErrorView::MalformedData(checksum_reason()),
        ),
{
    vstd::bytes::lemma_auto_spec_u32_to_from_le_bytes();
    let check = spec_u32_to_le_bytes(crc32(frame(page, blank())));
    let written = encode_page(page);
    let changed = written.update(at, value);
    let stream = changed + rest;
    lemma_written_page_frames(page, check, rest);
    lemma_frame_layout(page, check);
    assert(stream.take(4) =~= (written + rest).take(4));
    assert(announced(stream) =~= announced(written + rest));
    assert(stream.take(written.len() as int) =~= changed);
    let stored = changed.subrange(CHECKSUM_AT as int, CHECKSUM_AT + 4);
    if CHECKSUM_AT <= at < CHECKSUM_AT + 4 {
        assert(blanked(changed) =~= blanked(written));
        assert(stored[at - CHECKSUM_AT] != check[at - CHECKSUM_AT]);
        assert(spec_u32_to_le_bytes(spec_u32_from_le_bytes(stored)) == stored);
    } else {
        assert(stored =~= check);
        lemma_single_byte_changes_checksum(blanked(changed), blanked(written), at);
    }
}

/// A written page in which one of the four bytes at its start was changed is
/// refused for its start, whatever follows it in the stream.
pub proof fn lemma_changed_start_is_refused(page: PageView, rest: Seq<u8>, at: int, value: u8)
    requires
        0 <= at < 4,
        value != encode_page(page)[at],
    ensures
        decode_page(encode_page(page).update(at, value) + rest) == Err::<PageView, ErrorView>(
            ErrorView::MalformedData(
                prefix_reason(magic(), encode_page(page).update(at, value).take(4)),
            ),
        ),
{
    vstd::bytes::lemma_auto_spec_u32_to_from_le_bytes();
    let check = spec_u32_to_le_bytes(crc32(frame(page, blank())));
    let changed = encode_page(page).update(at, value);
    lemma_frame_layout(page, check);
    assert((changed + rest).take(4) =~= changed.take(4));
    assert(changed.take(4)[at] != magic()[at]);
}

/// A stream that holds nothing holds no page.
pub proof fn lemma_empty_stream(stream: Seq<u8>)
    requires
        stream.len() == 0,
    ensures
        decode_page(stream) == Err::<PageView, ErrorView>(ErrorView::NoMoreData),
{
}

/// A stream that ends inside the header of a page, inside the lengths of its
/// segments or inside its segments ends unexpectedly.
pub proof fn lemma_truncated_stream(stream: Seq<u8>)
    requires
        stream.len() > 0,
        stream.len() < HEADER_LEN || (stream.take(4) == magic() && (stream.len() < HEADER_LEN
            + stream[26] || stream.len() < announced_len(stream))),
    ensures
        decode_page(stream) == Err::<PageView, ErrorView>(ErrorView::UnexpectedEoF),
{
}

/// A page that is read keeps within the bounds of a page.
pub proof fn lemma_read_page_is_valid(stream: Seq<u8>)
    requires
        decode_page(stream) is Ok,
    ensures
        valid_segments(decode_page(stream)->Ok_0.segments),
{
    let whole = stream.take(announced_len(stream) as int);
    let lengths = announced(stream);
    let segments = decode_page(stream)->Ok_0.segments;
    assert(whole.subrange(HEADER_LEN as int, HEADER_LEN + whole[26]) =~= lengths);
    assert forall|k: int| 0 <= k < segments.len() implies (#[trigger] segments[k]).len()
        <= SEGMENT_LIMIT by {
        lemma_lacing_sum_grows(lengths, k, k);
        lemma_lacing_sum_grows(lengths, k + 1, k + 1);
    }
}

/// The first `k` segments that lengths cut out of bytes hold the bytes up to
/// where the next segment starts.
proof fn lemma_split_body_prefix(bytes: Seq<u8>, lengths: Seq<u8>, k: int)
    requires
        0 <= k <= lengths.len(),
        lacing_sum(lengths) <= bytes.len(),
    ensures
        body(split_body(bytes, lengths).take(k)) == bytes.take(lacing_sum(lengths.take(k)) as int),
    decreases k,
{
    let cut = split_body(bytes, lengths);
    if k == 0 {
        assert(cut.take(0) =~= Seq::<Seq<u8>>::empty());
        assert(lengths.take(0) =~= Seq::<u8>::empty());
        assert(bytes.take(0) =~= Seq::<u8>::empty());
    } else {
        lemma_split_body_prefix(bytes, lengths, k - 1);
        lemma_lacing_sum_grows(lengths, k - 1, k - 1);
        lemma_lacing_sum_grows(lengths, k, k);
        assert(cut.take(k).drop_last() =~= cut.take(k - 1));
        assert(cut.take(k).last() == cut[k - 1]);
        let from = lacing_sum(lengths.take(k - 1)) as int;
        let to = lacing_sum(lengths.take(k)) as int;
        assert(bytes.take(from) + bytes.subrange(from, to) =~= bytes.take(to));
    }
}

/// A page that was read is written as the bytes it was read from.
pub proof fn lemma_write_after_read(stream: Seq<u8>)
    requires
        decode_page(stream) is Ok,
    ensures
        encode_page(decode_page(stream)->Ok_0) == stream.take(page_taken(stream) as int),
{
    vstd::bytes::lemma_auto_spec_u64_to_from_le_bytes();
    vstd::bytes::lemma_auto_spec_u32_to_from_le_bytes();
    let whole = stream.take(announced_len(stream) as int);
    let page = decode_page(stream)->Ok_0;
    let lengths = announced(stream);
    let start = HEADER_LEN + whole[26];
    let bytes = whole.skip(start);
    assert(whole.subrange(HEADER_LEN as int, start) =~= lengths);
    assert(page.segments == split_body(bytes, lengths));
    assert(lacing(page.segments) =~= lengths) by {
        assert forall|k: int| 0 <= k < lengths.len() implies (#[trigger] page.segments[k]).len()
            == lengths[k] by {
            lemma_lacing_sum_grows(lengths, k, k);
            lemma_lacing_sum_grows(lengths, k + 1, k + 1);
        }
    }
    assert(body(page.segments) =~= bytes) by {
        lemma_split_body_prefix(bytes, lengths, lengths.len() as int);
        assert(page.segments.take(lengths.len() as int) =~= page.segments);
        assert(lengths.take(lengths.len() as int) =~= lengths);
        assert(bytes.take(bytes.len() as int) =~= bytes);
    }
    assert(header_type_byte(page.header_type) == whole[5]);
    assert(check_prefix(stream, magic()) is Ok);
    assert(whole.take(4) =~= stream.take(4));
    let granule = whole.subrange(6, 14);
    let serial = whole.subrange(14, 18);
    let sequence = whole.subrange(18, 22);
    let stored = whole.subrange(CHECKSUM_AT as int, CHECKSUM_AT + 4);
    assert(spec_u64_to_le_bytes(spec_u64_from_le_bytes(granule)) == granule);
    assert(spec_u32_to_le_bytes(spec_u32_from_le_bytes(serial)) == serial);
    assert(spec_u32_to_le_bytes(spec_u32_from_le_bytes(sequence)) == sequence);
    assert(spec_u32_to_le_bytes(spec_u32_from_le_bytes(stored)) == stored);
    assert(frame(page, blank()) =~= blanked(whole));
    assert(frame(page, stored) =~= whole);
}

} // verus!

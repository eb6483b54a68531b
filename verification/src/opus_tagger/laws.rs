//! What holds of the headers and of a rewritten stream: keys are found
//! whatever their case, what is written is read back, a packet laid into
//! segments is not changed by it, and a rewritten stream holds the new
//! comments before all that followed the old ones.

use super::comment::{
    decode_entries, decode_entry, decode_tags, decode_tags_packet, decode_text, encodable,
    entries_bytes, entry_text, first_under_key, framed_text, not_under_key,
    separator_at, string_bytes, tags_bytes, tags_magic, text_taken, under_key, CommentView,
    TagsView, SEPARATOR,
};
use super::head::{
    decode_head, head_bytes, head_magic, mapping_family_byte, mapping_family_of, sample_rate_hz,
    OpusHead, HEAD_VERSION_LIMIT,
};
use super::{
    chunk_count, chunked, decode_meta, missing_head_reason, missing_tags_reason, needed_page,
    oversize_reason, rewritten, MetaView, PAGE_CAPACITY,
};
use crate::error::ErrorView;
use crate::ogg::laws::{lemma_read_after_write, lemma_read_page_is_valid};
use crate::ogg::{body, decode_page, encode_page, page_taken, valid_segments, PageView, SEGMENT_LIMIT};
use crate::text::same_ignoring_ascii_case;
use vstd::bytes::{spec_u16_to_le_bytes, spec_u32_to_le_bytes};
use vstd::prelude::*;
use vstd::utf8::encode_utf8;

verus! {

/// What `first_under_key` names: no comment before it stands under the key,
/// and the comment there does, where there is one.
pub proof fn lemma_first_under_key(comments: Seq<CommentView>, key: Seq<char>)
    ensures
        0 <= first_under_key(comments, key) <= comments.len(),
        forall|i: int|
            0 <= i < first_under_key(comments, key) ==> !same_ignoring_ascii_case(
                (#[trigger] comments[i]).key,
                key,
            ),
        first_under_key(comments, key) < comments.len() ==> same_ignoring_ascii_case(
            comments[first_under_key(comments, key)].key,
            key,
        ),
    decreases comments.len(),
{
    if comments.len() > 0 && !same_ignoring_ascii_case(comments.first().key, key) {
        let rest = comments.drop_first();
        lemma_first_under_key(rest, key);
        assert forall|i: int| 0 <= i < first_under_key(comments, key) implies
            !same_ignoring_ascii_case((#[trigger] comments[i]).key, key) by {
            if i > 0 {
                assert(comments[i] == rest[i - 1]);
            }
        }
    }
}

/// Nothing is found among comments of which none stands under the key.
proof fn lemma_none_under_key(comments: Seq<CommentView>, key: Seq<char>)
    requires
        forall|i: int|
            0 <= i < comments.len() ==> !same_ignoring_ascii_case((#[trigger] comments[i]).key, key),
    ensures
        under_key(comments, key) == Seq::<CommentView>::empty(),
        not_under_key(comments, key) == comments,
    decreases comments.len(),
{
    reveal(Seq::filter);
    if comments.len() > 0 {
        let front = comments.drop_last();
        assert forall|i: int| 0 <= i < front.len() implies !same_ignoring_ascii_case(
            (#[trigger] front[i]).key,
            key,
        ) by {
            assert(front[i] == comments[i]);
        }
        lemma_none_under_key(front, key);
        assert(front.push(comments.last()) =~= comments);
    }
}

/// Keys that differ in nothing but the case of `a` to `z` find the same
/// comments, in the same order.
pub proof fn lemma_keys_fold_case(comments: Seq<CommentView>, a: Seq<char>, b: Seq<char>)
    requires
        same_ignoring_ascii_case(a, b),
    ensures
        under_key(comments, a) == under_key(comments, b),
        not_under_key(comments, a) == not_under_key(comments, b),
        first_under_key(comments, a) == first_under_key(comments, b),
    decreases comments.len(),
{
    reveal(Seq::filter);
    assert forall|key: Seq<char>|
        same_ignoring_ascii_case(key, a) == same_ignoring_ascii_case(key, b) by {
        if same_ignoring_ascii_case(key, a) {
            assert(same_ignoring_ascii_case(key, b));
        }
        if same_ignoring_ascii_case(key, b) {
            assert(same_ignoring_ascii_case(key, a));
        }
    }
    if comments.len() > 0 {
        lemma_keys_fold_case(comments.drop_last(), a, b);
        lemma_keys_fold_case(comments.drop_first(), a, b);
    }
}

/// A comment that was added is found after those that were there, where it
/// stands under the key, and those that were there are found as before.
pub proof fn lemma_find_after_add(comments: Seq<CommentView>, added: CommentView, key: Seq<char>)
    ensures
        under_key(comments.push(added), key) == if same_ignoring_ascii_case(added.key, key) {
            under_key(comments, key).push(added)
        } else {
            under_key(comments, key)
        },
{
    reveal(Seq::filter);
    assert(comments.push(added).drop_last() =~= comments);
}

/// Taking out the first comment under a key takes the first of those found
/// under it and leaves the later ones, and all under other keys, as they were.
pub proof fn lemma_remove_first_leaves_rest(comments: Seq<CommentView>, key: Seq<char>)
    requires
        first_under_key(comments, key) < comments.len(),
    ensures
        under_key(comments, key).len() > 0,
        under_key(comments, key).first() == comments[first_under_key(comments, key)],
        under_key(comments.remove(first_under_key(comments, key)), key) == under_key(
            comments,
            key,
        ).drop_first(),
        not_under_key(comments.remove(first_under_key(comments, key)), key) == not_under_key(
            comments,
            key,
        ),
{
    let at = first_under_key(comments, key);
    let wanted = |comment: CommentView| same_ignoring_ascii_case(comment.key, key);
    let other = |comment: CommentView| !same_ignoring_ascii_case(comment.key, key);
    lemma_first_under_key(comments, key);
    let before = comments.take(at);
    let hit = seq![comments[at]];
    let after = comments.skip(at + 1);
    assert(comments =~= before + hit + after);
    assert(comments.remove(at) =~= before + after);
    lemma_none_under_key(before, key);
    assert(hit.filter(wanted) =~= hit && hit.filter(other) =~= Seq::<CommentView>::empty()) by {
        reveal_with_fuel(Seq::filter, 2);
        assert(hit.drop_last() =~= Seq::<CommentView>::empty());
    }
    Seq::filter_distributes_over_add(before, hit, wanted);
    Seq::filter_distributes_over_add(before + hit, after, wanted);
    Seq::filter_distributes_over_add(before, after, wanted);
    Seq::filter_distributes_over_add(before, hit, other);
    Seq::filter_distributes_over_add(before + hit, after, other);
    Seq::filter_distributes_over_add(before, after, other);
    assert(under_key(comments, key) =~= hit + after.filter(wanted));
    assert((hit + after.filter(wanted)).drop_first() =~= after.filter(wanted));
    assert(under_key(comments.remove(at), key) =~= after.filter(wanted));
    assert(not_under_key(comments, key) =~= before + after.filter(other));
    assert(not_under_key(comments.remove(at), key) =~= before + after.filter(other));
}

/// The segments that a packet is laid into are full but the last, which is
/// not empty, and there are no more of them than a page holds where the
/// packet is no longer than what a page holds.
pub proof fn lemma_chunked_shape(bytes: Seq<u8>)
    ensures
        chunked(bytes).len() == chunk_count(bytes.len()),
        forall|i: int|
            0 <= i < chunked(bytes).len() - 1 ==> (#[trigger] chunked(bytes)[i]).len()
                == SEGMENT_LIMIT,
        chunked(bytes).len() > 0 ==> 0 < chunked(bytes).last().len() <= SEGMENT_LIMIT,
        chunked(bytes).len() > 0 ==> chunked(bytes).last().len() == bytes.len() - (chunked(
            bytes,
        ).len() - 1) * SEGMENT_LIMIT,
        valid_segments(chunked(bytes)) <==> bytes.len() <= PAGE_CAPACITY,
{
    let count = chunk_count(bytes.len()) as int;
    assert(valid_segments(chunked(bytes)) <==> bytes.len() <= PAGE_CAPACITY) by {
        assert forall|i: int| 0 <= i < count implies (#[trigger] chunked(bytes)[i]).len()
            <= SEGMENT_LIMIT by {}
    }
}

/// The segments that a packet is laid into hold, taken together, the packet.
pub proof fn lemma_chunked_joins(bytes: Seq<u8>)
    ensures
        body(chunked(bytes)) == bytes,
{
    let chunks = chunked(bytes);
    lemma_chunked_shape(bytes);
    assert forall|k: int| 0 <= k <= chunks.len() implies #[trigger] body(chunks.take(k))
        == bytes.take(
        if k * SEGMENT_LIMIT <= bytes.len() {
            k * SEGMENT_LIMIT
        } else {
            bytes.len() as int
        },
    ) by {
        lemma_chunked_prefix(bytes, k);
    }
    assert(chunks.take(chunks.len() as int) =~= chunks);
    assert(bytes.take(bytes.len() as int) =~= bytes);
}

/// The first `k` segments that a packet is laid into hold its first bytes.
proof fn lemma_chunked_prefix(bytes: Seq<u8>, k: int)
    requires
        0 <= k <= chunked(bytes).len(),
    ensures
        body(chunked(bytes).take(k)) == bytes.take(
            if k * SEGMENT_LIMIT <= bytes.len() {
                k * SEGMENT_LIMIT
            } else {
                bytes.len() as int
            },
        ),
    decreases k,
{
    let chunks = chunked(bytes);
    if k == 0 {
        assert(chunks.take(0) =~= Seq::<Seq<u8>>::empty());
        assert(bytes.take(0) =~= Seq::<u8>::empty());
    } else {
        lemma_chunked_prefix(bytes, k - 1);
        assert(chunks.take(k).drop_last() =~= chunks.take(k - 1));
        assert(chunks.take(k).last() == chunks[k - 1]);
        let end = if k * SEGMENT_LIMIT <= bytes.len() {
            k * SEGMENT_LIMIT
        } else {
            bytes.len() as int
        };
        assert(bytes.take((k - 1) * SEGMENT_LIMIT) + bytes.subrange((k - 1) * SEGMENT_LIMIT, end)
            =~= bytes.take(end));
    }
}

/// An identification header that was written is read back as it was from a
/// page that carries it as its one segment, where its version is one that is
/// read and its mapping family goes by the name it has.
pub proof fn lemma_head_read_after_write(head: OpusHead, page: PageView)
    requires
        page.granule_position == 0,
        page.segments == seq![head_bytes(head)],
        head.version <= HEAD_VERSION_LIMIT,
        mapping_family_of(mapping_family_byte(head.channel_map)) == head.channel_map,
    ensures
        decode_head(page) == Ok::<OpusHead, ErrorView>(head),
{
    vstd::bytes::lemma_auto_spec_u16_to_from_le_bytes();
    vstd::bytes::lemma_auto_spec_u32_to_from_le_bytes();
    let bytes = head_bytes(head);
    let pre_skip = spec_u16_to_le_bytes(head.pre_skip);
    let sample_rate = spec_u32_to_le_bytes(sample_rate_hz(head.sample_rate));
    assert(pre_skip.len() == 2);
    assert(sample_rate.len() == 4);
    assert(page.segments[0] == bytes);
    assert(bytes.take(8) =~= head_magic());
    assert(bytes.subrange(10, 12) =~= pre_skip);
    assert(bytes.subrange(12, 16) =~= sample_rate);
    let m = head.gain.m;
    assert((m as u8) as i8 == m) by (bit_vector);
}

/// A stream is refused for rewriting where reading its headers is refused,
/// and for the same reason, whatever the new comments are. Where its headers
/// are read, it is refused for nothing but comments of more bytes than the
/// segments of one page hold.
pub proof fn lemma_rewrite_refuses_as_reading(tags: TagsView, stream: Seq<u8>)
    ensures
        decode_meta(stream) is Err ==> rewritten(tags, stream) == Err::<Seq<u8>, ErrorView>(
            decode_meta(stream)->Err_0,
        ),
        decode_meta(stream) is Ok ==> (rewritten(tags, stream) is Ok <==> tags_bytes(
            tags,
            tags_magic(),
        ).len() <= PAGE_CAPACITY),
        decode_meta(stream) is Ok && rewritten(tags, stream) is Err ==> rewritten(tags, stream)
            == Err::<Seq<u8>, ErrorView>(
            ErrorView::MalformedData(oversize_reason(chunked(tags_bytes(tags, tags_magic())))),
        ),
{
    lemma_chunked_shape(tags_bytes(tags, tags_magic()));
}

/// A stream that was rewritten starts with the first page as it was, goes
/// on with the second page in which the new comments are laid into
/// segments, and ends with all that followed the second page, byte for byte.
pub proof fn lemma_rewritten_reads_back(tags: TagsView, stream: Seq<u8>)
    requires
        rewritten(tags, stream) is Ok,
    ensures
        ({
            let out = rewritten(tags, stream)->Ok_0;
            let after_head = stream.skip(page_taken(stream) as int);
            let rest = after_head.skip(page_taken(after_head) as int);
            let out_after_head = out.skip(page_taken(out) as int);
            &&& decode_page(out) == decode_page(stream)
            &&& decode_page(out_after_head) == Ok::<PageView, ErrorView>(
                PageView {
                    segments: chunked(tags_bytes(tags, tags_magic())),
                    ..decode_page(after_head)->Ok_0
                },
            )
            &&& out_after_head.skip(page_taken(out_after_head) as int) == rest
        }),
{
    let out = rewritten(tags, stream)->Ok_0;
    let after_head = stream.skip(page_taken(stream) as int);
    let rest = after_head.skip(page_taken(after_head) as int);
    let head_page = decode_page(stream)->Ok_0;
    let tags_page = decode_page(after_head)->Ok_0;
    let new_page = PageView { segments: chunked(tags_bytes(tags, tags_magic())), ..tags_page };
    lemma_read_page_is_valid(stream);
    lemma_chunked_shape(tags_bytes(tags, tags_magic()));
    assert(out =~= encode_page(head_page) + (encode_page(new_page) + rest));
    lemma_read_after_write(head_page, encode_page(new_page) + rest);
    let out_after_head = out.skip(page_taken(out) as int);
    assert(out_after_head =~= encode_page(new_page) + rest);
    lemma_read_after_write(new_page, rest);
    assert(out_after_head.skip(page_taken(out_after_head) as int) =~= rest);
}

/// Texts put together are written as their bytes put together.
pub proof fn lemma_encode_concat(a: Seq<char>, b: Seq<char>)
    ensures
        encode_utf8(a + b) == encode_utf8(a) + encode_utf8(b),
    decreases a.len(),
{
    if a.len() == 0 {
        assert(a + b =~= b);
        assert(encode_utf8(a) + encode_utf8(b) =~= encode_utf8(b));
    } else {
        assert((a + b).drop_first() =~= a.drop_first() + b);
        lemma_encode_concat(a.drop_first(), b);
        assert(encode_utf8(a + b) =~= encode_utf8(a) + encode_utf8(b));
    }
}

/// The text `=` is written as the one byte that parts key and value.
pub proof fn lemma_separator_byte()
    ensures
        "="@ == seq!['='],
        encode_utf8("="@) == seq![SEPARATOR],
{
    reveal_strlit("=");
    assert("="@ =~= seq!['=']);
    reveal_with_fuel(vstd::utf8::encode_utf8, 2);
    let scalar = '=' as u32;
    assert(scalar == 0x3d);
    assert((0x3du32 & 0x7F) as u8 == 0x3du8) by (bit_vector);
    assert(seq!['='].drop_first() =~= Seq::<char>::empty());
    assert(encode_utf8(seq!['=']) =~= seq![SEPARATOR]);
}

/// A text without `=` is written without the byte that parts key and value.
pub proof fn lemma_no_separator_byte(text: Seq<char>)
    requires
        !text.contains('='),
    ensures
        !encode_utf8(text).contains(SEPARATOR),
    decreases text.len(),
{
    if text.len() > 0 {
        let rest = text.drop_first();
        assert forall|i: int| 0 <= i < rest.len() implies rest[i] != '=' by {
            assert(rest[i] == text[i + 1]);
            assert(text.contains(text[i + 1]));
        }
        if rest.contains('=') {
            let i = choose|i: int| 0 <= i < rest.len() && rest[i] == '=';
            assert(false);
        }
        lemma_no_separator_byte(rest);
        let scalar = text[0] as u32;
        assert(text.contains(text[0]));
        assert(text[0] != '=');
        assert(scalar != 0x3d) by {
            vstd::utf8::char_u32_cast(text[0], scalar);
            vstd::utf8::char_u32_cast('=', 0x3du32);
        }
        let first = vstd::utf8::encode_scalar(scalar);
        assert forall|i: int| 0 <= i < first.len() implies first[i] != SEPARATOR by {
            assert(scalar <= 0x7F ==> (scalar & 0x7F) as u8 != 0x3du8) by (bit_vector)
                requires
                    scalar != 0x3d,
            ;
            assert((0xC0u8 | ((scalar >> 6) & 0x1F) as u8) != 0x3du8) by (bit_vector);
            assert((0xE0u8 | ((scalar >> 12) & 0x0F) as u8) != 0x3du8) by (bit_vector);
            assert((0xF0u8 | ((scalar >> 18) & 0x7) as u8) != 0x3du8) by (bit_vector);
            assert((0x80u8 | (scalar & 0x3F) as u8) != 0x3du8) by (bit_vector);
            assert((0x80u8 | ((scalar >> 6) & 0x3F) as u8) != 0x3du8) by (bit_vector);
            assert((0x80u8 | ((scalar >> 12) & 0x3F) as u8) != 0x3du8) by (bit_vector);
        }
        let bytes = encode_utf8(text);
        assert(bytes =~= first + encode_utf8(rest));
        if bytes.contains(SEPARATOR) {
            let i = choose|i: int| 0 <= i < bytes.len() && bytes[i] == SEPARATOR;
            if i < first.len() {
                assert(first[i] == SEPARATOR);
            } else {
                assert(encode_utf8(rest)[i - first.len()] == SEPARATOR);
                assert(encode_utf8(rest).contains(SEPARATOR));
            }
        }
    } else {
        assert(encode_utf8(text) =~= Seq::<u8>::empty());
    }
}

/// Bytes without the byte that parts, followed by it, end where it stands.
pub proof fn lemma_separator_after(key: Seq<u8>, value: Seq<u8>)
    requires
        !key.contains(SEPARATOR),
    ensures
        separator_at(key + seq![SEPARATOR] + value) == key.len(),
    decreases key.len(),
{
    let raw = key + seq![SEPARATOR] + value;
    if key.len() > 0 {
        assert(key.contains(key[0]));
        assert(raw.first() == key[0]);
        assert(raw.drop_first() =~= key.drop_first() + seq![SEPARATOR] + value);
        assert forall|i: int| 0 <= i < key.drop_first().len() implies key.drop_first()[i]
            != SEPARATOR by {
            assert(key.contains(key[i + 1]));
        }
        if key.drop_first().contains(SEPARATOR) {
            let i = choose|i: int|
                0 <= i < key.drop_first().len() && key.drop_first()[i] == SEPARATOR;
            assert(false);
        }
        lemma_separator_after(key.drop_first(), value);
    } else {
        assert(raw.first() == SEPARATOR);
    }
}

/// A text that was written is read back as it was, whatever follows it.
pub proof fn lemma_text_read_after_write(text: Seq<char>, rest: Seq<u8>)
    requires
        encode_utf8(text).len() <= u32::MAX,
    ensures
        framed_text(string_bytes(text) + rest) == Ok::<Seq<u8>, ErrorView>(encode_utf8(text)),
        decode_text(string_bytes(text) + rest) == Ok::<Seq<char>, ErrorView>(text),
        text_taken(string_bytes(text) + rest) == string_bytes(text).len(),
        (string_bytes(text) + rest).skip(string_bytes(text).len() as int) == rest,
{
    broadcast use vstd::utf8::group_utf8_lib;

    vstd::bytes::lemma_auto_spec_u32_to_from_le_bytes();
    let raw = encode_utf8(text);
    let len = spec_u32_to_le_bytes(raw.len() as u32);
    let bytes = string_bytes(text) + rest;
    assert(bytes.take(4) =~= len);
    assert(bytes.subrange(4, 4 + raw.len() as int) =~= raw);
    assert(bytes.skip(string_bytes(text).len() as int) =~= rest);
}

/// A comment that was written is read back as it was, whatever follows it,
/// where its key holds no `=`.
pub proof fn lemma_entry_read_after_write(comment: CommentView, rest: Seq<u8>)
    requires
        encode_utf8(entry_text(comment)).len() <= u32::MAX,
        !comment.key.contains('='),
    ensures
        decode_entry(string_bytes(entry_text(comment)) + rest) == Ok::<CommentView, ErrorView>(
            comment,
        ),
        text_taken(string_bytes(entry_text(comment)) + rest) == string_bytes(
            entry_text(comment),
        ).len(),
{
    broadcast use vstd::utf8::group_utf8_lib;

    let text = entry_text(comment);
    lemma_text_read_after_write(text, rest);
    let raw = encode_utf8(text);
    let key = encode_utf8(comment.key);
    let value = encode_utf8(comment.value);
    lemma_separator_byte();
    lemma_encode_concat(comment.key + "="@, comment.value);
    lemma_encode_concat(comment.key, "="@);
    assert(raw =~= key + seq![SEPARATOR] + value);
    lemma_no_separator_byte(comment.key);
    lemma_separator_after(key, value);
    assert(raw.take(key.len() as int) =~= key);
    assert(raw.skip(key.len() as int + 1) =~= value);
}

/// The first comment is written before the others.
proof fn lemma_entries_first(comments: Seq<CommentView>)
    requires
        comments.len() > 0,
    ensures
        entries_bytes(comments) == string_bytes(entry_text(comments.first())) + entries_bytes(
            comments.drop_first(),
        ),
    decreases comments.len(),
{
    if comments.len() == 1 {
        assert(comments.drop_last() =~= Seq::<CommentView>::empty());
        assert(comments.drop_first() =~= Seq::<CommentView>::empty());
        assert(entries_bytes(comments) =~= string_bytes(entry_text(comments.first()))
            + entries_bytes(comments.drop_first()));
    } else {
        lemma_entries_first(comments.drop_last());
        assert(comments.drop_last().drop_first() =~= comments.drop_first().drop_last());
        assert(entries_bytes(comments) =~= string_bytes(entry_text(comments.first()))
            + entries_bytes(comments.drop_first()));
    }
}

/// Comments that were written are read back as they were, after those found
/// before, where their keys hold no `=`.
pub proof fn lemma_entries_read_after_write(
    comments: Seq<CommentView>,
    found: Seq<CommentView>,
    rest: Seq<u8>,
)
    requires
        forall|i: int|
            0 <= i < comments.len() ==> encode_utf8(entry_text(#[trigger] comments[i])).len()
                <= u32::MAX,
        forall|i: int| 0 <= i < comments.len() ==> !(#[trigger] comments[i]).key.contains('='),
    ensures
        decode_entries(entries_bytes(comments) + rest, comments.len(), found) == Ok::<
            Seq<CommentView>,
            ErrorView,
        >(found + comments),
    decreases comments.len(),
{
    if comments.len() == 0 {
        assert(found + comments =~= found);
    } else {
        let first = comments.first();
        let others = comments.drop_first();
        let written = string_bytes(entry_text(first));
        lemma_entries_first(comments);
        let bytes = entries_bytes(comments) + rest;
        assert(bytes =~= written + (entries_bytes(others) + rest));
        lemma_entry_read_after_write(first, entries_bytes(others) + rest);
        lemma_text_read_after_write(entry_text(first), entries_bytes(others) + rest);
        assert forall|i: int| 0 <= i < others.len() implies encode_utf8(
            entry_text(#[trigger] others[i]),
        ).len() <= u32::MAX && !others[i].key.contains('=') by {
            assert(others[i] == comments[i + 1]);
        }
        lemma_entries_read_after_write(others, found.push(first), rest);
        assert(found.push(first) + others =~= found + comments);
    }
}

/// Comments that were written are read back as they were, where the bytes
/// that mark them are four or more and no key holds a `=`.
pub proof fn lemma_tags_read_after_write(tags: TagsView, magic: Seq<u8>)
    requires
        encodable(tags),
        magic.len() >= 4,
        forall|i: int|
            0 <= i < tags.comments.len() ==> !(#[trigger] tags.comments[i]).key.contains('='),
    ensures
        decode_tags_packet(tags_bytes(tags, magic), magic) == Ok::<TagsView, ErrorView>(tags),
{
    vstd::bytes::lemma_auto_spec_u32_to_from_le_bytes();
    let packet = tags_bytes(tags, magic);
    let count = spec_u32_to_le_bytes(tags.comments.len() as u32);
    let entries = entries_bytes(tags.comments);
    assert(packet.take(magic.len() as int) =~= magic);
    let named = packet.skip(magic.len() as int);
    assert(named =~= string_bytes(tags.vendor) + (count + entries));
    lemma_text_read_after_write(tags.vendor, count + entries);
    let listed = named.skip(text_taken(named) as int);
    assert(listed == count + entries);
    assert(listed.take(4) =~= count);
    assert(listed.skip(4) =~= entries + Seq::<u8>::empty());
    lemma_entries_read_after_write(tags.comments, Seq::empty(), Seq::empty());
    assert(Seq::<CommentView>::empty() + tags.comments =~= tags.comments);
}

/// From a stream that was rewritten the identification header is read as
/// from the stream it was made of, and the comments are read as they were
/// given, where no key holds a `=`.
pub proof fn lemma_rewritten_holds_tags(tags: TagsView, stream: Seq<u8>)
    requires
        encodable(tags),
        rewritten(tags, stream) is Ok,
        forall|i: int|
            0 <= i < tags.comments.len() ==> !(#[trigger] tags.comments[i]).key.contains('='),
    ensures
        decode_meta(stream) is Ok,
        decode_meta(rewritten(tags, stream)->Ok_0) == Ok::<MetaView, ErrorView>(
            MetaView { head: decode_meta(stream)->Ok_0.head, tags },
        ),
{
    let out = rewritten(tags, stream)->Ok_0;
    let after_head = stream.skip(page_taken(stream) as int);
    let head_page = decode_page(stream)->Ok_0;
    let tags_page = decode_page(after_head)->Ok_0;
    let packet = tags_bytes(tags, tags_magic());
    let new_page = PageView { segments: chunked(packet), ..tags_page };
    assert(needed_page(stream, missing_head_reason()) == Ok::<PageView, ErrorView>(head_page));
    assert(needed_page(after_head, missing_tags_reason()) == Ok::<PageView, ErrorView>(
        tags_page,
    ));
    assert(decode_tags(tags_page, tags_magic()) is Ok);
    assert(decode_head(head_page) is Ok);
    assert(tags_page.granule_position == 0);
    assert(decode_meta(stream) is Ok);
    assert(decode_meta(stream)->Ok_0.head == decode_head(head_page)->Ok_0);
    lemma_rewritten_reads_back(tags, stream);
    let out_after_head = out.skip(page_taken(out) as int);
    assert(needed_page(out, missing_head_reason()) == Ok::<PageView, ErrorView>(head_page));
    assert(needed_page(out_after_head, missing_tags_reason()) == Ok::<PageView, ErrorView>(
        new_page,
    ));
    assert(decode_tags(new_page, tags_magic()) == Ok::<TagsView, ErrorView>(tags)) by {
        lemma_chunked_joins(packet);
        lemma_tags_read_after_write(tags, tags_magic());
    }
}

} // verus!

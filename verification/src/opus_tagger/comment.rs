//! The comments: the vendor and a list of keys with what is said under
//! them, written as length-prefixed UTF-8 across the segments of the second
//! page.

use super::head::{granule_error, granule_reason};
use crate::error::{check_source_prefix, yields, yields_view, Error, ErrorView};
use crate::ogg::{body, segments_of, valid_segments, OggPage, PageView, SEGMENT_LIMIT};
use crate::stream::{after_fill, chained, lemma_chained_push, ByteSource, MultiChain};
use crate::text::{
    decimal, push_decimal, same_ignoring_ascii_case, str_eq_ignore_ascii_case, string_from_utf8,
};
use vstd::bytes::{spec_u32_from_le_bytes, spec_u32_to_le_bytes, u32_from_le_bytes, u32_to_le_bytes};
use vstd::prelude::*;
use vstd::std_specs::convert::FromSpecImpl;
use vstd::string::*;
use vstd::utf8::{decode_utf8, encode_utf8, is_char_boundary, valid_utf8};

verus! {

/// The eight bytes that a comment block starts with: "OpusTags".
pub open spec fn tags_magic() -> Seq<u8> {
    seq![0x4fu8, 0x70u8, 0x75u8, 0x73u8, 0x54u8, 0x61u8, 0x67u8, 0x73u8]
}

/// One comment: a key and what is said under it.
#[derive(Debug, PartialEq, Eq)]
pub struct Comment {
    pub key: String,
    pub value: String,
}

/// A comment as contracts speak of it.
pub struct CommentView {
    pub key: Seq<char>,
    pub value: Seq<char>,
}

impl View for Comment {
    type V = CommentView;

    open spec fn view(&self) -> CommentView {
        CommentView { key: self.key@, value: self.value@ }
    }
}

impl Comment {
    /// The comment `value` under `key`.
    pub fn new(key: &str, value: &str) -> (comment: Self)
        ensures
            comment@ == (CommentView { key: key@, value: value@ }),
    {
        Comment { key: key.to_owned(), value: value.to_owned() }
    }
}

impl<'a, 'b> From<(&'a str, &'b str)> for Comment {
    fn from(value: (&'a str, &'b str)) -> (comment: Self)
        ensures
            comment@ == (CommentView { key: value.0@, value: value.1@ }),
    {
        Comment::new(value.0, value.1)
    }
}

/// What the conversion gives is stated on `from` itself, by the view of the
/// comment: no function of contracts can make the strings of a comment.
impl<'a, 'b> FromSpecImpl<(&'a str, &'b str)> for Comment {
    open spec fn obeys_from_spec() -> bool {
        false
    }

    open spec fn from_spec(value: (&'a str, &'b str)) -> Self {
        arbitrary()
    }
}

impl From<(String, String)> for Comment {
    fn from(value: (String, String)) -> (comment: Self)
        ensures
            comment@ == (CommentView { key: value.0@, value: value.1@ }),
    {
        Comment { key: value.0, value: value.1 }
    }
}

/// What the conversion gives is stated on `from` itself, as above.
impl FromSpecImpl<(String, String)> for Comment {
    open spec fn obeys_from_spec() -> bool {
        false
    }

    open spec fn from_spec(value: (String, String)) -> Self {
        arbitrary()
    }
}

/// The comments of a stream: who wrote it, and keys with what is said under
/// them, in the order in which they were added.
#[derive(Debug, PartialEq, Eq)]
pub struct VorbisComment {
    vendor: String,
    comments: Vec<Comment>,
}

/// The comments of a stream as contracts speak of them.
pub struct TagsView {
    pub vendor: Seq<char>,
    pub comments: Seq<CommentView>,
}

/// Comments as contracts speak of them.
pub open spec fn comments_of(comments: Seq<Comment>) -> Seq<CommentView> {
    comments.map_values(|comment: Comment| comment@)
}

impl View for VorbisComment {
    type V = TagsView;

    closed spec fn view(&self) -> TagsView {
        TagsView { vendor: self.vendor@, comments: comments_of(self.comments@) }
    }
}

/// The comments of `comments` that stand under `key`, in their order. Keys
/// are the same where they differ in nothing but the case of `a` to `z`.
pub open spec fn under_key(comments: Seq<CommentView>, key: Seq<char>) -> Seq<CommentView> {
    comments.filter(|comment: CommentView| same_ignoring_ascii_case(comment.key, key))
}

/// The comments of `comments` that do not stand under `key`, in their order.
pub open spec fn not_under_key(comments: Seq<CommentView>, key: Seq<char>) -> Seq<CommentView> {
    comments.filter(|comment: CommentView| !same_ignoring_ascii_case(comment.key, key))
}

/// The place of the first comment under `key`, or the number of comments where there is none.
pub open spec fn first_under_key(comments: Seq<CommentView>, key: Seq<char>) -> int
    decreases comments.len(),
{
    if comments.len() == 0 {
        0
    } else if same_ignoring_ascii_case(comments.first().key, key) {
        0
    } else {
        1 + first_under_key(comments.drop_first(), key)
    }
}

impl VorbisComment {
    /// Comments of `vendor` that hold nothing yet.
    pub fn empty(vendor: &str) -> (tags: Self)
        ensures
            tags@ == (TagsView { vendor: vendor@, comments: Seq::empty() }),
    {
        let tags = Self { vendor: vendor.to_owned(), comments: Vec::new() };
        assert(tags@.comments =~= Seq::empty());
        tags
    }

    /// Comments of `vendor` that hold `comments` in their order.
    pub fn new(vendor: &str, comments: Vec<Comment>) -> (tags: Self)
        ensures
            tags@ == (TagsView { vendor: vendor@, comments: comments_of(comments@) }),
    {
        Self { vendor: vendor.to_owned(), comments }
    }

    /// Adds `comment` at the end, whatever is there already.
    pub fn add_comment(&mut self, comment: Comment)
        ensures
            final(self)@ == (TagsView {
                comments: old(self)@.comments.push(comment@),
                ..old(self)@
            }),
    {
        self.comments.push(comment);
        assert(self@.comments =~= old(self)@.comments.push(comment@));
    }

    /// The comments under `key`, in their order.
    pub fn find_comments(&self, key: &str) -> (found: Vec<&Comment>)
        ensures
            found@.map_values(|comment: &Comment| comment@) == under_key(self@.comments, key@),
    {
        let ghost all = self@.comments;
        let ghost wanted = |comment: CommentView| same_ignoring_ascii_case(comment.key, key@);
        let mut found: Vec<&Comment> = Vec::new();
        let mut i: usize = 0;
        assert(all.take(0).filter(wanted) =~= Seq::empty()) by {
            reveal(Seq::filter);
        }
        while i < self.comments.len()
            invariant
                i <= self.comments@.len(),
                all == self@.comments,
                wanted == |comment: CommentView| same_ignoring_ascii_case(comment.key, key@),
                found@.map_values(|comment: &Comment| comment@) == all.take(i as int).filter(
                    wanted,
                ),
            decreases self.comments@.len() - i,
        {
            let comment = &self.comments[i];
            proof {
                reveal(Seq::filter);
                assert(all.take(i + 1).drop_last() =~= all.take(i as int));
                assert(all.take(i + 1).last() == comment@);
            }
            let ghost before = found@;
            if str_eq_ignore_ascii_case(comment.key.as_str(), key) {
                found.push(comment);
                assert(found@.map_values(|comment: &Comment| comment@) =~= before.map_values(
                    |comment: &Comment| comment@,
                ).push(comment@));
            }
            i = i + 1;
        }
        assert(all.take(i as int) =~= all);
        found
    }

    /// Takes out the first comment under `key` and hands it back; nothing
    /// where there is none.
    pub fn remove_first(&mut self, key: &str) -> (removed: Option<Comment>)
        ensures
            final(self)@.vendor == old(self)@.vendor,
            match removed {
                Some(comment) => {
                    let at = first_under_key(old(self)@.comments, key@);
                    &&& 0 <= at < old(self)@.comments.len()
                    &&& comment@ == old(self)@.comments[at]
                    &&& final(self)@.comments == old(self)@.comments.remove(at)
                },
                None => {
                    &&& first_under_key(old(self)@.comments, key@) == old(self)@.comments.len()
                    &&& final(self)@.comments == old(self)@.comments
                },
            },
    {
        let ghost all = self@.comments;
        let mut i: usize = 0;
        assert(all.skip(0) =~= all);
        while i < self.comments.len()
            invariant
                i <= self.comments@.len(),
                *self == *old(self),
                all == self@.comments,
                first_under_key(all, key@) == i + first_under_key(all.skip(i as int), key@),
            decreases self.comments@.len() - i,
        {
            assert(all.skip(i as int).first() == self.comments@[i as int]@);
            assert(all.skip(i as int).drop_first() =~= all.skip(i + 1));
            if str_eq_ignore_ascii_case(self.comments[i].key.as_str(), key) {
                let comment = self.comments.remove(i);
                assert(self@.comments =~= all.remove(i as int));
                return Some(comment);
            }
            i = i + 1;
        }
        None
    }

    /// Takes out every comment under `key`.
    pub fn remove_all(&mut self, key: &str)
        ensures
            final(self)@ == (TagsView {
                comments: not_under_key(old(self)@.comments, key@),
                ..old(self)@
            }),
    {
        let ghost all = self@.comments;
        let ghost kept = |comment: CommentView| !same_ignoring_ascii_case(comment.key, key@);
        let ghost mut seen: int = 0;
        let mut i: usize = 0;
        assert(all.take(0).filter(kept) =~= Seq::empty()) by {
            reveal(Seq::filter);
        }
        assert(all.skip(0) =~= all);
        while i < self.comments.len()
            invariant
                i <= self.comments@.len(),
                0 <= seen <= all.len(),
                self@.vendor == old(self)@.vendor,
                all == old(self)@.comments,
                kept == |comment: CommentView| !same_ignoring_ascii_case(comment.key, key@),
                self@.comments == all.take(seen).filter(kept) + all.skip(seen),
                i == all.take(seen).filter(kept).len(),
            decreases self.comments@.len() - i,
        {
            let ghost head = all.take(seen).filter(kept);
            proof {
                reveal(Seq::filter);
                assert(self@.comments[i as int] == all[seen]);
                assert(all.take(seen + 1).drop_last() =~= all.take(seen));
                assert(all.take(seen + 1).last() == all[seen]);
            }
            if str_eq_ignore_ascii_case(self.comments[i].key.as_str(), key) {
                let ghost before = self@.comments;
                self.comments.remove(i);
                assert(self@.comments =~= before.remove(i as int));
                assert(before.remove(i as int) =~= head + all.skip(seen + 1));
            } else {
                assert(head.push(all[seen]) + all.skip(seen + 1) =~= head + all.skip(seen));
                i = i + 1;
            }
            proof {
                seen = seen + 1;
            }
        }
        assert(all.skip(seen).len() == 0);
        assert(all.take(seen) =~= all);
        assert(self@.comments =~= all.filter(kept));
    }
}

/// The fewest bytes that a comment block holds: what marks it, the length of
/// the vendor and the number of comments.
pub const TAGS_MIN_LEN: usize = 12;

/// The byte that parts a key from what is said under it: `=`.
pub const SEPARATOR: u8 = 0x3d;

/// A text as it is written: the number of its bytes, then its bytes.
pub open spec fn string_bytes(text: Seq<char>) -> Seq<u8> {
    spec_u32_to_le_bytes(encode_utf8(text).len() as u32) + encode_utf8(text)
}

/// A comment as one text: the key, `=`, and what is said under it.
pub open spec fn entry_text(comment: CommentView) -> Seq<char> {
    comment.key + "="@ + comment.value
}

/// The comments as they are written, one after the other.
pub open spec fn entries_bytes(comments: Seq<CommentView>) -> Seq<u8>
    decreases comments.len(),
{
    if comments.len() == 0 {
        Seq::empty()
    } else {
        entries_bytes(comments.drop_last()) + string_bytes(entry_text(comments.last()))
    }
}

/// A comment block as it is written: what marks it, the vendor, the number of
/// comments, and the comments in their order.
pub open spec fn tags_bytes(tags: TagsView, magic: Seq<u8>) -> Seq<u8> {
    magic + string_bytes(tags.vendor) + spec_u32_to_le_bytes(tags.comments.len() as u32)
        + entries_bytes(tags.comments)
}

/// Every length and the number of comments can be written in 32 bits.
pub open spec fn encodable(tags: TagsView) -> bool {
    &&& encode_utf8(tags.vendor).len() <= u32::MAX
    &&& tags.comments.len() <= u32::MAX
    &&& forall|i: int|
        0 <= i < tags.comments.len() ==> encode_utf8(entry_text(#[trigger] tags.comments[i])).len()
            <= u32::MAX
}

/// The bytes of the text at the start of `bytes`: four bytes say how many
/// follow, and those have to be UTF-8.
pub open spec fn framed_text(bytes: Seq<u8>) -> Result<Seq<u8>, ErrorView> {
    if bytes.len() < 4 {
        Err(ErrorView::UnexpectedEoF)
    } else {
        let len = spec_u32_from_le_bytes(bytes.take(4));
        if bytes.len() < 4 + len {
            Err(ErrorView::UnexpectedEoF)
        } else if !valid_utf8(bytes.subrange(4, 4 + len)) {
            Err(ErrorView::FromUtf8)
        } else {
            Ok(bytes.subrange(4, 4 + len))
        }
    }
}

/// How many bytes reading a text at the start of `bytes` takes: the text
/// where there is a whole one, and else all there is.
pub open spec fn text_taken(bytes: Seq<u8>) -> nat {
    if bytes.len() < 4 {
        bytes.len()
    } else if bytes.len() < 4 + spec_u32_from_le_bytes(bytes.take(4)) {
        bytes.len()
    } else {
        (4 + spec_u32_from_le_bytes(bytes.take(4))) as nat
    }
}

/// The text at the start of `bytes`.
pub open spec fn decode_text(bytes: Seq<u8>) -> Result<Seq<char>, ErrorView> {
    match framed_text(bytes) {
        Err(error) => Err(error),
        Ok(raw) => Ok(decode_utf8(raw)),
    }
}

/// The place of the first `=` in `raw`, or the length of `raw` where there is none.
pub open spec fn separator_at(raw: Seq<u8>) -> int
    decreases raw.len(),
{
    if raw.len() == 0 {
        0
    } else if raw.first() == SEPARATOR {
        0
    } else {
        1 + separator_at(raw.drop_first())
    }
}

/// The reason given for a comment without a `=`.
pub open spec fn separator_reason(text: Seq<char>) -> Seq<char> {
    "missing separator '=' in "@ + text
}

/// The comment that the UTF-8 bytes `raw` hold: the key is what stands
/// before the first `=`, and all after it is what is said under the key.
pub open spec fn split_entry(raw: Seq<u8>) -> Result<CommentView, ErrorView> {
    let at = separator_at(raw);
    if at >= raw.len() {
        Err(ErrorView::MalformedData(separator_reason(decode_utf8(raw))))
    } else {
        Ok(CommentView { key: decode_utf8(raw.take(at)), value: decode_utf8(raw.skip(at + 1)) })
    }
}

/// The comment at the start of `bytes`.
pub open spec fn decode_entry(bytes: Seq<u8>) -> Result<CommentView, ErrorView> {
    match framed_text(bytes) {
        Err(error) => Err(error),
        Ok(raw) => split_entry(raw),
    }
}

/// The `count` comments at the start of `bytes`, after those of `found`.
pub open spec fn decode_entries(bytes: Seq<u8>, count: nat, found: Seq<CommentView>) -> Result<
    Seq<CommentView>,
    ErrorView,
>
    decreases count,
{
    if count == 0 {
        Ok(found)
    } else {
        match decode_entry(bytes) {
            Err(error) => Err(error),
            Ok(comment) => decode_entries(
                bytes.skip(text_taken(bytes) as int),
                (count - 1) as nat,
                found.push(comment),
            ),
        }
    }
}

/// The reason given for a comment block that is too short to be one.
pub open spec fn tags_length_reason(len: nat) -> Seq<char> {
    "comment packet needs to have a length of at least 12, but got "@ + decimal(len)
}

/// What follows the vendor in a comment block: the number of comments and
/// the comments.
pub open spec fn decode_comment_list(bytes: Seq<u8>) -> Result<Seq<CommentView>, ErrorView> {
    if bytes.len() < 4 {
        Err(ErrorView::UnexpectedEoF)
    } else {
        decode_entries(bytes.skip(4), spec_u32_from_le_bytes(bytes.take(4)) as nat, Seq::empty())
    }
}

/// The comment block that the bytes `packet` hold.
pub open spec fn decode_tags_packet(packet: Seq<u8>, magic: Seq<u8>) -> Result<
    TagsView,
    ErrorView,
> {
    if packet.len() < TAGS_MIN_LEN {
        Err(ErrorView::MalformedData(tags_length_reason(packet.len())))
    } else if check_source_prefix(packet, magic) is Err {
        Err(check_source_prefix(packet, magic)->Err_0)
    } else {
        let named = packet.skip(magic.len() as int);
        match decode_text(named) {
            Err(error) => Err(error),
            Ok(vendor) => match decode_comment_list(named.skip(text_taken(named) as int)) {
                Err(error) => Err(error),
                Ok(comments) => Ok(TagsView { vendor, comments }),
            },
        }
    }
}

/// The comment block that `page` carries in its segments taken together, or
/// why it carries none.
pub open spec fn decode_tags(page: PageView, magic: Seq<u8>) -> Result<TagsView, ErrorView> {
    if page.granule_position != 0 {
        Err(ErrorView::MalformedData(granule_reason(page.granule_position)))
    } else {
        decode_tags_packet(body(page.segments), magic)
    }
}

/// Reads four bytes as a number, lowest byte first.
pub fn read_u32<R: ByteSource>(read: &mut R) -> (r: Result<u32, Error>)
    ensures
        yields(
            r,
            if old(read).remaining().len() < 4 {
                Err(ErrorView::UnexpectedEoF)
            } else {
                Ok(spec_u32_from_le_bytes(old(read).remaining().take(4)))
            },
        ),
        final(read).remaining() == after_fill(old(read).remaining(), 4),
{
    let mut buf: Vec<u8> = vec![0u8; 4];
    match read.read_exact(buf.as_mut_slice()) {
        Err(error) => Err(error),
        Ok(_) => Ok(u32_from_le_bytes(buf.as_slice())),
    }
}

/// Reads a text: four bytes that say how many follow, and so many bytes of UTF-8.
pub fn read_length_encode_str<R: ByteSource>(read: &mut R) -> (r: Result<String, Error>)
    ensures
        yields_view(r, decode_text(old(read).remaining())),
        r is Ok ==> framed_text(old(read).remaining()) == Ok::<Seq<u8>, ErrorView>(
            encode_utf8(r->Ok_0@),
        ),
        final(read).remaining() == old(read).remaining().skip(
            text_taken(old(read).remaining()) as int,
        ),
{
    broadcast use vstd::utf8::group_utf8_lib;

    let ghost source = read.remaining();
    assert(source.skip(source.len() as int) =~= Seq::<u8>::empty());
    let length = read_u32(read)?;
    let mut buf: Vec<u8> = vec![0u8; length as usize];
    read.read_exact(buf.as_mut_slice())?;
    assert(buf@ =~= source.subrange(4, 4 + length));
    assert(source.skip(4).skip(length as int) =~= source.skip(4 + length));
    match string_from_utf8(buf) {
        Err(error) => Err(Error::FromUtf8(error)),
        Ok(text) => Ok(text),
    }
}

/// Writes a text at the end of `write`: the number of its bytes, then its bytes.
pub fn write_length_encode_str(write: &mut Vec<u8>, s: &str)
    requires
        encode_utf8(s@).len() <= u32::MAX,
    ensures
        final(write)@ == old(write)@ + string_bytes(s@),
{
    let bytes = s.as_bytes();
    let len = u32_to_le_bytes(bytes.len() as u32);
    write.extend_from_slice(len.as_slice());
    write.extend_from_slice(bytes);
    assert(write@ =~= old(write)@ + string_bytes(s@));
}

/// A comment as one text: the key, `=`, and what is said under it.
fn entry_string(comment: &Comment) -> (text: String)
    ensures
        text@ == entry_text(comment@),
{
    let mut text = String::from_str(comment.key.as_str());
    text.append("=");
    text.append(comment.value.as_str());
    assert(text@ =~= entry_text(comment@));
    text
}

/// The place of the first `=` in `bytes`, or their number where there is none.
fn find_separator(bytes: &[u8]) -> (at: usize)
    ensures
        at == separator_at(bytes@),
        at <= bytes@.len(),
        at < bytes@.len() ==> bytes@[at as int] == SEPARATOR,
{
    let mut i: usize = 0;
    assert(bytes@.skip(0) =~= bytes@);
    while i < bytes.len()
        invariant
            i <= bytes@.len(),
            separator_at(bytes@) == i + separator_at(bytes@.skip(i as int)),
        decreases bytes@.len() - i,
    {
        assert(bytes@.skip(i as int).first() == bytes@[i as int]);
        assert(bytes@.skip(i as int).drop_first() =~= bytes@.skip(i + 1));
        if bytes[i] == SEPARATOR {
            return i;
        }
        i = i + 1;
    }
    i
}

/// Parts a text of the form `key=value` at its first `=`.
fn split_comment(read: String) -> (r: Result<Comment, Error>)
    ensures
        yields_view(r, split_entry(encode_utf8(read@))),
{
    broadcast use vstd::utf8::group_utf8_lib;

    let text = read.as_str();
    let bytes = text.as_bytes();
    let at = find_separator(bytes);
    if at >= bytes.len() {
        let mut reason = String::from_str("missing separator '=' in ");
        reason.append(text);
        return Err(Error::MalformedData(reason));
    }
    proof {
        vstd::utf8::is_char_boundary_iff_not_is_continuation_byte(bytes@, at as int);
    }
    let (key, rest) = text.split_at(at);
    proof {
        let tail = bytes@.subrange(at as int, bytes@.len() as int);
        vstd::utf8::valid_utf8_split(bytes@, at as int);
        assert(tail[0] == SEPARATOR);
        assert(valid_utf8(tail));
        reveal_with_fuel(vstd::utf8::is_char_boundary, 2);
        reveal_with_fuel(vstd::utf8::valid_utf8, 2);
        assert(is_char_boundary(tail, 1));
        assert(tail.subrange(1, tail.len() as int) =~= bytes@.skip(at + 1));
        assert(bytes@.subrange(0, at as int) =~= bytes@.take(at as int));
    }
    let (_, value) = rest.split_at(1);
    Ok(Comment { key: key.to_owned(), value: value.to_owned() })
}

impl VorbisComment {
    /// The bytes that the comments are written as, after `magic_str`.
    pub fn to_bytes(&self, magic_str: &[u8]) -> (bytes: Vec<u8>)
        requires
            encodable(self@),
        ensures
            bytes@ == tags_bytes(self@, magic_str@),
    {
        let mut buf: Vec<u8> = Vec::new();
        buf.extend_from_slice(magic_str);
        write_length_encode_str(&mut buf, self.vendor.as_str());
        let count = u32_to_le_bytes(self.comments.len() as u32);
        buf.extend_from_slice(count.as_slice());
        let ghost head = buf@;
        let ghost all = self@.comments;
        assert(head =~= magic_str@ + string_bytes(self@.vendor) + spec_u32_to_le_bytes(
            all.len() as u32,
        ));
        let mut i: usize = 0;
        assert(all.take(0) =~= Seq::<CommentView>::empty());
        while i < self.comments.len()
            invariant
                i <= self.comments@.len(),
                all == self@.comments,
                encodable(self@),
                buf@ == head + entries_bytes(all.take(i as int)),
            decreases self.comments@.len() - i,
        {
            let comment = &self.comments[i];
            assert(all[i as int] == comment@);
            let text = entry_string(comment);
            write_length_encode_str(&mut buf, text.as_str());
            proof {
                assert(all.take(i + 1).drop_last() =~= all.take(i as int));
                assert(all.take(i + 1).last() == comment@);
            }
            i = i + 1;
        }
        assert(all.take(i as int) =~= all);
        assert(buf@ =~= tags_bytes(self@, magic_str@));
        buf
    }

    /// Reads the comment block that `ogg_head` carries after `magic_str`.
    pub fn from(ogg_head: &OggPage, magic_str: &[u8]) -> (r: Result<Self, Error>)
        ensures
            yields_view(r, decode_tags(ogg_head@, magic_str@)),
    {
        if ogg_head.granule_position != 0 {
            return Err(granule_error(ogg_head.granule_position));
        }
        let table = ogg_head.segment_table();
        let ghost segments = ogg_head@.segments;
        let mut all_seg_len: usize = 0;
        let mut sources: Vec<&[u8]> = Vec::new();
        let mut i: usize = 0;
        assert(segments.take(0) =~= Seq::<Seq<u8>>::empty());
        while i < table.len()
            invariant
                i <= table@.len(),
                segments_of(table@) == segments,
                valid_segments(segments),
                all_seg_len == body(segments.take(i as int)).len(),
                all_seg_len <= i * SEGMENT_LIMIT,
                chained(sources@) == body(segments.take(i as int)),
            decreases table@.len() - i,
        {
            assert(segments_of(table@)[i as int] == table@[i as int]@);
            let segment = table[i].as_slice();
            proof {
                assert(segments.take(i + 1).drop_last() =~= segments.take(i as int));
                assert(segments.take(i + 1).last() == segment@);
                assert(segments[i as int].len() <= SEGMENT_LIMIT);
                lemma_chained_push(sources@, segment);
            }
            all_seg_len = all_seg_len + segment.len();
            sources.push(segment);
            i = i + 1;
        }
        assert(segments.take(i as int) =~= segments);
        if all_seg_len < TAGS_MIN_LEN {
            let mut reason = String::from_str(
                "comment packet needs to have a length of at least 12, but got ",
            );
            push_decimal(&mut reason, all_seg_len as u64);
            return Err(Error::MalformedData(reason));
        }
        let mut buf = MultiChain::new(sources);
        let ghost packet = body(segments);
        Error::expect_starts_with_reader(&mut buf, magic_str)?;
        let ghost named = packet.skip(magic_str@.len() as int);
        let vendor = read_length_encode_str(&mut buf)?;
        let ghost listed = named.skip(text_taken(named) as int);
        let number_tags = read_u32(&mut buf)?;
        let mut comments: Vec<Comment> = Vec::new();
        let mut n: u32 = 0;
        assert(comments_of(comments@) =~= Seq::<CommentView>::empty());
        while n < number_tags
            invariant
                n <= number_tags,
                decode_tags(ogg_head@, magic_str@) == (match decode_entries(
                    buf.remaining(),
                    (number_tags - n) as nat,
                    comments_of(comments@),
                ) {
                    Err(error) => Err::<TagsView, ErrorView>(error),
                    Ok(found) => Ok(TagsView { vendor: vendor@, comments: found }),
                }),
            decreases number_tags - n,
        {
            let read = read_length_encode_str(&mut buf)?;
            let comment = split_comment(read)?;
            assert(comments_of(comments@.push(comment)) =~= comments_of(comments@).push(comment@));
            comments.push(comment);
            n = n + 1;
        }
        Ok(Self { vendor, comments })
    }
}

impl VorbisComment {
    /// Whether every length and the number of comments can be written in 32 bits.
    pub fn is_encodable(&self) -> (fits: bool)
        ensures
            fits == encodable(self@),
    {
        let ghost all = self@.comments;
        let limit = u32::MAX as usize;
        if self.vendor.as_str().as_bytes().len() > limit || self.comments.len() > limit {
            return false;
        }
        let mut i: usize = 0;
        while i < self.comments.len()
            invariant
                i <= self.comments@.len(),
                all == self@.comments,
                limit == u32::MAX,
                forall|k: int|
                    0 <= k < i ==> encode_utf8(entry_text(#[trigger] all[k])).len() <= u32::MAX,
            decreases self.comments@.len() - i,
        {
            let comment = &self.comments[i];
            assert(all[i as int] == comment@);
            if entry_string(comment).as_str().as_bytes().len() > limit {
                return false;
            }
            i = i + 1;
        }
        true
    }
}

} // verus!

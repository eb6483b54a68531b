//! What can go wrong while a stream is decoded.

use crate::stream::{after_fill, ByteSource};
use crate::text::{byte_list, push_byte_list};
use vstd::prelude::*;
use vstd::slice::slice_subrange;
use vstd::string::*;

verus! {

/// `std::string::FromUtf8Error`, which is carried through as it comes:
/// nothing is claimed of what it holds.
#[verifier::external_type_specification]
#[verifier::external_body]
pub struct ExFromUtf8Error(std::string::FromUtf8Error);

/// The ways in which decoding fails.
#[derive(Debug, PartialEq, Eq)]
pub enum Error {
    /// A length-prefixed string is not UTF-8.
    FromUtf8(std::string::FromUtf8Error),
    /// A version field holds a version that is not supported.
    UnsupportetVersion(u8),
    /// The data breaks the format; the text says how.
    MalformedData(String),
    /// The stream ended inside something that had begun.
    UnexpectedEoF,
    /// The stream ended where a page would have begun.
    NoMoreData,
}

/// An [`Error`] as contracts speak of it.
pub enum ErrorView {
    FromUtf8,
    UnsupportetVersion(u8),
    MalformedData(Seq<char>),
    UnexpectedEoF,
    NoMoreData,
}

impl View for Error {
    type V = ErrorView;

    open spec fn view(&self) -> ErrorView {
        match self {
            Error::FromUtf8(_) => ErrorView::FromUtf8,
            Error::UnsupportetVersion(version) => ErrorView::UnsupportetVersion(*version),
            Error::MalformedData(reason) => ErrorView::MalformedData(reason@),
            Error::UnexpectedEoF => ErrorView::UnexpectedEoF,
            Error::NoMoreData => ErrorView::NoMoreData,
        }
    }
}

/// `r` is what `expected` says it is; an error is taken by its view.
pub open spec fn yields<T>(r: Result<T, Error>, expected: Result<T, ErrorView>) -> bool {
    match r {
        Ok(value) => expected == Ok::<T, ErrorView>(value),
        Err(error) => expected == Err::<T, ErrorView>(error@),
    }
}

/// `r` is what `expected` says it is; the value and an error are each taken by their view.
pub open spec fn yields_view<T: View>(r: Result<T, Error>, expected: Result<T::V, ErrorView>) -> bool {
    match r {
        Ok(value) => expected == Ok::<T::V, ErrorView>(value@),
        Err(error) => expected == Err::<T::V, ErrorView>(error@),
    }
}

/// The reason given where data does not start with the bytes that mark its kind.
pub open spec fn prefix_reason(expect: Seq<u8>, found: Seq<u8>) -> Seq<char> {
    "expected packet to start with "@ + byte_list(expect) + " but got "@ + byte_list(found)
}

/// Whether `data` starts with `expect`, and the error where it does not.
pub open spec fn check_prefix(data: Seq<u8>, expect: Seq<u8>) -> Result<(), ErrorView> {
    let found = data.take(expect.len() as int);
    if found == expect {
        Ok(())
    } else {
        Err(ErrorView::MalformedData(prefix_reason(expect, found)))
    }
}

/// Whether a source starts with `expect`, and the error where it does not or
/// ends before that can be told.
pub open spec fn check_source_prefix(source: Seq<u8>, expect: Seq<u8>) -> Result<(), ErrorView> {
    if source.len() < expect.len() {
        Err(ErrorView::UnexpectedEoF)
    } else {
        check_prefix(source, expect)
    }
}

/// Whether two slices hold the same bytes.
fn same_bytes(a: &[u8], b: &[u8]) -> (same: bool)
    ensures
        same == (a@ == b@),
{
    if a.len() != b.len() {
        return false;
    }
    let mut i: usize = 0;
    while i < a.len()
        invariant
            a@.len() == b@.len(),
            i <= a@.len(),
            a@.take(i as int) == b@.take(i as int),
        decreases a@.len() - i,
    {
        if a[i] != b[i] {
            return false;
        }
        assert(a@.take(i + 1) =~= a@.take(i as int).push(a@[i as int]));
        assert(b@.take(i + 1) =~= b@.take(i as int).push(b@[i as int]));
        i = i + 1;
    }
    assert(a@.take(i as int) =~= a@);
    assert(b@.take(i as int) =~= b@);
    true
}

impl Error {
    /// Checks that `data` starts with `expect`.
    pub fn expect_starts_with(data: &[u8], expect: &[u8]) -> (r: Result<(), Error>)
        requires
            expect@.len() <= data@.len(),
        ensures
            yields(r, check_prefix(data@, expect@)),
    {
        let found = slice_subrange(data, 0, expect.len());
        if same_bytes(found, expect) {
            Ok(())
        } else {
            let mut reason = String::from_str("expected packet to start with ");
            push_byte_list(&mut reason, expect);
            reason.append(" but got ");
            push_byte_list(&mut reason, found);
            Err(Error::MalformedData(reason))
        }
    }

    /// Takes as many bytes from `data` as `expect` has and checks that they
    /// are those of `expect`.
    pub fn expect_starts_with_reader<R: ByteSource>(data: &mut R, expect: &[u8]) -> (r: Result<
        (),
        Error,
    >)
        ensures
            yields(r, check_source_prefix(old(data).remaining(), expect@)),
            final(data).remaining() == after_fill(old(data).remaining(), expect@.len()),
    {
        let mut buf: Vec<u8> = vec![0u8; expect.len()];
        match data.read_exact(buf.as_mut_slice()) {
            Err(error) => Err(error),
            Ok(_) => {
                assert(buf@.take(expect@.len() as int) =~= old(data).remaining().take(
                    expect@.len() as int,
                ));
                Self::expect_starts_with(buf.as_slice(), expect)
            },
        }
    }
}

} // verus!

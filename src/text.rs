//! Facts about UTF-8 text and byte sequences that the string type relies on,
//! and the few standard-library calls it makes on them.

use vstd::prelude::*;
use vstd::string::StringSliceAdditionalSpecFns;
use vstd::utf8::*;

verus! {

/// The standard library's error for bytes that are not UTF-8, declared so
/// that the result of `core::str::from_utf8` can be named.
#[verifier::external_type_specification]
#[verifier::external_body]
pub struct ExUtf8Error(core::str::Utf8Error);

/// Relies on `core::str::from_utf8`: it accepts exactly the valid UTF-8 byte
/// slices and views them as text made of the same bytes.
pub assume_specification<'a>[ core::str::from_utf8 ](v: &'a [u8]) -> (r: Result<
    &'a str,
    core::str::Utf8Error,
>)
    ensures
        r is Ok <==> valid_utf8(v@),
        r is Ok ==> r->Ok_0.spec_bytes() == v@,
;

/// Relies on `char::encode_utf8`: it writes the encoding of `c` into `buf` and
/// hands back the part of `buf` it wrote, as text, which is `c` alone.
#[verifier::external_body]
pub(crate) fn encode_char<'a>(c: char, buf: &'a mut [u8; 4]) -> (r: &'a str)
    ensures
        r@ == seq![c],
{
    c.encode_utf8(buf)
}

/// The UTF-8 encoding of `a + b` is the encoding of `a` followed by that of
/// `b`.
pub proof fn lemma_encode_concat(a: Seq<char>, b: Seq<char>)
    ensures
        encode_utf8(a + b) == encode_utf8(a) + encode_utf8(b),
    decreases a.len(),
{
    if a.len() == 0 {
        assert(a + b =~= b);
    } else {
        assert((a + b).drop_first() =~= a.drop_first() + b);
        lemma_encode_concat(a.drop_first(), b);
    }
}

/// Text is empty exactly when its UTF-8 encoding is.
pub proof fn lemma_encode_empty(a: Seq<char>)
    ensures
        (encode_utf8(a).len() == 0) == (a.len() == 0),
{
    if a.len() > 0 {
        assert(encode_utf8(a) == encode_scalar(a[0] as u32) + encode_utf8(a.drop_first()));
    }
}

/// A character takes one to four bytes in UTF-8.
pub proof fn lemma_char_width(c: char)
    ensures
        1 <= encode_utf8(seq![c]).len() <= 4,
{
    let one = seq![c];
    assert(one.drop_first() =~= Seq::<char>::empty());
    assert(encode_utf8(one) == encode_scalar(one[0] as u32) + encode_utf8(one.drop_first()));
}

/// The characters of `strs`, one slice after another.
pub open spec fn concat_strs(strs: Seq<&str>) -> Seq<char>
    decreases strs.len(),
{
    if strs.len() == 0 {
        Seq::<char>::empty()
    } else {
        concat_strs(strs.drop_last()) + strs.last()@
    }
}

/// Splitting a list of slices splits the concatenation of their characters
/// at the same place.
pub proof fn lemma_concat_strs_split(strs: Seq<&str>, i: int)
    requires
        0 <= i <= strs.len(),
    ensures
        concat_strs(strs) == concat_strs(strs.subrange(0, i)) + concat_strs(
            strs.subrange(i, strs.len() as int),
        ),
    decreases strs.len(),
{
    let n = strs.len() as int;
    if i == n {
        assert(strs.subrange(0, i) =~= strs);
        assert(concat_strs(strs.subrange(i, n)) == Seq::<char>::empty());
        assert(concat_strs(strs) + Seq::<char>::empty() =~= concat_strs(strs));
    } else {
        lemma_concat_strs_split(strs.drop_last(), i);
        assert(strs.drop_last().subrange(0, i) =~= strs.subrange(0, i));
        let rest = strs.subrange(i, n);
        assert(rest.drop_last() =~= strs.drop_last().subrange(i, n - 1));
        assert(rest.last() == strs.last());
        assert(concat_strs(strs) =~= concat_strs(strs.subrange(0, i)) + concat_strs(rest));
    }
}

/// Whether two byte slices hold the same bytes.
pub(crate) fn bytes_eq(a: &[u8], b: &[u8]) -> (r: bool)
    ensures
        r == (a@ == b@),
{
    if a.len() != b.len() {
        return false;
    }
    let n = a.len();
    let mut i: usize = 0;
    while i < n
        invariant
            n == a@.len(),
            n == b@.len(),
            i <= n,
            a@.subrange(0, i as int) == b@.subrange(0, i as int),
        decreases n - i,
    {
        if a[i] != b[i] {
            proof {
                assert(a@[i as int] != b@[i as int]);
            }
            return false;
        }
        proof {
            assert(a@.subrange(0, i + 1) =~= a@.subrange(0, i as int).push(a@[i as int]));
            assert(b@.subrange(0, i + 1) =~= b@.subrange(0, i as int).push(b@[i as int]));
        }
        i = i + 1;
    }
    proof {
        assert(a@ =~= a@.subrange(0, n as int));
        assert(b@ =~= b@.subrange(0, n as int));
    }
    true
}

/// Byte-lexicographic order: the first differing byte decides, and a proper
/// prefix comes first.
pub open spec fn lex_cmp(a: Seq<u8>, b: Seq<u8>) -> core::cmp::Ordering
    decreases a.len(),
{
    if a.len() == 0 {
        if b.len() == 0 {
            core::cmp::Ordering::Equal
        } else {
            core::cmp::Ordering::Less
        }
    } else if b.len() == 0 {
        core::cmp::Ordering::Greater
    } else if a[0] < b[0] {
        core::cmp::Ordering::Less
    } else if a[0] > b[0] {
        core::cmp::Ordering::Greater
    } else {
        lex_cmp(a.drop_first(), b.drop_first())
    }
}

/// Compares two byte slices in byte-lexicographic order.
pub(crate) fn cmp_bytes(a: &[u8], b: &[u8]) -> (r: core::cmp::Ordering)
    ensures
        r == lex_cmp(a@, b@),
{
    let mut i: usize = 0;
    proof {
        assert(a@.subrange(0, a@.len() as int) =~= a@);
        assert(b@.subrange(0, b@.len() as int) =~= b@);
    }
    while i < a.len() && i < b.len()
        invariant
            i <= a@.len(),
            i <= b@.len(),
            lex_cmp(a@, b@) == lex_cmp(
                a@.subrange(i as int, a@.len() as int),
                b@.subrange(i as int, b@.len() as int),
            ),
        decreases a@.len() - i,
    {
        let ghost ta = a@.subrange(i as int, a@.len() as int);
        let ghost tb = b@.subrange(i as int, b@.len() as int);
        proof {
            assert(ta[0] == a@[i as int]);
            assert(tb[0] == b@[i as int]);
        }
        if a[i] < b[i] {
            return core::cmp::Ordering::Less;
        } else if a[i] > b[i] {
            return core::cmp::Ordering::Greater;
        }
        proof {
            assert(ta.drop_first() =~= a@.subrange(i + 1, a@.len() as int));
            assert(tb.drop_first() =~= b@.subrange(i + 1, b@.len() as int));
        }
        i = i + 1;
    }
    if i < a.len() {
        core::cmp::Ordering::Greater
    } else if i < b.len() {
        core::cmp::Ordering::Less
    } else {
        core::cmp::Ordering::Equal
    }
}

} // verus!

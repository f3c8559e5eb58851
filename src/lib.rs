//! A fixed-capacity string of at most 63 bytes, stored inline without any
//! heap allocation.
//!
//! [`CacheString`] keeps its text in a [`CacheBuf`] and adds one invariant: the
//! occupied bytes are always valid UTF-8.

pub mod cachebuf;
pub mod text;

pub use cachebuf::{CacheBuf, CapacityError, CAPACITY};

use vstd::prelude::*;
use vstd::string::StringSliceAdditionalSpecFns;
use vstd::utf8::*;

use text::{
    bytes_eq, cmp_bytes, concat_strs, encode_char, lemma_concat_strs_split, lemma_encode_concat,
    lemma_encode_empty, lex_cmp,
};

verus! {

/// A string of at most 63 bytes of UTF-8, stored inline.
#[derive(Clone, Copy, Debug)]
pub struct CacheString(CacheBuf);

impl View for CacheString {
    type V = Seq<char>;

    /// The characters of the string.
    closed spec fn view(&self) -> Seq<char> {
        decode_utf8(self.0@)
    }
}

impl CacheString {
    #[verifier::type_invariant]
    spec fn inv(self) -> bool {
        valid_utf8(self.0@)
    }

    /// The bytes of the string: the UTF-8 encoding of its characters.
    pub open spec fn bytes(&self) -> Seq<u8> {
        encode_utf8(self@)
    }

    proof fn lemma_bytes(&self)
        requires
            valid_utf8(self.0@),
        ensures
            self.bytes() == self.0@,
    {
        decode_utf8_encode_utf8(self.0@);
    }

    /// An empty string.
    pub fn new() -> (r: Self)
        ensures
            r@ == Seq::<char>::empty(),
    {
        let b = CacheBuf::new();
        proof {
            assert(valid_utf8(b@));
        }
        CacheString(b)
    }

    /// The length in bytes.
    pub fn len(&self) -> (r: usize)
        ensures
            r == self.bytes().len(),
            r <= CAPACITY,
    {
        proof {
            use_type_invariant(self);
            self.lemma_bytes();
        }
        self.0.len()
    }

    /// The capacity in bytes, which is 63.
    pub fn capacity(&self) -> (r: usize)
        ensures
            r == CAPACITY,
    {
        self.0.capacity()
    }

    /// The number of bytes that can still be appended.
    pub fn remaining_capacity(&self) -> (r: usize)
        ensures
            r == CAPACITY - self.bytes().len(),
    {
        proof {
            use_type_invariant(self);
            self.lemma_bytes();
        }
        self.0.remaining_capacity()
    }

    /// Whether all 63 bytes are in use.
    pub fn is_full(&self) -> (r: bool)
        ensures
            r == (self.bytes().len() == CAPACITY),
    {
        proof {
            use_type_invariant(self);
            self.lemma_bytes();
        }
        self.0.is_full()
    }

    /// Whether the string holds no character.
    pub fn is_empty(&self) -> (r: bool)
        ensures
            r == (self@.len() == 0),
            r == (self.bytes().len() == 0),
    {
        proof {
            use_type_invariant(self);
            self.lemma_bytes();
            lemma_encode_empty(self@);
        }
        self.0.is_empty()
    }

    /// The string as text.
    pub fn as_str(&self) -> (r: &str)
        ensures
            r@ == self@,
            r.spec_bytes() == self.bytes(),
    {
        proof {
            use_type_invariant(self);
            self.lemma_bytes();
        }
        let r = core::str::from_utf8(self.0.as_bytes()).unwrap();
        proof {
            encode_utf8_decode_utf8(r@);
        }
        r
    }

    /// The bytes of the string, which are valid UTF-8 and decode to its
    /// characters.
    pub fn as_bytes(&self) -> (r: &[u8])
        ensures
            r@ == self.bytes(),
            valid_utf8(r@),
            decode_utf8(r@) == self@,
    {
        proof {
            use_type_invariant(self);
            self.lemma_bytes();
        }
        self.0.as_bytes()
    }
}

impl CacheString {
    /// Appends `s` when it fits in the remaining capacity; otherwise reports
    /// the lack of room and leaves the string exactly as it was.
    pub fn try_push_str(&mut self, s: &str) -> (r: Result<(), CapacityError>)
        ensures
            r is Err <==> old(self).bytes().len() + s.len() > CAPACITY,
            r is Ok ==> final(self)@ == old(self)@ + s@,
            r is Err ==> *final(self) == *old(self),
    {
        let b = s.as_bytes();
        let n = b.len();
        proof {
            assert(n == s.len());
            use_type_invariant(&*self);
            self.lemma_bytes();
            lemma_encode_concat(self@, s@);
            encode_utf8_valid_utf8(self@ + s@);
            encode_utf8_decode_utf8(self@ + s@);
        }
        // Update a copy of the buffer and store it back whole, so that the
        // string never holds a buffer that is not valid UTF-8.
        let mut buf = self.0;
        match buf.try_extend_from_slice(b) {
            Err(e) => Err(e),
            Ok(()) => {
                self.0 = buf;
                Ok(())
            },
        }
    }

    /// Appends `s`, which must fit in the remaining capacity: the checked
    /// form, then an abort on failure.
    pub fn push_str(&mut self, s: &str)
        requires
            old(self).bytes().len() + s.len() <= CAPACITY,
        ensures
            final(self)@ == old(self)@ + s@,
    {
        self.try_push_str(s).unwrap()
    }

    /// Appends the character `ch`, encoded as one to four bytes, when its
    /// encoding fits in the remaining capacity; otherwise reports the lack of
    /// room and leaves the string exactly as it was.
    pub fn try_push(&mut self, ch: char) -> (r: Result<(), CapacityError>)
        ensures
            r is Err <==> old(self).bytes().len() + encode_utf8(seq![ch]).len() > CAPACITY,
            r is Ok ==> final(self)@ == old(self)@.push(ch),
            r is Err ==> *final(self) == *old(self),
    {
        proof {
            use_type_invariant(&*self);
            self.lemma_bytes();
            lemma_encode_concat(self@, seq![ch]);
            assert(self@ + seq![ch] =~= self@.push(ch));
            encode_utf8_valid_utf8(self@.push(ch));
            encode_utf8_decode_utf8(self@.push(ch));
        }
        let mut buf = self.0;
        let code = ch as u32;
        let appended = if code < 0x80 {
            // A character below 0x80 is its own single byte.
            let b = code as u8;
            proof {
                assert((code & 0x7F) as u8 == b) by (bit_vector)
                    requires
                        code < 0x80,
                        b == code as u8,
                ;
                let one = seq![ch];
                assert(one[0] == ch);
                assert(one.drop_first() =~= Seq::<char>::empty());
                assert(encode_utf8(one) == encode_scalar(code) + encode_utf8(one.drop_first()));
                assert(encode_scalar(code) == seq![b]);
                assert(encode_utf8(one) =~= seq![b]);
                assert(buf@.push(b) =~= buf@ + seq![b]);
            }
            buf.try_push(b)
        } else {
            let mut bytes = [0u8; 4];
            let e = encode_char(ch, &mut bytes);
            buf.try_extend_from_slice(e.as_bytes())
        };
        match appended {
            Err(e) => Err(e),
            Ok(()) => {
                proof {
                    assert(buf@ =~= self.0@ + encode_utf8(seq![ch]));
                }
                self.0 = buf;
                Ok(())
            },
        }
    }

    /// Appends the character `ch`, encoded as one to four bytes, which must
    /// fit in the remaining capacity (see `text::lemma_char_width`): the
    /// checked form, then an abort on failure.
    pub fn push(&mut self, ch: char)
        requires
            old(self).bytes().len() + encode_utf8(seq![ch]).len() <= CAPACITY,
        ensures
            final(self)@ == old(self)@.push(ch),
    {
        self.try_push(ch).unwrap()
    }

    /// Shortens the string to its first `new_len` bytes; does nothing when
    /// `new_len` is past the end. `new_len` must not fall inside the encoding
    /// of a character.
    pub fn truncate(&mut self, new_len: usize)
        requires
            new_len <= old(self).bytes().len() ==> is_char_boundary(
                old(self).bytes(),
                new_len as int,
            ),
        ensures
            new_len > old(self).bytes().len() ==> *final(self) == *old(self),
            new_len <= old(self).bytes().len() ==> final(self).bytes() == old(self).bytes().subrange(
                0,
                new_len as int,
            ),
            new_len <= old(self).bytes().len() ==> final(self)@ == decode_utf8(
                old(self).bytes().subrange(0, new_len as int),
            ),
    {
        proof {
            use_type_invariant(&*self);
            self.lemma_bytes();
        }
        // The boundary test is implied by `requires`; it keeps the text valid
        // even for a caller that was not checked against it.
        if new_len <= self.len() && self.as_str().is_char_boundary(new_len) {
            proof {
                valid_utf8_split(self.0@, new_len as int);
                decode_utf8_encode_utf8(self.0@.subrange(0, new_len as int));
            }
            let mut buf = self.0;
            buf.truncate(new_len);
            self.0 = buf;
        }
    }

    /// Removes every character.
    pub fn clear(&mut self)
        ensures
            final(self)@ == Seq::<char>::empty(),
    {
        proof {
            use_type_invariant(&*self);
            self.lemma_bytes();
        }
        self.truncate(0);
        proof {
            lemma_encode_empty(final(self)@);
        }
    }

    /// A string holding a copy of `s`, which must be at most 63 bytes long.
    pub fn from(s: &str) -> (r: Self)
        requires
            s.len() <= CAPACITY,
        ensures
            r@ == s@,
            r.bytes() == s.spec_bytes(),
            r.bytes().len() == s.len(),
    {
        // Taking the length of the byte view shows that `s.len()` is exact.
        let n = s.as_bytes().len();
        let mut r = Self::new();
        proof {
            lemma_encode_empty(r@);
        }
        r.push_str(s);
        proof {
            assert(r@ =~= s@);
        }
        r
    }
}

impl CacheString {
    /// A string holding a copy of the owned string `s`, which must be at most
    /// 63 bytes long.
    pub fn from_string(s: String) -> (r: Self)
        requires
            encode_utf8(s@).len() <= CAPACITY,
        ensures
            r@ == s@,
    {
        Self::from(s.as_str())
    }
}

impl Default for CacheString {
    /// An empty string.
    fn default() -> (r: Self)
        ensures
            r@ == Seq::<char>::empty(),
    {
        Self::new()
    }
}

impl PartialEq for CacheString {
    fn eq(&self, other: &CacheString) -> (r: bool) {
        bytes_eq(self.as_bytes(), other.as_bytes())
    }
}

impl vstd::std_specs::cmp::PartialEqSpecImpl for CacheString {
    open spec fn obeys_eq_spec() -> bool {
        true
    }

    open spec fn eq_spec(&self, other: &CacheString) -> bool {
        self@ == other@
    }
}

impl Eq for CacheString {
}

impl PartialEq<str> for CacheString {
    fn eq(&self, other: &str) -> (r: bool) {
        proof {
            encode_utf8_decode_utf8(other@);
        }
        bytes_eq(self.as_bytes(), other.as_bytes())
    }
}

impl vstd::std_specs::cmp::PartialEqSpecImpl<str> for CacheString {
    open spec fn obeys_eq_spec() -> bool {
        true
    }

    open spec fn eq_spec(&self, other: &str) -> bool {
        self@ == other@
    }
}

impl<'a> PartialEq<&'a str> for CacheString {
    fn eq(&self, other: &&'a str) -> (r: bool) {
        proof {
            encode_utf8_decode_utf8(other@);
        }
        bytes_eq(self.as_bytes(), other.as_bytes())
    }
}

impl<'a> vstd::std_specs::cmp::PartialEqSpecImpl<&'a str> for CacheString {
    open spec fn obeys_eq_spec() -> bool {
        true
    }

    open spec fn eq_spec(&self, other: &&'a str) -> bool {
        self@ == other@
    }
}

impl PartialEq<String> for CacheString {
    fn eq(&self, other: &String) -> (r: bool) {
        let t = other.as_str();
        proof {
            encode_utf8_decode_utf8(t@);
        }
        bytes_eq(self.as_bytes(), t.as_bytes())
    }
}

impl vstd::std_specs::cmp::PartialEqSpecImpl<String> for CacheString {
    open spec fn obeys_eq_spec() -> bool {
        true
    }

    open spec fn eq_spec(&self, other: &String) -> bool {
        self@ == other@
    }
}

impl PartialOrd for CacheString {
    fn partial_cmp(&self, other: &CacheString) -> (r: Option<core::cmp::Ordering>) {
        Some(cmp_bytes(self.as_bytes(), other.as_bytes()))
    }
}

impl vstd::std_specs::cmp::PartialOrdSpecImpl for CacheString {
    open spec fn obeys_partial_cmp_spec() -> bool {
        true
    }

    open spec fn partial_cmp_spec(&self, other: &CacheString) -> Option<core::cmp::Ordering> {
        Some(lex_cmp(self.bytes(), other.bytes()))
    }
}

impl CacheString {
    /// Appends the characters of `chars` in order; together they must fit in
    /// the remaining capacity.
    pub fn extend_chars(&mut self, chars: &[char])
        requires
            old(self).bytes().len() + encode_utf8(chars@).len() <= CAPACITY,
        ensures
            final(self)@ == old(self)@ + chars@,
    {
        let n = chars.len();
        let mut i: usize = 0;
        proof {
            assert(chars@.subrange(0, n as int) =~= chars@);
            assert(old(self)@ + chars@.subrange(0, 0) =~= old(self)@);
        }
        while i < n
            invariant
                n == chars@.len(),
                i <= n,
                self@ == old(self)@ + chars@.subrange(0, i as int),
                self.bytes().len() + encode_utf8(chars@.subrange(i as int, n as int)).len()
                    <= CAPACITY,
            decreases n - i,
        {
            let c = chars[i];
            proof {
                let tail = chars@.subrange(i + 1, n as int);
                assert(seq![c] + tail =~= chars@.subrange(i as int, n as int));
                lemma_encode_concat(seq![c], tail);
                lemma_encode_concat(self@, seq![c]);
                assert(self@ + seq![c] =~= self@.push(c));
            }
            self.push(c);
            proof {
                assert(chars@.subrange(0, i + 1) =~= chars@.subrange(0, i as int).push(c));
                assert(self@ =~= old(self)@ + chars@.subrange(0, i + 1));
            }
            i = i + 1;
        }
    }

    /// A string made of the characters of `chars`, whose encoding must take at
    /// most 63 bytes.
    pub fn from_chars(chars: &[char]) -> (r: Self)
        requires
            encode_utf8(chars@).len() <= CAPACITY,
        ensures
            r@ == chars@,
    {
        let mut r = Self::new();
        r.extend_chars(chars);
        proof {
            assert(r@ =~= chars@);
        }
        r
    }

    /// Appends the slices of `strs` in order; together they must fit in the
    /// remaining capacity.
    pub fn extend_strs(&mut self, strs: &[&str])
        requires
            old(self).bytes().len() + encode_utf8(concat_strs(strs@)).len() <= CAPACITY,
        ensures
            final(self)@ == old(self)@ + concat_strs(strs@),
    {
        let n = strs.len();
        let mut i: usize = 0;
        proof {
            lemma_encode_concat(self@, concat_strs(strs@));
            assert(strs@.subrange(0, 0) =~= Seq::<&str>::empty());
            assert(old(self)@ + concat_strs(strs@.subrange(0, 0)) =~= old(self)@);
        }
        while i < n
            invariant
                n == strs@.len(),
                i <= n,
                self@ == old(self)@ + concat_strs(strs@.subrange(0, i as int)),
                encode_utf8(old(self)@ + concat_strs(strs@)).len() <= CAPACITY,
            decreases n - i,
        {
            let s = strs[i];
            proof {
                let head = strs@.subrange(0, i + 1);
                let rest = concat_strs(strs@.subrange(i + 1, n as int));
                lemma_concat_strs_split(strs@, i + 1);
                assert(head.drop_last() =~= strs@.subrange(0, i as int));
                assert(concat_strs(head) == concat_strs(strs@.subrange(0, i as int)) + s@);
                assert(old(self)@ + concat_strs(strs@) =~= (self@ + s@) + rest);
                lemma_encode_concat(self@ + s@, rest);
                lemma_encode_concat(self@, s@);
                assert(self@ + s@ =~= old(self)@ + concat_strs(head));
            }
            self.push_str(s);
            i = i + 1;
        }
        proof {
            assert(strs@.subrange(0, n as int) =~= strs@);
        }
    }

    /// A string made of the slices of `strs`, one after another, which must
    /// take at most 63 bytes together.
    pub fn from_strs(strs: &[&str]) -> (r: Self)
        requires
            encode_utf8(concat_strs(strs@)).len() <= CAPACITY,
        ensures
            r@ == concat_strs(strs@),
    {
        let mut r = Self::new();
        proof {
            lemma_encode_empty(r@);
        }
        r.extend_strs(strs);
        proof {
            assert(r@ =~= concat_strs(strs@));
        }
        r
    }
}

impl core::ops::Deref for CacheString {
    type Target = str;

    /// The string as text.
    fn deref(&self) -> (r: &str)
        ensures
            r@ == self@,
            r.spec_bytes() == self.bytes(),
    {
        self.as_str()
    }
}

} // verus!

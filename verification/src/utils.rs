//! A fixed-size null-padded byte field and its decoding into text.

use vstd::prelude::*;

use crate::Error;

verus! {

/// The text that a run of single-byte characters stands for: each byte is
/// the code point of the same value (the source format uses fixed-width
/// single-byte fields, not a multi-byte encoding).
pub open spec fn latin1_chars(s: Seq<u8>) -> Seq<char> {
    Seq::new(s.len(), |i: int| s[i] as char)
}

/// Index of the first null byte in `s`, or `s.len()` if there is none.
pub open spec fn nul_pos(s: Seq<u8>) -> int
    decreases s.len(),
{
    if s.len() == 0 {
        0
    } else if s[0] == 0 {
        0
    } else {
        1 + nul_pos(s.subrange(1, s.len() as int))
    }
}

/// A field is well padded when every byte from the first null onward is
/// null, so the null run is pure trailing padding.
pub open spec fn is_well_padded(s: Seq<u8>) -> bool {
    forall|j: int| nul_pos(s) <= j < s.len() ==> s[j] == 0
}

/// The text of a well-padded field: the bytes before the first null.
pub open spec fn decoded_text(s: Seq<u8>) -> Seq<char> {
    latin1_chars(s.take(nul_pos(s)))
}

/// `nul_pos` is the position of the first null: nothing before it is null,
/// and it points at a null unless the field holds none at all.
pub proof fn lemma_nul_pos(s: Seq<u8>)
    ensures
        0 <= nul_pos(s) <= s.len(),
        forall|j: int| 0 <= j < nul_pos(s) ==> s[j] != 0,
        nul_pos(s) < s.len() ==> s[nul_pos(s)] == 0,
    decreases s.len(),
{
    if s.len() == 0 {
    } else if s[0] == 0 {
    } else {
        let t = s.subrange(1, s.len() as int);
        lemma_nul_pos(t);
        assert forall|j: int| 0 <= j < nul_pos(s) implies s[j] != 0 by {
            if j > 0 {
                assert(s[j] == t[j - 1]);
            }
        }
        if nul_pos(s) < s.len() {
            assert(s[nul_pos(s)] == t[nul_pos(s) - 1]);
        }
    }
}

/// Relies on `String::push`: appends exactly the one given character.
#[verifier::external_body]
pub(crate) fn push_char(s: &mut String, c: char)
    ensures
        final(s)@ == old(s)@.push(c),
{
    s.push(c);
}

/// Builds the text that the first `len` bytes of `bytes` stand for.
pub(crate) fn latin1_string(bytes: &Vec<u8>, len: usize) -> (s: String)
    requires
        len <= bytes@.len(),
    ensures
        s@ == latin1_chars(bytes@.take(len as int)),
{
    let mut s = String::new();
    let mut i: usize = 0;
    while i < len
        invariant
            len <= bytes@.len(),
            i <= len,
            s@ == latin1_chars(bytes@.take(i as int)),
        decreases len - i,
    {
        push_char(&mut s, bytes[i] as char);
        i = i + 1;
        assert(s@ =~= latin1_chars(bytes@.take(i as int)));
    }
    s
}

/// A byte buffer of declared fixed length holding a null-padded string.
pub struct FixedLengthString {
    bytes: Vec<u8>,
}

impl View for FixedLengthString {
    type V = Seq<u8>;

    closed spec fn view(&self) -> Seq<u8> {
        self.bytes@
    }
}

impl FixedLengthString {
    /// A field of the given length, filled with nulls.
    pub fn new(length: usize) -> (r: FixedLengthString)
        ensures
            r@ == Seq::new(length as nat, |i: int| 0u8),
    {
        let bytes: Vec<u8> = vec![0u8; length];
        assert(bytes@ =~= Seq::new(length as nat, |i: int| 0u8));
        FixedLengthString { bytes }
    }

    /// A field holding the given bytes.
    pub fn from_bytes(bytes: Vec<u8>) -> (r: FixedLengthString)
        ensures
            r@ == bytes@,
    {
        FixedLengthString { bytes }
    }

    /// Decodes the field: the bytes before the first null are the text,
    /// and every byte from the first null onward must also be null.  A
    /// non-null byte after a null is a corruption signal, reported as
    /// `InteriorNulByte` with the raw field bytes.
    pub fn to_string(&self) -> (r: Result<String, Error>)
        ensures
            is_well_padded(self@) ==> (r matches Ok(s) && s@ == decoded_text(self@)),
            !is_well_padded(self@) ==> (r matches Err(e) && e matches Error::InteriorNulByte(b)
                && b@ == self@),
    {
        proof {
            lemma_nul_pos(self@);
        }
        let n = self.bytes.len();
        let mut string = String::new();
        let mut done = false;
        let mut i: usize = 0;
        while i < n
            invariant
                n == self@.len(),
                i <= n,
                0 <= nul_pos(self@) <= self@.len(),
                forall|j: int| 0 <= j < nul_pos(self@) ==> self@[j] != 0,
                nul_pos(self@) < self@.len() ==> self@[nul_pos(self@)] == 0,
                done <==> nul_pos(self@) < i,
                forall|j: int| nul_pos(self@) <= j < i ==> self@[j] == 0,
                string@ == latin1_chars(
                    self@.take(if i <= nul_pos(self@) { i as int } else { nul_pos(self@) }),
                ),
            decreases n - i,
        {
            let byte = self.bytes[i];
            if byte == 0 {
                done = true;
            } else {
                if done {
                    let raw = self.bytes.clone();
                    assert(raw@ =~= self@);
                    return Err(Error::InteriorNulByte(raw));
                } else {
                    push_char(&mut string, byte as char);
                    assert(string@ =~= latin1_chars(self@.take(i + 1)));
                }
            }
            i = i + 1;
        }
        Ok(string)
    }
}

} // verus!

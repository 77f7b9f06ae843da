//! The value type pairing decoded text with the encoding it was read as.

use vstd::prelude::*;

verus! {

/// The two encodings a file can be read and written as.
#[derive(Clone, Copy, PartialEq, Eq, Structural, Debug)]
pub enum StrEncoding {
    Utf8,
    Utf16,
}

/// Text decoded from a file, together with the encoding it was decoded from,
/// so that it can be written back symmetrically.
pub struct StrUtf816 {
    text: String,
    encoding_type: StrEncoding,
}

/// The mathematical content of a `StrUtf816`: its characters and its tag.
pub struct TextView {
    pub text: Seq<char>,
    pub encoding: StrEncoding,
}

impl View for StrUtf816 {
    type V = TextView;

    closed spec fn view(&self) -> TextView {
        TextView { text: self.text@, encoding: self.encoding_type }
    }
}

impl StrUtf816 {
    /// The decoded text.
    pub fn as_str<'a>(&'a self) -> (r: &'a str)
        ensures
            r@ == self@.text,
    {
        self.text.as_str()
    }

    /// Pairs already-decoded text with an encoding tag.
    pub fn new(text: String, encoding: StrEncoding) -> (r: StrUtf816)
        ensures
            r@.text == text@,
            r@.encoding == encoding,
    {
        StrUtf816 { text, encoding_type: encoding }
    }

    /// The encoding the text was decoded from.
    pub fn encoding(&self) -> (r: StrEncoding)
        ensures
            r == self@.encoding,
    {
        self.encoding_type
    }

    /// Overrides the recorded encoding; the text itself is unchanged.
    pub fn set_encoding(&mut self, value: StrEncoding)
        ensures
            final(self)@.text == old(self)@.text,
            final(self)@.encoding == value,
    {
        self.encoding_type = value;
    }

    /// Empty text, tagged as UTF-8.
    pub fn default() -> (r: StrUtf816)
        ensures
            r@.text == Seq::<char>::empty(),
            r@.encoding == StrEncoding::Utf8,
    {
        StrUtf816 { text: String::new(), encoding_type: StrEncoding::Utf8 }
    }

    /// Gives up the decoded text, dropping the tag.
    pub fn into_string(self) -> (r: String)
        ensures
            r@ == self@.text,
    {
        self.text
    }
}

/// Relies on `str::chars`: the characters it yields are exactly the string's
/// view, in order.
#[verifier::external_body]
pub(crate) fn chars_vec(s: &str) -> (r: Vec<char>)
    ensures
        r@ == s@,
{
    s.chars().collect()
}

/// Relies on `String`'s `FromIterator` impl: collecting characters builds the
/// string of exactly those characters, in order.
#[verifier::external_body]
pub(crate) fn string_from_chars(chars: &Vec<char>) -> (r: String)
    ensures
        chars@ == r@,
{
    chars.iter().collect()
}

} // verus!

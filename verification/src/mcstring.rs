//! A constrained string type: UTF-8 text of at most 255 bytes, the largest
//! key or value the record format can carry.
use vstd::prelude::*;
use vstd::utf8::*;

verus! {

/// A string whose UTF-8 encoding fits the format's one-byte length field.
#[derive(Hash, Eq, PartialEq)]
pub struct MCString {
    value: String,
}

impl View for MCString {
    type V = Seq<char>;

    closed spec fn view(&self) -> Seq<char> {
        self.value@
    }
}

impl MCString {
    /// The string's UTF-8 encoding is at most 255 bytes.
    pub closed spec fn wf(self) -> bool {
        encode_utf8(self.value@).len() <= 255
    }

    /// The string's length in UTF-8 bytes; it fits one byte.
    pub fn len(&self) -> (n: u8)
        requires
            self.wf(),
        ensures
            n == encode_utf8(self@).len(),
    {
        self.value.as_str().as_bytes().len() as u8
    }

    /// Accept a string of at most 255 UTF-8 bytes; reject a longer one.
    pub fn try_from(value: &str) -> (r: Result<MCString, ()>)
        ensures
            (r is Ok) == (encode_utf8(value@).len() <= 255),
            (match r {
                Ok(s) => s@ == value@ && s.wf(),
                Err(_) => true,
            }),
    {
        if value.as_bytes().len() > 255 {
            Err(())
        } else {
            Ok(MCString { value: value.to_owned() })
        }
    }

    /// The string itself.
    pub fn as_str(&self) -> (s: &str)
        ensures
            s@ == self@,
    {
        self.value.as_str()
    }
}

} // verus!

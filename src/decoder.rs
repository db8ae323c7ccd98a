use vstd::prelude::*;
use vstd::string::StringSliceAdditionalSpecFns;
use crate::bencode::{Value, encoding, well_formed, starts_with_value};
use crate::decode::{Decoder, suffix};

verus! {

/// Reads bencoded values one after the other from a text.
pub struct BenDecoder<'a> {
    inner: Decoder<'a>,
}

impl<'a> BenDecoder<'a> {
    /// The text's bytes.
    pub closed spec fn input(&self) -> Seq<u8> {
        self.inner.input()
    }

    /// How many bytes have been read.
    pub closed spec fn offset(&self) -> nat {
        self.inner.offset()
    }

    pub open spec fn wf(&self) -> bool {
        self.offset() <= self.input().len()
    }

    /// Returns a new [`BenDecoder`] at the start of the text.
    pub fn new(decodable: &'a str) -> (d: Self)
        ensures
            d.wf(),
            d.input() == decodable.spec_bytes(),
            d.offset() == 0,
    {
        BenDecoder { inner: Decoder::new(decodable.as_bytes()) }
    }

    /// The next value, or `None` where the rest of the text does not start
    /// with one (at its end, or before bytes that are not bencode).
    pub fn next(&mut self) -> (r: Option<Value>)
        requires
            old(self).wf(),
        ensures
            final(self).wf(),
            final(self).input() == old(self).input(),
            match r {
                Some(v) => {
                    &&& well_formed(v)
                    &&& final(self).offset() == old(self).offset() + encoding(v).len()
                    &&& encoding(v) == old(self).input().subrange(
                        old(self).offset() as int,
                        final(self).offset() as int,
                    )
                },
                None => {
                    &&& !starts_with_value(suffix(old(self).input(), old(self).offset() as int))
                    &&& final(self).offset() == old(self).offset()
                },
            },
    {
        match self.inner.decode() {
            Ok(v) => Some(v),
            Err(_) => None,
        }
    }

    /// The bytes not read yet.
    pub fn remaining(&self) -> (r: &'a [u8])
        requires
            self.wf(),
        ensures
            r@ == suffix(self.input(), self.offset() as int),
    {
        self.inner.remaining()
    }
}

} // verus!

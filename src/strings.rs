//! Reading a property's list of NUL-terminated strings one at a time.
use vstd::prelude::*;
use vstd::utf8::valid_utf8;
use vstd::string::StringSliceAdditionalSpecFns;
use crate::bytes::{cstr_len, find_nul, text_of};
use crate::error::DtbError;

verus! {

/// A cursor over the strings packed in `[pointer, pointer + remain_size)`
/// of a blob.
pub struct CharStringIter<'a> {
    blob: &'a [u8],
    pointer: usize,
    remain_size: usize,
}

impl<'a> CharStringIter<'a> {
    pub closed spec fn bytes(&self) -> Seq<u8> {
        self.blob@
    }

    /// Where the next string starts.
    pub closed spec fn pos(&self) -> int {
        self.pointer as int
    }

    /// Where the list ends.
    pub closed spec fn end(&self) -> int {
        self.pointer + self.remain_size
    }

    pub open spec fn wf(&self) -> bool {
        self.pos() <= self.end() <= self.bytes().len()
    }

    pub fn new(blob: &'a [u8], pointer: usize, remain_size: usize) -> (r: CharStringIter<'a>)
        requires
            pointer + remain_size <= blob@.len(),
        ensures
            r.wf(),
            r.bytes() == blob@,
            r.pos() == pointer,
            r.end() == pointer + remain_size,
    {
        CharStringIter { blob, pointer, remain_size }
    }

    /// The next string of the list, or `None` once the list is used up.
    pub fn next_str(&mut self) -> (r: Option<Result<&'a str, DtbError>>)
        requires
            old(self).wf(),
        ensures
            final(self).wf(),
            final(self).bytes() == old(self).bytes(),
            final(self).end() == old(self).end(),
            old(self).pos() >= old(self).end() ==> r is None,
            old(self).pos() < old(self).end() ==> match cstr_len(
                old(self).bytes(),
                old(self).pos(),
                old(self).end(),
            ) {
                None => r == Some(Err::<&str, DtbError>(DtbError::InvalidPropertySize)),
                Some(k) => if valid_utf8(
                    old(self).bytes().subrange(old(self).pos(), old(self).pos() + k),
                ) {
                    r matches Some(Ok(s)) && s.spec_bytes() == old(self).bytes().subrange(
                        old(self).pos(),
                        old(self).pos() + k,
                    ) && final(self).pos() == old(self).pos() + k + 1
                } else {
                    r == Some(Err::<&str, DtbError>(DtbError::Utf8DecodeError))
                },
            },
    {
        if self.remain_size == 0 {
            return None;
        }
        assert(self.blob@.len() == self.blob.len());
        let end = self.pointer + self.remain_size;
        match find_nul(self.blob, self.pointer, end) {
            None => Some(Err(DtbError::InvalidPropertySize)),
            Some(n) => {
                let bytes = vstd::slice::slice_subrange(self.blob, self.pointer, n);
                match text_of(bytes) {
                    None => Some(Err(DtbError::Utf8DecodeError)),
                    Some(s) => {
                        self.remain_size = end - (n + 1);
                        self.pointer = n + 1;
                        Some(Ok(s))
                    },
                }
            },
        }
    }
}

} // verus!

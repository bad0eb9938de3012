//! A whole-string reference model of editable text: the simplest thing that
//! meets the `EditableText` contract, kept for differential testing against
//! the piece table.

use vstd::prelude::*;

use crate::interface::EditableText;
use crate::text::{copy_bytes, spec_bytes_of};

verus! {

/// Editable text held as one flat byte string.
#[derive(Debug)]
pub struct Baseline {
    text: Vec<u8>,
}

impl View for Baseline {
    type V = Seq<u8>;

    closed spec fn view(&self) -> Seq<u8> {
        self.text@
    }
}

impl Baseline {
    /// The current text as bytes.
    pub fn render_bytes(&self) -> (r: Vec<u8>)
        ensures
            r@ == self@,
    {
        copy_bytes(&self.text, 0, self.text.len())
    }
}

impl EditableText for Baseline {
    open spec fn text(&self) -> Seq<u8> {
        self@
    }

    open spec fn inv(&self) -> bool {
        true
    }

    fn new(string: &str) -> (r: Self) {
        Baseline { text: vstd::slice::slice_to_vec(string.as_bytes()) }
    }

    fn insert(&mut self, data: &str, offset: usize) {
        let bytes = data.as_bytes();
        let mut out = copy_bytes(&self.text, 0, offset);
        let mut i: usize = 0;
        while i < bytes.len()
            invariant
                i <= bytes@.len(),
                out@ == old(self)@.subrange(0, offset as int) + bytes@.subrange(0, i as int),
            decreases bytes@.len() - i,
        {
            out.push(bytes[i]);
            i = i + 1;
        }
        let mut tail = copy_bytes(&self.text, offset, self.text.len());
        out.append(&mut tail);
        proof {
            assert(bytes@.subrange(0, bytes@.len() as int) =~= bytes@);
            assert(out@ =~= old(self)@.subrange(0, offset as int) + spec_bytes_of(data) + old(
                self,
            )@.subrange(offset as int, old(self)@.len() as int));
        }
        self.text = out;
    }

    fn delete(&mut self, range: core::ops::Range<usize>) {
        let mut out = copy_bytes(&self.text, 0, range.start);
        let mut tail = copy_bytes(&self.text, range.end, self.text.len());
        out.append(&mut tail);
        self.text = out;
    }
}

} // verus!

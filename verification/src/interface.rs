//! The capability interface shared by every editable-text implementation,
//! so one generic driver can exercise any of them through the same calls.

use vstd::prelude::*;

use crate::text::spec_bytes_of;

verus! {

/// Construct-from-text, insert and delete, with one functional contract:
/// whatever the representation, the rendered text evolves exactly as a
/// plain byte string would.
pub trait EditableText: Sized {
    /// The text the value currently represents.
    spec fn text(&self) -> Seq<u8>;

    /// The implementation's own structural invariant; construction
    /// establishes it and every operation preserves it.
    spec fn inv(&self) -> bool;

    fn new(string: &str) -> (r: Self)
        ensures
            r.inv(),
            r.text() == spec_bytes_of(string),
    ;

    fn insert(&mut self, data: &str, offset: usize)
        requires
            old(self).inv(),
            offset <= old(self).text().len(),
            old(self).text().len() + spec_bytes_of(data).len() <= usize::MAX,
        ensures
            final(self).inv(),
            final(self).text() == old(self).text().subrange(0, offset as int) + spec_bytes_of(data)
                + old(self).text().subrange(offset as int, old(self).text().len() as int),
    ;

    fn delete(&mut self, range: core::ops::Range<usize>)
        requires
            old(self).inv(),
            range.start <= range.end <= old(self).text().len(),
        ensures
            final(self).inv(),
            final(self).text() == old(self).text().subrange(0, range.start as int) + old(
                self,
            ).text().subrange(range.end as int, old(self).text().len() as int),
    ;
}

} // verus!

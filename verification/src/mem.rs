//! Memory helpers: page rounding for mappings, and leaked boxes for
//! preallocated runtime contexts.
use vstd::prelude::*;

verus! {

/// The page size that mappings are rounded to.
pub const PAGE: usize = 4096;

/// The length of a mapping for `len` bytes: the least whole number of pages
/// that holds them.
pub fn mapping_len(len: usize) -> (r: usize)
    requires
        len <= usize::MAX - 4095,
    ensures
        r % PAGE == 0,
        len <= r,
        r < len + PAGE,
{
    let rest: usize = len % PAGE;
    if rest == 0 {
        len
    } else {
        len - rest + PAGE
    }
}

/// `Box::leak` of a fresh box: a reference to `value` that is never freed.
#[verifier::external_body]
pub fn leak_box<T: 'static>(value: T) -> (r: &'static mut T)
    ensures
        *r == value,
{
    Box::leak(Box::new(value))
}

} // verus!

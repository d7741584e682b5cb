//! Layout discipline: cache-line alignment, hot/cold separation, padded
//! counters.
use vstd::prelude::*;
use core::arch::x86_64::__m512i;

verus! {

/// `core::arch::x86_64::__m512i`: a 64-byte vector register type. Only its
/// alignment is used, through an empty array; no value of it exists here.
#[verifier::external_type_specification]
#[verifier::external_body]
pub struct ExM512i(__m512i);

/// The cache-line size in bytes for alignment purposes.
pub fn cache_line_size() -> (r: usize)
    ensures
        r == 64,
{
    64
}

/// A value alone on its cache line, so two of them in an array never share
/// one.
pub struct CachePadded<T> {
    pub value: T,
    /// Empty; carries the alignment.
    pub line: [__m512i; 0],
}

impl<T> CachePadded<T> {
    /// Wrap a value.
    pub fn new(value: T) -> (r: Self)
        ensures
            r.value == value,
    {
        CachePadded { value, line: [] }
    }

    /// Unwrap the value.
    pub fn into_inner(self) -> (r: T)
        ensures
            r == self.value,
    {
        self.value
    }

    /// The value.
    pub fn get(&self) -> (r: &T)
        ensures
            *r == self.value,
    {
        &self.value
    }

    /// The value, mutable.
    pub fn get_mut(&mut self) -> (r: &mut T)
        ensures
            *r == old(self).value,
            final(self).value == *final(r),
    {
        &mut self.value
    }
}

impl<T> core::ops::Deref for CachePadded<T> {
    type Target = T;

    fn deref(&self) -> (r: &T)
        ensures
            *r == self.value,
    {
        &self.value
    }
}

impl<T: Default> Default for CachePadded<T> {
    fn default() -> (r: Self)
        ensures
            call_ensures(T::default, (), r.value),
    {
        CachePadded::new(T::default())
    }
}

/// A frequently written counter in its own cache line.
pub type PaddedCounter = CachePadded<core::sync::atomic::AtomicU64>;

/// Hot/cold state separation: fields touched on every step, and fields
/// touched rarely.
pub struct HotCold<Hot, Cold> {
    /// Hot fields: keep this aligned to a cache line.
    pub hot: Hot,
    /// Cold fields: keep this in a separate line from `hot`.
    pub cold: Cold,
}

impl<Hot, Cold> HotCold<Hot, Cold> {
    /// Pair the two halves.
    pub fn new(hot: Hot, cold: Cold) -> (r: Self)
        ensures
            r == (HotCold { hot, cold }),
    {
        HotCold { hot, cold }
    }
}

/// Check that `T` is aligned to exactly `expected` bytes: proved of verified
/// callers, tested when called from other code.
pub fn assert_align<T>(expected: usize)
    requires
        vstd::layout::align_of::<T>() == expected,
{
    vstd::pervasive::runtime_assert(core::mem::align_of::<T>() == expected);
}

} // verus!

//! The checksum of ACPI tables.

use vstd::prelude::*;

verus! {

/// The sum of `data` modulo 256.
pub open spec fn byte_sum(data: Seq<u8>) -> int
    decreases data.len(),
{
    if data.len() == 0 {
        0
    } else {
        (byte_sum(data.drop_last()) + data.last()) % 256
    }
}

/// The byte that makes the sum of `data` and itself zero modulo 256.
pub fn generate_checksum(data: &[u8]) -> (r: u8)
    ensures
        (byte_sum(data@) + r) % 256 == 0,
{
    let mut acc: u8 = 0;
    let n: usize = data.len();
    let mut i: usize = 0;
    while i < n
        invariant
            i <= n,
            n == data@.len(),
            acc == byte_sum(data@.take(i as int)),
        decreases n - i,
    {
        assert(data@.take(i + 1).drop_last() =~= data@.take(i as int));
        acc = acc.wrapping_add(data[i]);
        i += 1;
    }
    assert(data@.take(n as int) =~= data@);
    (255 - acc).wrapping_add(1)
}

} // verus!

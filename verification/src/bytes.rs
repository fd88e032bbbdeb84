//! Copying between byte slices.

use vstd::prelude::*;

verus! {

/// Overwrites `output` from offset `at` on with `src`.
pub fn copy_into(output: &mut [u8], at: usize, src: &[u8])
    requires
        at + src@.len() <= old(output)@.len(),
    ensures
        final(output)@ == old(output)@.take(at as int) + src@ + old(output)@.skip(
            at + src@.len(),
        ),
{
    let n: usize = src.len();
    let total: usize = output.len();
    let mut i: usize = 0;
    while i < n
        invariant
            n == src@.len(),
            total == output@.len(),
            output@.len() == old(output)@.len(),
            at + n <= total,
            i <= n,
            forall|j: int| 0 <= j < at ==> output@[j] == old(output)@[j],
            forall|j: int| at + i <= j < total ==> output@[j] == old(output)@[j],
            forall|j: int| 0 <= j < i ==> output@[at + j] == src@[j],
        decreases n - i,
    {
        output[at + i] = src[i];
        i += 1;
    }
    assert(output@ =~= old(output)@.take(at as int) + src@ + old(output)@.skip(at + src@.len()));
}

/// Moves the bytes from offset `from` on to the front of `output`. The bytes
/// behind them stay as they are.
pub fn move_to_front(output: &mut [u8], from: usize)
    requires
        from <= old(output)@.len(),
    ensures
        final(output)@ == old(output)@.skip(from as int) + old(output)@.skip(
            old(output)@.len() - from,
        ),
{
    let total: usize = output.len();
    let count: usize = total - from;
    let ghost moved = output@.skip(from as int);
    let mut j: usize = 0;
    while j < count
        invariant
            total == output@.len(),
            output@.len() == old(output)@.len(),
            from + count == total,
            j <= count,
            moved == old(output)@.skip(from as int),
            forall|k: int| 0 <= k < j ==> output@[k] == moved[k],
            forall|k: int| j <= k < total ==> output@[k] == old(output)@[k],
        decreases count - j,
    {
        output[j] = output[from + j];
        j += 1;
    }
    assert(output@ =~= moved + old(output)@.skip(count as int));
}

/// Whether two byte strings are equal.
pub fn same_bytes(a: &[u8], b: &[u8]) -> (same: bool)
    ensures
        same <==> a@ == b@,
{
    if a.len() != b.len() {
        return false;
    }
    let n: usize = a.len();
    let mut i: usize = 0;
    while i < n
        invariant
            n == a@.len(),
            n == b@.len(),
            i <= n,
            forall|j: int| 0 <= j < i ==> a@[j] == b@[j],
        decreases n - i,
    {
        if a[i] != b[i] {
            return false;
        }
        i += 1;
    }
    assert(a@ =~= b@);
    true
}

} // verus!

use vstd::prelude::*;

verus! {

/// Byte-for-byte equality of two buffers.
pub fn bytes_eq(a: &Vec<u8>, b: &Vec<u8>) -> (r: bool)
    ensures
        r == (a@ == b@),
{
    if a.len() != b.len() {
        assert(a@ != b@) by {
            assert(a@.len() != b@.len());
        }
        return false;
    }
    let mut i: usize = 0;
    while i < a.len()
        invariant
            i <= a.len(),
            a@.len() == b@.len(),
            forall|j: int| 0 <= j < i ==> a@[j] == b@[j],
        decreases a.len() - i,
    {
        if a[i] != b[i] {
            assert(a@ != b@);
            return false;
        }
        i = i + 1;
    }
    assert(a@ =~= b@);
    true
}

/// A fresh copy of a buffer.
pub fn copy_bytes(a: &Vec<u8>) -> (r: Vec<u8>)
    ensures
        r@ == a@,
{
    copy_range(a, 0, a.len())
}

/// A fresh copy of the bytes in `[from, to)`.
pub fn copy_range(a: &Vec<u8>, from: usize, to: usize) -> (r: Vec<u8>)
    requires
        from <= to <= a.len(),
    ensures
        r@ == a@.subrange(from as int, to as int),
{
    let mut r: Vec<u8> = Vec::new();
    let mut i: usize = from;
    while i < to
        invariant
            from <= i <= to <= a.len(),
            r@ =~= a@.subrange(from as int, i as int),
        decreases to - i,
    {
        r.push(a[i]);
        assert(r@ =~= a@.subrange(from as int, i + 1));
        i = i + 1;
    }
    r
}

/// Replaces the whole contents of `dst` with those of `s`.
pub fn overwrite(dst: &mut Vec<u8>, s: &Vec<u8>)
    ensures
        final(dst)@ == s@,
{
    dst.clear();
    let mut i: usize = 0;
    while i < s.len()
        invariant
            i <= s.len(),
            dst@ =~= s@.subrange(0, i as int),
        decreases s.len() - i,
    {
        dst.push(s[i]);
        assert(dst@ =~= s@.subrange(0, i + 1));
        i = i + 1;
    }
    assert(dst@ =~= s@);
}

/// The sequence with `rep` written over `s` starting at `at`.
pub open spec fn splice(s: Seq<u8>, at: int, rep: Seq<u8>) -> Seq<u8> {
    s.subrange(0, at) + rep + s.subrange(at + rep.len(), s.len() as int)
}

/// Writes `rep` over `dst` in place, starting at `at`.
pub fn write_range(dst: &mut Vec<u8>, at: usize, rep: &Vec<u8>)
    requires
        at + rep@.len() <= old(dst)@.len(),
    ensures
        final(dst)@ == splice(old(dst)@, at as int, rep@),
        final(dst)@.len() == old(dst)@.len(),
{
    let mut j: usize = 0;
    while j < rep.len()
        invariant
            j <= rep@.len(),
            at + rep@.len() <= dst@.len(),
            dst@.len() == old(dst)@.len(),
            forall|idx: int| 0 <= idx < at ==> dst@[idx] == old(dst)@[idx],
            forall|idx: int| at <= idx < at + j ==> dst@[idx] == rep@[idx - at],
            forall|idx: int| at + rep@.len() <= idx < dst@.len() ==> dst@[idx] == old(dst)@[idx],
            forall|idx: int| at + j <= idx < at + rep@.len() ==> dst@[idx] == old(dst)@[idx],
        decreases rep.len() - j,
    {
        let n = dst.len();
        assert(at + j < n);
        dst.set(at + j, rep[j]);
        j = j + 1;
    }
    assert(dst@ =~= splice(old(dst)@, at as int, rep@));
}

} // verus!

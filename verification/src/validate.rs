use crate::util::copy_range;
use vstd::prelude::*;

verus! {

// ---------------------------------------------------------------------------
// IPv4: exactly four dot-separated decimal groups, each of one to three
// digits with value at most 255.
// ---------------------------------------------------------------------------

/// A decimal digit byte: `'0'` through `'9'`.
pub open spec fn is_dec_digit(b: u8) -> bool {
    48 <= b <= 57
}

pub open spec fn all_dec_digits(s: Seq<u8>) -> bool {
    forall|i: int| 0 <= i < s.len() ==> is_dec_digit(#[trigger] s[i])
}

/// The number that a run of decimal digit bytes denotes.
pub open spec fn group_value(s: Seq<u8>) -> int
    decreases s.len(),
{
    if s.len() == 0 {
        0
    } else {
        group_value(s.drop_last()) * 10 + (s.last() - 48)
    }
}

/// One dotted-quad group: one to three decimal digits denoting at most 255.
pub open spec fn group_ok(s: Seq<u8>) -> bool {
    1 <= s.len() <= 3 && all_dec_digits(s) && group_value(s) <= 255
}

/// A syntactically valid IPv4 address: four groups around three dots.
pub open spec fn is_valid_ip4(s: Seq<u8>) -> bool {
    exists|i: int, j: int, k: int|
        #![trigger s[i], s[j], s[k]]
        {
            &&& 0 <= i < j < k < s.len()
            &&& s[i] == 46
            &&& s[j] == 46
            &&& s[k] == 46
            &&& group_ok(s.subrange(0, i))
            &&& group_ok(s.subrange(i + 1, j))
            &&& group_ok(s.subrange(j + 1, k))
            &&& group_ok(s.subrange(k + 1, s.len() as int))
        }
}

/// In a dotted quad split at `i < j < k`, every dot of the string stands at
/// one of those three places: the groups between them hold digits only.
proof fn lemma_ip4_dot_positions(s: Seq<u8>, i: int, j: int, k: int, p: int)
    requires
        0 <= i < j < k < s.len(),
        group_ok(s.subrange(0, i)),
        group_ok(s.subrange(i + 1, j)),
        group_ok(s.subrange(j + 1, k)),
        group_ok(s.subrange(k + 1, s.len() as int)),
        0 <= p < s.len(),
        s[p] == 46,
    ensures
        p == i || p == j || p == k,
{
    if p < i {
        assert(is_dec_digit(s.subrange(0, i)[p]));
    } else if i < p < j {
        assert(is_dec_digit(s.subrange(i + 1, j)[p - i - 1]));
    } else if j < p < k {
        assert(is_dec_digit(s.subrange(j + 1, k)[p - j - 1]));
    } else if k < p {
        assert(is_dec_digit(s.subrange(k + 1, s.len() as int)[p - k - 1]));
    }
}

/// Decides `group_ok` for the bytes in `[a, b)`.
fn group_check(s: &Vec<u8>, a: usize, b: usize) -> (r: bool)
    requires
        a <= b <= s@.len(),
    ensures
        r == group_ok(s@.subrange(a as int, b as int)),
{
    let ghost g = s@.subrange(a as int, b as int);
    if b - a < 1 || b - a > 3 {
        return false;
    }
    let mut m: usize = a;
    let mut acc: u32 = 0;
    while m < b
        invariant
            a <= m <= b <= s@.len(),
            b - a <= 3,
            g == s@.subrange(a as int, b as int),
            all_dec_digits(s@.subrange(a as int, m as int)),
            acc == group_value(s@.subrange(a as int, m as int)),
            acc <= 999,
            m - a == 0 ==> acc == 0,
            m - a == 1 ==> acc <= 9,
            m - a == 2 ==> acc <= 99,
        decreases b - m,
    {
        let c = s[m];
        if c < 48 || c > 57 {
            assert(!all_dec_digits(g)) by {
                assert(g[m - a] == s@[m as int]);
            }
            return false;
        }
        proof {
            assert(s@.subrange(a as int, m + 1).drop_last() =~= s@.subrange(a as int, m as int));
            assert(s@.subrange(a as int, m + 1).last() == s@[m as int]);
            assert(all_dec_digits(s@.subrange(a as int, m + 1))) by {
                assert(forall|q: int|
                    0 <= q < m + 1 - a ==> s@.subrange(a as int, m + 1)[q]
                        == s@.subrange(a as int, m as int).push(s@[m as int])[q]);
            }
        }
        acc = acc * 10 + ((c - 48) as u32);
        m = m + 1;
    }
    assert(g =~= s@.subrange(a as int, m as int));
    acc <= 255
}

/// Decides whether the whole buffer is a valid IPv4 address.
pub fn check_ip4(s: &Vec<u8>) -> (r: bool)
    ensures
        r == is_valid_ip4(s@),
{
    let mut dots: Vec<usize> = Vec::new();
    let mut i: usize = 0;
    while i < s.len()
        invariant
            i <= s@.len(),
            forall|p: int|
                0 <= p < dots@.len() ==> 0 <= #[trigger] dots@[p] < i && s@[dots@[p] as int]
                    == 46,
            forall|q: int|
                0 <= q < i && s@[q] == 46 ==> exists|p: int|
                    0 <= p < dots@.len() && #[trigger] dots@[p] == q,
            forall|p: int, q: int| 0 <= p < q < dots@.len() ==> dots@[p] < dots@[q],
        decreases s@.len() - i,
    {
        if s[i] == 46 {
            let ghost d0 = dots@;
            dots.push(i);
            proof {
                assert(forall|p: int| 0 <= p < d0.len() ==> dots@[p] == d0[p]);
                assert(dots@[d0.len() as int] == i);
                assert(forall|q: int|
                    0 <= q < i + 1 && s@[q] == 46 ==> exists|p: int|
                        0 <= p < dots@.len() && #[trigger] dots@[p] == q) by {
                    assert forall|q: int| 0 <= q < i + 1 && s@[q] == 46 implies exists|p: int|
                        0 <= p < dots@.len() && #[trigger] dots@[p] == q by {
                        if q < i {
                            let p = choose|p: int| 0 <= p < d0.len() && d0[p] == q;
                            assert(dots@[p] == q);
                        } else {
                            assert(dots@[d0.len() as int] == q);
                        }
                    }
                }
            }
        }
        i = i + 1;
    }
    if dots.len() != 3 {
        proof {
            if is_valid_ip4(s@) {
                let (wi, wj, wk) = choose|wi: int, wj: int, wk: int|
                    #![trigger s@[wi], s@[wj], s@[wk]]
                    {
                        &&& 0 <= wi < wj < wk < s@.len()
                        &&& s@[wi] == 46
                        &&& s@[wj] == 46
                        &&& s@[wk] == 46
                        &&& group_ok(s@.subrange(0, wi))
                        &&& group_ok(s@.subrange(wi + 1, wj))
                        &&& group_ok(s@.subrange(wj + 1, wk))
                        &&& group_ok(s@.subrange(wk + 1, s@.len() as int))
                    };
                let pi = choose|p: int| 0 <= p < dots@.len() && dots@[p] == wi;
                let pj = choose|p: int| 0 <= p < dots@.len() && dots@[p] == wj;
                let pk = choose|p: int| 0 <= p < dots@.len() && dots@[p] == wk;
                assert(dots@[pi] == wi && dots@[pj] == wj && dots@[pk] == wk);
                assert(dots@.len() >= 3);
                if dots@.len() > 3 {
                    assert forall|p: int| 0 <= p < dots@.len() implies dots@[p] == wi
                        || dots@[p] == wj || dots@[p] == wk by {
                        lemma_ip4_dot_positions(s@, wi, wj, wk, dots@[p] as int);
                    }
                    assert(dots@[0] < dots@[1] < dots@[2] < dots@[3]);
                    assert(false);
                }
            }
        }
        return false;
    }
    let d0 = dots[0];
    let d1 = dots[1];
    let d2 = dots[2];
    assert(d0 < d1 < d2 < s@.len() && s@[d0 as int] == 46 && s@[d1 as int] == 46 && s@[
        d2 as int] == 46);
    let g1 = group_check(s, 0, d0);
    let g2 = group_check(s, d0 + 1, d1);
    let g3 = group_check(s, d1 + 1, d2);
    let g4 = group_check(s, d2 + 1, s.len());
    let ok = g1 && g2 && g3 && g4;
    proof {
        if ok {
            assert(is_valid_ip4(s@)) by {
                assert(s@[d0 as int] == 46 && s@[d1 as int] == 46 && s@[d2 as int] == 46);
            }
        } else {
            if is_valid_ip4(s@) {
                let (wi, wj, wk) = choose|wi: int, wj: int, wk: int|
                    #![trigger s@[wi], s@[wj], s@[wk]]
                    {
                        &&& 0 <= wi < wj < wk < s@.len()
                        &&& s@[wi] == 46
                        &&& s@[wj] == 46
                        &&& s@[wk] == 46
                        &&& group_ok(s@.subrange(0, wi))
                        &&& group_ok(s@.subrange(wi + 1, wj))
                        &&& group_ok(s@.subrange(wj + 1, wk))
                        &&& group_ok(s@.subrange(wk + 1, s@.len() as int))
                    };
                let pi = choose|p: int| 0 <= p < dots@.len() && dots@[p] == wi;
                let pj = choose|p: int| 0 <= p < dots@.len() && dots@[p] == wj;
                let pk = choose|p: int| 0 <= p < dots@.len() && dots@[p] == wk;
                assert(dots@[pi] == wi && dots@[pj] == wj && dots@[pk] == wk);
                assert forall|p: int| 0 <= p < dots@.len() implies dots@[p] == wi || dots@[p]
                    == wj || dots@[p] == wk by {
                    lemma_ip4_dot_positions(s@, wi, wj, wk, dots@[p] as int);
                }
                assert(wi == d0 && wj == d1 && wk == d2);
                assert(false);
            }
        }
    }
    ok
}

// ---------------------------------------------------------------------------
// IPv6: colon-separated groups of one to four hex digits, at most one `::`
// compression, and an optional embedded dotted quad as the final group.
// ---------------------------------------------------------------------------

/// A hexadecimal digit byte, either case.
pub open spec fn is_hex_digit(b: u8) -> bool {
    is_dec_digit(b) || 97 <= b <= 102 || 65 <= b <= 70
}

/// One IPv6 group: one to four hex digits.
pub open spec fn h16_ok(s: Seq<u8>) -> bool {
    1 <= s.len() <= 4 && forall|i: int| 0 <= i < s.len() ==> is_hex_digit(#[trigger] s[i])
}

/// The position of the first colon at or after `from`, or the length if none.
pub open spec fn find_colon(s: Seq<u8>, from: int) -> int
    decreases s.len() - from,
{
    if from < 0 || from >= s.len() {
        s.len() as int
    } else if s[from] == 58 {
        from
    } else {
        find_colon(s, from + 1)
    }
}

proof fn lemma_find_colon(s: Seq<u8>, from: int)
    requires
        0 <= from <= s.len(),
    ensures
        from <= find_colon(s, from) <= s.len(),
        forall|q: int| from <= q < find_colon(s, from) ==> s[q] != 58,
        find_colon(s, from) < s.len() ==> s[find_colon(s, from)] == 58,
    decreases s.len() - from,
{
    if from < s.len() && s[from] != 58 {
        lemma_find_colon(s, from + 1);
    }
}

/// The pieces of `s` between its colons, in order; every colon separates,
/// so `"a::b"` has an empty piece in the middle.
pub open spec fn split_colon(s: Seq<u8>) -> Seq<Seq<u8>>
    decreases s.len(),
{
    let i = find_colon(s, 0);
    if 0 <= i < s.len() {
        seq![s.subrange(0, i)] + split_colon(s.subrange(i + 1, s.len() as int))
    } else {
        seq![s]
    }
}

pub open spec fn pieces_nonempty(p: Seq<Seq<u8>>, a: int, b: int) -> bool {
    forall|i: int| a <= i < b ==> (#[trigger] p[i]).len() > 0
}

pub open spec fn pieces_h16(p: Seq<Seq<u8>>, a: int, b: int) -> bool {
    forall|i: int| a <= i < b ==> h16_ok(#[trigger] p[i])
}

/// The pieces in `[a, b)` close an address: all plain groups, except that the
/// final piece may instead be an embedded dotted quad.
pub open spec fn tail_ok(p: Seq<Seq<u8>>, a: int, b: int) -> bool {
    b <= a || (pieces_h16(p, a, b - 1) && (h16_ok(p[b - 1]) || is_valid_ip4(p[b - 1])))
}

pub open spec fn has_dot(s: Seq<u8>) -> bool {
    exists|i: int| 0 <= i < s.len() && s[i] == 46
}

/// How many 16-bit groups the pieces in `[a, b)` stand for: an embedded
/// dotted quad (the only piece with dots in a valid tail) counts as two.
pub open spec fn tail_weight(p: Seq<Seq<u8>>, a: int, b: int) -> int {
    (b - a) + if b > a && has_dot(p[b - 1]) {
        1int
    } else {
        0int
    }
}

/// A syntactically valid IPv6 address, over the colon-split pieces: either
/// no compression and exactly eight groups, or one `::` (one empty piece in
/// the middle, two leading or two trailing empty pieces, or three empty
/// pieces for `"::"` itself) with fewer than eight groups written out.
pub open spec fn is_valid_ip6(s: Seq<u8>) -> bool {
    let p = split_colon(s);
    let n = p.len() as int;
    ||| (pieces_nonempty(p, 0, n) && ((n == 8 && pieces_h16(p, 0, 8)) || (n == 7 && pieces_h16(
        p,
        0,
        6,
    ) && is_valid_ip4(p[6]))))
    ||| (exists|i: int|
        #![trigger p[i]]
        {
            &&& 1 <= i <= n - 2
            &&& p[i].len() == 0
            &&& pieces_nonempty(p, 0, i)
            &&& pieces_nonempty(p, i + 1, n)
            &&& pieces_h16(p, 0, i)
            &&& tail_ok(p, i + 1, n)
            &&& i + tail_weight(p, i + 1, n) <= 7
        })
    ||| (n >= 3 && p[0].len() == 0 && p[1].len() == 0 && pieces_nonempty(p, 2, n) && tail_ok(
        p,
        2,
        n,
    ) && tail_weight(p, 2, n) <= 7)
    ||| (n >= 3 && p[n - 2].len() == 0 && p[n - 1].len() == 0 && pieces_nonempty(p, 0, n - 2)
        && pieces_h16(p, 0, n - 2) && n - 2 <= 7)
    ||| (n == 3 && p[0].len() == 0 && p[1].len() == 0 && p[2].len() == 0)
}

proof fn lemma_find_colon_from(s: Seq<u8>, from: int, m: int)
    requires
        0 <= from <= m < s.len(),
        s[m] == 58,
        forall|q: int| from <= q < m ==> s[q] != 58,
    ensures
        find_colon(s, from) == m,
    decreases m - from,
{
    if from < m {
        lemma_find_colon_from(s, from + 1, m);
    }
}

/// Decides `h16_ok` for one piece.
fn h16_check(v: &Vec<u8>) -> (r: bool)
    ensures
        r == h16_ok(v@),
{
    if v.len() < 1 || v.len() > 4 {
        return false;
    }
    let mut i: usize = 0;
    while i < v.len()
        invariant
            i <= v@.len(),
            1 <= v@.len() <= 4,
            forall|q: int| 0 <= q < i ==> is_hex_digit(#[trigger] v@[q]),
        decreases v@.len() - i,
    {
        let c = v[i];
        if !(48 <= c && c <= 57 || 97 <= c && c <= 102 || 65 <= c && c <= 70) {
            return false;
        }
        i = i + 1;
    }
    true
}

/// Decides `has_dot` for one piece.
fn dot_check(v: &Vec<u8>) -> (r: bool)
    ensures
        r == has_dot(v@),
{
    let mut i: usize = 0;
    while i < v.len()
        invariant
            i <= v@.len(),
            forall|q: int| 0 <= q < i ==> v@[q] != 46,
        decreases v@.len() - i,
    {
        if v[i] == 46 {
            return true;
        }
        i = i + 1;
    }
    false
}

/// Decides `pieces_h16` over `[a, b)` of the split.
fn h16_range_check(pieces: &Vec<Vec<u8>>, Ghost(gp): Ghost<Seq<Seq<u8>>>, a: usize, b: usize) -> (r:
    bool)
    requires
        gp.len() == pieces@.len(),
        forall|t: int| 0 <= t < gp.len() ==> gp[t] == #[trigger] pieces@[t]@,
        a <= b <= pieces@.len(),
    ensures
        r == pieces_h16(gp, a as int, b as int),
{
    let mut i: usize = a;
    while i < b
        invariant
            a <= i <= b <= pieces@.len(),
            gp.len() == pieces@.len(),
            forall|t: int| 0 <= t < gp.len() ==> gp[t] == #[trigger] pieces@[t]@,
            forall|q: int| a <= q < i ==> h16_ok(#[trigger] gp[q]),
        decreases b - i,
    {
        if !h16_check(&pieces[i]) {
            return false;
        }
        i = i + 1;
    }
    true
}

/// Decides `tail_ok` and computes `tail_weight` over `[a, b)` of the split.
fn tail_check(pieces: &Vec<Vec<u8>>, Ghost(gp): Ghost<Seq<Seq<u8>>>, a: usize, b: usize) -> (r: (
    bool,
    usize,
))
    requires
        gp.len() == pieces@.len(),
        forall|t: int| 0 <= t < gp.len() ==> gp[t] == #[trigger] pieces@[t]@,
        a <= b <= pieces@.len(),
        b - a < usize::MAX,
    ensures
        r.0 == tail_ok(gp, a as int, b as int),
        a < b ==> r.1 == tail_weight(gp, a as int, b as int),
{
    if b <= a {
        return (true, 0);
    }
    let head_ok = h16_range_check(pieces, Ghost(gp), a, b - 1);
    let last_h16 = h16_check(&pieces[b - 1]);
    let last_quad = check_ip4(&pieces[b - 1]);
    let dotted = dot_check(&pieces[b - 1]);
    let ok = head_ok && (last_h16 || last_quad);
    let w = if dotted {
        b - a + 1
    } else {
        b - a
    };
    (ok, w)
}

/// Splits the buffer on every colon, with a ghost mirror of the piece views
/// that equals `split_colon` of the whole buffer.
fn split_pieces(s: &Vec<u8>) -> (r: (Vec<Vec<u8>>, Ghost<Seq<Seq<u8>>>))
    ensures
        r.1@ == split_colon(s@),
        r.1@.len() == r.0@.len(),
        forall|t: int| 0 <= t < r.1@.len() ==> r.1@[t] == #[trigger] r.0@[t]@,
{
    let mut pieces: Vec<Vec<u8>> = Vec::new();
    let ghost mut gp = Seq::<Seq<u8>>::empty();
    let mut start: usize = 0;
    let mut i: usize = 0;
    proof {
        assert(s@.subrange(0, s@.len() as int) =~= s@);
        assert(Seq::<Seq<u8>>::empty() + split_colon(s@) =~= split_colon(s@));
    }
    while i < s.len()
        invariant
            start <= i <= s@.len(),
            forall|q: int| start <= q < i ==> s@[q] != 58,
            gp.len() == pieces@.len(),
            forall|t: int| 0 <= t < gp.len() ==> gp[t] == #[trigger] pieces@[t]@,
            split_colon(s@) == gp + split_colon(s@.subrange(start as int, s@.len() as int)),
        decreases s@.len() - i,
    {
        if s[i] == 58 {
            proof {
                let suf = s@.subrange(start as int, s@.len() as int);
                assert(suf[i - start] == 58);
                assert(forall|q: int| 0 <= q < i - start ==> suf[q] == s@[start + q]);
                lemma_find_colon_from(suf, 0, i - start);
                assert(suf.subrange(0, i - start) =~= s@.subrange(start as int, i as int));
                assert(suf.subrange(i - start + 1, suf.len() as int) =~= s@.subrange(
                    i + 1,
                    s@.len() as int,
                ));
                let piece = s@.subrange(start as int, i as int);
                assert(split_colon(suf) == seq![piece] + split_colon(
                    s@.subrange(i + 1, s@.len() as int),
                ));
                assert(gp + split_colon(suf) =~= gp.push(piece) + split_colon(
                    s@.subrange(i + 1, s@.len() as int),
                ));
            }
            let piece = copy_range(s, start, i);
            let ghost old_gp = gp;
            let ghost old_pv = pieces@;
            proof {
                gp = gp.push(s@.subrange(start as int, i as int));
            }
            pieces.push(piece);
            proof {
                assert(forall|t: int|
                    0 <= t < old_gp.len() ==> gp[t] == old_gp[t] && pieces@[t] == old_pv[t]);
                assert(gp[old_gp.len() as int] == pieces@[old_gp.len() as int]@);
            }
            start = i + 1;
        }
        i = i + 1;
    }
    proof {
        let suf = s@.subrange(start as int, s@.len() as int);
        lemma_find_colon(suf, 0);
        assert(forall|q: int| 0 <= q < suf.len() ==> suf[q] == s@[start + q] && s@[start + q] != 58);
        assert(find_colon(suf, 0) == suf.len());
        assert(split_colon(suf) =~= seq![suf]);
    }
    let piece = copy_range(s, start, s.len());
    proof {
        gp = gp.push(s@.subrange(start as int, s@.len() as int));
        assert(gp =~= split_colon(s@));
    }
    pieces.push(piece);
    (pieces, Ghost(gp))
}

/// Decides whether the whole buffer is a valid IPv6 address.
#[verifier::rlimit(60)]
pub fn check_ip6(s: &Vec<u8>) -> (r: bool)
    ensures
        r == is_valid_ip6(s@),
{
    let (pieces, pieces_ghost) = split_pieces(s);
    let ghost gp = pieces_ghost@;
    let n = pieces.len();
    assert(gp.len() == n && n >= 1);
    let mut empties: Vec<usize> = Vec::new();
    let mut j: usize = 0;
    while j < n
        invariant
            j <= n,
            n == pieces@.len(),
            gp.len() == n,
            forall|t: int| 0 <= t < gp.len() ==> gp[t] == #[trigger] pieces@[t]@,
            forall|p: int|
                0 <= p < empties@.len() ==> 0 <= #[trigger] empties@[p] < j && gp[empties@[p] as int].len()
                    == 0,
            forall|q: int|
                0 <= q < j && gp[q].len() == 0 ==> exists|p: int|
                    0 <= p < empties@.len() && #[trigger] empties@[p] == q,
            forall|p: int, q: int| 0 <= p < q < empties@.len() ==> empties@[p] < empties@[q],
        decreases n - j,
    {
        if pieces[j].len() == 0 {
            let ghost e0 = empties@;
            empties.push(j);
            proof {
                assert(forall|p: int| 0 <= p < e0.len() ==> empties@[p] == e0[p]);
                assert(empties@[e0.len() as int] == j);
                assert forall|q: int|
                    0 <= q < j + 1 && gp[q].len() == 0 implies exists|p: int|
                    0 <= p < empties@.len() && #[trigger] empties@[p] == q by {
                    if q < j {
                        let p = choose|p: int| 0 <= p < e0.len() && e0[p] == q;
                        assert(empties@[p] == q);
                    } else {
                        assert(empties@[e0.len() as int] == q);
                    }
                }
            }
        }
        j = j + 1;
    }
    // From here on, `gp[q].len() == 0` exactly when `q` stands in `empties`.
    assert(forall|q: int|
        0 <= q < gp.len() && gp[q].len() == 0 ==> exists|p: int|
            0 <= p < empties@.len() && #[trigger] empties@[p] == q);
    if empties.len() == 0 {
        proof {
            assert(pieces_nonempty(gp, 0, n as int)) by {
                assert forall|q: int| 0 <= q < n implies (#[trigger] gp[q]).len() > 0 by {
                    if gp[q].len() == 0 {
                        let p = choose|p: int|
                            0 <= p < empties@.len() && #[trigger] empties@[p] == q;
                        assert(false);
                    }
                }
            }
        }
        if n == 8 {
            let ok = h16_range_check(&pieces, Ghost(gp), 0, 8);
            return ok;
        } else if n == 7 {
            let ok6 = h16_range_check(&pieces, Ghost(gp), 0, 6);
            let okq = check_ip4(&pieces[6]);
            return ok6 && okq;
        } else {
            return false;
        }
    }
    let e0 = empties[0];
    assert(gp[e0 as int].len() == 0 && e0 < n);
    if empties.len() == 1 {
        proof {
            assert forall|q: int| 0 <= q < n && q != e0 implies (#[trigger] gp[q]).len() > 0 by {
                if gp[q].len() == 0 {
                    let p = choose|p: int| 0 <= p < empties@.len() && #[trigger] empties@[p] == q;
                    assert(p == 0);
                }
            }
        }
        if 1 <= e0 && e0 + 1 < n {
            let okh = h16_range_check(&pieces, Ghost(gp), 0, e0);
            let (okt, w) = tail_check(&pieces, Ghost(gp), e0 + 1, n);
            let ok = okh && okt && w <= 7 && e0 <= 7 - w;
            proof {
                if ok {
                    assert(pieces_nonempty(gp, 0, e0 as int));
                    assert(pieces_nonempty(gp, e0 + 1, n as int));
                    assert(is_valid_ip6(s@));
                } else {
                    if is_valid_ip6(s@) {
                        lemma_ip6_second_case(s@, gp, empties@, e0 as int, n as int);
                    }
                }
            }
            return ok;
        } else {
            proof {
                if is_valid_ip6(s@) {
                    lemma_ip6_second_case(s@, gp, empties@, e0 as int, n as int);
                }
            }
            return false;
        }
    }
    let e1 = empties[1];
    assert(gp[e1 as int].len() == 0 && e0 < e1 < n);
    if empties.len() == 2 {
        proof {
            assert forall|q: int|
                0 <= q < n && q != e0 && q != e1 implies (#[trigger] gp[q]).len() > 0 by {
                if gp[q].len() == 0 {
                    let p = choose|p: int| 0 <= p < empties@.len() && #[trigger] empties@[p] == q;
                    assert(p == 0 || p == 1);
                }
            }
        }
        let mut acc = false;
        if e0 == 0 && e1 == 1 && n >= 3 {
            let (okt, w) = tail_check(&pieces, Ghost(gp), 2, n);
            if okt && w <= 7 {
                acc = true;
                assert(pieces_nonempty(gp, 2, n as int));
                assert(is_valid_ip6(s@));
            }
        }
        if n >= 3 && e0 == n - 2 && e1 == n - 1 {
            let okh = h16_range_check(&pieces, Ghost(gp), 0, n - 2);
            if okh && n - 2 <= 7 {
                acc = true;
                assert(pieces_nonempty(gp, 0, n - 2));
                assert(is_valid_ip6(s@));
            }
        }
        proof {
            if !acc && is_valid_ip6(s@) {
                lemma_ip6_two_empties(s@, gp, empties@, e0 as int, e1 as int, n as int);
                if e0 == 0 && e1 == 1 && n >= 3 {
                    assert(tail_ok(gp, 2, n as int) && tail_weight(gp, 2, n as int) <= 7);
                    assert(false);
                } else {
                    assert(n >= 3 && e0 == n - 2 && e1 == n - 1);
                    assert(pieces_h16(gp, 0, n - 2) && n - 2 <= 7);
                    assert(false);
                }
            }
        }
        return acc;
    }
    let e2 = empties[2];
    assert(gp[e2 as int].len() == 0 && e1 < e2 < n);
    if empties.len() == 3 {
        if n == 3 {
            proof {
                assert(e0 == 0 && e1 == 1 && e2 == 2);
                assert(is_valid_ip6(s@));
            }
            return true;
        } else {
            proof {
                if is_valid_ip6(s@) {
                    lemma_ip6_too_many_empties(s@, gp, e0 as int, e1 as int, e2 as int, n as int);
                }
            }
            return false;
        }
    }
    // Four or more empty pieces: no compression pattern admits that.
    proof {
        if is_valid_ip6(s@) {
            lemma_ip6_too_many_empties(s@, gp, e0 as int, e1 as int, e2 as int, n as int);
            assert(n == 3);
            assert(empties@[3] >= 3);
            assert(empties@[3] < n);
            assert(false);
        }
    }
    false
}

/// If a string is a valid IPv6 address whose split has an empty piece at
/// `e0` and no other, that empty piece carries the one `::`, standing
/// strictly inside, with plain groups before it and a closing tail after it.
proof fn lemma_ip6_second_case(s: Seq<u8>, gp: Seq<Seq<u8>>, es: Seq<usize>, e0: int, n: int)
    requires
        is_valid_ip6(s),
        gp == split_colon(s),
        gp.len() == n,
        es.len() == 1,
        es[0] == e0,
        0 <= e0 < n,
        gp[e0].len() == 0,
        forall|q: int| 0 <= q < n && q != e0 ==> (#[trigger] gp[q]).len() > 0,
    ensures
        1 <= e0 <= n - 2,
        pieces_h16(gp, 0, e0),
        tail_ok(gp, e0 + 1, n),
        e0 + tail_weight(gp, e0 + 1, n) <= 7,
{
    if pieces_nonempty(gp, 0, n) {
        assert(gp[e0].len() > 0);
        assert(false);
    }
    if n >= 3 && gp[0].len() == 0 && gp[1].len() == 0 {
        assert(e0 == 0 && e0 == 1);
        assert(false);
    }
    if n >= 3 && gp[n - 2].len() == 0 && gp[n - 1].len() == 0 {
        assert(e0 == n - 2 && e0 == n - 1);
        assert(false);
    }
    let wi = choose|wi: int|
        #![trigger gp[wi]]
        {
            &&& 1 <= wi <= n - 2
            &&& gp[wi].len() == 0
            &&& pieces_nonempty(gp, 0, wi)
            &&& pieces_nonempty(gp, wi + 1, n)
            &&& pieces_h16(gp, 0, wi)
            &&& tail_ok(gp, wi + 1, n)
            &&& wi + tail_weight(gp, wi + 1, n) <= 7
        };
    assert(wi == e0);
}

/// If a string is a valid IPv6 address whose split has empty pieces exactly
/// at `e0 < e1`, they carry a leading or a trailing `::`.
proof fn lemma_ip6_two_empties(s: Seq<u8>, gp: Seq<Seq<u8>>, es: Seq<usize>, e0: int, e1: int, n: int)
    requires
        is_valid_ip6(s),
        gp == split_colon(s),
        gp.len() == n,
        es.len() == 2,
        es[0] == e0,
        es[1] == e1,
        0 <= e0 < e1 < n,
        gp[e0].len() == 0,
        gp[e1].len() == 0,
        forall|q: int| 0 <= q < n && q != e0 && q != e1 ==> (#[trigger] gp[q]).len() > 0,
    ensures
        (e0 == 0 && e1 == 1 && n >= 3 && tail_ok(gp, 2, n) && tail_weight(gp, 2, n) <= 7) || (e0 == n
            - 2 && e1 == n - 1 && n >= 3 && pieces_h16(gp, 0, n - 2) && n - 2 <= 7),
{
    if pieces_nonempty(gp, 0, n) {
        assert(gp[e0].len() > 0);
        assert(false);
    }
    if exists|wi: int|
        #![trigger gp[wi]]
        {
            &&& 1 <= wi <= n - 2
            &&& gp[wi].len() == 0
            &&& pieces_nonempty(gp, 0, wi)
            &&& pieces_nonempty(gp, wi + 1, n)
            &&& pieces_h16(gp, 0, wi)
            &&& tail_ok(gp, wi + 1, n)
            &&& wi + tail_weight(gp, wi + 1, n) <= 7
        } {
        let wi = choose|wi: int|
            #![trigger gp[wi]]
            {
                &&& 1 <= wi <= n - 2
                &&& gp[wi].len() == 0
                &&& pieces_nonempty(gp, 0, wi)
                &&& pieces_nonempty(gp, wi + 1, n)
                &&& pieces_h16(gp, 0, wi)
                &&& tail_ok(gp, wi + 1, n)
                &&& wi + tail_weight(gp, wi + 1, n) <= 7
            };
        if e0 < wi {
            assert(gp[e0].len() > 0);
        } else if e0 > wi {
            assert(gp[e0].len() > 0);
        } else {
            if e1 < wi {
                assert(gp[e1].len() > 0);
            } else {
                assert(e1 > wi);
                assert(gp[e1].len() > 0);
            }
        }
        assert(false);
    }
    if n == 3 && gp[0].len() == 0 && gp[1].len() == 0 && gp[2].len() == 0 {
        assert(e0 == 0 || e0 == 1 || e0 == 2);
        assert(e1 == 0 || e1 == 1 || e1 == 2);
        assert(gp[0].len() > 0 || gp[1].len() > 0 || gp[2].len() > 0);
        assert(false);
    }
}

/// No form of a valid IPv6 address leaves three empty pieces except `"::"`
/// itself, whose split is exactly three empty pieces.
proof fn lemma_ip6_too_many_empties(s: Seq<u8>, gp: Seq<Seq<u8>>, e0: int, e1: int, e2: int, n: int)
    requires
        is_valid_ip6(s),
        gp == split_colon(s),
        gp.len() == n,
        0 <= e0 < e1 < e2 < n,
        gp[e0].len() == 0,
        gp[e1].len() == 0,
        gp[e2].len() == 0,
    ensures
        n == 3,
{
    if pieces_nonempty(gp, 0, n) {
        assert(gp[e0].len() > 0);
        assert(false);
    }
    if exists|wi: int|
        #![trigger gp[wi]]
        {
            &&& 1 <= wi <= n - 2
            &&& gp[wi].len() == 0
            &&& pieces_nonempty(gp, 0, wi)
            &&& pieces_nonempty(gp, wi + 1, n)
            &&& pieces_h16(gp, 0, wi)
            &&& tail_ok(gp, wi + 1, n)
            &&& wi + tail_weight(gp, wi + 1, n) <= 7
        } {
        let wi = choose|wi: int|
            #![trigger gp[wi]]
            {
                &&& 1 <= wi <= n - 2
                &&& gp[wi].len() == 0
                &&& pieces_nonempty(gp, 0, wi)
                &&& pieces_nonempty(gp, wi + 1, n)
                &&& pieces_h16(gp, 0, wi)
                &&& tail_ok(gp, wi + 1, n)
                &&& wi + tail_weight(gp, wi + 1, n) <= 7
            };
        assert(e0 == wi || gp[e0].len() > 0);
        assert(e1 == wi || gp[e1].len() > 0);
        assert(false);
    }
    if n >= 3 && gp[0].len() == 0 && gp[1].len() == 0 && pieces_nonempty(gp, 2, n) && tail_ok(
        gp,
        2,
        n,
    ) && tail_weight(gp, 2, n) <= 7 {
        assert(e2 >= 2);
        assert(gp[e2].len() > 0);
        assert(false);
    }
    if n >= 3 && gp[n - 2].len() == 0 && gp[n - 1].len() == 0 && pieces_nonempty(gp, 0, n - 2)
        && pieces_h16(gp, 0, n - 2) && n - 2 <= 7 {
        assert(e0 <= n - 3);
        assert(gp[e0].len() > 0);
        assert(false);
    }
}

} // verus!


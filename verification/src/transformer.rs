use crate::cache::ReplacementCache;
use crate::digits::DigitSource;
use crate::digits::digit_byte;
use crate::digits::digit_char;
use crate::digits::capped;
use crate::digits::draw_value;
use crate::digits::lemma_digit_char_no_separator;
use crate::scan::Category;
use crate::scan::scan_addresses;
use crate::scan::scan_queries;
use crate::scan::scan_spec;
use crate::scan::scan_queries_spec;
use crate::util::splice;
use crate::util::write_range;
use crate::util::copy_range;
use crate::util::copy_bytes;
use crate::util::overwrite;
use vstd::prelude::*;

verus! {

/// The mathematical state of one engine instance: the three cache
/// partitions, the seed, and the record of every draw made so far.
pub ghost struct Model {
    pub c4: Map<Seq<u8>, Seq<u8>>,
    pub c6: Map<Seq<u8>, Seq<u8>>,
    pub cq: Map<Seq<u8>, Seq<u8>>,
    pub seed: u64,
    pub log: Seq<(u32, u32)>,
}

/// The cache partition that serves a category.
pub open spec fn cat_map(m: Model, cat: Category) -> Map<Seq<u8>, Seq<u8>> {
    match cat {
        Category::Ipv4 => m.c4,
        Category::Ipv6 => m.c6,
        Category::QueryValue => m.cq,
    }
}

/// The model with one partition replaced.
pub open spec fn with_cat_map(m: Model, cat: Category, cm: Map<Seq<u8>, Seq<u8>>) -> Model {
    match cat {
        Category::Ipv4 => Model { c4: cm, ..m },
        Category::Ipv6 => Model { c6: cm, ..m },
        Category::QueryValue => Model { cq: cm, ..m },
    }
}

/// The IPv4 generation rule, walking `s` from index `i` down to 0: dots are
/// kept and reset the per-group count, the last two characters of each group
/// are replaced by fresh draws (base 10, and at most 4 in the tens place),
/// and any third character of a group is kept.
pub open spec fn gen_ip4_from(
    s: Seq<u8>,
    i: int,
    cnt: int,
    log: Seq<(u32, u32)>,
    seed: u64,
) -> (Seq<u8>, Seq<(u32, u32)>)
    decreases i + 1,
{
    if i < 0 || i >= s.len() {
        (s, log)
    } else if s[i] == 46 {
        gen_ip4_from(s, i - 1, 0, log, seed)
    } else if cnt < 2 {
        let hi: u32 = if cnt == 0 {
            10
        } else {
            5
        };
        let d = capped(draw_value(seed, log, 0, hi), hi);
        gen_ip4_from(s.update(i, digit_char(d)), i - 1, cnt + 1, log.push((0, hi)), seed)
    } else {
        gen_ip4_from(s, i - 1, cnt, log, seed)
    }
}

/// The IPv6 generation rule, walking `s` from index `i` down to 0: colons
/// are kept, every other character is replaced by a fresh base-16 draw.
pub open spec fn gen_ip6_from(s: Seq<u8>, i: int, log: Seq<(u32, u32)>, seed: u64) -> (
    Seq<u8>,
    Seq<(u32, u32)>,
)
    decreases i + 1,
{
    if i < 0 || i >= s.len() {
        (s, log)
    } else if s[i] == 58 {
        gen_ip6_from(s, i - 1, log, seed)
    } else {
        let d = capped(draw_value(seed, log, 0, 16), 16);
        gen_ip6_from(s.update(i, digit_char(d)), i - 1, log.push((0, 16)), seed)
    }
}

/// The query-value generation rule, walking `s` from index `i` up to the
/// end: every character is replaced by a fresh base-36 draw.
pub open spec fn gen_q_from(s: Seq<u8>, i: int, log: Seq<(u32, u32)>, seed: u64) -> (
    Seq<u8>,
    Seq<(u32, u32)>,
)
    decreases s.len() - i,
{
    if i < 0 || i >= s.len() {
        (s, log)
    } else {
        let d = capped(draw_value(seed, log, 0, 36), 36);
        gen_q_from(s.update(i, digit_char(d)), i + 1, log.push((0, 36)), seed)
    }
}

/// The replacement generated for an original that has no cache entry yet,
/// with the draw record it leaves behind.
pub open spec fn gen_replacement(cat: Category, orig: Seq<u8>, seed: u64, log: Seq<(u32, u32)>) -> (
    Seq<u8>,
    Seq<(u32, u32)>,
) {
    match cat {
        Category::Ipv4 => gen_ip4_from(orig, orig.len() - 1, 0, log, seed),
        Category::Ipv6 => gen_ip6_from(orig, orig.len() - 1, log, seed),
        Category::QueryValue => gen_q_from(orig, 0, log, seed),
    }
}

/// What one anonymization call returns and how it moves the engine state: a
/// cache hit returns the stored bytes and changes nothing; a miss generates
/// a replacement, stores it, and advances the draw record.
pub open spec fn anon_spec(cat: Category, orig: Seq<u8>, m: Model) -> (Seq<u8>, Model) {
    let cm = cat_map(m, cat);
    if cm.contains_key(orig) {
        (cm[orig], m)
    } else {
        let (rep, lg) = gen_replacement(cat, orig, m.seed, m.log);
        (rep, with_cat_map(Model { log: lg, ..m }, cat, cm.insert(orig, rep)))
    }
}

/// An IPv4 replacement next to its original: same length, dots exactly
/// where the original has them.
pub open spec fn ip4_shaped(k: Seq<u8>, v: Seq<u8>) -> bool {
    v.len() == k.len() && forall|i: int| 0 <= i < k.len() ==> ((k[i] == 46) <==> ((#[trigger] v[i])
        == 46))
}

/// An IPv6 replacement next to its original: same length, colons exactly
/// where the original has them.
pub open spec fn ip6_shaped(k: Seq<u8>, v: Seq<u8>) -> bool {
    v.len() == k.len() && forall|i: int| 0 <= i < k.len() ==> ((k[i] == 58) <==> ((#[trigger] v[i])
        == 58))
}

/// The position of the first dot at or after `from`, or the length if none.
pub open spec fn next_dot(k: Seq<u8>, from: int) -> int
    decreases k.len() - from,
{
    if from < 0 || from >= k.len() {
        k.len() as int
    } else if k[from] == 46 {
        from
    } else {
        next_dot(k, from + 1)
    }
}

/// How many characters stand between position `i` and the following dot (or
/// the end): the position's distance from the end of its group, which
/// decides whether the IPv4 rule redraws it.
pub open spec fn run_after(k: Seq<u8>, i: int) -> int {
    next_dot(k, i + 1) - (i + 1)
}

pub proof fn lemma_next_dot_bounds(k: Seq<u8>, from: int)
    requires
        0 <= from <= k.len(),
    ensures
        from <= next_dot(k, from) <= k.len(),
        next_dot(k, from) < k.len() ==> k[next_dot(k, from)] == 46,
        forall|q: int| from <= q < next_dot(k, from) ==> k[q] != 46,
    decreases k.len() - from,
{
    if from < k.len() && k[from] != 46 {
        lemma_next_dot_bounds(k, from + 1);
    }
}

/// Where a dot (or the end) is known to close a dot-free stretch, the next
/// dot is exactly there.
pub proof fn lemma_next_dot_first(k: Seq<u8>, from: int, m: int)
    requires
        0 <= from <= m <= k.len(),
        m < k.len() ==> k[m] == 46,
        forall|q: int| from <= q < m ==> k[q] != 46,
    ensures
        next_dot(k, from) == m,
    decreases m - from,
{
    if from < m {
        lemma_next_dot_first(k, from + 1, m);
    }
}

/// The full IPv4 replacement policy, position by position: dots stay dots;
/// the last character of each group becomes a decimal digit; the
/// second-to-last becomes a digit no greater than four; any character
/// further from its group's end is kept verbatim.
pub open spec fn ip4_repl_ok(k: Seq<u8>, v: Seq<u8>) -> bool {
    &&& v.len() == k.len()
    &&& (forall|i: int|
        0 <= i < k.len() ==> {
            &&& (k[i] == 46 ==> (#[trigger] v[i]) == 46)
            &&& (k[i] != 46 && run_after(k, i) == 0 ==> 48 <= v[i] <= 57)
            &&& (k[i] != 46 && run_after(k, i) == 1 ==> 48 <= v[i] <= 52)
            &&& (k[i] != 46 && run_after(k, i) >= 2 ==> v[i] == k[i])
        })
}

/// A lowercase hexadecimal digit byte, the range of a base-16 draw.
pub open spec fn is_lower_hex(b: u8) -> bool {
    48 <= b <= 57 || 97 <= b <= 102
}

/// The full IPv6 replacement policy: colons stay colons and every other
/// byte becomes a lowercase hexadecimal digit.
pub open spec fn ip6_repl_ok(k: Seq<u8>, v: Seq<u8>) -> bool {
    &&& v.len() == k.len()
    &&& (forall|i: int|
        0 <= i < k.len() ==> {
            &&& (k[i] == 58 ==> (#[trigger] v[i]) == 58)
            &&& (k[i] != 58 ==> is_lower_hex(v[i]))
        })
}

/// The IPv4 policy preserves exactly the dot positions.
pub proof fn lemma_ip4_repl_ok_shaped(k: Seq<u8>, v: Seq<u8>)
    requires
        ip4_repl_ok(k, v),
    ensures
        ip4_shaped(k, v),
{
    assert forall|i: int| 0 <= i < k.len() implies ((k[i] == 46) <==> ((#[trigger] v[i]) == 46)) by {
        if k[i] != 46 {
            lemma_next_dot_bounds(k, i + 1);
            assert(run_after(k, i) >= 0);
            assert(v[i] != 46);
        }
    }
}

/// The IPv6 policy preserves exactly the colon positions.
pub proof fn lemma_ip6_repl_ok_shaped(k: Seq<u8>, v: Seq<u8>)
    requires
        ip6_repl_ok(k, v),
    ensures
        ip6_shaped(k, v),
{
    assert forall|i: int| 0 <= i < k.len() implies ((k[i] == 58) <==> ((#[trigger] v[i]) == 58)) by {
        if k[i] != 58 {
            assert(v[i] != 58);
        }
    }
}

/// The loopback address, whitelisted so that it is never altered.
pub open spec fn loopback() -> Seq<u8> {
    seq![49u8, 50u8, 55u8, 46u8, 48u8, 46u8, 48u8, 46u8, 49u8]
}

/// The loopback address mapped to itself follows the IPv4 policy: each of
/// its groups redraws only digits that it already could have drawn.
pub proof fn lemma_loopback_repl_ok()
    ensures
        ip4_repl_ok(loopback(), loopback()),
{
    let lb = loopback();
    assert(next_dot(lb, 9) == 9);
    assert(next_dot(lb, 8) == 9);
    assert(next_dot(lb, 7) == 7);
    assert(next_dot(lb, 6) == 7);
    assert(next_dot(lb, 5) == 5);
    assert(next_dot(lb, 4) == 5);
    assert(next_dot(lb, 3) == 3);
    assert(next_dot(lb, 2) == 3);
    assert(next_dot(lb, 1) == 3);
    assert forall|i: int| 0 <= i < lb.len() implies {
        &&& (lb[i] == 46 ==> (#[trigger] lb[i]) == 46)
        &&& (lb[i] != 46 && run_after(lb, i) == 0 ==> 48 <= lb[i] <= 57)
        &&& (lb[i] != 46 && run_after(lb, i) == 1 ==> 48 <= lb[i] <= 52)
        &&& (lb[i] != 46 && run_after(lb, i) >= 2 ==> lb[i] == lb[i])
    } by {
        if i == 0 {
            assert(run_after(lb, 0) == 2);
        } else if i == 1 {
            assert(run_after(lb, 1) == 1 && lb[1] == 50);
        } else if i == 2 {
            assert(run_after(lb, 2) == 0 && lb[2] == 55);
        } else if i == 4 {
            assert(run_after(lb, 4) == 0 && lb[4] == 48);
        } else if i == 6 {
            assert(run_after(lb, 6) == 0 && lb[6] == 48);
        } else if i == 8 {
            assert(run_after(lb, 8) == 0 && lb[8] == 49);
        }
    }
}

/// What always holds of an engine's state: every cached IPv4 and IPv6
/// replacement follows its category's full policy against its original,
/// every cached query replacement keeps its original's length; and the
/// loopback address maps to itself in the IPv4 and the query partitions, so
/// that neither pass ever alters it.
pub open spec fn wf_model(m: Model) -> bool {
    &&& (forall|k: Seq<u8>| #[trigger] m.c4.contains_key(k) ==> ip4_repl_ok(k, m.c4[k]))
    &&& (forall|k: Seq<u8>| #[trigger] m.c6.contains_key(k) ==> ip6_repl_ok(k, m.c6[k]))
    &&& (forall|k: Seq<u8>| #[trigger] m.cq.contains_key(k) ==> m.cq[k].len() == k.len())
    &&& m.c4.contains_key(loopback())
    &&& m.c4[loopback()] == loopback()
    &&& m.cq.contains_key(loopback())
    &&& m.cq[loopback()] == loopback()
}

/// The state a fresh engine starts from: empty caches but for the loopback
/// whitelist entries, no draws made.
pub open spec fn init_model(seed: u64) -> Model {
    Model {
        c4: Map::<Seq<u8>, Seq<u8>>::empty().insert(loopback(), loopback()),
        c6: Map::<Seq<u8>, Seq<u8>>::empty(),
        cq: Map::<Seq<u8>, Seq<u8>>::empty().insert(loopback(), loopback()),
        seed: seed,
        log: Seq::empty(),
    }
}

/// Two byte strings with dots at the same positions find their next dot at
/// the same place.
proof fn lemma_next_dot_same_dots(s1: Seq<u8>, s2: Seq<u8>, from: int)
    requires
        s1.len() == s2.len(),
        forall|q: int| 0 <= q < s1.len() ==> ((s1[q] == 46) <==> ((#[trigger] s2[q]) == 46)),
    ensures
        next_dot(s1, from) == next_dot(s2, from),
    decreases s1.len() - from,
{
    if 0 <= from < s1.len() && s1[from] != 46 {
        lemma_next_dot_same_dots(s1, s2, from + 1);
    }
}

/// The IPv4 rule keeps length, follows the positional policy at every index
/// it walks, and touches no index above the one it starts from. `cnt` must
/// stand for the walked position's distance from its group's end, as it does
/// whenever the walk starts at the last index with a count of zero.
pub proof fn lemma_gen_ip4_shape(s: Seq<u8>, i: int, cnt: int, log: Seq<(u32, u32)>, seed: u64)
    requires
        i < s.len(),
        0 <= i < s.len() ==> {
            &&& 0 <= cnt <= 2
            &&& (cnt < 2 ==> cnt == run_after(s, i))
            &&& (cnt == 2 ==> run_after(s, i) >= 2)
        },
    ensures
        gen_ip4_from(s, i, cnt, log, seed).0.len() == s.len(),
        forall|j: int|
            0 <= j < s.len() ==> (((#[trigger] gen_ip4_from(s, i, cnt, log, seed).0[j]) == 46) <==> (
            s[j] == 46)),
        forall|j: int|
            i < j < s.len() ==> (#[trigger] gen_ip4_from(s, i, cnt, log, seed).0[j]) == s[j],
        forall|j: int|
            0 <= j <= i && j < s.len() && s[j] != 46 ==> {
                &&& (run_after(s, j) == 0 ==> 48 <= (#[trigger] gen_ip4_from(
                    s,
                    i,
                    cnt,
                    log,
                    seed,
                ).0[j]) <= 57)
                &&& (run_after(s, j) == 1 ==> 48 <= gen_ip4_from(s, i, cnt, log, seed).0[j] <= 52)
                &&& (run_after(s, j) >= 2 ==> gen_ip4_from(s, i, cnt, log, seed).0[j] == s[j])
            },
    decreases i + 1,
{
    if i < 0 || i >= s.len() {
    } else if s[i] == 46 {
        assert(next_dot(s, i) == i);
        assert(0 <= i - 1 < s.len() ==> run_after(s, i - 1) == 0);
        lemma_gen_ip4_shape(s, i - 1, 0, log, seed);
        let r = gen_ip4_from(s, i, cnt, log, seed).0;
        assert forall|j: int| 0 <= j <= i && j < s.len() && s[j] != 46 implies {
            &&& (run_after(s, j) == 0 ==> 48 <= (#[trigger] r[j]) <= 57)
            &&& (run_after(s, j) == 1 ==> 48 <= r[j] <= 52)
            &&& (run_after(s, j) >= 2 ==> r[j] == s[j])
        } by {
            assert(j < i);
            assert(r[j] == gen_ip4_from(s, i - 1, 0, log, seed).0[j]);
        }
    } else if cnt < 2 {
        let hi: u32 = if cnt == 0 {
            10
        } else {
            5
        };
        let d = capped(draw_value(seed, log, 0, hi), hi);
        let b = digit_char(d);
        let s2 = s.update(i, b);
        lemma_digit_char_no_separator(d);
        assert(d < hi);
        assert(48 <= b <= 57);
        assert(cnt == 1 ==> 48 <= b <= 52);
        assert(forall|j: int| 0 <= j < s.len() && j != i ==> s2[j] == s[j]);
        assert(forall|q: int| 0 <= q < s.len() ==> ((s[q] == 46) <==> ((#[trigger] s2[q]) == 46)));
        assert(next_dot(s2, i) == next_dot(s2, i + 1));
        lemma_next_dot_same_dots(s2, s, i + 1);
        assert(0 <= i - 1 < s.len() ==> run_after(s2, i - 1) == run_after(s, i) + 1);
        lemma_gen_ip4_shape(s2, i - 1, cnt + 1, log.push((0, hi)), seed);
        let r = gen_ip4_from(s, i, cnt, log, seed).0;
        assert(r == gen_ip4_from(s2, i - 1, cnt + 1, log.push((0, hi)), seed).0);
        assert(r[i] == s2[i]);
        assert forall|j: int| 0 <= j <= i && j < s.len() && s[j] != 46 implies {
            &&& (run_after(s, j) == 0 ==> 48 <= (#[trigger] r[j]) <= 57)
            &&& (run_after(s, j) == 1 ==> 48 <= r[j] <= 52)
            &&& (run_after(s, j) >= 2 ==> r[j] == s[j])
        } by {
            if j < i {
                lemma_next_dot_same_dots(s2, s, j + 1);
                assert(run_after(s2, j) == run_after(s, j));
                assert(s2[j] == s[j]);
                assert(r[j] == gen_ip4_from(s2, i - 1, cnt + 1, log.push((0, hi)), seed).0[j]);
            } else {
                assert(r[i] == b);
                assert(run_after(s, i) == cnt);
            }
        }
    } else {
        assert(next_dot(s, i) == next_dot(s, i + 1));
        assert(0 <= i - 1 < s.len() ==> run_after(s, i - 1) == run_after(s, i) + 1);
        lemma_gen_ip4_shape(s, i - 1, cnt, log, seed);
        let r = gen_ip4_from(s, i, cnt, log, seed).0;
        assert(r[i] == s[i]);
        assert(run_after(s, i) >= 2);
        assert forall|j: int| 0 <= j <= i && j < s.len() && s[j] != 46 implies {
            &&& (run_after(s, j) == 0 ==> 48 <= (#[trigger] r[j]) <= 57)
            &&& (run_after(s, j) == 1 ==> 48 <= r[j] <= 52)
            &&& (run_after(s, j) >= 2 ==> r[j] == s[j])
        } by {
            if j < i {
                assert(r[j] == gen_ip4_from(s, i - 1, cnt, log, seed).0[j]);
            }
        }
    }
}

/// The IPv6 rule keeps length and colon positions, turns every other walked
/// byte into a lowercase hex digit, and touches no index above the one it
/// starts from.
pub proof fn lemma_gen_ip6_shape(s: Seq<u8>, i: int, log: Seq<(u32, u32)>, seed: u64)
    requires
        i < s.len(),
    ensures
        gen_ip6_from(s, i, log, seed).0.len() == s.len(),
        forall|j: int|
            0 <= j < s.len() ==> (((#[trigger] gen_ip6_from(s, i, log, seed).0[j]) == 58) <==> (s[j]
                == 58)),
        forall|j: int| i < j < s.len() ==> (#[trigger] gen_ip6_from(s, i, log, seed).0[j]) == s[j],
        forall|j: int|
            0 <= j <= i && j < s.len() && s[j] != 58 ==> is_lower_hex(
                #[trigger] gen_ip6_from(s, i, log, seed).0[j],
            ),
    decreases i + 1,
{
    if i < 0 || i >= s.len() {
    } else if s[i] == 58 {
        lemma_gen_ip6_shape(s, i - 1, log, seed);
        assert forall|j: int|
            0 <= j <= i && j < s.len() && s[j] != 58 implies is_lower_hex(
            #[trigger] gen_ip6_from(s, i, log, seed).0[j],
        ) by {
            assert(j < i);
            assert(gen_ip6_from(s, i, log, seed).0[j] == gen_ip6_from(s, i - 1, log, seed).0[j]);
        }
    } else {
        let d = capped(draw_value(seed, log, 0, 16), 16);
        let b = digit_char(d);
        let s2 = s.update(i, b);
        lemma_digit_char_no_separator(d);
        assert(d < 16);
        assert(is_lower_hex(b));
        lemma_gen_ip6_shape(s2, i - 1, log.push((0, 16)), seed);
        assert(forall|j: int| 0 <= j < s.len() && j != i ==> s2[j] == s[j]);
        assert(gen_ip6_from(s, i, log, seed).0[i] == s2[i]);
        assert forall|j: int|
            0 <= j <= i && j < s.len() && s[j] != 58 implies is_lower_hex(
            #[trigger] gen_ip6_from(s, i, log, seed).0[j],
        ) by {
            if j < i {
                assert(s2[j] == s[j]);
                assert(gen_ip6_from(s, i, log, seed).0[j] == gen_ip6_from(
                    s2,
                    i - 1,
                    log.push((0, 16)),
                    seed,
                ).0[j]);
            } else {
                assert(gen_ip6_from(s, i, log, seed).0[i] == s2[i]);
            }
        }
    }
}

/// The query rule keeps length.
pub proof fn lemma_gen_q_len(s: Seq<u8>, i: int, log: Seq<(u32, u32)>, seed: u64)
    ensures
        gen_q_from(s, i, log, seed).0.len() == s.len(),
    decreases s.len() - i,
{
    if 0 <= i < s.len() {
        let d = capped(draw_value(seed, log, 0, 36), 36);
        lemma_gen_q_len(s.update(i, digit_char(d)), i + 1, log.push((0, 36)), seed);
    }
}

/// One anonymization step keeps the engine well-formed and returns bytes
/// that follow the category's full replacement policy against the original:
/// the original's length always, and for the address categories the
/// positional digit rules, which keep the original's separators.
pub proof fn lemma_anon_shape(cat: Category, orig: Seq<u8>, m: Model)
    requires
        wf_model(m),
    ensures
        wf_model(anon_spec(cat, orig, m).1),
        anon_spec(cat, orig, m).0.len() == orig.len(),
        cat == Category::Ipv4 ==> ip4_repl_ok(orig, anon_spec(cat, orig, m).0) && ip4_shaped(
            orig,
            anon_spec(cat, orig, m).0,
        ),
        cat == Category::Ipv6 ==> ip6_repl_ok(orig, anon_spec(cat, orig, m).0) && ip6_shaped(
            orig,
            anon_spec(cat, orig, m).0,
        ),
{
    let cm = cat_map(m, cat);
    if cm.contains_key(orig) {
        match cat {
            Category::Ipv4 => {
                assert(ip4_repl_ok(orig, m.c4[orig]));
                lemma_ip4_repl_ok_shaped(orig, m.c4[orig]);
            },
            Category::Ipv6 => {
                assert(ip6_repl_ok(orig, m.c6[orig]));
                lemma_ip6_repl_ok_shaped(orig, m.c6[orig]);
            },
            Category::QueryValue => {
                assert(m.cq[orig].len() == orig.len());
            },
        }
    } else {
        let rep = gen_replacement(cat, orig, m.seed, m.log).0;
        match cat {
            Category::Ipv4 => {
                assert(next_dot(orig, orig.len() as int) == orig.len());
                assert(orig.len() > 0 ==> run_after(orig, orig.len() - 1) == 0);
                lemma_gen_ip4_shape(orig, orig.len() - 1, 0, m.log, m.seed);
                assert(ip4_repl_ok(orig, rep));
                lemma_ip4_repl_ok_shaped(orig, rep);
                assert(orig != loopback());
            },
            Category::Ipv6 => {
                lemma_gen_ip6_shape(orig, orig.len() - 1, m.log, m.seed);
                assert(ip6_repl_ok(orig, rep));
                lemma_ip6_repl_ok_shaped(orig, rep);
            },
            Category::QueryValue => {
                lemma_gen_q_len(orig, 0, m.log, m.seed);
                assert(orig != loopback());
            },
        }
    }
}

/// Run-scoped counters: lines processed and substitutions made per
/// category. They saturate instead of wrapping.
#[derive(Clone, Copy, Debug, Default, PartialEq, Eq, Structural)]
pub struct ChangeStats {
    pub ip4: u64,
    pub ip6: u64,
    pub query_values: u64,
    pub lines: u64,
}

/// Addition on a counter that stops at the top instead of wrapping.
pub open spec fn sat_add64(a: u64, n: nat) -> u64 {
    if a + n <= u64::MAX {
        (a + n) as u64
    } else {
        u64::MAX
    }
}

fn sat_inc64(a: u64) -> (r: u64)
    ensures
        r == sat_add64(a, 1),
{
    if a < u64::MAX {
        a + 1
    } else {
        a
    }
}

/// The counters after one pass that made `n` substitutions of the given
/// category.
pub open spec fn stats_bumped(cat: Category, st: ChangeStats, n: nat) -> ChangeStats {
    match cat {
        Category::Ipv4 => ChangeStats { ip4: sat_add64(st.ip4, n), ..st },
        Category::Ipv6 => ChangeStats { ip6: sat_add64(st.ip6, n), ..st },
        Category::QueryValue => ChangeStats { query_values: sat_add64(st.query_values, n), ..st },
    }
}

/// The anonymization engine: one instance per run, owning the cache
/// partitions, the digit source and the counters.
pub struct Transformer {
    cache4: ReplacementCache,
    cache6: ReplacementCache,
    cacheq: ReplacementCache,
    digits: DigitSource,
    pub stats: ChangeStats,
}

fn loopback_bytes() -> (r: Vec<u8>)
    ensures
        r@ == loopback(),
{
    let mut r: Vec<u8> = Vec::new();
    r.push(49);
    r.push(50);
    r.push(55);
    r.push(46);
    r.push(48);
    r.push(46);
    r.push(48);
    r.push(46);
    r.push(49);
    assert(r@ =~= loopback());
    r
}

impl Transformer {
    /// The counters, for contracts.
    pub closed spec fn counters(&self) -> ChangeStats {
        self.stats
    }

    /// The engine's mathematical state.
    pub closed spec fn model(&self) -> Model {
        Model {
            c4: self.cache4@,
            c6: self.cache6@,
            cq: self.cacheq@,
            seed: self.digits.seed_of(),
            log: self.digits.log_of(),
        }
    }

    /// The engine's invariant: well-formed caches holding a well-formed
    /// state.
    pub closed spec fn wf(&self) -> bool {
        self.cache4.wf() && self.cache6.wf() && self.cacheq.wf() && wf_model(self.model())
    }

    /// A fresh engine for one run, reproducible from the seed, with the
    /// loopback whitelist already in place.
    pub fn from_seed(seed_value: u64) -> (t: Transformer)
        ensures
            t.wf(),
            t.model() == init_model(seed_value),
            t.counters() == (ChangeStats { ip4: 0, ip6: 0, query_values: 0, lines: 0 }),
    {
        let mut cache4 = ReplacementCache::empty();
        cache4.put(loopback_bytes(), loopback_bytes());
        let mut cacheq = ReplacementCache::empty();
        cacheq.put(loopback_bytes(), loopback_bytes());
        let t = Transformer {
            cache4,
            cache6: ReplacementCache::empty(),
            cacheq,
            digits: DigitSource::from_seed(seed_value),
            stats: ChangeStats { ip4: 0, ip6: 0, query_values: 0, lines: 0 },
        };
        proof {
            assert(t.model().c4 =~= init_model(seed_value).c4);
            assert(t.model().c6 =~= init_model(seed_value).c6);
            assert(t.model().cq =~= init_model(seed_value).cq);
            assert(t.model() == init_model(seed_value));
            lemma_loopback_repl_ok();
            assert forall|k: Seq<u8>| #[trigger] t.model().c4.contains_key(k) implies ip4_repl_ok(
                k,
                t.model().c4[k],
            ) by {
                assert(k == loopback());
            }
            assert forall|k: Seq<u8>| #[trigger] t.model().cq.contains_key(k) implies t.model().cq[k].len()
                == k.len() by {
                assert(k == loopback());
            }
        }
        t
    }

    /// Replaces an IPv4 address in place: the cached replacement if one
    /// exists, else fresh digits in the last two places of every group, with
    /// dots and any leading third digit kept; the result is cached.
    pub fn anonymize_ip4(&mut self, src: &mut Vec<u8>)
        requires
            old(self).wf(),
        ensures
            final(self).wf(),
            final(src)@ == anon_spec(Category::Ipv4, old(src)@, old(self).model()).0,
            final(self).model() == anon_spec(Category::Ipv4, old(src)@, old(self).model()).1,
            final(self).counters() == old(self).counters(),
            final(src)@.len() == old(src)@.len(),
    {
        proof {
            lemma_anon_shape(Category::Ipv4, src@, self.model());
        }
        let hit = self.cache4.get(src);
        match hit {
            Some(v) => {
                overwrite(src, &v);
            },
            None => {
                let original = copy_bytes(src);
                let ghost m0 = self.model();
                let ghost st0 = self.stats;
                let mut cnt: u32 = 0;
                let mut i: usize = src.len();
                while i > 0
                    invariant
                        i <= src@.len(),
                        src@.len() == original@.len(),
                        self.digits.seed_of() == m0.seed,
                        self.cache4@ == m0.c4,
                        self.cache6@ == m0.c6,
                        self.cacheq@ == m0.cq,
                        self.cache4.wf(),
                        self.cache6.wf(),
                        self.cacheq.wf(),
                        self.stats == st0,
                        gen_ip4_from(original@, original@.len() - 1, 0, m0.log, m0.seed)
                            == gen_ip4_from(
                            src@,
                            i - 1,
                            cnt as int,
                            self.digits.log_of(),
                            m0.seed,
                        ),
                    decreases i,
                {
                    i = i - 1;
                    if src[i] == 46 {
                        cnt = 0;
                    } else if cnt < 2 {
                        let hi: u32 = if cnt == 0 {
                            10
                        } else {
                            5
                        };
                        let d = self.digits.draw(0, hi);
                        let b = digit_byte(d);
                        src.set(i, b);
                        cnt = cnt + 1;
                    }
                }
                let rep_copy = copy_bytes(src);
                self.cache4.put(original, rep_copy);
            },
        }
    }

    /// Replaces an IPv6 address in place: the cached replacement if one
    /// exists, else a fresh hex digit for every non-colon character; the
    /// result is cached.
    pub fn anonymize_ip6(&mut self, src: &mut Vec<u8>)
        requires
            old(self).wf(),
        ensures
            final(self).wf(),
            final(src)@ == anon_spec(Category::Ipv6, old(src)@, old(self).model()).0,
            final(self).model() == anon_spec(Category::Ipv6, old(src)@, old(self).model()).1,
            final(self).counters() == old(self).counters(),
            final(src)@.len() == old(src)@.len(),
    {
        proof {
            lemma_anon_shape(Category::Ipv6, src@, self.model());
        }
        let hit = self.cache6.get(src);
        match hit {
            Some(v) => {
                overwrite(src, &v);
            },
            None => {
                let original = copy_bytes(src);
                let ghost m0 = self.model();
                let ghost st0 = self.stats;
                let mut i: usize = src.len();
                while i > 0
                    invariant
                        i <= src@.len(),
                        src@.len() == original@.len(),
                        self.digits.seed_of() == m0.seed,
                        self.cache4@ == m0.c4,
                        self.cache6@ == m0.c6,
                        self.cacheq@ == m0.cq,
                        self.cache4.wf(),
                        self.cache6.wf(),
                        self.cacheq.wf(),
                        self.stats == st0,
                        gen_ip6_from(original@, original@.len() - 1, m0.log, m0.seed)
                            == gen_ip6_from(src@, i - 1, self.digits.log_of(), m0.seed),
                    decreases i,
                {
                    i = i - 1;
                    if src[i] != 58 {
                        let d = self.digits.draw(0, 16);
                        let b = digit_byte(d);
                        src.set(i, b);
                    }
                }
                let rep_copy = copy_bytes(src);
                self.cache6.put(original, rep_copy);
            },
        }
    }

    /// Replaces a query-string value in place: the cached replacement if one
    /// exists, else a fresh base-36 digit for every character; the result is
    /// cached.
    pub fn anonymize_query_value(&mut self, src: &mut Vec<u8>)
        requires
            old(self).wf(),
        ensures
            final(self).wf(),
            final(src)@ == anon_spec(Category::QueryValue, old(src)@, old(self).model()).0,
            final(self).model() == anon_spec(Category::QueryValue, old(src)@, old(self).model()).1,
            final(self).counters() == old(self).counters(),
            final(src)@.len() == old(src)@.len(),
    {
        proof {
            lemma_anon_shape(Category::QueryValue, src@, self.model());
        }
        let hit = self.cacheq.get(src);
        match hit {
            Some(v) => {
                overwrite(src, &v);
            },
            None => {
                let original = copy_bytes(src);
                let ghost m0 = self.model();
                let ghost st0 = self.stats;
                let mut i: usize = 0;
                while i < src.len()
                    invariant
                        i <= src@.len(),
                        src@.len() == original@.len(),
                        self.digits.seed_of() == m0.seed,
                        self.cache4@ == m0.c4,
                        self.cache6@ == m0.c6,
                        self.cacheq@ == m0.cq,
                        self.cache4.wf(),
                        self.cache6.wf(),
                        self.cacheq.wf(),
                        self.stats == st0,
                        gen_q_from(original@, 0, m0.log, m0.seed) == gen_q_from(
                            src@,
                            i as int,
                            self.digits.log_of(),
                            m0.seed,
                        ),
                    decreases src@.len() - i,
                {
                    let d = self.digits.draw(0, 36);
                    let b = digit_byte(d);
                    src.set(i, b);
                    i = i + 1;
                }
                let rep_copy = copy_bytes(src);
                self.cacheq.put(original, rep_copy);
            },
        }
    }
}

/// One pass over a line: each range, taken left to right, is anonymized
/// against the current state and written back in place.
pub open spec fn apply_ranges(s: Seq<u8>, rs: Seq<(int, int)>, cat: Category, m: Model) -> (
    Seq<u8>,
    Model,
)
    decreases rs.len(),
{
    if rs.len() == 0 {
        (s, m)
    } else {
        let a = rs[0].0;
        let b = rs[0].1;
        let (rep, m1) = anon_spec(cat, s.subrange(a, b), m);
        apply_ranges(splice(s, a, rep), rs.drop_first(), cat, m1)
    }
}

/// The whole transformation of one line: the IPv6 pass, then the IPv4 pass,
/// then the query-value pass, each scanning the line as the previous pass
/// left it.
pub open spec fn transform_line_spec(line: Seq<u8>, m: Model) -> (Seq<u8>, Model) {
    let p6 = apply_ranges(line, scan_spec(line, 0, Category::Ipv6), Category::Ipv6, m);
    let p4 = apply_ranges(p6.0, scan_spec(p6.0, 0, Category::Ipv4), Category::Ipv4, p6.1);
    apply_ranges(p4.0, scan_queries_spec(p4.0), Category::QueryValue, p4.1)
}

impl Transformer {
    /// Anonymizes every given range of the line in place, bumping the
    /// category's counter once per range.
    fn apply_category(
        &mut self,
        line: &mut Vec<u8>,
        ranges: &Vec<(usize, usize)>,
        cat: Category,
        Ghost(ss): Ghost<Seq<(int, int)>>,
    )
        requires
            old(self).wf(),
            ss.len() == ranges@.len(),
            forall|t: int|
                0 <= t < ss.len() ==> #[trigger] ss[t] == (
                    ranges@[t].0 as int,
                    ranges@[t].1 as int,
                ),
            forall|t: int|
                0 <= t < ranges@.len() ==> 0 <= #[trigger] ranges@[t].0 <= ranges@[t].1 <= old(
                    line,
                )@.len(),
        ensures
            final(self).wf(),
            final(line)@ == apply_ranges(old(line)@, ss, cat, old(self).model()).0,
            final(self).model() == apply_ranges(old(line)@, ss, cat, old(self).model()).1,
            final(line)@.len() == old(line)@.len(),
            final(self).counters() == stats_bumped(cat, old(self).counters(), ss.len()),
    {
        let ghost l0 = line@;
        let ghost m0 = self.model();
        let ghost st0 = self.stats;
        let mut t: usize = 0;
        proof {
            assert(ss.skip(0) =~= ss);
        }
        while t < ranges.len()
            invariant
                t <= ranges@.len(),
                ss.len() == ranges@.len(),
                forall|u: int|
                    0 <= u < ss.len() ==> #[trigger] ss[u] == (
                        ranges@[u].0 as int,
                        ranges@[u].1 as int,
                    ),
                forall|u: int|
                    0 <= u < ranges@.len() ==> 0 <= #[trigger] ranges@[u].0 <= ranges@[u].1
                        <= l0.len(),
                line@.len() == l0.len(),
                self.wf(),
                apply_ranges(l0, ss, cat, m0) == apply_ranges(
                    line@,
                    ss.skip(t as int),
                    cat,
                    self.model(),
                ),
                self.stats == stats_bumped(cat, st0, t as nat),
            decreases ranges@.len() - t,
        {
            let pr = ranges[t];
            let a = pr.0;
            let b = pr.1;
            let ghost lc = line@;
            let ghost mc = self.model();
            let mut piece = copy_range(line, a, b);
            match cat {
                Category::Ipv4 => self.anonymize_ip4(&mut piece),
                Category::Ipv6 => self.anonymize_ip6(&mut piece),
                Category::QueryValue => self.anonymize_query_value(&mut piece),
            }
            proof {
                assert(ss.skip(t as int)[0] == ss[t as int]);
                assert(piece@ == anon_spec(cat, lc.subrange(a as int, b as int), mc).0);
                assert(piece@.len() == b - a);
            }
            write_range(line, a, &piece);
            match cat {
                Category::Ipv4 => {
                    self.stats.ip4 = sat_inc64(self.stats.ip4);
                },
                Category::Ipv6 => {
                    self.stats.ip6 = sat_inc64(self.stats.ip6);
                },
                Category::QueryValue => {
                    self.stats.query_values = sat_inc64(self.stats.query_values);
                },
            }
            proof {
                assert(ss.skip(t as int).drop_first() =~= ss.skip(t + 1));
                assert(apply_ranges(lc, ss.skip(t as int), cat, mc) == apply_ranges(
                    line@,
                    ss.skip(t + 1),
                    cat,
                    self.model(),
                ));
                assert(self.stats == stats_bumped(cat, st0, (t + 1) as nat));
            }
            t = t + 1;
        }
        proof {
            assert(ss.skip(t as int) =~= Seq::<(int, int)>::empty());
        }
    }

    /// Finds every IPv4 address in the line and anonymizes it in place.
    pub fn transform_all_ip4(&mut self, line: &mut Vec<u8>)
        requires
            old(self).wf(),
        ensures
            final(self).wf(),
            final(line)@ == apply_ranges(
                old(line)@,
                scan_spec(old(line)@, 0, Category::Ipv4),
                Category::Ipv4,
                old(self).model(),
            ).0,
            final(self).model() == apply_ranges(
                old(line)@,
                scan_spec(old(line)@, 0, Category::Ipv4),
                Category::Ipv4,
                old(self).model(),
            ).1,
            final(line)@.len() == old(line)@.len(),
            final(self).counters() == stats_bumped(
                Category::Ipv4,
                old(self).counters(),
                scan_spec(old(line)@, 0, Category::Ipv4).len(),
            ),
    {
        let ranges = scan_addresses(line, Category::Ipv4);
        self.apply_category(line, &ranges, Category::Ipv4, Ghost(scan_spec(line@, 0, Category::Ipv4)));
    }

    /// Finds every IPv6 address in the line and anonymizes it in place.
    pub fn transform_all_ip6(&mut self, line: &mut Vec<u8>)
        requires
            old(self).wf(),
        ensures
            final(self).wf(),
            final(line)@ == apply_ranges(
                old(line)@,
                scan_spec(old(line)@, 0, Category::Ipv6),
                Category::Ipv6,
                old(self).model(),
            ).0,
            final(self).model() == apply_ranges(
                old(line)@,
                scan_spec(old(line)@, 0, Category::Ipv6),
                Category::Ipv6,
                old(self).model(),
            ).1,
            final(line)@.len() == old(line)@.len(),
            final(self).counters() == stats_bumped(
                Category::Ipv6,
                old(self).counters(),
                scan_spec(old(line)@, 0, Category::Ipv6).len(),
            ),
    {
        let ranges = scan_addresses(line, Category::Ipv6);
        self.apply_category(line, &ranges, Category::Ipv6, Ghost(scan_spec(line@, 0, Category::Ipv6)));
    }

    /// Finds every query-string parameter value in the line and anonymizes
    /// it in place.
    pub fn transform_all_queries(&mut self, line: &mut Vec<u8>)
        requires
            old(self).wf(),
        ensures
            final(self).wf(),
            final(line)@ == apply_ranges(
                old(line)@,
                scan_queries_spec(old(line)@),
                Category::QueryValue,
                old(self).model(),
            ).0,
            final(self).model() == apply_ranges(
                old(line)@,
                scan_queries_spec(old(line)@),
                Category::QueryValue,
                old(self).model(),
            ).1,
            final(line)@.len() == old(line)@.len(),
            final(self).counters() == stats_bumped(
                Category::QueryValue,
                old(self).counters(),
                scan_queries_spec(old(line)@).len(),
            ),
    {
        let ranges = scan_queries(line);
        self.apply_category(line, &ranges, Category::QueryValue, Ghost(scan_queries_spec(line@)));
    }

    /// Transforms one whole line: the IPv6 pass, the IPv4 pass, the
    /// query-value pass, and the line counter.
    pub fn transform_line(&mut self, line: &mut Vec<u8>)
        requires
            old(self).wf(),
        ensures
            final(self).wf(),
            final(line)@ == transform_line_spec(old(line)@, old(self).model()).0,
            final(self).model() == transform_line_spec(old(line)@, old(self).model()).1,
            final(line)@.len() == old(line)@.len(),
            final(self).counters().lines == sat_add64(old(self).counters().lines, 1),
            final(self).counters().ip4 == sat_add64(
                old(self).counters().ip4,
                scan_spec(
                    apply_ranges(
                        old(line)@,
                        scan_spec(old(line)@, 0, Category::Ipv6),
                        Category::Ipv6,
                        old(self).model(),
                    ).0,
                    0,
                    Category::Ipv4,
                ).len(),
            ),
            final(self).counters().ip6 == sat_add64(
                old(self).counters().ip6,
                scan_spec(old(line)@, 0, Category::Ipv6).len(),
            ),
            final(self).counters().query_values == sat_add64(
                old(self).counters().query_values,
                scan_queries_spec(
                    apply_ranges(
                        apply_ranges(
                            old(line)@,
                            scan_spec(old(line)@, 0, Category::Ipv6),
                            Category::Ipv6,
                            old(self).model(),
                        ).0,
                        scan_spec(
                            apply_ranges(
                                old(line)@,
                                scan_spec(old(line)@, 0, Category::Ipv6),
                                Category::Ipv6,
                                old(self).model(),
                            ).0,
                            0,
                            Category::Ipv4,
                        ),
                        Category::Ipv4,
                        apply_ranges(
                            old(line)@,
                            scan_spec(old(line)@, 0, Category::Ipv6),
                            Category::Ipv6,
                            old(self).model(),
                        ).1,
                    ).0,
                ).len(),
            ),
    {
        self.transform_all_ip6(line);
        self.transform_all_ip4(line);
        self.transform_all_queries(line);
        self.stats.lines = sat_inc64(self.stats.lines);
    }
}

} // verus!

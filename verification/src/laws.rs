use crate::scan::Category;
use crate::scan::outside_all;
use crate::scan::ranges_ok;
use crate::scan::lemma_scan_ranges_ok;
use crate::scan::lemma_scan_queries_ok;
use crate::scan::scan_queries_spec;
use crate::scan::scan_spec;
use crate::transformer::Model;
use crate::transformer::anon_spec;
use crate::transformer::apply_ranges;
use crate::transformer::cat_map;
use crate::transformer::init_model;
use crate::transformer::ip4_repl_ok;
use crate::transformer::is_lower_hex;
use crate::transformer::lemma_anon_shape;
use crate::transformer::lemma_next_dot_bounds;
use crate::transformer::lemma_next_dot_first;
use crate::transformer::loopback;
use crate::transformer::run_after;
use crate::transformer::transform_line_spec;
use crate::transformer::wf_model;
use crate::util::splice;
use crate::validate::all_dec_digits;
use crate::validate::find_colon;
use crate::validate::group_ok;
use crate::validate::group_value;
use crate::validate::is_dec_digit;
use crate::validate::is_valid_ip4;
use crate::validate::is_valid_ip6;
use crate::validate::split_colon;
use vstd::prelude::*;

verus! {

/// Law (determinism): the transformation of a line is a mathematical
/// function of the line and the engine state, and a fresh engine's state is
/// a function of its seed alone; so two engines built from one seed and fed
/// one input produce byte-identical output.
pub proof fn lemma_determinism(line: Seq<u8>, seed1: u64, seed2: u64, m1: Model, m2: Model)
    requires
        seed1 == seed2,
        m1 == init_model(seed1),
        m2 == init_model(seed2),
    ensures
        transform_line_spec(line, m1) == transform_line_spec(line, m2),
{
}

/// One cache state extends another: every entry of every partition is kept,
/// with its value.
pub open spec fn cache_extends(m1: Model, m2: Model) -> bool {
    forall|cat: Category, k: Seq<u8>| #[trigger]
        cat_map(m1, cat).contains_key(k) ==> cat_map(m2, cat).contains_key(k) && cat_map(m2, cat)[k]
            == cat_map(m1, cat)[k]
}

pub proof fn lemma_extends_trans(m1: Model, m2: Model, m3: Model)
    requires
        cache_extends(m1, m2),
        cache_extends(m2, m3),
    ensures
        cache_extends(m1, m3),
{
}

/// One anonymization step never removes or changes a cache entry, and it
/// leaves its own original cached with exactly the bytes it returned.
pub proof fn lemma_anon_extends(cat: Category, orig: Seq<u8>, m: Model)
    ensures
        cache_extends(m, anon_spec(cat, orig, m).1),
        cat_map(anon_spec(cat, orig, m).1, cat).contains_key(orig),
        cat_map(anon_spec(cat, orig, m).1, cat)[orig] == anon_spec(cat, orig, m).0,
{
}

/// A whole pass never removes or changes a cache entry.
pub proof fn lemma_apply_extends(s: Seq<u8>, rs: Seq<(int, int)>, cat: Category, m: Model)
    ensures
        cache_extends(m, apply_ranges(s, rs, cat, m).1),
    decreases rs.len(),
{
    if rs.len() == 0 {
    } else {
        let a = rs[0].0;
        let b = rs[0].1;
        let step = anon_spec(cat, s.subrange(a, b), m);
        lemma_anon_extends(cat, s.subrange(a, b), m);
        lemma_apply_extends(splice(s, a, step.0), rs.drop_first(), cat, step.1);
        lemma_extends_trans(m, step.1, apply_ranges(s, rs, cat, m).1);
    }
}

/// A whole line transformation never removes or changes a cache entry.
pub proof fn lemma_transform_extends(line: Seq<u8>, m: Model)
    ensures
        cache_extends(m, transform_line_spec(line, m).1),
{
    let p6 = apply_ranges(line, scan_spec(line, 0, Category::Ipv6), Category::Ipv6, m);
    let p4 = apply_ranges(p6.0, scan_spec(p6.0, 0, Category::Ipv4), Category::Ipv4, p6.1);
    lemma_apply_extends(line, scan_spec(line, 0, Category::Ipv6), Category::Ipv6, m);
    lemma_apply_extends(p6.0, scan_spec(p6.0, 0, Category::Ipv4), Category::Ipv4, p6.1);
    lemma_apply_extends(p4.0, scan_queries_spec(p4.0), Category::QueryValue, p4.1);
    lemma_extends_trans(m, p6.1, p4.1);
    lemma_extends_trans(m, p4.1, transform_line_spec(line, m).1);
}

/// Law (consistency): once an original of a category has been anonymized,
/// every later anonymization of the same original in that category returns
/// the same replacement, whatever the engine did in between — in between it
/// only ever extends the caches, which this lemma takes as its hypothesis.
pub proof fn lemma_consistency(cat: Category, orig: Seq<u8>, m: Model, m2: Model)
    requires
        cache_extends(anon_spec(cat, orig, m).1, m2),
    ensures
        anon_spec(cat, orig, m2).0 == anon_spec(cat, orig, m).0,
{
    lemma_anon_extends(cat, orig, m);
}

/// Law (length preservation): a replacement always has exactly its
/// original's byte length.
pub proof fn lemma_length_preserved(cat: Category, orig: Seq<u8>, m: Model)
    requires
        wf_model(m),
    ensures
        anon_spec(cat, orig, m).0.len() == orig.len(),
{
    lemma_anon_shape(cat, orig, m);
}

/// Law (separator preservation, IPv4): the replacement carries a dot exactly
/// where the original does.
pub proof fn lemma_ip4_separators(orig: Seq<u8>, m: Model, i: int)
    requires
        wf_model(m),
        0 <= i < orig.len(),
    ensures
        (orig[i] == 46) <==> (anon_spec(Category::Ipv4, orig, m).0[i] == 46),
{
    lemma_anon_shape(Category::Ipv4, orig, m);
}

/// Law (separator preservation, IPv6): the replacement carries a colon
/// exactly where the original does.
pub proof fn lemma_ip6_separators(orig: Seq<u8>, m: Model, i: int)
    requires
        wf_model(m),
        0 <= i < orig.len(),
    ensures
        (orig[i] == 58) <==> (anon_spec(Category::Ipv6, orig, m).0[i] == 58),
{
    lemma_anon_shape(Category::Ipv6, orig, m);
}

/// A pass leaves the line's length alone, keeps the engine well-formed, and
/// leaves every byte outside its ranges untouched.
pub proof fn lemma_apply_frame(s: Seq<u8>, rs: Seq<(int, int)>, cat: Category, m: Model)
    requires
        wf_model(m),
        ranges_ok(rs, s.len() as int),
    ensures
        wf_model(apply_ranges(s, rs, cat, m).1),
        apply_ranges(s, rs, cat, m).0.len() == s.len(),
        forall|i: int|
            0 <= i < s.len() && outside_all(rs, i) ==> #[trigger] apply_ranges(s, rs, cat, m).0[i]
                == s[i],
    decreases rs.len(),
{
    if rs.len() == 0 {
    } else {
        let a = rs[0].0;
        let b = rs[0].1;
        let orig = s.subrange(a, b);
        let step = anon_spec(cat, orig, m);
        lemma_anon_shape(cat, orig, m);
        assert(step.0.len() == b - a);
        let s1 = splice(s, a, step.0);
        assert(s1.len() == s.len());
        assert(forall|i: int| 0 <= i < a ==> s1[i] == s[i]);
        assert(forall|i: int| b <= i < s.len() ==> s1[i] == s[i]);
        let tail = rs.drop_first();
        assert(forall|t: int| 0 <= t < tail.len() ==> tail[t] == rs[t + 1]);
        assert(ranges_ok(tail, s1.len() as int)) by {
            assert(forall|t: int|
                0 <= t < tail.len() ==> 0 <= (#[trigger] tail[t]).0 < tail[t].1 <= s1.len());
            assert forall|t: int| 0 < t < tail.len() implies (#[trigger] tail[t]).0 >= tail[t
                - 1].1 by {
                assert(tail[t] == rs[t + 1] && tail[t - 1] == rs[t]);
            }
        }
        lemma_apply_frame(s1, tail, cat, step.1);
        assert forall|i: int|
            0 <= i < s.len() && outside_all(rs, i) implies #[trigger] apply_ranges(
            s,
            rs,
            cat,
            m,
        ).0[i] == s[i] by {
            assert(!(rs[0].0 <= i < rs[0].1));
            assert(s1[i] == s[i]);
            assert(outside_all(tail, i)) by {
                assert forall|t: int| 0 <= t < tail.len() implies !((#[trigger] tail[t]).0 <= i
                    < tail[t].1) by {
                    assert(tail[t] == rs[t + 1]);
                }
            }
            assert(apply_ranges(s1, tail, cat, step.1).0[i] == s1[i]);
        }
    }
}

/// Law (non-matching text untouched): a byte that lies outside the ranges
/// matched by every pass — the IPv6 pass on the incoming line, the IPv4
/// pass on the line the IPv6 pass left, and the query pass on the line the
/// IPv4 pass left — is byte-identical before and after the transformation.
pub proof fn lemma_untouched_outside_matches(line: Seq<u8>, m: Model, i: int)
    requires
        wf_model(m),
        0 <= i < line.len(),
        outside_all(scan_spec(line, 0, Category::Ipv6), i),
        outside_all(
            scan_spec(
                apply_ranges(line, scan_spec(line, 0, Category::Ipv6), Category::Ipv6, m).0,
                0,
                Category::Ipv4,
            ),
            i,
        ),
        outside_all(
            scan_queries_spec(
                apply_ranges(
                    apply_ranges(line, scan_spec(line, 0, Category::Ipv6), Category::Ipv6, m).0,
                    scan_spec(
                        apply_ranges(line, scan_spec(line, 0, Category::Ipv6), Category::Ipv6, m).0,
                        0,
                        Category::Ipv4,
                    ),
                    Category::Ipv4,
                    apply_ranges(line, scan_spec(line, 0, Category::Ipv6), Category::Ipv6, m).1,
                ).0,
            ),
            i,
        ),
    ensures
        transform_line_spec(line, m).0[i] == line[i],
        transform_line_spec(line, m).0.len() == line.len(),
{
    let rs6 = scan_spec(line, 0, Category::Ipv6);
    let p6 = apply_ranges(line, rs6, Category::Ipv6, m);
    let rs4 = scan_spec(p6.0, 0, Category::Ipv4);
    let p4 = apply_ranges(p6.0, rs4, Category::Ipv4, p6.1);
    let rsq = scan_queries_spec(p4.0);
    lemma_scan_ranges_ok(line, 0, Category::Ipv6);
    lemma_apply_frame(line, rs6, Category::Ipv6, m);
    lemma_scan_ranges_ok(p6.0, 0, Category::Ipv4);
    lemma_apply_frame(p6.0, rs4, Category::Ipv4, p6.1);
    lemma_scan_queries_ok(p4.0);
    lemma_apply_frame(p4.0, rsq, Category::QueryValue, p4.1);
}

proof fn lemma_ranges_sorted(rs: Seq<(int, int)>, len: int, u1: int, u2: int)
    requires
        ranges_ok(rs, len),
        0 <= u1 < u2 < rs.len(),
    ensures
        rs[u2].0 >= rs[u1].1,
    decreases u2 - u1,
{
    if u1 + 1 < u2 {
        lemma_ranges_sorted(rs, len, u1 + 1, u2);
        assert(rs[u1 + 1].0 >= rs[u1].1);
        assert(rs[u1 + 1].0 < rs[u1 + 1].1);
    }
}

/// After a whole pass, every matched range holds exactly the bytes that the
/// pass's final cache stores for that range's original text: the bridge
/// from ranges down to the anonymization calls.
pub proof fn lemma_apply_ranges_result(
    s: Seq<u8>,
    rs: Seq<(int, int)>,
    cat: Category,
    m: Model,
    t: int,
)
    requires
        wf_model(m),
        ranges_ok(rs, s.len() as int),
        0 <= t < rs.len(),
    ensures
        cat_map(apply_ranges(s, rs, cat, m).1, cat).contains_key(s.subrange(rs[t].0, rs[t].1)),
        apply_ranges(s, rs, cat, m).0.subrange(rs[t].0, rs[t].1) == cat_map(
            apply_ranges(s, rs, cat, m).1,
            cat,
        )[s.subrange(rs[t].0, rs[t].1)],
    decreases t,
{
    let a = rs[0].0;
    let b = rs[0].1;
    let text0 = s.subrange(a, b);
    let step = anon_spec(cat, text0, m);
    lemma_anon_shape(cat, text0, m);
    lemma_anon_extends(cat, text0, m);
    let s1 = splice(s, a, step.0);
    assert(step.0.len() == b - a);
    assert(s1.len() == s.len());
    assert(forall|i: int| 0 <= i < a ==> s1[i] == s[i]);
    assert(forall|i: int| b <= i < s.len() ==> s1[i] == s[i]);
    assert(forall|i: int| a <= i < b ==> s1[i] == step.0[i - a]);
    let tail = rs.drop_first();
    assert(forall|u: int| 0 <= u < tail.len() ==> tail[u] == rs[u + 1]);
    assert(ranges_ok(tail, s1.len() as int)) by {
        assert(forall|u: int|
            0 <= u < tail.len() ==> 0 <= (#[trigger] tail[u]).0 < tail[u].1 <= s1.len());
        assert forall|u: int| 0 < u < tail.len() implies (#[trigger] tail[u]).0 >= tail[u - 1].1 by {
            assert(tail[u] == rs[u + 1] && tail[u - 1] == rs[u]);
        }
    }
    let fin = apply_ranges(s, rs, cat, m);
    assert(fin == apply_ranges(s1, tail, cat, step.1));
    if t == 0 {
        lemma_apply_extends(s1, tail, cat, step.1);
        assert(cat_map(step.1, cat).contains_key(text0) && cat_map(step.1, cat)[text0] == step.0);
        assert(cat_map(fin.1, cat).contains_key(text0) && cat_map(fin.1, cat)[text0] == step.0);
        lemma_apply_frame(s1, tail, cat, step.1);
        assert forall|i: int| a <= i < b implies fin.0[i] == s1[i] by {
            assert(outside_all(tail, i)) by {
                assert forall|u: int|
                    0 <= u < tail.len() implies !((#[trigger] tail[u]).0 <= i < tail[u].1) by {
                    assert(tail[u] == rs[u + 1]);
                    lemma_ranges_sorted(rs, s.len() as int, 0, u + 1);
                    assert(rs[u + 1].0 >= b);
                }
            }
        }
        assert(fin.0.subrange(a, b) =~= step.0);
    } else {
        let a2 = rs[t].0;
        let b2 = rs[t].1;
        lemma_ranges_sorted(rs, s.len() as int, 0, t);
        assert(a2 >= b);
        assert(s1.subrange(a2, b2) =~= s.subrange(a2, b2));
        lemma_apply_ranges_result(s1, tail, cat, step.1, t - 1);
        assert(tail[t - 1] == rs[t]);
    }
}

/// Law (consistency within one pass): two matched ranges of one pass whose
/// original texts are equal end up holding identical replacement bytes.
pub proof fn lemma_pass_consistency(
    s: Seq<u8>,
    rs: Seq<(int, int)>,
    cat: Category,
    m: Model,
    t1: int,
    t2: int,
)
    requires
        wf_model(m),
        ranges_ok(rs, s.len() as int),
        0 <= t1 < rs.len(),
        0 <= t2 < rs.len(),
        s.subrange(rs[t1].0, rs[t1].1) == s.subrange(rs[t2].0, rs[t2].1),
    ensures
        apply_ranges(s, rs, cat, m).0.subrange(rs[t1].0, rs[t1].1) == apply_ranges(
            s,
            rs,
            cat,
            m,
        ).0.subrange(rs[t2].0, rs[t2].1),
{
    lemma_apply_ranges_result(s, rs, cat, m, t1);
    lemma_apply_ranges_result(s, rs, cat, m, t2);
}

/// Law (consistency across a run): a range matched by one pass and a range
/// matched by any later pass of the same category hold identical bytes when
/// their original texts are equal. The later pass may run on another line:
/// its starting state need only extend the earlier pass's final caches,
/// which every intervening pass does (`lemma_apply_extends`,
/// `lemma_transform_extends`).
pub proof fn lemma_run_consistency(
    s1: Seq<u8>,
    rs1: Seq<(int, int)>,
    m1: Model,
    s2: Seq<u8>,
    rs2: Seq<(int, int)>,
    m2: Model,
    cat: Category,
    t1: int,
    t2: int,
)
    requires
        wf_model(m1),
        ranges_ok(rs1, s1.len() as int),
        0 <= t1 < rs1.len(),
        wf_model(m2),
        ranges_ok(rs2, s2.len() as int),
        0 <= t2 < rs2.len(),
        cache_extends(apply_ranges(s1, rs1, cat, m1).1, m2),
        s1.subrange(rs1[t1].0, rs1[t1].1) == s2.subrange(rs2[t2].0, rs2[t2].1),
    ensures
        apply_ranges(s1, rs1, cat, m1).0.subrange(rs1[t1].0, rs1[t1].1) == apply_ranges(
            s2,
            rs2,
            cat,
            m2,
        ).0.subrange(rs2[t2].0, rs2[t2].1),
{
    lemma_apply_ranges_result(s1, rs1, cat, m1, t1);
    lemma_apply_ranges_result(s2, rs2, cat, m2, t2);
    let text = s1.subrange(rs1[t1].0, rs1[t1].1);
    let fin1 = apply_ranges(s1, rs1, cat, m1).1;
    assert(cat_map(m2, cat).contains_key(text) && cat_map(m2, cat)[text] == cat_map(fin1, cat)[text]);
    lemma_apply_extends(s2, rs2, cat, m2);
}

/// Law (loopback passthrough): the IPv4 and the query cache partitions
/// always hold the loopback address mapped to itself, so anonymizing it in
/// either category returns it unchanged and moves nothing — no draw, no
/// insertion. Those two are the only categories whose scanner can match the
/// bare loopback text: it is no IPv6 address (the next law), so no pass of
/// the engine ever alters it.
pub proof fn lemma_loopback_passthrough(cat: Category, m: Model)
    requires
        wf_model(m),
        cat == Category::Ipv4 || cat == Category::QueryValue,
    ensures
        anon_spec(cat, loopback(), m).0 == loopback(),
        anon_spec(cat, loopback(), m).1 == m,
{
}

/// The loopback text fails the IPv6 grammar — it has no colon at all — so
/// the IPv6 pass never claims it.
pub proof fn lemma_loopback_not_ip6()
    ensures
        !is_valid_ip6(loopback()),
{
    let lb = loopback();
    assert(find_colon(lb, 9) == 9);
    assert(find_colon(lb, 8) == 9);
    assert(find_colon(lb, 7) == 9);
    assert(find_colon(lb, 6) == 9);
    assert(find_colon(lb, 5) == 9);
    assert(find_colon(lb, 4) == 9);
    assert(find_colon(lb, 3) == 9);
    assert(find_colon(lb, 2) == 9);
    assert(find_colon(lb, 1) == 9);
    assert(find_colon(lb, 0) == 9);
    assert(split_colon(lb) == seq![lb]);
    assert(split_colon(lb).len() == 1);
}

/// Law (replacement policy, IPv4): the replacement follows the documented
/// positional rule against the original — dots kept, the last digit place
/// of each group freshly drawn in base ten, the second-to-last drawn below
/// five, any third place kept verbatim — whether it was generated now or
/// served from the cache.
pub proof fn lemma_ip4_replacement_policy(orig: Seq<u8>, m: Model)
    requires
        wf_model(m),
    ensures
        ip4_repl_ok(orig, anon_spec(Category::Ipv4, orig, m).0),
{
    lemma_anon_shape(Category::Ipv4, orig, m);
}

/// Law (digit content, IPv4): where the original carries a decimal digit,
/// the replacement carries a decimal digit too; so the replacement of a
/// dotted quad is dots and decimal digits throughout.
pub proof fn lemma_ip4_digits(orig: Seq<u8>, m: Model, i: int)
    requires
        wf_model(m),
        0 <= i < orig.len(),
        orig[i] != 46,
        is_dec_digit(orig[i]),
    ensures
        is_dec_digit(anon_spec(Category::Ipv4, orig, m).0[i]),
{
    lemma_anon_shape(Category::Ipv4, orig, m);
    lemma_next_dot_bounds(orig, i + 1);
    assert(run_after(orig, i) >= 0);
}

/// Law (digit content, IPv6): every non-colon byte of an IPv6 replacement
/// is a lowercase hexadecimal digit — the dots of an embedded dotted quad
/// are redrawn along with everything else.
pub proof fn lemma_ip6_hex(orig: Seq<u8>, m: Model, i: int)
    requires
        wf_model(m),
        0 <= i < orig.len(),
        orig[i] != 58,
    ensures
        is_lower_hex(anon_spec(Category::Ipv6, orig, m).0[i]),
{
    lemma_anon_shape(Category::Ipv6, orig, m);
}

/// One group of a dotted quad, carried through the IPv4 policy, is again a
/// group: digits throughout, at most 249 for three digits (kept leading
/// digit at most two, tens place below five), at most 49 for two.
proof fn lemma_group_transfer(k: Seq<u8>, v: Seq<u8>, a: int, b: int)
    requires
        ip4_repl_ok(k, v),
        0 <= a < b <= k.len(),
        group_ok(k.subrange(a, b)),
        forall|q: int| a <= q < b ==> k[q] != 46,
        b < k.len() ==> k[b] == 46,
    ensures
        group_ok(v.subrange(a, b)),
{
    let go = k.subrange(a, b);
    let gv = v.subrange(a, b);
    let gl = b - a;
    assert(1 <= gl <= 3);
    assert forall|t: int| 0 <= t < gl implies #[trigger] run_after(k, a + t) == b - (a + t) - 1 by {
        lemma_next_dot_first(k, a + t + 1, b);
    }
    assert(forall|t: int| 0 <= t < gl ==> gv[t] == v[a + t] && (#[trigger] go[t]) == k[a + t]);
    assert(48 <= gv[gl - 1] <= 57);
    assert(gl >= 2 ==> 48 <= gv[gl - 2] <= 52);
    assert(gl == 3 ==> gv[0] == go[0]);
    assert(all_dec_digits(gv)) by {
        assert forall|t: int| 0 <= t < gl implies is_dec_digit(#[trigger] gv[t]) by {
            if gl == 3 && t == 0 {
                assert(is_dec_digit(go[0]));
            }
        }
    }
    if gl == 1 {
        assert(gv.drop_last().len() == 0);
        assert(group_value(gv.drop_last()) == 0);
        assert(group_value(gv) == gv[0] - 48);
    } else if gl == 2 {
        let g1 = gv.drop_last();
        assert(g1.len() == 1 && g1.last() == gv[0] && g1.drop_last().len() == 0);
        assert(group_value(g1.drop_last()) == 0);
        assert(group_value(g1) == gv[0] - 48);
        assert(group_value(gv) == (gv[0] - 48) * 10 + (gv[1] - 48));
        assert(group_value(gv) <= 49);
    } else {
        let g2 = gv.drop_last();
        let g1 = g2.drop_last();
        assert(g2.len() == 2 && g2.last() == gv[1]);
        assert(g1.len() == 1 && g1.last() == gv[0] && g1.drop_last().len() == 0);
        assert(group_value(g1.drop_last()) == 0);
        assert(group_value(g1) == gv[0] - 48);
        assert(group_value(g2) == (gv[0] - 48) * 10 + (gv[1] - 48));
        assert(group_value(gv) == ((gv[0] - 48) * 10 + (gv[1] - 48)) * 10 + (gv[2] - 48));
        let o2 = go.drop_last();
        let o1 = o2.drop_last();
        assert(o2.len() == 2 && o2.last() == go[1]);
        assert(o1.len() == 1 && o1.last() == go[0] && o1.drop_last().len() == 0);
        assert(group_value(o1.drop_last()) == 0);
        assert(group_value(o1) == go[0] - 48);
        assert(group_value(o2) == (go[0] - 48) * 10 + (go[1] - 48));
        assert(group_value(go) == ((go[0] - 48) * 10 + (go[1] - 48)) * 10 + (go[2] - 48));
        assert(is_dec_digit(go[0]) && is_dec_digit(go[1]) && is_dec_digit(go[2]));
        assert(go[0] <= 50) by {
            if go[0] >= 51 {
                assert(group_value(go) >= 300);
            }
        }
        assert(group_value(gv) <= 249);
    }
}

/// Law (replacement validity, IPv4): the replacement of a valid dotted quad
/// is itself a valid dotted quad — same dots, digits everywhere else, every
/// group's value within range.
pub proof fn lemma_ip4_replacement_valid(orig: Seq<u8>, m: Model)
    requires
        wf_model(m),
        is_valid_ip4(orig),
    ensures
        is_valid_ip4(anon_spec(Category::Ipv4, orig, m).0),
{
    lemma_anon_shape(Category::Ipv4, orig, m);
    let rep = anon_spec(Category::Ipv4, orig, m).0;
    let (wi, wj, wk) = choose|wi: int, wj: int, wk: int|
        #![trigger orig[wi], orig[wj], orig[wk]]
        {
            &&& 0 <= wi < wj < wk < orig.len()
            &&& orig[wi] == 46
            &&& orig[wj] == 46
            &&& orig[wk] == 46
            &&& group_ok(orig.subrange(0, wi))
            &&& group_ok(orig.subrange(wi + 1, wj))
            &&& group_ok(orig.subrange(wj + 1, wk))
            &&& group_ok(orig.subrange(wk + 1, orig.len() as int))
        };
    assert forall|q: int| 0 <= q < wi implies orig[q] != 46 by {
        assert(orig.subrange(0, wi)[q] == orig[q]);
        assert(is_dec_digit(orig.subrange(0, wi)[q]));
    }
    assert forall|q: int| wi + 1 <= q < wj implies orig[q] != 46 by {
        assert(orig.subrange(wi + 1, wj)[q - wi - 1] == orig[q]);
        assert(is_dec_digit(orig.subrange(wi + 1, wj)[q - wi - 1]));
    }
    assert forall|q: int| wj + 1 <= q < wk implies orig[q] != 46 by {
        assert(orig.subrange(wj + 1, wk)[q - wj - 1] == orig[q]);
        assert(is_dec_digit(orig.subrange(wj + 1, wk)[q - wj - 1]));
    }
    assert forall|q: int| wk + 1 <= q < orig.len() implies orig[q] != 46 by {
        assert(orig.subrange(wk + 1, orig.len() as int)[q - wk - 1] == orig[q]);
        assert(is_dec_digit(orig.subrange(wk + 1, orig.len() as int)[q - wk - 1]));
    }
    assert(wi >= 1);
    lemma_group_transfer(orig, rep, 0, wi);
    lemma_group_transfer(orig, rep, wi + 1, wj);
    lemma_group_transfer(orig, rep, wj + 1, wk);
    lemma_group_transfer(orig, rep, wk + 1, orig.len() as int);
    assert(rep[wi] == 46 && rep[wj] == 46 && rep[wk] == 46);
    assert(rep.len() == orig.len());
    assert(is_valid_ip4(rep));
}

} // verus!

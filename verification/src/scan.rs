use crate::util::copy_range;
use crate::validate::is_valid_ip4;
use crate::validate::is_valid_ip6;
use crate::validate::check_ip4;
use crate::validate::check_ip6;
use vstd::prelude::*;

verus! {

/// Which kind of sensitive value a candidate is, deciding the cache
/// partition and the digit-generation rule that apply to it.
#[derive(Clone, Copy, PartialEq, Eq, Structural, Debug)]
pub enum Category {
    Ipv4,
    Ipv6,
    QueryValue,
}

/// The shortest candidate worth testing: `"::"` for IPv6, `"0.0.0.0"` for
/// IPv4.
pub open spec fn cat_min_len(cat: Category) -> int {
    match cat {
        Category::Ipv4 => 7,
        Category::Ipv6 => 2,
        Category::QueryValue => 1,
    }
}

/// The longest candidate worth testing: a full dotted quad for IPv4, a full
/// address with an embedded dotted quad for IPv6.
pub open spec fn cat_max_len(cat: Category) -> int {
    match cat {
        Category::Ipv4 => 15,
        Category::Ipv6 => 45,
        Category::QueryValue => 1,
    }
}

/// Whether a substring is a well-formed address of the given family.
pub open spec fn addr_valid(cat: Category, s: Seq<u8>) -> bool {
    match cat {
        Category::Ipv4 => is_valid_ip4(s),
        Category::Ipv6 => is_valid_ip6(s),
        Category::QueryValue => false,
    }
}

/// The longest length `l`, at most `l_max` and at least the category's
/// minimum, such that `[cur, cur+l)` lies in the line and validates; zero if
/// none does.
pub open spec fn best_len_from(s: Seq<u8>, cur: int, l_max: int, cat: Category) -> int
    decreases l_max,
{
    if l_max < cat_min_len(cat) || l_max < 0 {
        0
    } else if cur + l_max <= s.len() && addr_valid(cat, s.subrange(cur, cur + l_max)) {
        l_max
    } else {
        best_len_from(s, cur, l_max - 1, cat)
    }
}

/// The candidate ranges of one scanning pass: at each cursor position take
/// the longest validating substring and jump past it, else step one byte.
pub open spec fn scan_spec(s: Seq<u8>, cur: int, cat: Category) -> Seq<(int, int)>
    decreases s.len() - cur,
{
    if cur < 0 || cur >= s.len() {
        Seq::empty()
    } else {
        let l = best_len_from(s, cur, cat_max_len(cat), cat);
        if 1 <= l && cur + l <= s.len() {
            seq![(cur, cur + l)] + scan_spec(s, cur + l, cat)
        } else {
            scan_spec(s, cur + 1, cat)
        }
    }
}

fn cat_min_exec(cat: Category) -> (r: usize)
    ensures
        r == cat_min_len(cat),
{
    match cat {
        Category::Ipv4 => 7,
        Category::Ipv6 => 2,
        Category::QueryValue => 1,
    }
}

fn cat_max_exec(cat: Category) -> (r: usize)
    ensures
        r == cat_max_len(cat),
{
    match cat {
        Category::Ipv4 => 15,
        Category::Ipv6 => 45,
        Category::QueryValue => 1,
    }
}

fn validate(cat: Category, s: &Vec<u8>) -> (r: bool)
    ensures
        r == addr_valid(cat, s@),
{
    match cat {
        Category::Ipv4 => check_ip4(s),
        Category::Ipv6 => check_ip6(s),
        Category::QueryValue => false,
    }
}

/// Scans a whole line for addresses of one family, left to right, greedy
/// longest match, non-overlapping.
pub fn scan_addresses(line: &Vec<u8>, cat: Category) -> (r: Vec<(usize, usize)>)
    ensures
        r@.len() == scan_spec(line@, 0, cat).len(),
        forall|t: int|
            0 <= t < r@.len() ==> scan_spec(line@, 0, cat)[t] == (
            #[trigger] r@[t].0 as int,
            r@[t].1 as int,
            ),
        forall|t: int| 0 <= t < r@.len() ==> 0 <= #[trigger] r@[t].0 < r@[t].1 <= line@.len(),
        forall|t: int| 0 < t < r@.len() ==> #[trigger] r@[t].0 >= r@[t - 1].1,
{
    let ghost full = scan_spec(line@, 0, cat);
    let mut out: Vec<(usize, usize)> = Vec::new();
    let mut cur: usize = 0;
    while cur < line.len()
        invariant
            cur <= line@.len(),
            full == scan_spec(line@, 0, cat),
            full.len() >= out@.len(),
            full =~= full.subrange(0, out@.len() as int) + scan_spec(line@, cur as int, cat),
            forall|t: int|
                0 <= t < out@.len() ==> full[t] == (#[trigger] out@[t].0 as int, out@[t].1 as int),
            forall|t: int| 0 <= t < out@.len() ==> 0 <= #[trigger] out@[t].0 < out@[t].1 <= cur,
            forall|t: int| 0 < t < out@.len() ==> #[trigger] out@[t].0 >= out@[t - 1].1,
        decreases line@.len() - cur,
    {
        let maxl = cat_max_exec(cat);
        let minl = cat_min_exec(cat);
        let mut l: usize = maxl;
        let mut found: usize = 0;
        while found == 0 && l >= minl
            invariant
                cur < line@.len(),
                minl == cat_min_len(cat),
                minl >= 1,
                l <= cat_max_len(cat),
                found == 0 ==> best_len_from(line@, cur as int, cat_max_len(cat), cat)
                    == best_len_from(line@, cur as int, l as int, cat),
                found > 0 ==> found == best_len_from(line@, cur as int, cat_max_len(cat), cat)
                    && cur + found <= line@.len(),
            decreases l,
        {
            if l <= line.len() && cur <= line.len() - l {
                let cand = copy_range(line, cur, cur + l);
                let ok = validate(cat, &cand);
                if ok {
                    found = l;
                    l = 0;
                } else {
                    l = l - 1;
                }
            } else {
                assert(cur + l > line@.len());
                l = l - 1;
            }
        }
        if found > 0 {
            let ghost out0 = out@;
            out.push((cur, cur + found));
            proof {
                assert(scan_spec(line@, cur as int, cat) == seq![(cur as int, (cur + found) as int)]
                    + scan_spec(line@, (cur + found) as int, cat));
                assert(full =~= full.subrange(0, out@.len() as int) + scan_spec(
                    line@,
                    (cur + found) as int,
                    cat,
                )) by {
                    assert(full.subrange(0, out@.len() as int) =~= full.subrange(
                        0,
                        out0.len() as int,
                    ).push((cur as int, (cur + found) as int)));
                }
                assert(forall|t: int| 0 <= t < out0.len() ==> out@[t] == out0[t]);
                assert(out@[out0.len() as int].0 == cur && out@[out0.len() as int].1 == cur
                    + found);
                assert(full[out0.len() as int] == (cur as int, (cur + found) as int));
                assert forall|t: int| 0 < t < out@.len() implies #[trigger] out@[t].0 >= out@[t
                    - 1].1 by {
                    if t < out0.len() {
                        assert(out@[t] == out0[t] && out@[t - 1] == out0[t - 1]);
                    } else {
                        assert(out@[t].0 == cur);
                        assert(out@[t - 1] == out0[t - 1]);
                        assert(0 <= out0[t - 1].0);
                        assert(out0[t - 1].1 <= cur);
                    }
                }
                assert forall|t: int|
                    0 <= t < out@.len() implies 0 <= #[trigger] out@[t].0 < out@[t].1 <= cur
                    + found by {
                    if t < out0.len() {
                        assert(out@[t] == out0[t]);
                        assert(0 <= out0[t].0);
                        assert(out0[t].1 <= cur);
                    }
                }
            }
            cur = cur + found;
        } else {
            proof {
                assert(best_len_from(line@, cur as int, cat_min_len(cat) - 1, cat) == 0);
                assert(scan_spec(line@, cur as int, cat) == scan_spec(line@, cur + 1, cat));
            }
            cur = cur + 1;
        }
    }
    proof {
        assert(scan_spec(line@, cur as int, cat) =~= Seq::<(int, int)>::empty());
        assert(full =~= full.subrange(0, out@.len() as int));
        assert(full.len() == out@.len());
    }
    out
}

// ---------------------------------------------------------------------------
// Query-string values: path segments that start with `/` after whitespace or
// the line start and carry a `?`; inside the query portion, each
// `name=value` pair contributes its value span.
// ---------------------------------------------------------------------------

/// ASCII whitespace as a log field boundary.
pub open spec fn is_ws(b: u8) -> bool {
    b == 32 || b == 9 || b == 10 || b == 13 || b == 12 || b == 11
}

/// A byte that may stand inside a path or query token: anything but `?`,
/// whitespace and a double quote.
pub open spec fn is_qchar(b: u8) -> bool {
    !(b == 63 || b == 34 || is_ws(b))
}

/// The end of the maximal run of token bytes starting at `i`.
pub open spec fn run_end(s: Seq<u8>, i: int) -> int
    decreases s.len() - i,
{
    if i < 0 || i >= s.len() {
        s.len() as int
    } else if !is_qchar(s[i]) {
        i
    } else {
        run_end(s, i + 1)
    }
}

/// A candidate path token starts at `p`: a `/` at the line start or right
/// after whitespace.
pub open spec fn starts_candidate(s: Seq<u8>, p: int) -> bool {
    0 <= p < s.len() && s[p] == 47 && (p == 0 || is_ws(s[p - 1]))
}

/// The query portions of a line: for each candidate path token that carries
/// a `?`, the nonempty token run after the first `?`.
pub open spec fn find_queries(s: Seq<u8>, cur: int) -> Seq<(int, int)>
    decreases s.len() - cur,
{
    if cur < 0 || cur >= s.len() {
        Seq::empty()
    } else if starts_candidate(s, cur) {
        let pe = run_end(s, cur + 1);
        if pe < s.len() && s[pe] == 63 {
            let qe = run_end(s, pe + 1);
            if qe > pe + 1 && qe > cur && qe <= s.len() {
                seq![(pe + 1, qe)] + find_queries(s, qe)
            } else {
                find_queries(s, cur + 1)
            }
        } else {
            find_queries(s, cur + 1)
        }
    } else {
        find_queries(s, cur + 1)
    }
}

/// The first `&` in `[i, b)`, or `b` if none: the end of one parameter.
pub open spec fn amp_end(s: Seq<u8>, i: int, b: int) -> int
    decreases b - i,
{
    if i < 0 || i >= b || i >= s.len() {
        b
    } else if s[i] == 38 {
        i
    } else {
        amp_end(s, i + 1, b)
    }
}

/// The first `=` in `[i, b)`, or `b` if none.
pub open spec fn eq_pos(s: Seq<u8>, i: int, b: int) -> int
    decreases b - i,
{
    if i < 0 || i >= b || i >= s.len() {
        b
    } else if s[i] == 61 {
        i
    } else {
        eq_pos(s, i + 1, b)
    }
}

/// The first `=` or `&` in `[i, b)`, or `b` if none: the end of a value run.
pub open spec fn seg_end(s: Seq<u8>, i: int, b: int) -> int
    decreases b - i,
{
    if i < 0 || i >= b || i >= s.len() {
        b
    } else if s[i] == 38 || s[i] == 61 {
        i
    } else {
        seg_end(s, i + 1, b)
    }
}

/// The value span of one `name=value` parameter in `[pa, pb)`: the name must
/// be nonempty, the `=` present, and the value run nonempty.
pub open spec fn part_value(s: Seq<u8>, pa: int, pb: int) -> Seq<(int, int)> {
    let e = eq_pos(s, pa, pb);
    if pa < e && e < pb {
        let ve = seg_end(s, e + 1, pb);
        if ve > e + 1 {
            seq![(e + 1, ve)]
        } else {
            Seq::empty()
        }
    } else {
        Seq::empty()
    }
}

/// All value spans in one query portion `[a, b)`, one parameter after
/// another, parameters separated by `&`.
pub open spec fn query_values(s: Seq<u8>, a: int, b: int) -> Seq<(int, int)>
    decreases b - a,
{
    if a < 0 || a >= b {
        Seq::empty()
    } else {
        let amp = amp_end(s, a, b);
        if a <= amp && amp < b {
            part_value(s, a, amp) + query_values(s, amp + 1, b)
        } else {
            part_value(s, a, amp)
        }
    }
}

pub open spec fn all_query_values(s: Seq<u8>, qs: Seq<(int, int)>) -> Seq<(int, int)>
    decreases qs.len(),
{
    if qs.len() == 0 {
        Seq::empty()
    } else {
        query_values(s, qs[0].0, qs[0].1) + all_query_values(s, qs.drop_first())
    }
}

/// Every query value span of a line.
pub open spec fn scan_queries_spec(s: Seq<u8>) -> Seq<(int, int)> {
    all_query_values(s, find_queries(s, 0))
}

fn is_ws_byte(b: u8) -> (r: bool)
    ensures
        r == is_ws(b),
{
    b == 32 || b == 9 || b == 10 || b == 13 || b == 12 || b == 11
}

fn run_end_exec(line: &Vec<u8>, from: usize) -> (r: usize)
    requires
        from <= line@.len(),
    ensures
        r == run_end(line@, from as int),
        from <= r <= line@.len(),
{
    let mut i: usize = from;
    while i < line.len()
        invariant
            from <= i <= line@.len(),
            run_end(line@, from as int) == run_end(line@, i as int),
        decreases line@.len() - i,
    {
        let c = line[i];
        if c == 63 || c == 34 || is_ws_byte(c) {
            assert(!is_qchar(line@[i as int]));
            return i;
        }
        i = i + 1;
    }
    i
}

fn amp_end_exec(line: &Vec<u8>, from: usize, to: usize) -> (r: usize)
    requires
        from <= to <= line@.len(),
    ensures
        r == amp_end(line@, from as int, to as int),
        from <= r <= to,
{
    let mut i: usize = from;
    while i < to
        invariant
            from <= i <= to <= line@.len(),
            amp_end(line@, from as int, to as int) == amp_end(line@, i as int, to as int),
        decreases to - i,
    {
        if line[i] == 38 {
            return i;
        }
        i = i + 1;
    }
    i
}

fn eq_pos_exec(line: &Vec<u8>, from: usize, to: usize) -> (r: usize)
    requires
        from <= to <= line@.len(),
    ensures
        r == eq_pos(line@, from as int, to as int),
        from <= r <= to,
{
    let mut i: usize = from;
    while i < to
        invariant
            from <= i <= to <= line@.len(),
            eq_pos(line@, from as int, to as int) == eq_pos(line@, i as int, to as int),
        decreases to - i,
    {
        if line[i] == 61 {
            return i;
        }
        i = i + 1;
    }
    i
}

fn seg_end_exec(line: &Vec<u8>, from: usize, to: usize) -> (r: usize)
    requires
        from <= to <= line@.len(),
    ensures
        r == seg_end(line@, from as int, to as int),
        from <= r <= to,
{
    let mut i: usize = from;
    while i < to
        invariant
            from <= i <= to <= line@.len(),
            seg_end(line@, from as int, to as int) == seg_end(line@, i as int, to as int),
        decreases to - i,
    {
        if line[i] == 38 || line[i] == 61 {
            return i;
        }
        i = i + 1;
    }
    i
}

/// Scans a whole line for query-string parameter values.
#[verifier::rlimit(60)]
pub fn scan_queries(line: &Vec<u8>) -> (r: Vec<(usize, usize)>)
    ensures
        r@.len() == scan_queries_spec(line@).len(),
        forall|t: int|
            0 <= t < r@.len() ==> scan_queries_spec(line@)[t] == (
            #[trigger] r@[t].0 as int,
            r@[t].1 as int,
            ),
        forall|t: int| 0 <= t < r@.len() ==> 0 <= #[trigger] r@[t].0 < r@[t].1 <= line@.len(),
        forall|t: int| 0 < t < r@.len() ==> #[trigger] r@[t].0 >= r@[t - 1].1,
{
    let ghost full = scan_queries_spec(line@);
    let mut out: Vec<(usize, usize)> = Vec::new();
    let ghost mut done: Seq<(int, int)> = Seq::empty();
    let mut cur: usize = 0;
    proof {
        assert(done + all_query_values(line@, find_queries(line@, 0)) =~= full);
    }
    while cur < line.len()
        invariant
            cur <= line@.len(),
            full == scan_queries_spec(line@),
            done.len() == out@.len(),
            forall|t: int|
                0 <= t < done.len() ==> done[t] == (#[trigger] out@[t].0 as int, out@[t].1 as int),
            forall|t: int| 0 <= t < out@.len() ==> 0 <= #[trigger] out@[t].0 < out@[t].1 <= cur,
            forall|t: int| 0 < t < out@.len() ==> #[trigger] out@[t].0 >= out@[t - 1].1,
            full =~= done + all_query_values(line@, find_queries(line@, cur as int)),
        decreases line@.len() - cur,
    {
        let c = line[cur];
        let mut started = c == 47;
        if started && cur > 0 {
            started = is_ws_byte(line[cur - 1]);
        }
        assert(started == starts_candidate(line@, cur as int));
        if started {
            let pe = run_end_exec(line, cur + 1);
            if pe < line.len() && line[pe] == 63 {
                let qe = run_end_exec(line, pe + 1);
                if qe > pe + 1 {
                    // One query portion `[pe+1, qe)`: walk its parameters.
                    proof {
                        assert(find_queries(line@, cur as int) =~= seq![((pe + 1) as int, qe as int)]
                            + find_queries(line@, qe as int));
                        assert(all_query_values(line@, find_queries(line@, cur as int))
                            =~= query_values(line@, (pe + 1) as int, qe as int) + all_query_values(
                            line@,
                            find_queries(line@, qe as int),
                        )) by {
                            let qs = find_queries(line@, cur as int);
                            assert(qs[0] == ((pe + 1) as int, qe as int));
                            assert(qs.drop_first() =~= find_queries(line@, qe as int));
                        }
                    }
                    let qb = qe;
                    let mut a2: usize = pe + 1;
                    proof {
                        assert forall|t: int|
                            0 <= t < out@.len() implies 0 <= #[trigger] out@[t].0 < out@[t].1 <= a2
                            by {
                            assert(0 <= out@[t].0);
                            assert(out@[t].1 <= cur);
                        }
                    }
                    while a2 < qb
                        invariant
                            pe + 1 <= a2 <= qb <= line@.len(),
                            cur < pe + 1 < qb,
                            full == scan_queries_spec(line@),
                            done.len() == out@.len(),
                            forall|t: int|
                                0 <= t < done.len() ==> done[t] == (
                                #[trigger] out@[t].0 as int,
                                out@[t].1 as int,
                                ),
                            forall|t: int|
                                0 <= t < out@.len() ==> 0 <= #[trigger] out@[t].0 < out@[t].1
                                    <= a2,
                            forall|t: int| 0 < t < out@.len() ==> #[trigger] out@[t].0 >= out@[t
                                - 1].1,
                            full =~= done + query_values(line@, a2 as int, qb as int)
                                + all_query_values(line@, find_queries(line@, qb as int)),
                        decreases qb - a2,
                    {
                        let ghost out_pre = out@;
                        let ghost a2_pre = a2;
                        let amp = amp_end_exec(line, a2, qb);
                        let e = eq_pos_exec(line, a2, amp);
                        if a2 < e && e < amp {
                            let ve = seg_end_exec(line, e + 1, amp);
                            if ve > e + 1 {
                                let ghost out0 = out@;
                                let ghost done0 = done;
                                out.push((e + 1, ve));
                                proof {
                                    done = done.push(((e + 1) as int, ve as int));
                                    assert(part_value(line@, a2 as int, amp as int) =~= seq![(
                                        (e + 1) as int,
                                        ve as int,
                                    )]);
                                    assert(forall|t: int|
                                        0 <= t < out0.len() ==> out@[t] == out0[t] && done[t]
                                            == done0[t]);
                                    assert(out@[out0.len() as int].0 == e + 1 && out@[out0.len()
                                        as int].1 == ve);
                                    assert forall|t: int|
                                        0 <= t < out@.len() implies 0 <= #[trigger] out@[t].0
                                        < out@[t].1 <= amp by {
                                        if t < out0.len() {
                                            assert(out@[t] == out0[t]);
                                            assert(0 <= out0[t].0);
                                        }
                                    }
                                    assert forall|t: int|
                                        0 < t < out@.len() implies #[trigger] out@[t].0 >= out@[t
                                        - 1].1 by {
                                        if t < out0.len() {
                                            assert(out@[t] == out0[t] && out@[t - 1] == out0[t
                                                - 1]);
                                        } else {
                                            assert(out@[t].0 == e + 1);
                                            assert(out@[t - 1] == out0[t - 1]);
                                            assert(0 <= out0[t - 1].0);
                                            assert(out0[t - 1].1 <= a2);
                                        }
                                    }
                                }
                            } else {
                                proof {
                                    assert(part_value(line@, a2 as int, amp as int)
                                        =~= Seq::<(int, int)>::empty());
                                }
                            }
                        } else {
                            proof {
                                assert(part_value(line@, a2 as int, amp as int) =~= Seq::<
                                    (int, int),
                                >::empty());
                            }
                        }
                        proof {
                            if amp < qb {
                                assert(query_values(line@, a2 as int, qb as int) =~= part_value(
                                    line@,
                                    a2 as int,
                                    amp as int,
                                ) + query_values(line@, (amp + 1) as int, qb as int));
                            } else {
                                assert(amp == qb);
                                assert(query_values(line@, a2 as int, qb as int) =~= part_value(
                                    line@,
                                    a2 as int,
                                    amp as int,
                                ) + query_values(line@, qb as int, qb as int));
                            }
                            assert(query_values(line@, qb as int, qb as int)
                                =~= Seq::<(int, int)>::empty());
                        }
                        if amp < qb {
                            a2 = amp + 1;
                        } else {
                            a2 = qb;
                        }
                        proof {
                            assert forall|t: int|
                                0 <= t < out@.len() implies 0 <= #[trigger] out@[t].0 < out@[t].1
                                <= a2 by {
                                if t < out_pre.len() {
                                    assert(out@[t] == out_pre[t]);
                                    assert(0 <= out_pre[t].0);
                                    assert(out_pre[t].1 <= a2_pre);
                                }
                            }
                        }
                    }
                    proof {
                        assert(query_values(line@, qb as int, qb as int)
                            =~= Seq::<(int, int)>::empty());
                        assert(full =~= done + all_query_values(
                            line@,
                            find_queries(line@, qb as int),
                        ));
                    }
                    cur = qe;
                } else {
                    proof {
                        assert(find_queries(line@, cur as int) == find_queries(line@, cur + 1));
                    }
                    cur = cur + 1;
                }
            } else {
                proof {
                    assert(find_queries(line@, cur as int) == find_queries(line@, cur + 1));
                }
                cur = cur + 1;
            }
        } else {
            proof {
                assert(find_queries(line@, cur as int) == find_queries(line@, cur + 1));
            }
            cur = cur + 1;
        }
    }
    proof {
        assert(find_queries(line@, cur as int) =~= Seq::<(int, int)>::empty());
        assert(all_query_values(line@, Seq::empty()) =~= Seq::<(int, int)>::empty());
        assert(full =~= done);
    }
    out
}

// ---------------------------------------------------------------------------
// Order and bounds of the scanned ranges.
// ---------------------------------------------------------------------------

/// Ranges that lie in a line of length `len`, each nonempty, in strictly
/// ascending, non-overlapping order.
pub open spec fn ranges_ok(rs: Seq<(int, int)>, len: int) -> bool {
    &&& (forall|t: int| 0 <= t < rs.len() ==> 0 <= (#[trigger] rs[t]).0 < rs[t].1 <= len)
    &&& (forall|t: int| 0 < t < rs.len() ==> (#[trigger] rs[t]).0 >= rs[t - 1].1)
}

/// The byte at `i` lies in none of the ranges.
pub open spec fn outside_all(rs: Seq<(int, int)>, i: int) -> bool {
    forall|t: int| 0 <= t < rs.len() ==> !((#[trigger] rs[t]).0 <= i < rs[t].1)
}

proof fn lemma_best_len_bounds(s: Seq<u8>, cur: int, l_max: int, cat: Category)
    ensures
        best_len_from(s, cur, l_max, cat) == 0 || (cat_min_len(cat) <= best_len_from(
            s,
            cur,
            l_max,
            cat,
        ) <= l_max && cur + best_len_from(s, cur, l_max, cat) <= s.len()),
    decreases l_max,
{
    if l_max < cat_min_len(cat) || l_max < 0 {
    } else if cur + l_max <= s.len() && addr_valid(cat, s.subrange(cur, cur + l_max)) {
    } else {
        lemma_best_len_bounds(s, cur, l_max - 1, cat);
    }
}

/// An address scan yields well-ordered ranges that start at or after the
/// cursor.
pub proof fn lemma_scan_ranges_ok(s: Seq<u8>, cur: int, cat: Category)
    requires
        0 <= cur,
    ensures
        ranges_ok(scan_spec(s, cur, cat), s.len() as int),
        forall|t: int|
            0 <= t < scan_spec(s, cur, cat).len() ==> (#[trigger] scan_spec(s, cur, cat)[t]).0
                >= cur,
    decreases s.len() - cur,
{
    if cur < 0 || cur >= s.len() {
    } else {
        let l = best_len_from(s, cur, cat_max_len(cat), cat);
        lemma_best_len_bounds(s, cur, cat_max_len(cat), cat);
        if 1 <= l && cur + l <= s.len() {
            lemma_scan_ranges_ok(s, cur + l, cat);
            let rest = scan_spec(s, cur + l, cat);
            let rs = scan_spec(s, cur, cat);
            assert(rs == seq![(cur, cur + l)] + rest);
            assert(rs[0] == (cur, cur + l));
            assert(forall|t: int| 0 < t < rs.len() ==> rs[t] == rest[t - 1]);
        } else {
            lemma_scan_ranges_ok(s, cur + 1, cat);
        }
    }
}

proof fn lemma_run_end_bounds(s: Seq<u8>, i: int)
    requires
        0 <= i <= s.len(),
    ensures
        i <= run_end(s, i) <= s.len(),
    decreases s.len() - i,
{
    if i < s.len() && is_qchar(s[i]) {
        lemma_run_end_bounds(s, i + 1);
    }
}

proof fn lemma_amp_end_bounds(s: Seq<u8>, i: int, b: int)
    requires
        0 <= i <= b,
    ensures
        i <= amp_end(s, i, b) <= b,
    decreases b - i,
{
    if i < b && i < s.len() && s[i] != 38 {
        lemma_amp_end_bounds(s, i + 1, b);
    }
}

proof fn lemma_eq_pos_bounds(s: Seq<u8>, i: int, b: int)
    requires
        0 <= i <= b,
    ensures
        i <= eq_pos(s, i, b) <= b,
    decreases b - i,
{
    if i < b && i < s.len() && s[i] != 61 {
        lemma_eq_pos_bounds(s, i + 1, b);
    }
}

proof fn lemma_seg_end_bounds(s: Seq<u8>, i: int, b: int)
    requires
        0 <= i <= b,
    ensures
        i <= seg_end(s, i, b) <= b,
    decreases b - i,
{
    if i < b && i < s.len() && s[i] != 38 && s[i] != 61 {
        lemma_seg_end_bounds(s, i + 1, b);
    }
}

/// The value spans of one query portion lie strictly inside `(a, b]`, in
/// ascending order.
proof fn lemma_query_values_ok(s: Seq<u8>, a: int, b: int)
    requires
        0 <= a,
    ensures
        forall|t: int|
            0 <= t < query_values(s, a, b).len() ==> a < (#[trigger] query_values(s, a, b)[t]).0
                < query_values(s, a, b)[t].1 <= b,
        forall|t: int|
            0 < t < query_values(s, a, b).len() ==> (#[trigger] query_values(s, a, b)[t]).0
                >= query_values(s, a, b)[t - 1].1,
    decreases b - a,
{
    if a < 0 || a >= b {
    } else {
        let amp = amp_end(s, a, b);
        lemma_amp_end_bounds(s, a, b);
        lemma_eq_pos_bounds(s, a, amp);
        let e = eq_pos(s, a, amp);
        if a < e && e < amp {
            lemma_seg_end_bounds(s, e + 1, amp);
        }
        let pv = part_value(s, a, amp);
        if amp < b {
            lemma_query_values_ok(s, amp + 1, b);
            let rest = query_values(s, amp + 1, b);
            let rs = query_values(s, a, b);
            assert(rs == pv + rest);
            assert(forall|t: int| pv.len() <= t < rs.len() ==> rs[t] == rest[t - pv.len()]);
            assert(forall|t: int| 0 <= t < pv.len() ==> rs[t] == pv[t]);
        } else {
            assert(query_values(s, a, b) == pv);
        }
    }
}

/// The query portions of a line lie in `[cur, len]`, in ascending order,
/// each nonempty.
proof fn lemma_find_queries_ok(s: Seq<u8>, cur: int)
    requires
        0 <= cur,
    ensures
        forall|t: int|
            0 <= t < find_queries(s, cur).len() ==> cur < (#[trigger] find_queries(s, cur)[t]).0
                < find_queries(s, cur)[t].1 <= s.len(),
        forall|t: int|
            0 < t < find_queries(s, cur).len() ==> (#[trigger] find_queries(s, cur)[t]).0
                >= find_queries(s, cur)[t - 1].1,
    decreases s.len() - cur,
{
    if cur < 0 || cur >= s.len() {
    } else if starts_candidate(s, cur) {
        let pe = run_end(s, cur + 1);
        lemma_run_end_bounds(s, cur + 1);
        if pe < s.len() && s[pe] == 63 {
            let qe = run_end(s, pe + 1);
            lemma_run_end_bounds(s, pe + 1);
            if qe > pe + 1 && qe > cur && qe <= s.len() {
                lemma_find_queries_ok(s, qe);
                let rest = find_queries(s, qe);
                let rs = find_queries(s, cur);
                assert(rs == seq![(pe + 1, qe)] + rest);
                assert(rs[0] == (pe + 1, qe));
                assert(forall|t: int| 0 < t < rs.len() ==> rs[t] == rest[t - 1]);
                assert forall|t: int| 0 <= t < rs.len() implies cur < (#[trigger] rs[t]).0
                    < rs[t].1 <= s.len() by {
                    if t > 0 {
                        assert(rs[t] == rest[t - 1]);
                        assert(qe < rest[t - 1].0 < rest[t - 1].1 <= s.len());
                    }
                }
                assert forall|t: int| 0 < t < rs.len() implies (#[trigger] rs[t]).0 >= rs[t
                    - 1].1 by {
                    assert(rs[t] == rest[t - 1]);
                    if t > 1 {
                        assert(rs[t - 1] == rest[t - 2]);
                    } else {
                        assert(rs[0].1 == qe);
                        assert(qe < rest[0].0);
                    }
                }
            } else {
                lemma_find_queries_ok(s, cur + 1);
                assert(find_queries(s, cur) == find_queries(s, cur + 1));
            }
        } else {
            lemma_find_queries_ok(s, cur + 1);
            assert(find_queries(s, cur) == find_queries(s, cur + 1));
        }
    } else {
        lemma_find_queries_ok(s, cur + 1);
        assert(find_queries(s, cur) == find_queries(s, cur + 1));
    }
}

proof fn lemma_all_query_values_ok(s: Seq<u8>, qs: Seq<(int, int)>)
    requires
        forall|t: int| 0 <= t < qs.len() ==> 0 <= (#[trigger] qs[t]).0 < qs[t].1 <= s.len(),
        forall|t: int| 0 < t < qs.len() ==> (#[trigger] qs[t]).0 >= qs[t - 1].1,
    ensures
        ranges_ok(all_query_values(s, qs), s.len() as int),
        qs.len() > 0 ==> forall|t: int|
            0 <= t < all_query_values(s, qs).len() ==> (#[trigger] all_query_values(s, qs)[t]).0
                > qs[0].0,
    decreases qs.len(),
{
    if qs.len() == 0 {
    } else {
        let head = query_values(s, qs[0].0, qs[0].1);
        lemma_query_values_ok(s, qs[0].0, qs[0].1);
        let tail = qs.drop_first();
        assert(forall|t: int| 0 <= t < tail.len() ==> tail[t] == qs[t + 1]);
        lemma_all_query_values_ok(s, tail);
        let rest = all_query_values(s, tail);
        let rs = all_query_values(s, qs);
        assert(rs == head + rest);
        assert(forall|t: int| 0 <= t < head.len() ==> rs[t] == head[t]);
        assert(forall|t: int| head.len() <= t < rs.len() ==> rs[t] == rest[t - head.len()]);
        if tail.len() > 0 {
            assert(tail[0].0 >= qs[0].1);
            assert forall|t: int| 0 < t < rs.len() implies (#[trigger] rs[t]).0 >= rs[t - 1].1 by {
                if t < head.len() {
                    assert(rs[t] == head[t] && rs[t - 1] == head[t - 1]);
                } else if t == head.len() {
                    if head.len() > 0 {
                        assert(rs[t] == rest[0]);
                        assert(rest[0].0 > tail[0].0);
                        assert(rs[t - 1] == head[t - 1]);
                        assert(head[t - 1].1 <= qs[0].1);
                    }
                } else {
                    assert(rs[t] == rest[t - head.len()] && rs[t - 1] == rest[t - 1 - head.len()]);
                }
            }
        }
    }
}

/// A query scan yields well-ordered ranges.
pub proof fn lemma_scan_queries_ok(s: Seq<u8>)
    ensures
        ranges_ok(scan_queries_spec(s), s.len() as int),
{
    lemma_find_queries_ok(s, 0);
    lemma_all_query_values_ok(s, find_queries(s, 0));
}

} // verus!

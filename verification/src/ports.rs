//! Port selection: parsing an explicit `"start:end"` range, and picking the
//! most probable ports from the service catalog.

use vstd::prelude::*;

use crate::services::{ServiceCatalog, ServiceEntryV};
use crate::text::{find_byte, find_from, parse_u16_range, spec_parse_u16};
use vstd::string::StringSliceAdditionalSpecFns;

verus! {

/// The bounds named by a `"start:end"` argument, when both parse as ports.
pub open spec fn spec_port_bounds(s: Seq<u8>) -> Option<(u16, u16)> {
    match find_from(s, 0, 58) {
        None => None,
        Some(h) => match (spec_parse_u16(s.take(h)), spec_parse_u16(s.skip(h + 1))) {
            (Some(a), Some(b)) => Some((a, b)),
            _ => None,
        },
    }
}

/// The inputs on which range parsing succeeds, with the bounds it returns:
/// both bounds parse, neither is zero, and start is strictly below end.
pub open spec fn spec_parse_port(s: Seq<u8>) -> Option<(u16, u16)> {
    match spec_port_bounds(s) {
        Some((a, b)) => if a != 0 && b != 0 && a < b {
            Some((a, b))
        } else {
            None
        },
        None => None,
    }
}

/// The error text for each rejected range argument.
pub open spec fn spec_port_error(s: Seq<u8>) -> Seq<char> {
    match find_from(s, 0, 58) {
        None => "port_range should be <start:end>"@,
        Some(h) => {
            let sa = spec_parse_u16(s.take(h));
            let sb = spec_parse_u16(s.skip(h + 1));
            if sa is None {
                "start is not a port number"@
            } else if sb is None {
                "end is not a port number"@
            } else if sa->Some_0 == 0 || sb->Some_0 == 0 {
                "port 0 not valid"@
            } else {
                "start_port should be less than end_port"@
            }
        },
    }
}

/// Parses a `"start:end"` argument into the inclusive list of ports between
/// the bounds. Succeeds exactly when the argument has a colon, both bounds
/// are decimal port numbers, neither bound is zero, and start is below end;
/// every rejected argument gets the error text that names its defect.
pub fn parse_port(port_arg: &str) -> (r: Result<Vec<u16>, String>)
    ensures
        match r {
            Ok(v) => {
                &&& spec_parse_port(port_arg.spec_bytes()) matches Some((a, b))
                &&& v@.len() == b - a + 1
                &&& forall|i: int| 0 <= i < v@.len() ==> v@[i] == a + i
            },
            Err(m) => {
                &&& spec_parse_port(port_arg.spec_bytes()) is None
                &&& m@ == spec_port_error(port_arg.spec_bytes())
            },
        },
{
    let s = port_arg.as_bytes();
    let n = s.len();
    let h = match find_byte(s, 0, 58) {
        Some(h) => h,
        None => {
            return Err("port_range should be <start:end>".to_owned());
        },
    };
    proof {
        assert(s@.take(h as int) =~= s@.subrange(0, h as int));
        assert(s@.skip(h + 1) =~= s@.subrange(h + 1, s@.len() as int));
    }
    let start = match parse_u16_range(s, 0, h) {
        Some(a) => a,
        None => {
            return Err("start is not a port number".to_owned());
        },
    };
    let end = match parse_u16_range(s, h + 1, n) {
        Some(b) => b,
        None => {
            return Err("end is not a port number".to_owned());
        },
    };
    if start == 0 || end == 0 {
        return Err("port 0 not valid".to_owned());
    }
    if start >= end {
        return Err("start_port should be less than end_port".to_owned());
    }
    let mut v: Vec<u16> = Vec::new();
    let mut i: u32 = start as u32;
    while i <= end as u32
        invariant
            start <= i <= end as u32 + 1,
            v@.len() == i - start,
            forall|k: int| 0 <= k < v@.len() ==> v@[k] == start + k,
        decreases end + 1 - i,
    {
        v.push((i as u16));
        i += 1;
    }
    Ok(v)
}

/// `a` ranks at or before `b`: strictly higher probability first, the lower
/// port first on equal probabilities.
pub open spec fn rank_le(a: (u16, u64), b: (u16, u64)) -> bool {
    a.1 > b.1 || (a.1 == b.1 && a.0 <= b.0)
}

/// `x` inserted into `s` before the first element it ranks at or before.
pub open spec fn insert_ranked(s: Seq<(u16, u64)>, x: (u16, u64)) -> Seq<(u16, u64)>
    decreases s.len(),
{
    if s.len() == 0 {
        seq![x]
    } else if rank_le(x, s[0]) {
        seq![x] + s
    } else {
        seq![s[0]] + insert_ranked(s.drop_first(), x)
    }
}

/// `s` sorted by `rank_le`, by insertion.
pub open spec fn rank_sort(s: Seq<(u16, u64)>) -> Seq<(u16, u64)>
    decreases s.len(),
{
    if s.len() == 0 {
        Seq::empty()
    } else {
        insert_ranked(rank_sort(s.drop_last()), s.last())
    }
}

/// `s` is ordered by `rank_le`.
pub open spec fn ranked_seq(s: Seq<(u16, u64)>) -> bool {
    forall|i: int, j: int| 0 <= i < j < s.len() ==> rank_le(s[i], s[j])
}

/// The catalog's ports with their probabilities, in catalog order.
pub open spec fn scored(cat: Seq<(u16, ServiceEntryV)>) -> Seq<(u16, u64)> {
    Seq::new(cat.len(), |i: int| (cat[i].0, cat[i].1.prb))
}

/// Every catalog port, most probable first.
pub open spec fn ranked_ports(cat: Seq<(u16, ServiceEntryV)>) -> Seq<u16> {
    Seq::new(rank_sort(scored(cat)).len(), |i: int| rank_sort(scored(cat))[i].0)
}

/// How many ports `percent` selects out of `n`: the floor of
/// `n * percent / 100`, capped at `n`.
pub open spec fn top_count(n: nat, percent: u8) -> int {
    let k = n * (percent as nat) / 100;
    if k <= n {
        k as int
    } else {
        n as int
    }
}

/// The ports `get_top_ports` answers.
pub open spec fn spec_top_ports(cat: Seq<(u16, ServiceEntryV)>, percent: u8) -> Seq<u16> {
    ranked_ports(cat).take(top_count(cat.len(), percent))
}

fn rank_le_exec(a: (u16, u64), b: (u16, u64)) -> (r: bool)
    ensures
        r == rank_le(a, b),
{
    a.1 > b.1 || (a.1 == b.1 && a.0 <= b.0)
}

/// Inserting at the scan's stopping point is what `insert_ranked` does.
proof fn lemma_insert_ranked_at(s: Seq<(u16, u64)>, x: (u16, u64), j: int)
    requires
        0 <= j <= s.len(),
        forall|k: int| 0 <= k < j ==> !rank_le(x, s[k]),
        j < s.len() ==> rank_le(x, s[j]),
    ensures
        insert_ranked(s, x) == s.take(j) + seq![x] + s.skip(j),
    decreases j,
{
    if j == 0 {
        if s.len() == 0 {
            assert(insert_ranked(s, x) =~= s.take(0) + seq![x] + s.skip(0));
        } else {
            assert(insert_ranked(s, x) =~= s.take(0) + seq![x] + s.skip(0));
        }
    } else {
        let d = s.drop_first();
        assert(!rank_le(x, s[0]));
        assert(forall|k: int| 0 <= k < j - 1 ==> d[k] == s[k + 1]);
        lemma_insert_ranked_at(d, x, j - 1);
        assert(insert_ranked(s, x) =~= s.take(j) + seq![x] + s.skip(j));
    }
}

/// `insert_ranked` adds exactly `x`, keeping the order.
proof fn lemma_insert_ranked_props(s: Seq<(u16, u64)>, x: (u16, u64))
    requires
        ranked_seq(s),
    ensures
        insert_ranked(s, x).len() == s.len() + 1,
        insert_ranked(s, x).to_multiset() =~= s.to_multiset().insert(x),
        ranked_seq(insert_ranked(s, x)),
    decreases s.len(),
{
    broadcast use vstd::seq_lib::group_to_multiset_ensures;
    broadcast use vstd::multiset::group_multiset_axioms;

    if s.len() == 0 {
        assert(seq![x] =~= Seq::<(u16, u64)>::empty().push(x));
        assert(s =~= Seq::<(u16, u64)>::empty());
        assert(insert_ranked(s, x).to_multiset() =~= s.to_multiset().insert(x));
    } else if rank_le(x, s[0]) {
        let r = seq![x] + s;
        assert(r =~= s.insert(0, x));
        lemma_insert_multiset(s, x, 0);
        assert forall|i: int, j: int| 0 <= i < j < r.len() implies rank_le(r[i], r[j]) by {
            if i > 0 {
                assert(r[i] == s[i - 1] && r[j] == s[j - 1]);
                assert(rank_le(s[i - 1], s[j - 1]));
            } else {
                assert(r[0] == x);
                assert(r[j] == s[j - 1]);
                if j - 1 > 0 {
                    assert(rank_le(s[0], s[j - 1]));
                }
            }
        }
    } else {
        let d = s.drop_first();
        assert(forall|k: int| 0 <= k < d.len() ==> d[k] == s[k + 1]);
        assert(ranked_seq(d));
        lemma_insert_ranked_props(d, x);
        let inner = insert_ranked(d, x);
        let r = seq![s[0]] + inner;
        assert(insert_ranked(s, x) == r);
        // multiset: r = s[0] prepended to inner
        assert(r =~= inner.insert(0, s[0]));
        lemma_insert_multiset(inner, s[0], 0);
        assert(s =~= d.insert(0, s[0]));
        lemma_insert_multiset(d, s[0], 0);
        assert(r.to_multiset() =~= s.to_multiset().insert(x));
        // order: s[0] ranks at or before everything in inner
        assert forall|i: int, j: int| 0 <= i < j < r.len() implies rank_le(r[i], r[j]) by {
            if i > 0 {
                assert(r[i] == inner[i - 1] && r[j] == inner[j - 1]);
            } else {
                let e = r[j];
                assert(e == inner[j - 1]);
                assert(inner.contains(e));
                assert(inner.to_multiset().count(e) > 0);
                if e == x {
                    assert(rank_le(s[0], x));
                } else {
                    assert(d.to_multiset().insert(x).count(e) > 0);
                    assert(d.to_multiset().count(e) > 0);
                    assert(d.contains(e));
                    let k = choose|k: int| 0 <= k < d.len() && d[k] == e;
                    assert(rank_le(s[0], s[k + 1]));
                }
            }
        }
    }
}

/// A sequence inserted into is the multiset with the element added.
proof fn lemma_insert_multiset(s: Seq<(u16, u64)>, x: (u16, u64), j: int)
    requires
        0 <= j <= s.len(),
    ensures
        s.insert(j, x).to_multiset() =~= s.to_multiset().insert(x),
{
    broadcast use vstd::seq_lib::group_to_multiset_ensures;
    broadcast use vstd::multiset::group_multiset_axioms;

    let a = s.take(j);
    let b = s.skip(j);
    assert(s =~= a + b);
    vstd::seq_lib::lemma_multiset_commutative(a, b);
    assert(s.insert(j, x) =~= a.push(x) + b);
    vstd::seq_lib::lemma_multiset_commutative(a.push(x), b);
    assert(a.push(x).to_multiset() =~= a.to_multiset().insert(x));
    assert(s.insert(j, x).to_multiset() =~= s.to_multiset().insert(x));
}

/// `rank_sort` keeps the length and the elements and orders them.
pub proof fn lemma_rank_sort_props(s: Seq<(u16, u64)>)
    ensures
        rank_sort(s).len() == s.len(),
        rank_sort(s).to_multiset() =~= s.to_multiset(),
        ranked_seq(rank_sort(s)),
    decreases s.len(),
{
    broadcast use vstd::seq_lib::group_to_multiset_ensures;

    if s.len() == 0 {
        assert(rank_sort(s) =~= Seq::<(u16, u64)>::empty());
    } else {
        let d = s.drop_last();
        lemma_rank_sort_props(d);
        lemma_insert_ranked_props(rank_sort(d), s.last());
        assert(s =~= d.push(s.last()));
        assert(rank_sort(s).to_multiset() =~= s.to_multiset());
    }
}

/// Inserts `x` into a ranked vector, keeping it ranked; exec counterpart of
/// `insert_ranked`.
fn insert_sorted(v: &mut Vec<(u16, u64)>, x: (u16, u64))
    ensures
        final(v)@ == insert_ranked(old(v)@, x),
{
    let mut j: usize = 0;
    while j < v.len() && !rank_le_exec(x, v[j])
        invariant
            j <= v@.len(),
            v == old(v),
            forall|k: int| 0 <= k < j ==> !rank_le(x, v@[k]),
        decreases v@.len() - j,
    {
        j += 1;
    }
    proof {
        lemma_insert_ranked_at(v@, x, j as int);
    }
    v.insert(j, x);
    proof {
        assert(v@ =~= old(v)@.take(j as int) + seq![x] + old(v)@.skip(j as int));
    }
}

/// The most probable `percent` percent of the catalog's ports, rounded down,
/// most probable first, equal probabilities broken toward the lower port.
pub fn get_top_ports(catalog: &ServiceCatalog, percent: u8) -> (r: Vec<u16>)
    ensures
        r@ == spec_top_ports(catalog@, percent),
{
    let ghost cat = catalog@;
    let mut sc: Vec<(u16, u64)> = Vec::new();
    let mut i: usize = 0;
    while i < catalog.rows.len()
        invariant
            i <= catalog.rows@.len(),
            sc@ == scored(cat).take(i as int),
        decreases catalog.rows@.len() - i,
    {
        let p = catalog.rows[i].port;
        let q = catalog.rows[i].entry.prb;
        sc.push((p, q));
        proof {
            assert(sc@ =~= scored(cat).take(i + 1));
        }
        i += 1;
    }
    proof {
        assert(sc@ =~= scored(cat));
    }
    let mut sorted: Vec<(u16, u64)> = Vec::new();
    let mut j: usize = 0;
    while j < sc.len()
        invariant
            j <= sc@.len(),
            sorted@ == rank_sort(sc@.take(j as int)),
        decreases sc@.len() - j,
    {
        let x = sc[j];
        proof {
            assert(sc@.take(j + 1).drop_last() =~= sc@.take(j as int));
            assert(sc@.take(j + 1).last() == x);
        }
        insert_sorted(&mut sorted, x);
        j += 1;
    }
    proof {
        assert(sc@.take(sc@.len() as int) =~= sc@);
        lemma_rank_sort_props(scored(cat));
    }
    let n = sorted.len();
    proof {
        vstd::arithmetic::mul::lemma_mul_upper_bound(
            n as int,
            usize::MAX as int,
            percent as int,
            255,
        );
    }
    let k128: u128 = (n as u128) * (percent as u128) / 100;
    let k: usize = if k128 <= n as u128 {
        k128 as usize
    } else {
        n
    };
    let mut out: Vec<u16> = Vec::new();
    let mut m: usize = 0;
    while m < k
        invariant
            m <= k <= sorted@.len(),
            out@.len() == m,
            forall|t: int| 0 <= t < m ==> out@[t] == sorted@[t].0,
        decreases k - m,
    {
        let p = sorted[m].0;
        out.push(p);
        m += 1;
    }
    proof {
        assert(k == top_count(cat.len(), percent));
        assert(out@ =~= ranked_ports(cat).take(k as int));
    }
    out
}

/// Selecting zero percent selects no port; selecting a hundred percent
/// selects every catalog port, most probable first: the selection is the
/// whole ranking, which reorders exactly the catalog's scored ports,
/// descending by probability.
pub proof fn lemma_top_ports_bounds(cat: Seq<(u16, ServiceEntryV)>)
    ensures
        spec_top_ports(cat, 0) =~= Seq::<u16>::empty(),
        spec_top_ports(cat, 100) == ranked_ports(cat),
        ranked_ports(cat).len() == cat.len(),
        rank_sort(scored(cat)).to_multiset() =~= scored(cat).to_multiset(),
        forall|i: int, j: int|
            0 <= i < j < cat.len() ==> rank_sort(scored(cat))[i].1 >= rank_sort(scored(cat))[j].1,
{
    lemma_rank_sort_props(scored(cat));
    assert(cat.len() * (100 as nat) / 100 == cat.len()) by {
        vstd::arithmetic::div_mod::lemma_div_multiples_vanish(cat.len() as int, 100);
    }
    assert(spec_top_ports(cat, 100) =~= ranked_ports(cat));
    assert forall|i: int, j: int| 0 <= i < j < cat.len() implies rank_sort(scored(cat))[i].1
        >= rank_sort(scored(cat))[j].1 by {
        assert(rank_le(rank_sort(scored(cat))[i], rank_sort(scored(cat))[j]));
    }
}

/// Selecting a smaller percentage yields a prefix of selecting a larger one.
pub proof fn lemma_top_ports_prefix(cat: Seq<(u16, ServiceEntryV)>, p1: u8, p2: u8)
    requires
        p1 <= p2,
    ensures
        spec_top_ports(cat, p1) == spec_top_ports(cat, p2).take(
            spec_top_ports(cat, p1).len() as int,
        ),
{
    lemma_rank_sort_props(scored(cat));
    let n = cat.len();
    vstd::arithmetic::mul::lemma_mul_inequality(p1 as int, p2 as int, n as int);
    vstd::arithmetic::div_mod::lemma_div_is_ordered(
        (n * (p1 as nat)) as int,
        (n * (p2 as nat)) as int,
        100,
    );
    vstd::arithmetic::div_mod::lemma_div_pos_is_pos((n * (p1 as nat)) as int, 100);
    assert(top_count(n, p1) <= top_count(n, p2));
    assert(spec_top_ports(cat, p1) =~= spec_top_ports(cat, p2).take(
        spec_top_ports(cat, p1).len() as int,
    ));
}

} // verus!

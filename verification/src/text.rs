//! Byte-level text scanning: whitespace, tokens, and decimal numbers.
//!
//! The catalog data and the port-range argument are ASCII-oriented text, so
//! all scanning is done over bytes, with spec functions that pin down every
//! step exactly.

use vstd::prelude::*;

verus! {

/// ASCII whitespace: space, tab, and the control characters LF, VT, FF, CR.
pub open spec fn is_ws(b: u8) -> bool {
    b == 32 || (9 <= b && b <= 13)
}

/// ASCII decimal digit.
pub open spec fn is_digit(b: u8) -> bool {
    48 <= b && b <= 57
}

/// Index of the first occurrence of `b` in `s` at or after `i`, if any.
pub open spec fn find_from(s: Seq<u8>, i: int, b: u8) -> Option<int>
    decreases s.len() - i
        when 0 <= i <= s.len()
{
    if i >= s.len() {
        None
    } else if s[i] == b {
        Some(i)
    } else {
        find_from(s, i + 1, b)
    }
}

pub proof fn lemma_find_from(s: Seq<u8>, i: int, b: u8)
    requires
        0 <= i <= s.len(),
    ensures
        match find_from(s, i, b) {
            Some(j) => i <= j < s.len() && s[j] == b && (forall|k: int| i <= k < j ==> s[k] != b),
            None => forall|k: int| i <= k < s.len() ==> s[k] != b,
        },
    decreases s.len() - i,
{
    if i < s.len() && s[i] != b {
        lemma_find_from(s, i + 1, b);
    }
}

/// `find_from` answers `Some(j)` exactly when `j` is the first hit.
pub proof fn lemma_find_from_is(s: Seq<u8>, i: int, j: int, b: u8)
    requires
        0 <= i <= j < s.len(),
        s[j] == b,
        forall|k: int| i <= k < j ==> s[k] != b,
    ensures
        find_from(s, i, b) == Some(j),
{
    lemma_find_from(s, i, b);
    match find_from(s, i, b) {
        Some(j2) => {
            if j2 < j {
                assert(s[j2] != b);
            } else if j2 > j {
                assert(s[j] != b);
            }
        },
        None => {
            assert(s[j] != b);
        },
    }
}

/// `find_from` answers `None` exactly when there is no hit.
pub proof fn lemma_find_from_none(s: Seq<u8>, i: int, b: u8)
    requires
        0 <= i <= s.len(),
        forall|k: int| i <= k < s.len() ==> s[k] != b,
    ensures
        find_from(s, i, b) is None,
{
    lemma_find_from(s, i, b);
    match find_from(s, i, b) {
        Some(j) => {
            assert(s[j] != b);
        },
        None => {},
    }
}

/// First index at or after `i` whose byte is not `b` (`s.len()` if none).
pub open spec fn skip_run(s: Seq<u8>, i: int, b: u8) -> int
    decreases s.len() - i
        when 0 <= i <= s.len()
{
    if i >= s.len() {
        s.len() as int
    } else if s[i] == b {
        skip_run(s, i + 1, b)
    } else {
        i
    }
}

pub proof fn lemma_skip_run_bounds(s: Seq<u8>, i: int, b: u8)
    requires
        0 <= i <= s.len(),
    ensures
        i <= skip_run(s, i, b) <= s.len(),
    decreases s.len() - i,
{
    if i < s.len() && s[i] == b {
        lemma_skip_run_bounds(s, i + 1, b);
    }
}

/// Exact exec counterpart of `skip_run`.
pub fn skip_run_idx(s: &[u8], from: usize, b: u8) -> (r: usize)
    requires
        from <= s@.len(),
    ensures
        r == skip_run(s@, from as int, b),
{
    let mut j = from;
    while j < s.len() && s[j] == b
        invariant
            from <= j <= s@.len(),
            skip_run(s@, from as int, b) == skip_run(s@, j as int, b),
        decreases s@.len() - j,
    {
        j += 1;
    }
    j
}

/// First index at or after `i` whose byte is not whitespace (`s.len()` if none).
pub open spec fn skip_ws(s: Seq<u8>, i: int) -> int
    decreases s.len() - i
        when 0 <= i <= s.len()
{
    if i >= s.len() {
        s.len() as int
    } else if is_ws(s[i]) {
        skip_ws(s, i + 1)
    } else {
        i
    }
}

pub proof fn lemma_skip_ws(s: Seq<u8>, i: int)
    requires
        0 <= i <= s.len(),
    ensures
        i <= skip_ws(s, i) <= s.len(),
        forall|k: int| i <= k < skip_ws(s, i) ==> is_ws(s[k]),
        skip_ws(s, i) < s.len() ==> !is_ws(s[skip_ws(s, i)]),
    decreases s.len() - i,
{
    if i < s.len() && is_ws(s[i]) {
        lemma_skip_ws(s, i + 1);
    }
}

/// First index at or after `i` whose byte is whitespace (`s.len()` if none):
/// the exclusive end of the token starting at `i`.
pub open spec fn scan_token(s: Seq<u8>, i: int) -> int
    decreases s.len() - i
        when 0 <= i <= s.len()
{
    if i >= s.len() {
        s.len() as int
    } else if !is_ws(s[i]) {
        scan_token(s, i + 1)
    } else {
        i
    }
}

pub proof fn lemma_scan_token(s: Seq<u8>, i: int)
    requires
        0 <= i <= s.len(),
    ensures
        i <= scan_token(s, i) <= s.len(),
        forall|k: int| i <= k < scan_token(s, i) ==> !is_ws(s[k]),
        scan_token(s, i) < s.len() ==> is_ws(s[scan_token(s, i)]),
    decreases s.len() - i,
{
    if i < s.len() && !is_ws(s[i]) {
        lemma_scan_token(s, i + 1);
    }
}

/// Exclusive end of `s` after dropping trailing whitespace below index `j`.
pub open spec fn trim_end_idx(s: Seq<u8>, j: int) -> int
    decreases j
        when 0 <= j <= s.len()
{
    if j <= 0 {
        0
    } else if is_ws(s[j - 1]) {
        trim_end_idx(s, j - 1)
    } else {
        j
    }
}

pub proof fn lemma_trim_end_idx(s: Seq<u8>, j: int)
    requires
        0 <= j <= s.len(),
    ensures
        0 <= trim_end_idx(s, j) <= j,
        forall|k: int| trim_end_idx(s, j) <= k < j ==> is_ws(s[k]),
        trim_end_idx(s, j) > 0 ==> !is_ws(s[trim_end_idx(s, j) - 1]),
    decreases j,
{
    if j > 0 && is_ws(s[j - 1]) {
        lemma_trim_end_idx(s, j - 1);
    }
}

/// `s` with leading and trailing whitespace removed.
pub open spec fn trim_seq(s: Seq<u8>) -> Seq<u8> {
    let lo = skip_ws(s, 0);
    let hi = trim_end_idx(s, s.len() as int);
    if lo <= hi {
        s.subrange(lo, hi)
    } else {
        Seq::empty()
    }
}

/// Numeric value of a digit string (meaningful when all bytes are digits).
pub open spec fn dec_val(s: Seq<u8>) -> int
    decreases s.len(),
{
    if s.len() == 0 {
        0
    } else {
        dec_val(s.drop_last()) * 10 + (s.last() - 48)
    }
}

pub open spec fn all_digits(s: Seq<u8>) -> bool {
    forall|i: int| 0 <= i < s.len() ==> is_digit(s[i])
}

pub proof fn lemma_dec_val_bounds(s: Seq<u8>)
    requires
        all_digits(s),
    ensures
        dec_val(s) >= 0,
        s.len() > 0 ==> dec_val(s) >= dec_val(s.drop_last()),
    decreases s.len(),
{
    if s.len() > 0 {
        assert(all_digits(s.drop_last()));
        lemma_dec_val_bounds(s.drop_last());
    }
}

/// A nonempty all-digit string whose value fits parses as a `u16`.
pub open spec fn spec_parse_u16(s: Seq<u8>) -> Option<u16> {
    if s.len() > 0 && all_digits(s) && dec_val(s) <= 65535 {
        Some(dec_val(s) as u16)
    } else {
        None
    }
}

/// Growing a digit string never shrinks its value.
pub proof fn lemma_dec_val_prefix_monotonic(s: Seq<u8>, i: int)
    requires
        all_digits(s),
        0 <= i <= s.len(),
    ensures
        dec_val(s.take(i)) <= dec_val(s),
    decreases s.len() - i,
{
    if i < s.len() {
        lemma_dec_val_prefix_monotonic(s, i + 1);
        assert(s.take(i + 1).drop_last() =~= s.take(i));
        assert(all_digits(s.take(i + 1)));
        lemma_dec_val_bounds(s.take(i + 1));
    } else {
        assert(s.take(i) =~= s);
    }
}

/// Ten to the `n`th power.
pub open spec fn pow10(n: nat) -> int
    decreases n,
{
    if n == 0 {
        1
    } else {
        10 * pow10((n - 1) as nat)
    }
}

pub proof fn lemma_pow10_positive(n: nat)
    ensures
        pow10(n) >= 1,
    decreases n,
{
    if n > 0 {
        lemma_pow10_positive((n - 1) as nat);
    }
}

/// A digit string's value is below ten to its length.
pub proof fn lemma_dec_val_upper(s: Seq<u8>)
    requires
        all_digits(s),
    ensures
        dec_val(s) < pow10(s.len()),
    decreases s.len(),
{
    if s.len() > 0 {
        assert(all_digits(s.drop_last()));
        lemma_dec_val_upper(s.drop_last());
        assert(is_digit(s[s.len() - 1]));
    }
}

/// The lines of `s`: the text is split at every LF byte; the terminator is
/// not part of any line, and the text after the last LF is a final line
/// (possibly empty).
pub open spec fn spec_lines(s: Seq<u8>) -> Seq<Seq<u8>>
    decreases s.len()
        via spec_lines_decreases
{
    match find_from(s, 0, 10) {
        None => seq![s],
        Some(j) => seq![s.take(j)] + spec_lines(s.skip(j + 1)),
    }
}

#[via_fn]
proof fn spec_lines_decreases(s: Seq<u8>) {
    lemma_find_from(s, 0, 10);
}

/// The byte sequences held by a vector of byte vectors.
pub open spec fn seq_views(ls: Seq<Vec<u8>>) -> Seq<Seq<u8>> {
    Seq::new(ls.len(), |i: int| ls[i]@)
}

/// Splits `raw` at LF bytes; exact exec counterpart of `spec_lines`.
pub fn split_lines(raw: &[u8]) -> (r: Vec<Vec<u8>>)
    ensures
        seq_views(r@) == spec_lines(raw@),
{
    let n = raw.len();
    let mut out: Vec<Vec<u8>> = Vec::new();
    let mut pos: usize = 0;
    proof {
        assert(raw@.skip(0) =~= raw@);
        assert(seq_views(out@) + spec_lines(raw@) =~= spec_lines(raw@));
    }
    loop
        invariant
            pos <= n,
            n == raw@.len(),
            spec_lines(raw@) =~= seq_views(out@) + spec_lines(raw@.skip(pos as int)),
        decreases raw@.len() - pos,
    {
        let ghost prev = out@;
        let ghost rest = raw@.skip(pos as int);
        match find_byte(raw, pos, 10) {
            Some(j) => {
                let line = copy_range(raw, pos, j);
                out.push(line);
                proof {
                    lemma_find_from(raw@, pos as int, 10);
                    assert(rest[j - pos] == 10);
                    assert(forall|k: int| 0 <= k < j - pos ==> rest[k] != 10);
                    lemma_find_from_is(rest, 0, j - pos, 10);
                    assert(rest.take(j - pos) =~= raw@.subrange(pos as int, j as int));
                    assert(rest.skip(j - pos + 1) =~= raw@.skip(j + 1));
                    assert(seq_views(out@) =~= seq_views(prev) + seq![line@]);
                    assert(spec_lines(raw@) =~= seq_views(out@) + spec_lines(raw@.skip(j + 1)));
                }
                pos = j + 1;
            },
            None => {
                let line = copy_range(raw, pos, raw.len());
                out.push(line);
                proof {
                    lemma_find_from(raw@, pos as int, 10);
                    assert(forall|k: int| 0 <= k < rest.len() ==> rest[k] == raw@[pos + k]);
                    lemma_find_from_none(rest, 0, 10);
                    assert(rest =~= raw@.subrange(pos as int, raw@.len() as int));
                    assert(seq_views(out@) =~= seq_views(prev) + seq![line@]);
                    assert(seq_views(out@) =~= spec_lines(raw@));
                }
                return out;
            },
        }
    }
}

/// Exact exec counterpart of `find_from`.
pub fn find_byte(s: &[u8], from: usize, b: u8) -> (r: Option<usize>)
    requires
        from <= s@.len(),
    ensures
        match r {
            Some(j) => find_from(s@, from as int, b) == Some(j as int) && from <= j < s@.len(),
            None => find_from(s@, from as int, b) is None,
        },
{
    let mut j = from;
    while j < s.len()
        invariant
            from <= j <= s@.len(),
            find_from(s@, from as int, b) == find_from(s@, j as int, b),
        decreases s@.len() - j,
    {
        if s[j] == b {
            return Some(j);
        }
        j += 1;
    }
    None
}

/// Exact exec counterpart of `skip_ws`.
pub fn skip_ws_idx(s: &[u8], from: usize) -> (r: usize)
    requires
        from <= s@.len(),
    ensures
        r == skip_ws(s@, from as int),
{
    let mut j = from;
    while j < s.len() && is_ws_byte(s[j])
        invariant
            from <= j <= s@.len(),
            skip_ws(s@, from as int) == skip_ws(s@, j as int),
        decreases s@.len() - j,
    {
        j += 1;
    }
    j
}

/// Exact exec counterpart of `scan_token`.
pub fn scan_token_idx(s: &[u8], from: usize) -> (r: usize)
    requires
        from <= s@.len(),
    ensures
        r == scan_token(s@, from as int),
{
    let mut j = from;
    while j < s.len() && !is_ws_byte(s[j])
        invariant
            from <= j <= s@.len(),
            scan_token(s@, from as int) == scan_token(s@, j as int),
        decreases s@.len() - j,
    {
        j += 1;
    }
    j
}

/// Exact exec counterpart of `trim_end_idx`.
pub fn trim_end_pos(s: &[u8], upto: usize) -> (r: usize)
    requires
        upto <= s@.len(),
    ensures
        r == trim_end_idx(s@, upto as int),
{
    let mut j = upto;
    while j > 0 && is_ws_byte(s[j - 1])
        invariant
            0 <= j <= upto,
            trim_end_idx(s@, upto as int) == trim_end_idx(s@, j as int),
        decreases j,
    {
        j -= 1;
    }
    j
}

/// Whether a byte is ASCII whitespace.
pub fn is_ws_byte(b: u8) -> (r: bool)
    ensures
        r == is_ws(b),
{
    b == 32 || (9 <= b && b <= 13)
}

/// Copies `s[a..b]` into a fresh vector.
pub fn copy_range(s: &[u8], a: usize, b: usize) -> (r: Vec<u8>)
    requires
        a <= b <= s@.len(),
    ensures
        r@ == s@.subrange(a as int, b as int),
{
    let mut out: Vec<u8> = Vec::new();
    let mut j = a;
    while j < b
        invariant
            a <= j <= b <= s@.len(),
            out@ == s@.subrange(a as int, j as int),
        decreases b - j,
    {
        out.push(s[j]);
        assert(out@ =~= s@.subrange(a as int, j + 1 as int));
        j += 1;
    }
    out
}

/// `s` with leading and trailing whitespace removed, as a fresh vector.
pub fn trim_copy(s: &[u8]) -> (r: Vec<u8>)
    ensures
        r@ == trim_seq(s@),
{
    let lo = skip_ws_idx(s, 0);
    let hi = trim_end_pos(s, s.len());
    proof {
        lemma_skip_ws(s@, 0);
        lemma_trim_end_idx(s@, s@.len() as int);
    }
    if lo <= hi {
        copy_range(s, lo, hi)
    } else {
        Vec::new()
    }
}

/// A nonempty all-digit string whose value is at most `cap` parses as a `u64`.
pub open spec fn spec_parse_dec(t: Seq<u8>, cap: u64) -> Option<u64> {
    if t.len() > 0 && all_digits(t) && dec_val(t) <= cap {
        Some(dec_val(t) as u64)
    } else {
        None
    }
}

/// Parses the decimal written in `s[a..b]`, refusing values above `cap`;
/// exact counterpart of `spec_parse_dec` on that range.
pub fn parse_dec_range(s: &[u8], a: usize, b: usize, cap: u64) -> (r: Option<u64>)
    requires
        a <= b <= s@.len(),
        cap <= 1000000000000000000,
    ensures
        r == spec_parse_dec(s@.subrange(a as int, b as int), cap),
{
    let ghost t = s@.subrange(a as int, b as int);
    if a == b {
        return None;
    }
    let mut acc: u64 = 0;
    let mut j = a;
    while j < b
        invariant
            a <= j <= b <= s@.len(),
            t == s@.subrange(a as int, b as int),
            all_digits(t.take(j - a)),
            acc == dec_val(t.take(j - a)),
            acc <= cap,
        decreases b - j,
    {
        let c = s[j];
        if c < 48 || c > 57 {
            proof {
                assert(t[j - a] == c);
                assert(!is_digit(t[j - a]));
            }
            return None;
        }
        proof {
            assert(t[j - a] == c);
            assert(t.take(j - a + 1).drop_last() =~= t.take(j - a));
            assert(t.take(j - a + 1).last() == c);
            assert(all_digits(t.take(j - a + 1)));
        }
        acc = acc * 10 + (c - 48) as u64;
        j += 1;
        if acc > cap {
            proof {
                if all_digits(t) {
                    lemma_dec_val_prefix_monotonic(t, j - a);
                }
            }
            return None;
        }
    }
    proof {
        assert(t.take(b - a) =~= t);
    }
    Some(acc)
}

/// Parses the decimal `u16` written in `s[a..b]`; exact counterpart of
/// `spec_parse_u16` on that range.
pub fn parse_u16_range(s: &[u8], a: usize, b: usize) -> (r: Option<u16>)
    requires
        a <= b <= s@.len(),
    ensures
        r == spec_parse_u16(s@.subrange(a as int, b as int)),
{
    let ghost t = s@.subrange(a as int, b as int);
    if a == b {
        return None;
    }
    let mut acc: u32 = 0;
    let mut j = a;
    while j < b
        invariant
            a <= j <= b <= s@.len(),
            t == s@.subrange(a as int, b as int),
            all_digits(t.take(j - a)),
            acc == dec_val(t.take(j - a)),
            acc <= 65535,
        decreases b - j,
    {
        let c = s[j];
        if c < 48 || c > 57 {
            proof {
                assert(t[j - a] == c);
                assert(!is_digit(t[j - a]));
            }
            return None;
        }
        proof {
            assert(t[j - a] == c);
            assert(t.take(j - a + 1).drop_last() =~= t.take(j - a));
            assert(t.take(j - a + 1).last() == c);
            assert(all_digits(t.take(j - a + 1)));
        }
        acc = acc * 10 + (c - 48) as u32;
        j += 1;
        if acc > 65535 {
            proof {
                if all_digits(t) {
                    lemma_dec_val_prefix_monotonic(t, j - a);
                }
            }
            return None;
        }
    }
    proof {
        assert(t.take(b - a) =~= t);
    }
    Some(acc as u16)
}

} // verus!

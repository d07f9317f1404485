//! The service catalog: a verified parser for the line-oriented service
//! database and lookups into it.
//!
//! Each data line reads `name  port/protocol  probability  [# comment]`.
//! Blank lines and lines opening with `#` are skipped, only `tcp` rows are
//! kept, a row that fails to parse is skipped, and the last `tcp` row for a
//! port wins. The probability column is a decimal fraction; the catalog
//! stores it exactly, in millionths, so no floating point is involved.

use vstd::prelude::*;

use crate::text::{
    all_digits, copy_range, dec_val, find_byte, find_from, lemma_dec_val_bounds,
    lemma_dec_val_upper, lemma_pow10_positive, parse_dec_range, parse_u16_range, pow10,
    scan_token, scan_token_idx, seq_views, skip_run, skip_run_idx, skip_ws, skip_ws_idx,
    spec_lines, spec_parse_dec, spec_parse_u16, split_lines, trim_end_idx, trim_end_pos, trim_seq,
};

verus! {

/// One millionth: the probability column is stored in units of this scale.
pub const PRB_SCALE: u64 = 1000000;

/// Largest integer part a probability row may carry before it is skipped.
pub const PRB_INT_MAX: u64 = 1000000000000;

/// What the catalog knows about one service: its name, the comment from the
/// data file, and the empirical probability (in millionths) that the port is
/// open.
pub struct ServiceEntry {
    pub name: Vec<u8>,
    pub comment: Vec<u8>,
    pub prb: u64,
}

/// Ghost image of a `ServiceEntry`.
#[verifier::ext_equal]
pub struct ServiceEntryV {
    pub name: Seq<u8>,
    pub comment: Seq<u8>,
    pub prb: u64,
}

impl View for ServiceEntry {
    type V = ServiceEntryV;

    open spec fn view(&self) -> ServiceEntryV {
        ServiceEntryV { name: self.name@, comment: self.comment@, prb: self.prb }
    }
}

/// One parsed catalog row: a port and its service entry.
pub struct CatalogRow {
    pub port: u16,
    pub entry: ServiceEntry,
}

impl View for CatalogRow {
    type V = (u16, ServiceEntryV);

    open spec fn view(&self) -> (u16, ServiceEntryV) {
        (self.port, self.entry@)
    }
}

/// The service catalog: the parsed rows, with ports unique.
pub struct ServiceCatalog {
    pub rows: Vec<CatalogRow>,
}

impl View for ServiceCatalog {
    type V = Seq<(u16, ServiceEntryV)>;

    open spec fn view(&self) -> Seq<(u16, ServiceEntryV)> {
        Seq::new(self.rows@.len(), |i: int| self.rows@[i]@)
    }
}

/// The byte string `tcp`.
pub open spec fn tcp_label() -> Seq<u8> {
    seq![116u8, 99u8, 112u8]
}

/// Value in millionths of the fraction digits `fp` (everything beyond six
/// digits is truncated).
pub open spec fn frac_millionths(fp: Seq<u8>) -> int {
    if fp.len() >= 6 {
        dec_val(fp.take(6))
    } else {
        dec_val(fp) * pow10((6 - fp.len()) as nat)
    }
}

/// The probability column parsed into millionths: digits, optionally followed
/// by a point and fraction digits.
pub open spec fn spec_parse_prb(s: Seq<u8>) -> Option<u64> {
    match find_from(s, 0, 46) {
        None => match spec_parse_dec(s, PRB_INT_MAX) {
            Some(v) => Some((v * PRB_SCALE) as u64),
            None => None,
        },
        Some(h) => {
            let fp = s.skip(h + 1);
            match spec_parse_dec(s.take(h), PRB_INT_MAX) {
                Some(v) => if all_digits(fp) {
                    Some((v * PRB_SCALE + frac_millionths(fp)) as u64)
                } else {
                    None
                },
                None => None,
            }
        },
    }
}

/// The comment column: the text after the field separator, trimmed, with any
/// further leading `#` marks dropped, trimmed again.
pub open spec fn spec_comment(c: Seq<u8>) -> Seq<u8> {
    let t = trim_seq(c);
    trim_seq(t.skip(skip_run(t, 0, 35)))
}

/// The name, port/protocol and probability tokens of the fields portion,
/// combined with the comment into a row; fewer than three tokens, a
/// non-`tcp` protocol, or an unparsable port or probability give `None`.
pub open spec fn spec_parse_fields(fields: Seq<u8>, comment: Seq<u8>) -> Option<
    (u16, ServiceEntryV),
> {
    let i0 = skip_ws(fields, 0);
    let i1 = scan_token(fields, i0);
    let i2 = skip_ws(fields, i1);
    let i3 = scan_token(fields, i2);
    let i4 = skip_ws(fields, i3);
    let i5 = scan_token(fields, i4);
    if i0 == fields.len() || i2 == fields.len() || i4 == fields.len() {
        None
    } else {
        spec_make_row(
            fields.subrange(i0, i1),
            fields.subrange(i2, i3),
            fields.subrange(i4, i5),
            comment,
        )
    }
}

/// Combines the three tokens and the comment into a row, if they parse.
pub open spec fn spec_make_row(
    name: Seq<u8>,
    port_proto: Seq<u8>,
    prb_str: Seq<u8>,
    comment: Seq<u8>,
) -> Option<(u16, ServiceEntryV)> {
    match find_from(port_proto, 0, 47) {
        None => None,
        Some(h) => {
            if port_proto.skip(h + 1) == tcp_label() {
                match spec_parse_u16(port_proto.take(h)) {
                    None => None,
                    Some(port) => match spec_parse_prb(prb_str) {
                        None => None,
                        Some(prb) => Some((port, ServiceEntryV { name, comment, prb })),
                    },
                }
            } else {
                None
            }
        },
    }
}

/// One data line parsed into a row, or `None` for a blank line, a comment
/// line, or a row that does not parse.
pub open spec fn spec_parse_line(line: Seq<u8>) -> Option<(u16, ServiceEntryV)> {
    let t = trim_seq(line);
    if t.len() == 0 || t[0] == 35 {
        None
    } else {
        match find_from(t, 0, 35) {
            Some(h) => spec_parse_fields(
                t.subrange(0, trim_end_idx(t, h)),
                spec_comment(t.skip(h + 1)),
            ),
            None => spec_parse_fields(t, Seq::empty()),
        }
    }
}

/// Index of the first row holding `p`, if any.
pub open spec fn find_port(rows: Seq<(u16, ServiceEntryV)>, p: u16) -> Option<int>
    decreases rows.len(),
{
    if rows.len() == 0 {
        None
    } else if rows[0].0 == p {
        Some(0)
    } else {
        match find_port(rows.drop_first(), p) {
            Some(i) => Some(i + 1),
            None => None,
        }
    }
}

pub proof fn lemma_find_port(rows: Seq<(u16, ServiceEntryV)>, p: u16)
    ensures
        match find_port(rows, p) {
            Some(i) => 0 <= i < rows.len() && rows[i].0 == p && (forall|k: int|
                0 <= k < i ==> rows[k].0 != p),
            None => forall|k: int| 0 <= k < rows.len() ==> rows[k].0 != p,
        },
    decreases rows.len(),
{
    if rows.len() > 0 && rows[0].0 != p {
        let rest = rows.drop_first();
        lemma_find_port(rest, p);
        assert(forall|k: int| 0 <= k < rest.len() ==> rest[k] == rows[k + 1]);
        match find_port(rest, p) {
            Some(i) => {
                assert(rest[i] == rows[i + 1]);
                assert(find_port(rows, p) == Some(i + 1));
                assert forall|k: int| 0 <= k < i + 1 implies rows[k].0 != p by {
                    if k > 0 {
                        assert(rest[k - 1] == rows[k]);
                    }
                }
            },
            None => {
                assert forall|k: int| 0 <= k < rows.len() implies rows[k].0 != p by {
                    if k > 0 {
                        assert(rest[k - 1] == rows[k]);
                    }
                }
            },
        }
    }
}

/// A new row replaces the existing row for its port, or is appended.
pub open spec fn upsert_row(
    rows: Seq<(u16, ServiceEntryV)>,
    r: (u16, ServiceEntryV),
) -> Seq<(u16, ServiceEntryV)> {
    match find_port(rows, r.0) {
        Some(i) => rows.update(i, r),
        None => rows.push(r),
    }
}

/// The catalog rows produced by the given data lines, in order, last row for
/// a port winning.
pub open spec fn spec_rows_of_lines(ls: Seq<Seq<u8>>) -> Seq<(u16, ServiceEntryV)>
    decreases ls.len(),
{
    if ls.len() == 0 {
        Seq::empty()
    } else {
        let prev = spec_rows_of_lines(ls.drop_last());
        match spec_parse_line(ls.last()) {
            Some(r) => upsert_row(prev, r),
            None => prev,
        }
    }
}

/// The whole catalog determined by the raw database text.
pub open spec fn spec_parse_services(raw: Seq<u8>) -> Seq<(u16, ServiceEntryV)> {
    spec_rows_of_lines(spec_lines(raw))
}

/// What `lookup` answers: the entry of the first (hence only) row for `port`.
pub open spec fn spec_lookup(rows: Seq<(u16, ServiceEntryV)>, port: u16) -> Option<ServiceEntryV> {
    match find_port(rows, port) {
        Some(i) => Some(rows[i].1),
        None => None,
    }
}

/// Ports are unique across the rows.
pub open spec fn unique_ports(rows: Seq<(u16, ServiceEntryV)>) -> bool {
    forall|i: int, j: int| 0 <= i < j < rows.len() ==> rows[i].0 != rows[j].0
}

pub proof fn lemma_upsert_unique(rows: Seq<(u16, ServiceEntryV)>, r: (u16, ServiceEntryV))
    requires
        unique_ports(rows),
    ensures
        unique_ports(upsert_row(rows, r)),
{
    lemma_find_port(rows, r.0);
    match find_port(rows, r.0) {
        Some(i) => {
            let u = rows.update(i, r);
            assert forall|x: int, y: int| 0 <= x < y < u.len() implies u[x].0 != u[y].0 by {
                if x != i && y != i {
                    assert(u[x] == rows[x] && u[y] == rows[y]);
                }
            }
        },
        None => {},
    }
}

pub proof fn lemma_rows_unique(ls: Seq<Seq<u8>>)
    ensures
        unique_ports(spec_rows_of_lines(ls)),
    decreases ls.len(),
{
    if ls.len() > 0 {
        lemma_rows_unique(ls.drop_last());
        match spec_parse_line(ls.last()) {
            Some(r) => {
                lemma_upsert_unique(spec_rows_of_lines(ls.drop_last()), r);
            },
            None => {},
        }
    }
}

/// Parses the probability column; exact exec counterpart of `spec_parse_prb`.
#[verifier::rlimit(60)]
fn parse_prb(s: &[u8]) -> (r: Option<u64>)
    ensures
        r == spec_parse_prb(s@),
{
    match find_byte(s, 0, 46) {
        None => {
            let d = parse_dec_range(s, 0, s.len(), PRB_INT_MAX);
            proof {
                assert(s@.subrange(0, s@.len() as int) =~= s@);
                if d is Some {
                    lemma_dec_val_bounds(s@);
                }
            }
            match d {
                Some(v) => Some(v * PRB_SCALE),
                None => None,
            }
        },
        Some(h) => {
            let n = s.len();
            let d = parse_dec_range(s, 0, h, PRB_INT_MAX);
            proof {
                assert(s@.take(h as int) =~= s@.subrange(0, h as int));
                if d is Some {
                    lemma_dec_val_bounds(s@.take(h as int));
                }
            }
            let v = match d {
                Some(v) => v,
                None => {
                    return None;
                },
            };
            let ghost fp = s@.skip(h + 1);
            // every fraction byte must be a digit
            let mut j = h + 1;
            while j < n
                invariant
                    h + 1 <= j <= s@.len(),
                    all_digits(fp.take(j - h - 1)),
                decreases s@.len() - j,
            {
                let c = s[j];
                if c < 48 || c > 57 {
                    proof {
                        assert(fp[j - h - 1] == c);
                    }
                    return None;
                }
                proof {
                    assert(fp[j - h - 1] == c);
                    assert(forall|k: int|
                        0 <= k < j + 1 - h - 1 ==> fp.take(j + 1 - h - 1)[k] == fp[k]);
                }
                j += 1;
            }
            proof {
                assert(fp.take(s@.len() - h - 1) =~= fp);
            }
            // value of the first six fraction digits, then the scale that
            // pads shorter fractions out to millionths
            let flen = n - (h + 1);
            let fe = if flen >= 6 {
                h + 1 + 6
            } else {
                n
            };
            let mut v6: u64 = 0;
            let mut j2 = h + 1;
            while j2 < fe
                invariant
                    h + 1 <= j2 <= fe <= s@.len(),
                    fe - h - 1 <= 6,
                    v6 == dec_val(fp.take(j2 - h - 1)),
                    v6 <= 999999,
                decreases fe - j2,
            {
                let c = s[j2];
                proof {
                    assert(fp[j2 - h - 1] == c);
                    assert(fp.take(j2 - h).drop_last() =~= fp.take(j2 - h - 1));
                    assert(fp.take(j2 - h).last() == c);
                    assert(all_digits(fp.take(j2 - h)));
                    lemma_dec_val_upper(fp.take(j2 - h));
                    lemma_pow10_unfold_six();
                }
                v6 = v6 * 10 + (c - 48) as u64;
                j2 += 1;
            }
            let scale: u64 = if flen >= 6 {
                proof {
                    assert(fp.take(6) =~= fp.take(fe - h - 1));
                }
                1u64
            } else {
                pow10_exec(6 - flen)
            };
            proof {
                if flen < 6 {
                    assert(fp.take(flen as int) =~= fp);
                    lemma_dec_val_bounds(fp);
                    lemma_dec_val_upper(fp);
                    lemma_pow10_positive((6 - flen) as nat);
                    let pw = pow10((6 - flen) as nat);
                    vstd::arithmetic::mul::lemma_mul_inequality(
                        dec_val(fp),
                        pow10(flen as nat) - 1,
                        pw,
                    );
                    vstd::arithmetic::mul::lemma_mul_is_distributive_sub(
                        pw,
                        pow10(flen as nat),
                        1,
                    );
                    lemma_pow10_adds((6 - flen) as nat, flen as nat);
                    lemma_pow10_unfold_six();
                    vstd::arithmetic::mul::lemma_mul_inequality(0, dec_val(fp), pw);
                    assert(dec_val(fp) * pw <= pow10(6) - pw);
                    assert(0 <= dec_val(fp) * pw);
                }
            }
            Some(v * PRB_SCALE + v6 * scale)
        },
    }
}

/// Ten to the `n`th power, for small `n`.
fn pow10_exec(n: usize) -> (r: u64)
    requires
        n <= 6,
    ensures
        r == pow10(n as nat),
{
    proof {
        lemma_pow10_unfold_six();
    }
    if n == 0 {
        1
    } else if n == 1 {
        10
    } else if n == 2 {
        100
    } else if n == 3 {
        1000
    } else if n == 4 {
        10000
    } else if n == 5 {
        100000
    } else {
        1000000
    }
}

proof fn lemma_pow10_unfold_six()
    ensures
        pow10(0) == 1,
        pow10(1) == 10,
        pow10(2) == 100,
        pow10(3) == 1000,
        pow10(4) == 10000,
        pow10(5) == 100000,
        pow10(6) == 1000000,
{
    assert(pow10(0) == 1);
    assert(pow10(1) == 10);
    assert(pow10(2) == 100);
    assert(pow10(3) == 1000);
    assert(pow10(4) == 10000);
    assert(pow10(5) == 100000);
    assert(pow10(6) == 1000000);
}

proof fn lemma_pow10_adds(a: nat, b: nat)
    ensures
        pow10(a) * pow10(b) == pow10(a + b),
    decreases a,
{
    if a == 0 {
        assert(pow10(0) * pow10(b) == pow10(b));
    } else {
        lemma_pow10_adds((a - 1) as nat, b);
        assert(pow10(a) * pow10(b) == 10 * pow10((a - 1) as nat) * pow10(b));
        vstd::arithmetic::mul::lemma_mul_is_associative(
            10,
            pow10((a - 1) as nat),
            pow10(b),
        );
    }
}

/// The comment text that starts at `from` in `s`; exact exec counterpart of
/// `spec_comment` on that suffix.
fn comment_copy(s: &[u8], from: usize) -> (r: Vec<u8>)
    requires
        from <= s@.len(),
    ensures
        r@ == spec_comment(s@.skip(from as int)),
{
    let c0 = copy_range(s, from, s.len());
    proof {
        assert(c0@ =~= s@.skip(from as int));
    }
    let c1 = crate::text::trim_copy(c0.as_slice());
    let k = skip_run_idx(c1.as_slice(), 0, 35);
    proof {
        crate::text::lemma_skip_run_bounds(c1@, 0, 35);
    }
    let c2 = copy_range(c1.as_slice(), k, c1.len());
    proof {
        assert(c2@ =~= c1@.skip(k as int));
    }
    let c3 = crate::text::trim_copy(c2.as_slice());
    c3
}

/// Parses one data line; exact exec counterpart of `spec_parse_line`.
fn parse_line(line: &[u8]) -> (r: Option<CatalogRow>)
    ensures
        match r {
            Some(row) => spec_parse_line(line@) == Some(row@),
            None => spec_parse_line(line@) is None,
        },
{
    let t = crate::text::trim_copy(line);
    if t.len() == 0 {
        return None;
    }
    if t[0] == 35 {
        return None;
    }
    let (fields, comment): (Vec<u8>, Vec<u8>) = match find_byte(t.as_slice(), 0, 35) {
        Some(h) => {
            let fe = trim_end_pos(t.as_slice(), h);
            proof {
                crate::text::lemma_trim_end_idx(t@, h as int);
            }
            let f = copy_range(t.as_slice(), 0, fe);
            proof {
                assert(f@ =~= t@.subrange(0, trim_end_idx(t@, h as int)));
            }
            let c = comment_copy(t.as_slice(), h + 1);
            (f, c)
        },
        None => (t, Vec::new()),
    };
    let ghost fv = fields@;
    let ghost cv = comment@;
    proof {
        assert(spec_parse_line(line@) == spec_parse_fields(fv, cv));
    }
    let fs = fields.as_slice();
    let i0 = skip_ws_idx(fs, 0);
    proof {
        crate::text::lemma_skip_ws(fv, 0);
    }
    if i0 == fields.len() {
        return None;
    }
    let i1 = scan_token_idx(fs, i0);
    proof {
        crate::text::lemma_scan_token(fv, i0 as int);
    }
    let i2 = skip_ws_idx(fs, i1);
    proof {
        crate::text::lemma_skip_ws(fv, i1 as int);
    }
    if i2 == fields.len() {
        return None;
    }
    let i3 = scan_token_idx(fs, i2);
    proof {
        crate::text::lemma_scan_token(fv, i2 as int);
    }
    let i4 = skip_ws_idx(fs, i3);
    proof {
        crate::text::lemma_skip_ws(fv, i3 as int);
    }
    if i4 == fields.len() {
        return None;
    }
    let i5 = scan_token_idx(fs, i4);
    proof {
        crate::text::lemma_scan_token(fv, i4 as int);
    }
    let name = copy_range(fs, i0, i1);
    let pp = copy_range(fs, i2, i3);
    let ghost ppv = fv.subrange(i2 as int, i3 as int);
    let h2 = match find_byte(pp.as_slice(), 0, 47) {
        Some(h2) => h2,
        None => {
            return None;
        },
    };
    // the protocol token must be exactly `tcp`
    let plen = pp.len() - (h2 + 1);
    let ghost proto = ppv.skip(h2 + 1);
    if plen != 3 {
        proof {
            assert(tcp_label().len() == 3);
            assert(proto.len() != 3);
        }
        return None;
    }
    if !(pp[h2 + 1] == 116 && pp[h2 + 2] == 99 && pp[h2 + 3] == 112) {
        proof {
            if proto == tcp_label() {
                assert(proto[0] == 116 && proto[1] == 99 && proto[2] == 112);
                assert(ppv[h2 + 1] == 116 && ppv[h2 + 2] == 99 && ppv[h2 + 3] == 112);
            }
        }
        return None;
    }
    proof {
        assert(proto =~= tcp_label());
    }
    let port = match parse_u16_range(pp.as_slice(), 0, h2) {
        Some(p) => p,
        None => {
            proof {
                assert(ppv.take(h2 as int) =~= ppv.subrange(0, h2 as int));
            }
            return None;
        },
    };
    proof {
        assert(ppv.take(h2 as int) =~= ppv.subrange(0, h2 as int));
    }
    let pv = copy_range(fs, i4, i5);
    let prb = match parse_prb(pv.as_slice()) {
        Some(v) => v,
        None => {
            return None;
        },
    };
    Some(CatalogRow { port, entry: ServiceEntry { name, comment, prb } })
}

impl ServiceCatalog {
    /// Ports are unique across the catalog's rows.
    pub open spec fn wf(&self) -> bool {
        unique_ports(self@)
    }

    /// Replaces the row for `row.port`, or appends the row.
    fn upsert(&mut self, row: CatalogRow)
        ensures
            final(self)@ == upsert_row(old(self)@, row@),
    {
        let p = row.port;
        let mut j: usize = 0;
        while j < self.rows.len()
            invariant
                j <= self.rows@.len(),
                self == old(self),
                forall|k: int| 0 <= k < j ==> self@[k].0 != p,
            decreases self.rows@.len() - j,
        {
            if self.rows[j].port == p {
                proof {
                    lemma_find_port_is(old(self)@, p, j as int);
                }
                self.rows[j] = row;
                proof {
                    assert(self@ =~= old(self)@.update(j as int, row@));
                }
                return;
            }
            j += 1;
        }
        proof {
            lemma_find_port(self@, p);
            if find_port(self@, p) is Some {
                let i = find_port(self@, p)->Some_0;
                assert(self@[i].0 != p);
            }
        }
        self.rows.push(row);
        proof {
            assert(self@ =~= old(self)@.push(row@));
        }
    }

    /// The entry for `port`, if the catalog holds one.
    pub fn lookup(&self, port: u16) -> (r: Option<&ServiceEntry>)
        ensures
            match r {
                Some(e) => spec_lookup(self@, port) == Some(e@),
                None => spec_lookup(self@, port) is None,
            },
    {
        let mut j: usize = 0;
        while j < self.rows.len()
            invariant
                j <= self.rows@.len(),
                forall|k: int| 0 <= k < j ==> self@[k].0 != port,
            decreases self.rows@.len() - j,
        {
            if self.rows[j].port == port {
                proof {
                    lemma_find_port_is(self@, port, j as int);
                }
                return Some(&self.rows[j].entry);
            }
            j += 1;
        }
        proof {
            lemma_find_port(self@, port);
            if find_port(self@, port) is Some {
                let i = find_port(self@, port)->Some_0;
                assert(self@[i].0 != port);
            }
        }
        None
    }

    /// How many ports the catalog knows.
    pub fn len(&self) -> (r: usize)
        ensures
            r == self@.len(),
    {
        self.rows.len()
    }
}

/// `find_port` answers `Some(j)` exactly when `j` is the first row for `p`.
proof fn lemma_find_port_is(rows: Seq<(u16, ServiceEntryV)>, p: u16, j: int)
    requires
        0 <= j < rows.len(),
        rows[j].0 == p,
        forall|k: int| 0 <= k < j ==> rows[k].0 != p,
    ensures
        find_port(rows, p) == Some(j),
{
    lemma_find_port(rows, p);
    match find_port(rows, p) {
        Some(j2) => {
            if j2 < j {
                assert(rows[j2].0 != p);
            } else if j2 > j {
                assert(rows[j].0 != p);
            }
        },
        None => {
            assert(rows[j].0 != p);
        },
    }
}

/// Parses the whole service database. Every data line contributes its row,
/// in order, the last `tcp` row for a port winning; the result's ports are
/// unique.
pub fn get_services(raw: &[u8]) -> (r: ServiceCatalog)
    ensures
        r@ == spec_parse_services(raw@),
        r.wf(),
{
    let lines = split_lines(raw);
    let ghost lv = seq_views(lines@);
    let mut cat = ServiceCatalog { rows: Vec::new() };
    proof {
        assert(cat@ =~= spec_rows_of_lines(lv.take(0)));
    }
    let mut i: usize = 0;
    while i < lines.len()
        invariant
            i <= lines@.len(),
            lv == seq_views(lines@),
            cat@ == spec_rows_of_lines(lv.take(i as int)),
        decreases lines@.len() - i,
    {
        proof {
            assert(lv.take(i + 1).drop_last() =~= lv.take(i as int));
            assert(lv.take(i + 1).last() == lines@[i as int]@);
        }
        match parse_line(lines[i].as_slice()) {
            Some(row) => {
                cat.upsert(row);
            },
            None => {},
        }
        i += 1;
    }
    proof {
        assert(lv.take(lines@.len() as int) =~= lv);
        lemma_rows_unique(lv);
    }
    cat
}

} // verus!

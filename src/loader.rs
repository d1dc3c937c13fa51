use vstd::prelude::*;

use crate::aggregate::Chromosome;
use crate::interval::{Interval, RATE_SCALE};
use crate::text::{all_digits, digits_value, field_bounds, parse_digits, slices, split_white};

verus! {

/// Why a table could not be read.
#[derive(Clone, Copy, Debug, PartialEq, Eq)]
pub enum LoadError {
    /// The line at `index` (counting the header as 0) does not have five fields.
    MalformedRow { index: usize, fields: usize },
}

/// A number's text without its optional leading `+`.
pub open spec fn unsigned_part(s: Seq<char>) -> Seq<char> {
    if s.len() > 0 && s[0] == '+' {
        s.drop_first()
    } else {
        s
    }
}

/// A coordinate field: an unsigned decimal that fits a `usize`, else 0.
pub open spec fn coord_value(s: Seq<char>) -> int {
    let d = unsigned_part(s);
    if d.len() > 0 && all_digits(d) && digits_value(d) <= usize::MAX {
        digits_value(d)
    } else {
        0
    }
}

/// Index of the first `.` of `s` at or after `i`, or `s.len()`.
pub open spec fn find_dot(s: Seq<char>, i: int) -> int
    decreases s.len() - i,
{
    if i >= s.len() {
        s.len() as int
    } else if s[i] == '.' {
        i
    } else {
        find_dot(s, i + 1)
    }
}

pub open spec fn pow10(k: nat) -> int
    decreases k,
{
    if k == 0 {
        1
    } else {
        10 * pow10((k - 1) as nat)
    }
}

/// Index of the first `e` or `E` of `s` at or after `i`, or `s.len()`.
pub open spec fn find_exp(s: Seq<char>, i: int) -> int
    decreases s.len() - i,
{
    if i >= s.len() {
        s.len() as int
    } else if s[i] == 'e' || s[i] == 'E' {
        i
    } else {
        find_exp(s, i + 1)
    }
}

/// The number before the exponent marker.
pub open spec fn mantissa_of(t: Seq<char>) -> Seq<char> {
    t.take(find_exp(t, 0))
}

/// What follows the exponent marker; empty where there is none.
pub open spec fn exponent_text(t: Seq<char>) -> Seq<char> {
    let x = find_exp(t, 0);
    if x < t.len() {
        t.skip(x + 1)
    } else {
        seq![]
    }
}

/// An exponent's digits, without its optional sign.
pub open spec fn exponent_digits(et: Seq<char>) -> Seq<char> {
    if et.len() > 0 && (et[0] == '+' || et[0] == '-') {
        et.drop_first()
    } else {
        et
    }
}

/// The digits of a mantissa before its `.`.
pub open spec fn int_part(m: Seq<char>) -> Seq<char> {
    m.take(find_dot(m, 0))
}

/// The digits of a mantissa after its `.`; empty where there is none.
pub open spec fn frac_part(m: Seq<char>) -> Seq<char> {
    let d = find_dot(m, 0);
    if d < m.len() {
        m.skip(d + 1)
    } else {
        seq![]
    }
}

/// What the digits `ds` write in billionths when the first `l` of them stand
/// at or above the billionths place; the digits below it are dropped.
pub open spec fn scaled_digits(ds: Seq<char>, l: int) -> int {
    if l <= 0 {
        0
    } else if l >= ds.len() {
        digits_value(ds) * pow10((l - ds.len()) as nat)
    } else {
        digits_value(ds.take(l))
    }
}

/// A rate field in billionths: `[+]digits[.digits][(e|E)[+|-]digits]`, with at
/// least one mantissa digit and an exponent that fits a `u64`; digits below a
/// billionth are dropped. Anything else, or a value over `u64::MAX`, reads as 0.
pub open spec fn rate_value(s: Seq<char>) -> int {
    let t = unsigned_part(s);
    let m = mantissa_of(t);
    let et = exponent_text(t);
    let ed = exponent_digits(et);
    let ip = int_part(m);
    let fp = frac_part(m);
    let e = if et.len() > 0 && et[0] == '-' {
        -digits_value(ed)
    } else {
        digits_value(ed)
    };
    let exp_ok = find_exp(t, 0) == t.len() || (ed.len() > 0 && all_digits(ed) && digits_value(ed)
        <= u64::MAX);
    let v = scaled_digits(ip + fp, ip.len() + e + 9);
    if all_digits(ip) && all_digits(fp) && ip.len() + fp.len() > 0 && exp_ok && v <= u64::MAX {
        v
    } else {
        0
    }
}

/// The chromosome and interval of a data line, or `None` where it does not
/// have five fields.
pub open spec fn row_of(line: Seq<char>) -> Option<(Seq<char>, Interval)> {
    let f = split_white(line);
    if f.len() != 5 {
        None
    } else {
        Some(
            (
                f[0],
                Interval {
                    start: coord_value(f[1]) as usize,
                    end: coord_value(f[2]) as usize,
                    rate: rate_value(f[4]) as u64,
                },
            ),
        )
    }
}

pub open spec fn table_view(t: Seq<Chromosome>) -> Seq<(Seq<char>, Seq<Interval>)> {
    t.map_values(|c: Chromosome| (c.name@, c.intervals@))
}

/// Index of the last entry named `name`, or -1.
pub open spec fn find_name(t: Seq<(Seq<char>, Seq<Interval>)>, name: Seq<char>) -> int
    decreases t.len(),
{
    if t.len() == 0 {
        -1
    } else if t.last().0 == name {
        t.len() - 1
    } else {
        find_name(t.drop_last(), name)
    }
}

/// Names compared character by character, by code point; a proper prefix
/// comes first. This is the order of `str`'s `<`.
pub open spec fn name_lt(a: Seq<char>, b: Seq<char>) -> bool
    decreases a.len(),
{
    if a.len() == 0 {
        b.len() > 0
    } else if b.len() == 0 {
        false
    } else if a[0] != b[0] {
        a[0] < b[0]
    } else {
        name_lt(a.drop_first(), b.drop_first())
    }
}

/// Where a new entry named `name` goes: before the first entry whose name
/// comes after it.
pub open spec fn insert_pos(t: Seq<(Seq<char>, Seq<Interval>)>, name: Seq<char>) -> int
    decreases t.len(),
{
    if t.len() == 0 {
        0
    } else if name_lt(name, t[0].0) {
        0
    } else {
        1 + insert_pos(t.drop_first(), name)
    }
}

/// `t` with `iv` appended to the entry named `name`; where there is none, a new
/// entry is inserted at `insert_pos`, so that a table built this way lists its
/// chromosomes in ascending name order.
pub open spec fn add_row(t: Seq<(Seq<char>, Seq<Interval>)>, name: Seq<char>, iv: Interval) -> Seq<
    (Seq<char>, Seq<Interval>),
> {
    let k = find_name(t, name);
    if k < 0 {
        t.insert(insert_pos(t, name), (name, seq![iv]))
    } else {
        t.update(k, (t[k].0, t[k].1.push(iv)))
    }
}

/// The table that `lines` hold: the first line is a header; each other line
/// must have five fields, and is kept unless its end coordinate reads as 0.
pub open spec fn load(lines: Seq<Seq<char>>) -> Result<Seq<(Seq<char>, Seq<Interval>)>, LoadError>
    decreases lines.len(),
{
    if lines.len() <= 1 {
        Ok(seq![])
    } else {
        match load(lines.drop_last()) {
            Err(e) => Err(e),
            Ok(t) => match row_of(lines.last()) {
                None => Err(
                    LoadError::MalformedRow {
                        index: (lines.len() - 1) as usize,
                        fields: split_white(lines.last()).len() as usize,
                    },
                ),
                Some(row) => if row.1.end == 0 {
                    Ok(t)
                } else {
                    Ok(add_row(t, row.0, row.1))
                },
            },
        }
    }
}

/// Reads a coordinate field `line[a..b]`.
fn parse_coord(line: &str, a: usize, b: usize) -> (r: usize)
    requires
        a <= b <= line@.len(),
    ensures
        r == coord_value(line@.subrange(a as int, b as int)),
{
    let ghost s = line@.subrange(a as int, b as int);
    let mut a2 = a;
    if a < b && line.get_char(a) == '+' {
        a2 = a + 1;
    }
    assert(unsigned_part(s) =~= line@.subrange(a2 as int, b as int));
    if a2 == b {
        return 0;
    }
    let ghost u = line@.subrange(a2 as int, b as int);
    assert(usize::MAX <= u64::MAX);
    match parse_digits(line, a2, b, u64::MAX) {
        Some(v) => {
            assert(all_digits(u) && digits_value(u) == v);
            if (v as u128) <= (usize::MAX as u128) {
                v as usize
            } else {
                0
            }
        },
        None => {
            assert(!all_digits(u) || digits_value(u) > usize::MAX);
            0
        },
    }
}

/// Tells whether `line[a..b]` is all digits.
fn digits_only(line: &str, a: usize, b: usize) -> (r: bool)
    requires
        a <= b <= line@.len(),
    ensures
        r == all_digits(line@.subrange(a as int, b as int)),
{
    let mut i: usize = a;
    while i < b
        invariant
            a <= i <= b <= line@.len(),
            all_digits(line@.subrange(a as int, i as int)),
        decreases b - i,
    {
        let c = line.get_char(i);
        if !('0' <= c && c <= '9') {
            assert(line@.subrange(a as int, b as int)[i - a] == c);
            return false;
        }
        assert forall|j: int| 0 <= j < i + 1 - a implies crate::text::is_digit(
            #[trigger] line@.subrange(a as int, i + 1)[j],
        ) by {
            if j < i - a {
                assert(line@.subrange(a as int, i + 1)[j] == line@.subrange(a as int, i as int)[j]);
            }
        }
        i = i + 1;
    }
    true
}

/// Index of the first `.` in `line[a..b]`, or `b`.
fn dot_in(line: &str, a: usize, b: usize) -> (r: usize)
    requires
        a <= b <= line@.len(),
    ensures
        a <= r <= b,
        r - a == find_dot(line@.subrange(a as int, b as int), 0),
{
    let ghost s = line@.subrange(a as int, b as int);
    let mut i: usize = a;
    while i < b
        invariant
            a <= i <= b <= line@.len(),
            s == line@.subrange(a as int, b as int),
            find_dot(s, 0) == find_dot(s, i - a),
        decreases b - i,
    {
        if line.get_char(i) == '.' {
            assert(s[i - a] == '.');
            return i;
        }
        assert(s[i - a] != '.');
        i = i + 1;
    }
    i
}

/// Index of the first `e` or `E` in `line[a..b]`, or `b`.
fn exp_in(line: &str, a: usize, b: usize) -> (r: usize)
    requires
        a <= b <= line@.len(),
    ensures
        a <= r <= b,
        r - a == find_exp(line@.subrange(a as int, b as int), 0),
{
    let ghost s = line@.subrange(a as int, b as int);
    let mut i: usize = a;
    while i < b
        invariant
            a <= i <= b <= line@.len(),
            s == line@.subrange(a as int, b as int),
            find_exp(s, 0) == find_exp(s, i - a),
        decreases b - i,
    {
        let c = line.get_char(i);
        assert(s[i - a] == c);
        if c == 'e' || c == 'E' {
            return i;
        }
        i = i + 1;
    }
    i
}

proof fn lemma_pow10_pos(k: nat)
    ensures
        pow10(k) >= 1,
    decreases k,
{
    if k > 0 {
        lemma_pow10_pos((k - 1) as nat);
    }
}

/// The characters `line[a..b]` followed by `line[c..d]`.
fn join_chars(line: &str, a: usize, b: usize, c: usize, d: usize) -> (r: Vec<char>)
    requires
        a <= b <= line@.len(),
        c <= d <= line@.len(),
    ensures
        r@ == line@.subrange(a as int, b as int) + line@.subrange(c as int, d as int),
{
    let mut out: Vec<char> = Vec::new();
    let mut i: usize = a;
    while i < b
        invariant
            a <= i <= b <= line@.len(),
            out@ == line@.subrange(a as int, i as int),
        decreases b - i,
    {
        out.push(line.get_char(i));
        assert(out@ =~= line@.subrange(a as int, i + 1));
        i = i + 1;
    }
    let mut j: usize = c;
    while j < d
        invariant
            c <= j <= d <= line@.len(),
            a <= b <= line@.len(),
            out@ == line@.subrange(a as int, b as int) + line@.subrange(c as int, j as int),
        decreases d - j,
    {
        out.push(line.get_char(j));
        assert(out@ =~= line@.subrange(a as int, b as int) + line@.subrange(c as int, j + 1));
        j = j + 1;
    }
    out
}

/// The value of the first `k` digits of `ds`, where it is at most `u64::MAX`.
fn prefix_value(ds: &Vec<char>, k: usize) -> (r: Option<u64>)
    requires
        all_digits(ds@),
        k <= ds@.len(),
    ensures
        r is Some <==> digits_value(ds@.take(k as int)) <= u64::MAX,
        r is Some ==> r->0 == digits_value(ds@.take(k as int)),
{
    let mut v: u64 = 0;
    let mut i: usize = 0;
    let mut fits = true;
    assert(ds@.take(0) =~= Seq::<char>::empty());
    while i < k
        invariant
            i <= k <= ds@.len(),
            all_digits(ds@),
            all_digits(ds@.take(i as int)),
            fits ==> v == digits_value(ds@.take(i as int)),
            !fits ==> digits_value(ds@.take(i as int)) > u64::MAX,
        decreases k - i,
    {
        let c = ds[i];
        let ghost t = ds@.take(i + 1);
        assert(t.drop_last() =~= ds@.take(i as int));
        assert(t.last() == c);
        assert(crate::text::is_digit(ds@[i as int]));
        let dg = (c as u32 - '0' as u32) as u64;
        if fits {
            if v > (u64::MAX - dg) / 10 {
                fits = false;
                assert(v * 10 + dg > u64::MAX) by (nonlinear_arith)
                    requires
                        v > (u64::MAX - dg) / 10,
                        dg <= 9,
                ;
            } else {
                assert(v * 10 + dg <= u64::MAX) by (nonlinear_arith)
                    requires
                        v <= (u64::MAX - dg) / 10,
                        dg <= 9,
                ;
                v = v * 10 + dg;
            }
        } else {
            proof {
                crate::text::lemma_digits_nonneg(ds@.take(i as int));
            }
        }
        assert(all_digits(t)) by {
            assert forall|j: int| 0 <= j < t.len() implies crate::text::is_digit(#[trigger] t[j]) by {
                assert(t[j] == ds@[j]);
            }
        }
        i = i + 1;
    }
    if fits {
        Some(v)
    } else {
        None
    }
}

/// `scaled_digits(ds, l)`, where it is at most `u64::MAX`.
fn scaled_value(ds: &Vec<char>, l: i128) -> (r: Option<u64>)
    requires
        all_digits(ds@),
    ensures
        r is Some <==> scaled_digits(ds@, l as int) <= u64::MAX,
        r is Some ==> r->0 == scaled_digits(ds@, l as int),
{
    let ghost sv = scaled_digits(ds@, l as int);
    if l <= 0 {
        return Some(0);
    }
    let n = ds.len();
    if l < n as i128 {
        return prefix_value(ds, l as usize);
    }
    assert(ds@.take(n as int) =~= ds@);
    let count: u128 = (l - n as i128) as u128;
    assert(sv == digits_value(ds@) * pow10(count as nat));
    let base = match prefix_value(ds, n) {
        Some(v) => v,
        None => {
            proof {
                lemma_pow10_pos(count as nat);
                assert(digits_value(ds@) * pow10(count as nat) >= digits_value(ds@)) by (
                nonlinear_arith)
                    requires
                        pow10(count as nat) >= 1,
                        digits_value(ds@) > u64::MAX,
                ;
            }
            return None;
        },
    };
    let mut v: u64 = base;
    let mut k: u128 = 0;
    while k < count
        invariant
            k <= count,
            sv == scaled_digits(ds@, l as int),
            sv == v * pow10((count - k) as nat),
        decreases count - k,
    {
        let ghost rest = (count - k) as nat;
        assert(pow10(rest) == 10 * pow10((rest - 1) as nat));
        if v == 0 {
            assert(sv == 0) by (nonlinear_arith)
                requires
                    sv == v * pow10(rest),
                    v == 0,
            ;
            return Some(0);
        }
        if v > u64::MAX / 10 {
            proof {
                lemma_pow10_pos((rest - 1) as nat);
                assert(v * pow10(rest) > u64::MAX) by (nonlinear_arith)
                    requires
                        pow10(rest) == 10 * pow10((rest - 1) as nat),
                        pow10((rest - 1) as nat) >= 1,
                        v > u64::MAX / 10,
                ;
            }
            return None;
        }
        assert(v * pow10(rest) == (v * 10) * pow10((rest - 1) as nat)) by (nonlinear_arith)
            requires
                pow10(rest) == 10 * pow10((rest - 1) as nat),
        ;
        v = v * 10;
        k = k + 1;
    }
    Some(v)
}

/// Reads a rate field `line[a..b]` in billionths.
#[verifier::rlimit(60)]
fn parse_rate(line: &str, a: usize, b: usize) -> (r: u64)
    requires
        a <= b <= line@.len(),
    ensures
        r == rate_value(line@.subrange(a as int, b as int)),
{
    let ghost s = line@.subrange(a as int, b as int);
    let mut a2 = a;
    if a < b && line.get_char(a) == '+' {
        a2 = a + 1;
    }
    let ghost t = line@.subrange(a2 as int, b as int);
    assert(unsigned_part(s) =~= t);
    let x = exp_in(line, a2, b);
    let ghost m = line@.subrange(a2 as int, x as int);
    assert(mantissa_of(t) =~= m);
    let d = dot_in(line, a2, x);
    let ghost ip = line@.subrange(a2 as int, d as int);
    assert(int_part(m) =~= ip);
    let f0 = if d < x {
        d + 1
    } else {
        x
    };
    let ghost fp = line@.subrange(f0 as int, x as int);
    assert(frac_part(m) =~= fp);
    if a2 == d && f0 == x {
        return 0;
    }
    if !digits_only(line, a2, d) || !digits_only(line, f0, x) {
        return 0;
    }
    let mut neg = false;
    let mut e: u64 = 0;
    let ghost et = exponent_text(t);
    let ghost ed = exponent_digits(et);
    if x < b {
        assert(et =~= line@.subrange(x + 1, b as int));
        let mut e0 = x + 1;
        if e0 < b {
            let c = line.get_char(e0);
            if c == '+' || c == '-' {
                neg = c == '-';
                e0 = e0 + 1;
            }
        }
        assert(ed =~= line@.subrange(e0 as int, b as int));
        if e0 == b {
            return 0;
        }
        match parse_digits(line, e0, b, u64::MAX) {
            Some(v) => {
                e = v;
            },
            None => {
                return 0;
            },
        }
    } else {
        assert(et =~= Seq::<char>::empty());
    }
    let ghost ev: int = if et.len() > 0 && et[0] == '-' {
        -digits_value(ed)
    } else {
        digits_value(ed)
    };
    assert(neg ==> ev == -(e as int));
    assert(!neg ==> ev == e as int);
    let ds = join_chars(line, a2, d, f0, x);
    assert(all_digits(ds@)) by {
        assert forall|j: int| 0 <= j < ds@.len() implies crate::text::is_digit(#[trigger] ds@[j]) by {
            if j < ip.len() {
                assert(ds@[j] == ip[j]);
            } else {
                assert(ds@[j] == fp[j - ip.len()]);
            }
        }
    }
    let il = (d - a2) as i128;
    let l: i128 = if neg {
        il + 9 - e as i128
    } else {
        il + 9 + e as i128
    };
    assert(l == ip.len() + ev + 9);
    match scaled_value(&ds, l) {
        Some(v) => v,
        None => 0,
    }
}

pub open spec fn lines_view(lines: Seq<String>) -> Seq<Seq<char>> {
    lines.map_values(|l: String| l@)
}

/// Reads one data line: its chromosome and interval, or, where it does not
/// have five fields, the number of fields it has.
pub fn parse_line(line: &str) -> (r: Result<(String, Interval), usize>)
    ensures
        match r {
            Ok(row) => row_of(line@) == Some((row.0@, row.1)),
            Err(n) => row_of(line@) is None && n == split_white(line@).len(),
        },
{
    let f = field_bounds(line);
    let ghost fs = split_white(line@);
    assert(fs.len() == f@.len());
    if f.len() != 5 {
        return Err(f.len());
    }
    assert(fs[0] == line@.subrange(f@[0].0 as int, f@[0].1 as int));
    assert(fs[1] == line@.subrange(f@[1].0 as int, f@[1].1 as int));
    assert(fs[2] == line@.subrange(f@[2].0 as int, f@[2].1 as int));
    assert(fs[4] == line@.subrange(f@[4].0 as int, f@[4].1 as int));
    let name = line.substring_char(f[0].0, f[0].1).to_owned();
    let start = parse_coord(line, f[1].0, f[1].1);
    let end = parse_coord(line, f[2].0, f[2].1);
    let rate = parse_rate(line, f[4].0, f[4].1);
    Ok((name, Interval { start, end, rate }))
}

/// Tells whether `a` comes before `b` in name order.
fn name_before(a: &str, b: &str) -> (r: bool)
    ensures
        r == name_lt(a@, b@),
{
    let na = a.unicode_len();
    let nb = b.unicode_len();
    let mut i: usize = 0;
    assert(a@.skip(0) =~= a@);
    assert(b@.skip(0) =~= b@);
    while i < na && i < nb
        invariant
            na == a@.len(),
            nb == b@.len(),
            0 <= i <= na,
            i <= nb,
            name_lt(a@, b@) == name_lt(a@.skip(i as int), b@.skip(i as int)),
        decreases na - i,
    {
        let ca = a.get_char(i);
        let cb = b.get_char(i);
        assert(a@.skip(i as int)[0] == ca);
        assert(b@.skip(i as int)[0] == cb);
        if ca != cb {
            return ca < cb;
        }
        assert(a@.skip(i as int).drop_first() =~= a@.skip(i + 1));
        assert(b@.skip(i as int).drop_first() =~= b@.skip(i + 1));
        i = i + 1;
    }
    i == na && i < nb
}

/// Index at which a new chromosome named `name` goes in `t`.
fn insert_position(t: &Vec<Chromosome>, name: &String) -> (r: usize)
    ensures
        r == insert_pos(table_view(t@), name@),
        r <= t@.len(),
{
    let ghost tv = table_view(t@);
    let mut j: usize = 0;
    assert(tv.skip(0) =~= tv);
    while j < t.len()
        invariant
            j <= t@.len(),
            tv == table_view(t@),
            insert_pos(tv, name@) == j + insert_pos(tv.skip(j as int), name@),
        decreases t@.len() - j,
    {
        assert(tv.skip(j as int)[0] == tv[j as int]);
        if name_before(name.as_str(), t[j].name.as_str()) {
            return j;
        }
        assert(tv.skip(j as int).drop_first() =~= tv.skip(j + 1));
        j = j + 1;
    }
    assert(tv.skip(j as int).len() == 0);
    j
}

/// Index of the last chromosome of `t` named `name`.
fn find_chromosome(t: &Vec<Chromosome>, name: &String) -> (r: Option<usize>)
    ensures
        match r {
            Some(k) => k < t@.len() && find_name(table_view(t@), name@) == k,
            None => find_name(table_view(t@), name@) == -1,
        },
{
    let ghost tv = table_view(t@);
    let mut j: usize = t.len();
    assert(tv.take(j as int) =~= tv);
    while j > 0
        invariant
            j <= t@.len(),
            tv == table_view(t@),
            find_name(tv, name@) == find_name(tv.take(j as int), name@),
        decreases j,
    {
        let ghost p = tv.take(j as int);
        assert(p.drop_last() =~= tv.take(j - 1));
        assert(p.last() == tv[j - 1]);
        if t[j - 1].name == *name {
            return Some(j - 1);
        }
        j = j - 1;
    }
    assert(tv.take(0) =~= Seq::<(Seq<char>, Seq<Interval>)>::empty());
    None
}

/// Reads a table: `lines[0]` is a header; each later line has the fields
/// chromosome, start, end, one unused field, and rate. Lines whose end reads as
/// 0 are dropped; the others are grouped by chromosome, in ascending name
/// order, each chromosome's intervals in line order.
pub fn parse_file(lines: &Vec<String>) -> (r: Result<Vec<Chromosome>, LoadError>)
    ensures
        match r {
            Ok(t) => load(lines_view(lines@)) == Ok::<
                Seq<(Seq<char>, Seq<Interval>)>,
                LoadError,
            >(table_view(t@)),
            Err(e) => load(lines_view(lines@)) == Err::<
                Seq<(Seq<char>, Seq<Interval>)>,
                LoadError,
            >(e),
        },
{
    let ghost lv = lines_view(lines@);
    let mut out: Vec<Chromosome> = Vec::new();
    let n = lines.len();
    if n == 0 {
        assert(table_view(out@) =~= Seq::<(Seq<char>, Seq<Interval>)>::empty());
        return Ok(out);
    }
    let mut i: usize = 1;
    assert(table_view(out@) =~= Seq::<(Seq<char>, Seq<Interval>)>::empty());
    while i < n
        invariant
            1 <= i <= n,
            n == lines@.len(),
            lv == lines_view(lines@),
            load(lv.take(i as int)) == Ok::<Seq<(Seq<char>, Seq<Interval>)>, LoadError>(
                table_view(out@),
            ),
        decreases n - i,
    {
        let ghost t = lv.take(i + 1);
        assert(t.drop_last() =~= lv.take(i as int));
        assert(t.last() == lines@[i as int]@);
        match parse_line(lines[i].as_str()) {
            Err(fields) => {
                proof {
                    lemma_load_error_sticks(lv, i as int + 1);
                }
                return Err(LoadError::MalformedRow { index: i, fields });
            },
            Ok(row) => {
                let (name, iv) = row;
                if iv.end != 0 {
                    let ghost prev = table_view(out@);
                    match find_chromosome(&out, &name) {
                        None => {
                            let pos = insert_position(&out, &name);
                            let ghost nm = name@;
                            out.insert(pos, Chromosome { name, intervals: vec![iv] });
                            assert(table_view(out@) =~= add_row(prev, nm, iv)) by {
                                assert(out@[pos as int].intervals@ =~= seq![iv]);
                            }
                        },
                        Some(k) => {
                            let mut c = out.remove(k);
                            c.intervals.push(iv);
                            out.insert(k, c);
                            assert(table_view(out@) =~= add_row(prev, name@, iv));
                        },
                    }
                }
            },
        }
        i = i + 1;
    }
    assert(lv.take(n as int) =~= lv);
    Ok(out)
}

/// Once a prefix of the lines fails to load, all of them fail the same way.
proof fn lemma_load_error_sticks(lines: Seq<Seq<char>>, i: int)
    requires
        1 <= i <= lines.len(),
        load(lines.take(i)) is Err,
    ensures
        load(lines) == load(lines.take(i)),
    decreases lines.len() - i,
{
    if i < lines.len() {
        let t = lines.take(i + 1);
        assert(t.drop_last() =~= lines.take(i));
        lemma_load_error_sticks(lines, i + 1);
    } else {
        assert(lines.take(i) =~= lines);
    }
}

} // verus!

use vstd::prelude::*;

verus! {

/// Unicode White_Space, the set that `char::is_whitespace` tests.
pub open spec fn is_white(c: char) -> bool {
    ||| c == ' '
    ||| ('\t' <= c && c <= '\r')
    ||| c == '\u{85}'
    ||| c == '\u{a0}'
    ||| c == '\u{1680}'
    ||| ('\u{2000}' <= c && c <= '\u{200a}')
    ||| c == '\u{2028}'
    ||| c == '\u{2029}'
    ||| c == '\u{202f}'
    ||| c == '\u{205f}'
    ||| c == '\u{3000}'
}

pub fn is_white_char(c: char) -> (r: bool)
    ensures
        r == is_white(c),
{
    c == ' ' || ('\t' <= c && c <= '\r') || c == '\u{85}' || c == '\u{a0}' || c == '\u{1680}' || (
    '\u{2000}' <= c && c <= '\u{200a}') || c == '\u{2028}' || c == '\u{2029}' || c == '\u{202f}'
        || c == '\u{205f}' || c == '\u{3000}'
}

/// The maximal runs of non-white characters of `s`, in order.
pub open spec fn split_white(s: Seq<char>) -> Seq<Seq<char>>
    decreases s.len(),
{
    if s.len() == 0 {
        seq![]
    } else {
        let p = split_white(s.drop_last());
        let c = s.last();
        if is_white(c) {
            p
        } else if s.len() >= 2 && !is_white(s[s.len() - 2]) {
            p.drop_last().push(p.last().push(c))
        } else {
            p.push(seq![c])
        }
    }
}

pub open spec fn slices(s: Seq<char>, b: Seq<(usize, usize)>) -> Seq<Seq<char>> {
    b.map_values(|p: (usize, usize)| s.subrange(p.0 as int, p.1 as int))
}

/// The bounds `[a, b)` of each white-separated field of `line`.
pub fn field_bounds(line: &str) -> (r: Vec<(usize, usize)>)
    ensures
        slices(line@, r@) == split_white(line@),
        forall|k: int| 0 <= k < r@.len() ==> (#[trigger] r@[k]).0 <= r@[k].1 <= line@.len(),
{
    let n = line.unicode_len();
    let mut out: Vec<(usize, usize)> = Vec::new();
    let mut i: usize = 0;
    assert(slices(line@, out@) =~= split_white(line@.take(0)));
    while i < n
        invariant
            n == line@.len(),
            0 <= i <= n,
            slices(line@, out@) == split_white(line@.take(i as int)),
            forall|k: int| 0 <= k < out@.len() ==> (#[trigger] out@[k]).0 <= out@[k].1 <= i,
            i > 0 && !is_white(line@[i - 1]) ==> out@.len() > 0 && out@.last().1 == i,
        decreases n - i,
    {
        let c = line.get_char(i);
        let ghost t = line@.take(i + 1);
        assert(t.drop_last() =~= line@.take(i as int));
        assert(t.last() == c);
        if !is_white_char(c) {
            if i > 0 && !is_white_char(line.get_char(i - 1)) {
                let k = out.len() - 1;
                let a = out[k].0;
                let ghost prev = out@;
                out.set(k, (a, i + 1));
                assert(t[t.len() - 2] == line@[i - 1]);
                assert(line@.subrange(a as int, i + 1) =~= line@.subrange(a as int, i as int).push(c));
                assert(slices(line@, out@) =~= slices(line@, prev).drop_last().push(
                    slices(line@, prev).last().push(c),
                ));
            } else {
                let ghost prev = out@;
                out.push((i, i + 1));
                assert(line@.subrange(i as int, i + 1) =~= seq![c]);
                assert(slices(line@, out@) =~= slices(line@, prev).push(seq![c]));
            }
        }
        i = i + 1;
    }
    assert(line@.take(n as int) =~= line@);
    out
}

pub open spec fn is_digit(c: char) -> bool {
    '0' <= c && c <= '9'
}

pub open spec fn all_digits(s: Seq<char>) -> bool {
    forall|i: int| 0 <= i < s.len() ==> is_digit(#[trigger] s[i])
}

/// The number that a run of decimal digits writes.
pub open spec fn digits_value(s: Seq<char>) -> int
    decreases s.len(),
{
    if s.len() == 0 {
        0
    } else {
        digits_value(s.drop_last()) * 10 + (s.last() as int - '0' as int)
    }
}

pub proof fn lemma_digits_nonneg(s: Seq<char>)
    requires
        all_digits(s),
    ensures
        0 <= digits_value(s),
    decreases s.len(),
{
    if s.len() > 0 {
        let p = s.drop_last();
        assert(all_digits(p)) by {
            assert forall|i: int| 0 <= i < p.len() implies is_digit(#[trigger] p[i]) by {
                assert(p[i] == s[i]);
            }
        }
        lemma_digits_nonneg(p);
        assert(is_digit(s[s.len() - 1]));
    }
}

/// The value of the digits `line[a..b]`, where they are all digits and the
/// value is at most `cap`.
pub fn parse_digits(line: &str, a: usize, b: usize, cap: u64) -> (r: Option<u64>)
    requires
        a <= b <= line@.len(),
    ensures
        r is Some <==> all_digits(line@.subrange(a as int, b as int)) && digits_value(
            line@.subrange(a as int, b as int),
        ) <= cap,
        r is Some ==> r->0 == digits_value(line@.subrange(a as int, b as int)),
{
    let ghost s = line@.subrange(a as int, b as int);
    let mut v: u64 = 0;
    let mut i: usize = a;
    let mut fits = true;
    while i < b
        invariant
            a <= i <= b <= line@.len(),
            s == line@.subrange(a as int, b as int),
            all_digits(s.take(i - a)),
            fits ==> v == digits_value(s.take(i - a)) && v <= cap,
            !fits ==> digits_value(s.take(i - a)) > cap,
        decreases b - i,
    {
        let c = line.get_char(i);
        let ghost t = s.take(i - a + 1);
        assert(t.drop_last() =~= s.take(i - a));
        assert(t.last() == c);
        if !('0' <= c && c <= '9') {
            assert(!all_digits(s)) by {
                assert(s[i - a] == c);
            }
            return None;
        }
        let d = (c as u32 - '0' as u32) as u64;
        if fits {
            if d > cap || v > (cap - d) / 10 {
                fits = false;
                assert(v * 10 + d > cap) by (nonlinear_arith)
                    requires
                        d > cap || v > (cap - d) / 10,
                        d <= 9,
                        v >= 0,
                ;
            } else {
                assert(v * 10 + d <= cap) by (nonlinear_arith)
                    requires
                        v <= (cap - d) / 10,
                        d <= cap,
                ;
                v = v * 10 + d;
            }
        } else {
            proof {
                lemma_digits_nonneg(s.take(i - a));
            }
        }
        assert(all_digits(t)) by {
            assert forall|j: int| 0 <= j < t.len() implies is_digit(#[trigger] t[j]) by {
                if j < t.len() - 1 {
                    assert(t[j] == s.take(i - a)[j]);
                }
            }
        }
        i = i + 1;
    }
    assert(s.take(b - a) =~= s);
    if fits {
        Some(v)
    } else {
        None
    }
}

} // verus!

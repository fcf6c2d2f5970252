//! Parsers for the plain-text fields of the input formats: unsigned
//! integers, unsigned decimals held as fixed-point integers, and
//! whitespace-separated words.
use vstd::prelude::*;

verus! {

pub open spec fn is_digit(c: char) -> bool {
    '0' <= c && c <= '9'
}

pub open spec fn digit_value(c: char) -> nat {
    (c as int - '0' as int) as nat
}

pub open spec fn all_digits(cs: Seq<char>) -> bool {
    forall|i: int| 0 <= i < cs.len() ==> is_digit(#[trigger] cs[i])
}

/// The number that the decimal digits `cs` spell.
pub open spec fn digits_value(cs: Seq<char>) -> nat
    decreases cs.len(),
{
    if cs.len() == 0 {
        0
    } else {
        digits_value(cs.drop_last()) * 10 + digit_value(cs.last())
    }
}

/// `cs` without one leading `+`.
pub open spec fn unsigned_part(cs: Seq<char>) -> Seq<char> {
    if cs.len() > 0 && cs[0] == '+' {
        cs.drop_first()
    } else {
        cs
    }
}

/// The value of an unsigned integer written as an optional `+` followed by
/// one or more decimal digits.
pub open spec fn unsigned_value(cs: Seq<char>) -> Option<nat> {
    let d = unsigned_part(cs);
    if d.len() > 0 && all_digits(d) {
        Some(digits_value(d))
    } else {
        None
    }
}

/// The index of the first `c` in `cs`, or its length if there is none.
pub open spec fn index_of(cs: Seq<char>, c: char) -> int
    decreases cs.len(),
{
    if cs.len() == 0 {
        0
    } else if cs[0] == c {
        0
    } else {
        1 + index_of(cs.drop_first(), c)
    }
}

pub open spec fn pow10(k: nat) -> nat
    decreases k,
{
    if k == 0 {
        1
    } else {
        10 * pow10((k - 1) as nat)
    }
}

/// The first `k` fractional digits `f` as an integer count of `10^-k`
/// units, missing digits counting as zero.
pub open spec fn fraction_units(f: Seq<char>, k: nat) -> nat
    decreases k,
{
    if k == 0 {
        0
    } else {
        fraction_units(f, (k - 1) as nat) * 10 + if k - 1 < f.len() {
            digit_value(f[k - 1])
        } else {
            0
        }
    }
}

/// An unsigned decimal: an optional `+`, digits, and optionally a `.` with
/// more digits, with at least one digit in all. Its value is the integral
/// part and the fraction truncated to `k` digits, in units of `10^-k`.
pub open spec fn fixed_value(cs: Seq<char>, k: nat) -> Option<(nat, nat)> {
    let d = unsigned_part(cs);
    let p = index_of(d, '.');
    let whole = d.take(p);
    let frac = if p < d.len() {
        d.skip(p + 1)
    } else {
        Seq::empty()
    };
    if all_digits(whole) && all_digits(frac) && whole.len() + frac.len() > 0 {
        Some((digits_value(whole), fraction_units(frac, k)))
    } else {
        None
    }
}

proof fn lemma_index_of(cs: Seq<char>, c: char, i: int)
    requires
        0 <= i <= cs.len(),
        forall|k: int| 0 <= k < i ==> cs[k] != c,
        i == cs.len() || cs[i] == c,
    ensures
        index_of(cs, c) == i,
    decreases cs.len(),
{
    if cs.len() > 0 && i > 0 {
        lemma_index_of(cs.drop_first(), c, i - 1);
    }
}

/// The index of the first `c` in `cs[from..to]`, relative to `from`, or
/// `to - from` if there is none.
pub fn find_char(cs: &Vec<char>, from: usize, to: usize, c: char) -> (r: usize)
    requires
        from <= to <= cs@.len(),
    ensures
        r == index_of(cs@.subrange(from as int, to as int), c),
        r <= to - from,
{
    let ghost s = cs@.subrange(from as int, to as int);
    let mut i: usize = from;
    while i < to
        invariant
            from <= i <= to <= cs@.len(),
            s == cs@.subrange(from as int, to as int),
            forall|k: int| 0 <= k < i - from ==> s[k] != c,
        decreases to - i,
    {
        if cs[i] == c {
            proof {
                lemma_index_of(s, c, i - from);
            }
            return i - from;
        }
        i = i + 1;
    }
    proof {
        lemma_index_of(s, c, to - from);
    }
    to - from
}

fn is_digit_char(c: char) -> (r: bool)
    ensures
        r == is_digit(c),
{
    '0' <= c && c <= '9'
}

fn digit_of(c: char) -> (r: u64)
    requires
        is_digit(c),
    ensures
        r == digit_value(c),
        r < 10,
{
    (c as u32 - '0' as u32) as u64
}

/// The value of the digits `cs[from..to]` if they are all digits and the
/// value is at most `max`; `None` otherwise.
fn digits_at_most(cs: &Vec<char>, from: usize, to: usize, max: u64) -> (r: Option<u64>)
    requires
        from <= to <= cs@.len(),
    ensures
        match r {
            Some(v) => all_digits(cs@.subrange(from as int, to as int)) && v == digits_value(
                cs@.subrange(from as int, to as int),
            ) && v <= max,
            None => !all_digits(cs@.subrange(from as int, to as int)) || digits_value(
                cs@.subrange(from as int, to as int),
            ) > max,
        },
{
    let ghost s = cs@.subrange(from as int, to as int);
    let mut v: u64 = 0;
    let mut over = false;
    let mut i: usize = from;
    while i < to
        invariant
            from <= i <= to <= cs@.len(),
            s == cs@.subrange(from as int, to as int),
            all_digits(s.take(i - from)),
            !over ==> v == digits_value(s.take(i - from)) && v <= max,
            over ==> digits_value(s.take(i - from)) > max,
        decreases to - i,
    {
        let c = cs[i];
        if !is_digit_char(c) {
            assert(!all_digits(s)) by {
                assert(s[i - from] == c);
            }
            return None;
        }
        let d = digit_of(c);
        let ghost t = s.take(i - from + 1);
        assert(t.drop_last() =~= s.take(i - from));
        assert(t.last() == c);
        if !over {
            if d > max || v > (max - d) / 10 {
                over = true;
                assert(digits_value(t) > max) by (nonlinear_arith)
                    requires
                        digits_value(t) == v * 10 + d,
                        d > max || v > (max - d) / 10,
                        d < 10,
                        v >= 0,
                ;
            } else {
                assert(v * 10 + d <= max) by (nonlinear_arith)
                    requires
                        v <= (max - d) / 10,
                        d < 10,
                        d <= max,
                ;
                v = v * 10 + d;
            }
        } else {
            assert(digits_value(t) > max) by (nonlinear_arith)
                requires
                    digits_value(t) == digits_value(s.take(i - from)) * 10 + d,
                    digits_value(s.take(i - from)) > max,
            ;
        }
        i = i + 1;
    }
    assert(s.take(to - from) =~= s);
    if over {
        None
    } else {
        Some(v)
    }
}

/// Parses `cs[from..to]` as an unsigned integer no larger than `max`.
pub fn parse_unsigned(cs: &Vec<char>, from: usize, to: usize, max: u64) -> (r: Option<u64>)
    requires
        from <= to <= cs@.len(),
    ensures
        r == match unsigned_value(cs@.subrange(from as int, to as int)) {
            Some(v) => if v <= max {
                Some(v as u64)
            } else {
                None
            },
            None => None,
        },
{
    let ghost s = cs@.subrange(from as int, to as int);
    let mut start = from;
    if from < to && cs[from] == '+' {
        start = from + 1;
    }
    assert(unsigned_part(s) =~= cs@.subrange(start as int, to as int));
    if start == to {
        return None;
    }
    digits_at_most(cs, start, to, max)
}

proof fn lemma_pow10_mono(a: nat, b: nat)
    requires
        a <= b,
    ensures
        1 <= pow10(a) <= pow10(b),
    decreases b,
{
    if a < b {
        lemma_pow10_mono(a, (b - 1) as nat);
    } else if b > 0 {
        lemma_pow10_mono(0, (b - 1) as nat);
    }
}

proof fn lemma_pow10_bound(k: nat)
    ensures
        pow10(k) >= 1,
        k <= 9 ==> pow10(k) <= 1_000_000_000,
{
    reveal_with_fuel(pow10, 10);
    assert(pow10(9) == 1_000_000_000);
    if k <= 9 {
        lemma_pow10_mono(k, 9);
    } else {
        lemma_pow10_mono(0, k);
    }
}

proof fn lemma_fraction_bound(f: Seq<char>, k: nat)
    requires
        all_digits(f),
    ensures
        fraction_units(f, k) < pow10(k),
    decreases k,
{
    if k > 0 {
        lemma_fraction_bound(f, (k - 1) as nat);
        let d = if k - 1 < f.len() {
            digit_value(f[k - 1])
        } else {
            0
        };
        assert(d < 10);
        let a = fraction_units(f, (k - 1) as nat);
        assert(a * 10 + d < 10 * pow10((k - 1) as nat)) by (nonlinear_arith)
            requires
                a < pow10((k - 1) as nat),
                d < 10,
        ;
    }
}

/// The first `k` digits of the all-digit `cs[from..to]` in units of `10^-k`.
fn fraction_of(cs: &Vec<char>, from: usize, to: usize, k: u64) -> (r: u64)
    requires
        from <= to <= cs@.len(),
        k <= 9,
        all_digits(cs@.subrange(from as int, to as int)),
    ensures
        r == fraction_units(cs@.subrange(from as int, to as int), k as nat),
        r < pow10(k as nat),
{
    let ghost s = cs@.subrange(from as int, to as int);
    let mut acc: u64 = 0;
    let mut j: u64 = 0;
    while j < k
        invariant
            from <= to <= cs@.len(),
            s == cs@.subrange(from as int, to as int),
            all_digits(s),
            j <= k <= 9,
            acc == fraction_units(s, j as nat),
            acc < pow10(j as nat),
        decreases k - j,
    {
        proof {
            lemma_pow10_bound(j as nat);
        }
        let d: u64 = if (j as usize) < to - from {
            assert(is_digit(s[j as int]));
            digit_of(cs[from + j as usize])
        } else {
            0
        };
        assert(acc * 10 + d < 10 * pow10(j as nat)) by (nonlinear_arith)
            requires
                acc < pow10(j as nat),
                d < 10,
        ;
        acc = acc * 10 + d;
        j = j + 1;
    }
    acc
}

/// Parses `cs[from..to]` as an unsigned decimal with an integral part no
/// larger than `max_whole`, keeping `k` fractional digits.
pub fn parse_fixed(cs: &Vec<char>, from: usize, to: usize, k: u64, max_whole: u64) -> (r: Option<
    (u64, u64),
>)
    requires
        from <= to <= cs@.len(),
        k <= 9,
    ensures
        r == match fixed_value(cs@.subrange(from as int, to as int), k as nat) {
            Some((w, f)) => if w <= max_whole {
                Some((w as u64, f as u64))
            } else {
                None
            },
            None => None,
        },
        r matches Some((w, f)) ==> f < pow10(k as nat),
        fixed_value(cs@.subrange(from as int, to as int), k as nat) matches Some((w, f)) ==> f
            < pow10(k as nat),
{
    let ghost s = cs@.subrange(from as int, to as int);
    let mut start = from;
    if from < to && cs[from] == '+' {
        start = from + 1;
    }
    let ghost d = unsigned_part(s);
    assert(d =~= cs@.subrange(start as int, to as int));
    proof {
        let ghost q = index_of(d, '.');
        let ghost fr = if q < d.len() {
            d.skip(q + 1)
        } else {
            Seq::empty()
        };
        if all_digits(fr) {
            lemma_fraction_bound(fr, k as nat);
        }
    }
    let p = find_char(cs, start, to, '.');
    let dot = start + p;
    let frac_from = if dot < to {
        dot + 1
    } else {
        to
    };
    assert(d.take(p as int) =~= cs@.subrange(start as int, dot as int));
    let ghost frac = if p < d.len() {
        d.skip(p + 1)
    } else {
        Seq::empty()
    };
    assert(frac =~= cs@.subrange(frac_from as int, to as int));
    if dot == start && frac_from == to {
        return None;
    }
    let whole = match digits_at_most(cs, start, dot, max_whole) {
        Some(w) => w,
        None => {
            return None;
        },
    };
    let mut i: usize = frac_from;
    while i < to
        invariant
            frac_from <= i <= to <= cs@.len(),
            frac == cs@.subrange(frac_from as int, to as int),
            s == cs@.subrange(from as int, to as int),
            d == unsigned_part(s),
            p == index_of(d, '.'),
            frac == (if p < d.len() {
                d.skip(p + 1)
            } else {
                Seq::empty()
            }),
            forall|j: int| frac_from <= j < i ==> is_digit(#[trigger] cs@[j]),
        decreases to - i,
    {
        if !is_digit_char(cs[i]) {
            assert(!all_digits(frac)) by {
                assert(frac[i - frac_from] == cs@[i as int]);
            }
            return None;
        }
        i = i + 1;
    }
    assert(all_digits(frac)) by {
        assert forall|j: int| 0 <= j < frac.len() implies is_digit(#[trigger] frac[j]) by {
            assert(frac[j] == cs@[frac_from + j]);
        }
    }
    let f = fraction_of(cs, frac_from, to, k);
    proof {
        lemma_fraction_bound(frac, k as nat);
    }
    Some((whole, f))
}

/// The value of a decimal in thousandths (fraction truncated to three digits).
pub open spec fn thousandths_value(cs: Seq<char>) -> Option<nat> {
    match fixed_value(cs, 3) {
        Some((w, f)) => Some(w * 1000 + f),
        None => None,
    }
}

/// Parses `cs[from..to]` as an unsigned decimal in thousandths, no larger
/// than `max`.
pub fn parse_thousandths(cs: &Vec<char>, from: usize, to: usize, max: u64) -> (r: Option<u64>)
    requires
        from <= to <= cs@.len(),
    ensures
        r == match thousandths_value(cs@.subrange(from as int, to as int)) {
            Some(v) => if v <= max {
                Some(v as u64)
            } else {
                None
            },
            None => None,
        },
{
    match parse_fixed(cs, from, to, 3, max / 1000) {
        Some((w, f)) => {
            proof {
                let ghost sub = cs@.subrange(from as int, to as int);
                let ghost fv = fixed_value(sub, 3);
                assert(fv is Some);
                let ghost d = unsigned_part(sub);
                let ghost p = index_of(d, '.');
                let ghost frac = if p < d.len() {
                    d.skip(p + 1)
                } else {
                    Seq::empty()
                };
                lemma_fraction_bound(frac, 3);
                reveal_with_fuel(pow10, 4);
                let (fw, ff) = fv->0;
                assert(ff < 1000);
                assert(fw == w as nat && ff == f as nat);
            }
            let v: u128 = (w as u128) * 1000 + (f as u128);
            if v <= max as u128 {
                Some(v as u64)
            } else {
                None
            }
        },
        None => {
            proof {
                let ghost fv = fixed_value(cs@.subrange(from as int, to as int), 3);
                if fv is Some {
                    let (w, f) = fv->0;
                    assert(w > max / 1000);
                    assert(w * 1000 + f > max) by (nonlinear_arith)
                        requires
                            w > max / 1000,
                            f >= 0,
                            max >= 0,
                    ;
                }
            }
            None
        },
    }
}

/// Horizontal and vertical white space, as Unicode's `White_Space` property
/// defines it.
pub open spec fn is_white(c: char) -> bool {
    ('\t' <= c && c <= '\r') || c == ' ' || c == '\u{85}' || c == '\u{a0}' || c == '\u{1680}'
        || ('\u{2000}' <= c && c <= '\u{200a}') || c == '\u{2028}' || c == '\u{2029}' || c
        == '\u{202f}' || c == '\u{205f}' || c == '\u{3000}'
}

pub fn is_white_char(c: char) -> (r: bool)
    ensures
        r == is_white(c),
{
    ('\t' <= c && c <= '\r') || c == ' ' || c == '\u{85}' || c == '\u{a0}' || c == '\u{1680}'
        || ('\u{2000}' <= c && c <= '\u{200a}') || c == '\u{2028}' || c == '\u{2029}' || c
        == '\u{202f}' || c == '\u{205f}' || c == '\u{3000}'
}

/// Words found so far and the word in progress, after reading `cs`.
pub open spec fn scan_words(cs: Seq<char>) -> (Seq<Seq<char>>, Seq<char>)
    decreases cs.len(),
{
    if cs.len() == 0 {
        (Seq::empty(), Seq::empty())
    } else {
        let (done, cur) = scan_words(cs.drop_last());
        let c = cs.last();
        if is_white(c) {
            if cur.len() > 0 {
                (done.push(cur), Seq::empty())
            } else {
                (done, cur)
            }
        } else {
            (done, cur.push(c))
        }
    }
}

/// The maximal runs of non-white characters of `cs`, in order.
pub open spec fn words(cs: Seq<char>) -> Seq<Seq<char>> {
    let (done, cur) = scan_words(cs);
    if cur.len() > 0 {
        done.push(cur)
    } else {
        done
    }
}

/// The spans `[start, end)` of the words of `cs`.
pub fn split_words(cs: &Vec<char>) -> (r: Vec<(usize, usize)>)
    ensures
        r@.len() == words(cs@).len(),
        forall|k: int|
            0 <= k < r@.len() ==> (#[trigger] r@[k]).0 <= r@[k].1 <= cs@.len() && words(cs@)[k]
                == cs@.subrange(r@[k].0 as int, r@[k].1 as int),
{
    let mut spans: Vec<(usize, usize)> = Vec::new();
    let mut start: usize = 0;
    let mut i: usize = 0;
    while i < cs.len()
        invariant
            i <= cs@.len(),
            start <= i,
            scan_words(cs@.take(i as int)).1 == cs@.subrange(start as int, i as int),
            spans@.len() == scan_words(cs@.take(i as int)).0.len(),
            forall|k: int|
                0 <= k < spans@.len() ==> (#[trigger] spans@[k]).0 <= spans@[k].1 <= i
                    && scan_words(cs@.take(i as int)).0[k] == cs@.subrange(
                    spans@[k].0 as int,
                    spans@[k].1 as int,
                ),
        decreases cs@.len() - i,
    {
        let ghost prev = scan_words(cs@.take(i as int));
        let ghost next = scan_words(cs@.take(i as int + 1));
        let ghost old_spans = spans@;
        assert(cs@.take(i as int + 1).drop_last() =~= cs@.take(i as int));
        assert(cs@.take(i as int + 1).last() == cs@[i as int]);
        if is_white_char(cs[i]) {
            if start < i {
                spans.push((start, i));
                assert(next.0 == prev.0.push(prev.1));
                assert forall|k: int| 0 <= k < spans@.len() implies (#[trigger] spans@[k]).0 <= spans@[k].1 <= i + 1
                    && next.0[k] == cs@.subrange(spans@[k].0 as int, spans@[k].1 as int) by {
                    if k < old_spans.len() {
                        assert(spans@[k] == old_spans[k]);
                        assert(next.0[k] == prev.0[k]);
                    }
                }
            } else {
                assert(prev.1.len() == 0);
                assert(next.0 == prev.0);
            }
            start = i + 1;
            assert(cs@.subrange(start as int, i as int + 1) =~= Seq::<char>::empty());
        } else {
            assert(next.0 == prev.0);
            assert(cs@.subrange(start as int, i as int + 1) =~= cs@.subrange(
                start as int,
                i as int,
            ).push(cs@[i as int]));
        }
        i = i + 1;
    }
    assert(cs@.take(cs@.len() as int) =~= cs@);
    let ghost fin = scan_words(cs@);
    let ghost old_spans = spans@;
    if start < cs.len() {
        spans.push((start, cs.len()));
        assert forall|k: int| 0 <= k < spans@.len() implies (#[trigger] spans@[k]).0 <= spans@[k].1 <= cs@.len()
            && words(cs@)[k] == cs@.subrange(spans@[k].0 as int, spans@[k].1 as int) by {
            if k < old_spans.len() {
                assert(spans@[k] == old_spans[k]);
            }
        }
    } else {
        assert forall|k: int| 0 <= k < spans@.len() implies (#[trigger] spans@[k]).0 <= spans@[k].1 <= cs@.len()
            && words(cs@)[k] == cs@.subrange(spans@[k].0 as int, spans@[k].1 as int) by {
            assert(fin.1.len() == 0);
        }
    }
    spans
}

} // verus!

//! Text helpers for reading one CSV line: whitespace, trimming, splitting on
//! commas, reading a decimal `i64` and recognising the text of a number,
//! each proved against a direct statement of what it returns.
use vstd::prelude::*;
use vstd::string::*;

verus! {

/// Unicode `White_Space`, the set of characters that `char::is_whitespace`
/// and `str::trim` treat as whitespace.
pub open spec fn is_white_space(c: char) -> bool {
    let u = c as u32;
    ||| 0x9 <= u <= 0xd
    ||| u == 0x20
    ||| u == 0x85
    ||| u == 0xa0
    ||| u == 0x1680
    ||| 0x2000 <= u <= 0x200a
    ||| u == 0x2028
    ||| u == 0x2029
    ||| u == 0x202f
    ||| u == 0x205f
    ||| u == 0x3000
}

/// `s` without its leading whitespace.
pub open spec fn strip_leading(s: Seq<char>) -> Seq<char>
    decreases s.len(),
{
    if s.len() > 0 && is_white_space(s[0]) {
        strip_leading(s.drop_first())
    } else {
        s
    }
}

/// `s` without its trailing whitespace.
pub open spec fn strip_trailing(s: Seq<char>) -> Seq<char>
    decreases s.len(),
{
    if s.len() > 0 && is_white_space(s.last()) {
        strip_trailing(s.drop_last())
    } else {
        s
    }
}

/// `s` without leading and trailing whitespace, as `str::trim` returns it.
pub open spec fn trimmed(s: Seq<char>) -> Seq<char> {
    strip_trailing(strip_leading(s))
}

/// The pieces of `s` between commas, as `str::split(',')` yields them:
/// one more piece than there are commas, empty pieces included.
pub open spec fn comma_fields(s: Seq<char>) -> Seq<Seq<char>>
    decreases s.len(),
{
    if s.len() == 0 {
        seq![Seq::<char>::empty()]
    } else {
        let prev = comma_fields(s.drop_last());
        if s.last() == ',' {
            prev.push(Seq::<char>::empty())
        } else {
            prev.update(prev.len() - 1, prev.last().push(s.last()))
        }
    }
}

/// The character views of a sequence of string slices.
pub open spec fn str_views(v: Seq<&str>) -> Seq<Seq<char>> {
    v.map_values(|f: &str| f@)
}

pub open spec fn is_digit(c: char) -> bool {
    '0' <= c && c <= '9'
}

pub open spec fn all_digits(d: Seq<char>) -> bool {
    forall|k: int| 0 <= k < d.len() ==> is_digit(#[trigger] d[k])
}

/// The value of a string of decimal digits.
pub open spec fn digits_value(d: Seq<char>) -> int
    decreases d.len(),
{
    if d.len() == 0 {
        0
    } else {
        10 * digits_value(d.drop_last()) + (d.last() as int - '0' as int)
    }
}

/// What `i64::from_str` returns on `s`: an optional `+` or `-`, then one or
/// more ASCII digits, whose value must lie in the range of `i64`.
pub open spec fn i64_text(s: Seq<char>) -> Option<i64> {
    let neg = s.len() > 0 && s[0] == '-';
    let signed = s.len() > 0 && (s[0] == '-' || s[0] == '+');
    let d = if signed {
        s.drop_first()
    } else {
        s
    };
    let v = if neg {
        -digits_value(d)
    } else {
        digits_value(d)
    };
    if d.len() == 0 || !all_digits(d) || v < i64::MIN || v > i64::MAX {
        None
    } else {
        Some(v as i64)
    }
}

proof fn lemma_digits_value_nonneg(d: Seq<char>)
    requires
        all_digits(d),
    ensures
        digits_value(d) >= 0,
    decreases d.len(),
{
    if d.len() > 0 {
        assert(is_digit(d[d.len() - 1]));
        lemma_digits_value_nonneg(d.drop_last());
    }
}

/// A longer string of digits is worth at least as much as its prefix.
proof fn lemma_digits_value_prefix(d: Seq<char>, i: int)
    requires
        all_digits(d),
        0 <= i <= d.len(),
    ensures
        digits_value(d.take(i)) <= digits_value(d),
    decreases d.len() - i,
{
    if i < d.len() {
        lemma_digits_value_prefix(d, i + 1);
        let t = d.take(i + 1);
        assert(t.drop_last() =~= d.take(i));
        assert(is_digit(t[i]));
        assert(all_digits(d.take(i)));
        lemma_digits_value_nonneg(d.take(i));
    } else {
        assert(d.take(i) =~= d);
    }
}

/// `char::is_whitespace`.
pub fn is_whitespace(c: char) -> (b: bool)
    ensures
        b == is_white_space(c),
{
    let u = c as u32;
    (0x9 <= u && u <= 0xd) || u == 0x20 || u == 0x85 || u == 0xa0 || u == 0x1680 || (0x2000 <= u
        && u <= 0x200a) || u == 0x2028 || u == 0x2029 || u == 0x202f || u == 0x205f || u == 0x3000
}

/// Whether two strings hold the same characters.
pub fn same_text(a: &str, b: &str) -> (eq: bool)
    ensures
        eq == (a@ == b@),
{
    let n = a.unicode_len();
    let m = b.unicode_len();
    if n != m {
        return false;
    }
    let mut i: usize = 0;
    while i < n
        invariant
            n == a@.len(),
            m == b@.len(),
            n == m,
            i <= n,
            forall|k: int| 0 <= k < i ==> a@[k] == b@[k],
        decreases n - i,
    {
        if a.get_char(i) != b.get_char(i) {
            return false;
        }
        i = i + 1;
    }
    assert(a@ =~= b@);
    true
}

/// `str::trim`: `s` without leading and trailing whitespace.
pub fn trim(s: &str) -> (t: &str)
    ensures
        t@ == trimmed(s@),
{
    let n = s.unicode_len();
    let mut i: usize = 0;
    assert(s@.subrange(0, n as int) =~= s@);
    while i < n && is_whitespace(s.get_char(i))
        invariant
            n == s@.len(),
            i <= n,
            strip_leading(s@) == strip_leading(s@.subrange(i as int, n as int)),
        decreases n - i,
    {
        assert(s@.subrange(i as int, n as int).drop_first() =~= s@.subrange(i + 1, n as int));
        i = i + 1;
    }
    let ghost lead = s@.subrange(i as int, n as int);
    assert(strip_leading(s@) == lead);
    let mut j: usize = n;
    assert(s@.subrange(i as int, j as int) =~= lead);
    while j > i && is_whitespace(s.get_char(j - 1))
        invariant
            n == s@.len(),
            i <= j <= n,
            strip_trailing(lead) == strip_trailing(s@.subrange(i as int, j as int)),
        decreases j - i,
    {
        assert(s@.subrange(i as int, j as int).drop_last() =~= s@.subrange(i as int, j - 1));
        j = j - 1;
    }
    s.substring_char(i, j)
}

/// `str::split(',')`: the pieces of `s` between commas.
pub fn split_commas(s: &str) -> (fields: Vec<&str>)
    ensures
        str_views(fields@) == comma_fields(s@),
{
    let n = s.unicode_len();
    let mut fields: Vec<&str> = Vec::new();
    let mut start: usize = 0;
    let mut i: usize = 0;
    assert(s@.take(0) =~= Seq::<char>::empty());
    assert(str_views(fields@).push(s@.subrange(0, 0)) =~= seq![Seq::<char>::empty()]);
    while i < n
        invariant
            n == s@.len(),
            start <= i <= n,
            comma_fields(s@.take(i as int)) == str_views(fields@).push(
                s@.subrange(start as int, i as int),
            ),
        decreases n - i,
    {
        let c = s.get_char(i);
        let ghost prev_fields = fields@;
        let ghost prev_start = start;
        assert(s@.take(i + 1).drop_last() =~= s@.take(i as int));
        assert(s@.take(i + 1).last() == c);
        if c == ',' {
            let f = s.substring_char(start, i);
            fields.push(f);
            start = i + 1;
            assert(str_views(fields@) =~= str_views(prev_fields).push(f@));
            assert(s@.subrange(start as int, i + 1) =~= Seq::<char>::empty());
        } else {
            assert(s@.subrange(start as int, i + 1) =~= s@.subrange(start as int, i as int).push(c));
            assert(str_views(fields@).push(s@.subrange(start as int, i + 1)) =~= str_views(
                fields@,
            ).push(s@.subrange(start as int, i as int)).update(
                str_views(fields@).len() as int,
                s@.subrange(start as int, i as int).push(c),
            ));
        }
        i = i + 1;
    }
    let last = s.substring_char(start, n);
    let ghost prev_fields = fields@;
    fields.push(last);
    assert(s@.take(n as int) =~= s@);
    assert(str_views(fields@) =~= str_views(prev_fields).push(last@));
    fields
}

/// `i64::from_str`: the decimal value of `s`, or `None` where `s` is not an
/// optionally signed run of digits or its value does not fit in an `i64`.
pub fn parse_i64(s: &str) -> (v: Option<i64>)
    ensures
        v == i64_text(s@),
{
    let n = s.unicode_len();
    if n == 0 {
        return None;
    }
    let first = s.get_char(0);
    let neg = first == '-';
    let start: usize = if first == '-' || first == '+' {
        1
    } else {
        0
    };
    let ghost d = if start == 1 {
        s@.drop_first()
    } else {
        s@
    };
    assert(d =~= s@.subrange(start as int, n as int));
    if start == n {
        return None;
    }
    // The magnitude read so far; one past `i64::MAX` still fits for `i64::MIN`.
    let bound: i128 = 9223372036854775808;
    let mut acc: i128 = 0;
    let mut i: usize = start;
    while i < n
        invariant
            n == s@.len(),
            start <= i <= n,
            d == s@.subrange(start as int, n as int),
            0 < n,
            neg == (s@[0] == '-'),
            (start == 1) == (s@[0] == '-' || s@[0] == '+'),
            d == (if start == 1 {
                s@.drop_first()
            } else {
                s@
            }),
            all_digits(d.take(i - start)),
            acc == digits_value(d.take(i - start)),
            0 <= acc <= bound,
            bound == 9223372036854775808,
        decreases n - i,
    {
        let c = s.get_char(i);
        assert(d[i - start] == c);
        if !('0' <= c && c <= '9') {
            assert(!is_digit(d[i - start]));
            return None;
        }
        let digit = (c as u32 - '0' as u32) as i128;
        assert(d.take(i - start + 1).drop_last() =~= d.take(i - start));
        assert(d.take(i - start + 1).last() == c);
        acc = acc * 10 + digit;
        assert(all_digits(d.take(i - start + 1))) by {
            assert forall|k: int| 0 <= k < i - start + 1 implies is_digit(
                #[trigger] d.take(i - start + 1)[k],
            ) by {
                if k < i - start {
                    assert(d.take(i - start + 1)[k] == d.take(i - start)[k]);
                }
            }
        }
        i = i + 1;
        if acc > bound {
            proof {
                assert(d.take(i - start) =~= d.take((i - start) as int));
                if all_digits(d) {
                    lemma_digits_value_prefix(d, (i - start) as int);
                }
            }
            return None;
        }
    }
    assert(d.take(i - start) =~= d);
    if neg {
        Some((0 - acc) as i64)
    } else if acc <= 9223372036854775807 {
        Some(acc as i64)
    } else {
        None
    }
}


/// The code of `c` with an ASCII capital letter made small.
pub open spec fn lower_code(c: char) -> int {
    if 'A' <= c && c <= 'Z' {
        (c as u32) + 32
    } else {
        c as u32 as int
    }
}

/// `t` equals the small-letter word `w` when ASCII case is ignored.
pub open spec fn equals_ignoring_case(t: Seq<char>, w: Seq<char>) -> bool {
    t.len() == w.len() && forall|k: int| 0 <= k < t.len() ==> lower_code(#[trigger] t[k]) == w[k] as u32 as int
}

/// `s` without one leading `+` or `-`.
pub open spec fn unsigned_part(s: Seq<char>) -> Seq<char> {
    if s.len() > 0 && (s[0] == '+' || s[0] == '-') {
        s.drop_first()
    } else {
        s
    }
}

pub open spec fn is_exponent_mark(c: char) -> bool {
    c == 'e' || c == 'E'
}

/// How many times `c` occurs in `s`.
pub open spec fn occurrences(s: Seq<char>, c: char) -> nat
    decreases s.len(),
{
    if s.len() == 0 {
        0
    } else {
        occurrences(s.drop_last(), c) + if s.last() == c {
            1nat
        } else {
            0nat
        }
    }
}

/// `Digit+ | Digit+ '.' Digit* | Digit* '.' Digit+`: digits with at most one
/// decimal point, and at least one digit.
pub open spec fn mantissa_text(m: Seq<char>) -> bool {
    &&& forall|k: int| 0 <= k < m.len() ==> is_digit(#[trigger] m[k]) || m[k] == '.'
    &&& occurrences(m, '.') <= 1
    &&& exists|k: int| 0 <= k < m.len() && is_digit(#[trigger] m[k])
}

/// `Sign? Digit+`.
pub open spec fn exponent_text(x: Seq<char>) -> bool {
    unsigned_part(x).len() > 0 && all_digits(unsigned_part(x))
}

/// A mantissa, optionally followed by `e` or `E` and an exponent.
pub open spec fn number_text(t: Seq<char>) -> bool {
    ||| mantissa_text(t)
    ||| exists|e: int|
        0 <= e < t.len() && is_exponent_mark(#[trigger] t[e]) && mantissa_text(t.take(e))
            && exponent_text(t.skip(e + 1))
}

/// The texts that `f64::from_str` accepts: an optional sign, then `inf`,
/// `infinity`, `nan` (in any ASCII case) or a decimal number.
pub open spec fn float_text(s: Seq<char>) -> bool {
    let t = unsigned_part(s);
    ||| equals_ignoring_case(t, "inf"@)
    ||| equals_ignoring_case(t, "infinity"@)
    ||| equals_ignoring_case(t, "nan"@)
    ||| number_text(t)
}

/// Whether `s[from..]` equals the small-letter word `word` when ASCII case
/// is ignored.
fn equals_word_ignoring_case(s: &str, from: usize, word: &str) -> (eq: bool)
    requires
        from <= s@.len(),
    ensures
        eq == equals_ignoring_case(s@.skip(from as int), word@),
{
    let n = s.unicode_len();
    let m = word.unicode_len();
    let ghost rest = s@.skip(from as int);
    if n - from != m {
        return false;
    }
    let mut i: usize = 0;
    while i < m
        invariant
            n == s@.len(),
            m == word@.len(),
            from <= n,
            n - from == m,
            rest == s@.skip(from as int),
            i <= m,
            forall|k: int| 0 <= k < i ==> lower_code(#[trigger] rest[k]) == word@[k] as u32 as int,
        decreases m - i,
    {
        let c = s.get_char(from + i);
        let code: u32 = if 'A' <= c && c <= 'Z' {
            (c as u32) + 32
        } else {
            c as u32
        };
        assert(rest[i as int] == c);
        if code != word.get_char(i) as u32 {
            return false;
        }
        i = i + 1;
    }
    true
}

/// Whether `s[from..to]` is a mantissa: digits and at most one point, with
/// at least one digit.
fn is_mantissa(s: &str, from: usize, to: usize) -> (ok: bool)
    requires
        from <= to <= s@.len(),
    ensures
        ok == mantissa_text(s@.subrange(from as int, to as int)),
{
    let ghost m = s@.subrange(from as int, to as int);
    let mut points: usize = 0;
    let mut digits: usize = 0;
    let mut i: usize = from;
    while i < to
        invariant
            from <= i <= to <= s@.len(),
            m == s@.subrange(from as int, to as int),
            forall|k: int| 0 <= k < i - from ==> is_digit(#[trigger] m[k]) || m[k] == '.',
            points == occurrences(m.take(i - from), '.'),
            points <= 1,
            digits > 0 <==> exists|k: int| 0 <= k < i - from && is_digit(#[trigger] m[k]),
            digits <= i - from,
        decreases to - i,
    {
        let c = s.get_char(i);
        assert(m[i - from] == c);
        assert(m.take(i - from + 1).drop_last() =~= m.take(i - from));
        if '0' <= c && c <= '9' {
            digits = digits + 1;
        } else if c == '.' {
            if points == 1 {
                proof {
                    lemma_occurrences_prefix(m, '.', i - from + 1);
                }
                return false;
            }
            points = points + 1;
        } else {
            assert(!(is_digit(m[i - from]) || m[i - from] == '.'));
            return false;
        }
        i = i + 1;
    }
    assert(m.take(to - from) =~= m);
    digits > 0
}

proof fn lemma_occurrences_prefix(s: Seq<char>, c: char, i: int)
    requires
        0 <= i <= s.len(),
    ensures
        occurrences(s.take(i), c) <= occurrences(s, c),
    decreases s.len() - i,
{
    if i < s.len() {
        lemma_occurrences_prefix(s, c, i + 1);
        assert(s.take(i + 1).drop_last() =~= s.take(i));
    } else {
        assert(s.take(i) =~= s);
    }
}

/// Whether `s[from..]` is an exponent: an optional sign and one or more
/// digits.
fn is_exponent(s: &str, from: usize) -> (ok: bool)
    requires
        from <= s@.len(),
    ensures
        ok == exponent_text(s@.skip(from as int)),
{
    let n = s.unicode_len();
    let ghost x = s@.skip(from as int);
    let mut i = from;
    if i < n && (s.get_char(i) == '+' || s.get_char(i) == '-') {
        i = i + 1;
    }
    let ghost d = unsigned_part(x);
    assert(d =~= s@.skip(i as int));
    if i == n {
        return false;
    }
    let start = i;
    while i < n
        invariant
            n == s@.len(),
            start <= i <= n,
            d == s@.skip(start as int),
            d == unsigned_part(s@.skip(from as int)),
            forall|k: int| 0 <= k < i - start ==> is_digit(#[trigger] d[k]),
        decreases n - i,
    {
        let c = s.get_char(i);
        assert(d[i - start] == c);
        if !('0' <= c && c <= '9') {
            return false;
        }
        i = i + 1;
    }
    true
}

/// Whether `f64::from_str` accepts `s`: an optional sign, then `inf`,
/// `infinity` or `nan` in any ASCII case, or digits with at most one point
/// and at least one digit, optionally followed by `e`/`E`, an optional sign
/// and one or more digits. Whitespace anywhere is refused.
pub fn is_float_text(s: &str) -> (ok: bool)
    ensures
        ok == float_text(s@),
{
    let n = s.unicode_len();
    let start: usize = if n > 0 && (s.get_char(0) == '+' || s.get_char(0) == '-') {
        1
    } else {
        0
    };
    let ghost t = unsigned_part(s@);
    assert(t =~= s@.skip(start as int));
    assert(s@.subrange(start as int, n as int) =~= t);
    if equals_word_ignoring_case(s, start, "inf") || equals_word_ignoring_case(s, start, "infinity") || equals_word_ignoring_case(
        s,
        start,
        "nan",
    ) {
        return true;
    }
    // The first exponent mark, if any, ends the mantissa.
    let mut e: usize = start;
    while e < n && !(s.get_char(e) == 'e' || s.get_char(e) == 'E')
        invariant
            n == s@.len(),
            start <= e <= n,
            t == s@.skip(start as int),
            forall|k: int| 0 <= k < e - start ==> !is_exponent_mark(#[trigger] t[k]),
        decreases n - e,
    {
        assert(t[e - start] == s@[e as int]);
        e = e + 1;
    }
    if e == n {
        let ok = is_mantissa(s, start, n);
        proof {
            if !ok {
                assert forall|x: int|
                    0 <= x < t.len() && is_exponent_mark(#[trigger] t[x]) implies !(mantissa_text(
                    t.take(x),
                ) && exponent_text(t.skip(x + 1))) by {
                    assert(!is_exponent_mark(t[x]));
                }
            }
        }
        return ok;
    }
    let ghost ee = e - start;
    assert(is_exponent_mark(t[ee]));
    assert(s@.subrange(start as int, e as int) =~= t.take(ee));
    assert(s@.skip(e + 1) =~= t.skip(ee + 1));
    let ok = is_mantissa(s, start, e) && is_exponent(s, e + 1);
    proof {
        // A mantissa holds no exponent mark, so the first mark is the only
        // place the number can split.
        if mantissa_text(t) {
            assert(!(is_digit(t[ee]) || t[ee] == '.'));
        }
        assert forall|x: int|
            0 <= x < t.len() && is_exponent_mark(#[trigger] t[x]) && mantissa_text(t.take(x))
                && exponent_text(t.skip(x + 1)) implies x == ee by {
            if x < ee {
                assert(!is_exponent_mark(t[x]));
            } else if x > ee {
                assert(t.take(x)[ee] == t[ee]);
                assert(!(is_digit(t.take(x)[ee]) || t.take(x)[ee] == '.'));
            }
        }
    }
    ok
}

}

//! Text primitives: integer and decimal-number recognition, whitespace
//! trimming, decimal rendering and the order of texts.

use vstd::prelude::*;

verus! {

/// An ASCII decimal digit.
pub open spec fn is_digit(c: char) -> bool {
    '0' <= c && c <= '9'
}

/// The value of an ASCII decimal digit.
pub open spec fn digit_value(c: char) -> int {
    (c as int) - ('0' as int)
}

/// Every character of `s` is a decimal digit.
pub open spec fn all_digits(s: Seq<char>) -> bool {
    forall|i: int| 0 <= i < s.len() ==> is_digit(#[trigger] s[i])
}

/// The value of a string of decimal digits, most significant first.
pub open spec fn digits_value(s: Seq<char>) -> nat
    decreases s.len(),
{
    if s.len() == 0 {
        0
    } else {
        (10 * digits_value(s.drop_last()) + digit_value(s.last())) as nat
    }
}

/// What `str::parse::<i64>` accepts: an optional `+` or `-`, then one or
/// more decimal digits, with a value in the range of `i64`.
pub open spec fn spec_parse_i64(s: Seq<char>) -> Option<int> {
    let neg = s.len() > 0 && s[0] == '-';
    let signed = s.len() > 0 && (s[0] == '-' || s[0] == '+');
    let body = if signed { s.drop_first() } else { s };
    let v: int = if neg { -digits_value(body) } else { digits_value(body) as int };
    if body.len() > 0 && all_digits(body) && i64::MIN <= v <= i64::MAX {
        Some(v)
    } else {
        None
    }
}

/// What `str::parse::<u32>` accepts: an optional `+`, then one or more
/// decimal digits, with a value in the range of `u32`.
pub open spec fn spec_parse_u32(s: Seq<char>) -> Option<int> {
    let signed = s.len() > 0 && s[0] == '+';
    let body = if signed { s.drop_first() } else { s };
    if body.len() > 0 && all_digits(body) && digits_value(body) <= u32::MAX {
        Some(digits_value(body) as int)
    } else {
        None
    }
}

const VALUE_CAP: u128 = 9223372036854775809;

/// Reads the digits of `s` from `start` on, with the value capped at
/// `VALUE_CAP`; `None` when a non-digit appears or there is no digit.
fn capped_digits(s: &Vec<char>, start: usize) -> (r: Option<u128>)
    requires
        start <= s@.len(),
    ensures
        r is Some <==> (s@.len() > start && all_digits(s@.skip(start as int))),
        r matches Some(v) ==> v as int == if digits_value(s@.skip(start as int)) < VALUE_CAP {
            digits_value(s@.skip(start as int)) as int
        } else {
            VALUE_CAP as int
        },
{
    if start == s.len() {
        return None;
    }
    let ghost body = s@.skip(start as int);
    let mut acc: u128 = 0;
    let mut i: usize = start;
    while i < s.len()
        invariant
            start <= i <= s@.len(),
            body == s@.skip(start as int),
            all_digits(body.take(i - start)),
            acc as int == if digits_value(body.take(i - start)) < VALUE_CAP {
                digits_value(body.take(i - start)) as int
            } else {
                VALUE_CAP as int
            },
        decreases s@.len() - i,
    {
        let c = s[i];
        if !('0' <= c && c <= '9') {
            assert(body[i - start] == c);
            assert(!all_digits(body));
            return None;
        }
        let d = (c as u32 - '0' as u32) as u128;
        let ghost prev = body.take(i - start);
        let ghost next = body.take(i - start + 1);
        assert(next.drop_last() =~= prev);
        assert(next.last() == c);
        let nv = acc * 10 + d;
        acc = if nv < VALUE_CAP { nv } else { VALUE_CAP };
        i = i + 1;
        assert forall|j: int| 0 <= j < next.len() implies is_digit(#[trigger] next[j]) by {
            if j < prev.len() {
                assert(next[j] == prev[j]);
            }
        }
    }
    assert(body.take(i - start) =~= body);
    Some(acc)
}

/// Parses a signed decimal integer as `str::parse::<i64>` does.
pub fn parse_i64(s: &Vec<char>) -> (r: Option<i64>)
    ensures
        r matches Some(v) ==> spec_parse_i64(s@) == Some(v as int),
        r is None ==> spec_parse_i64(s@) is None,
{
    let neg = s.len() > 0 && s[0] == '-';
    let signed = s.len() > 0 && (s[0] == '-' || s[0] == '+');
    let start: usize = if signed { 1 } else { 0 };
    let ghost body = if signed { s@.drop_first() } else { s@ };
    assert(s@.skip(start as int) =~= body);
    match capped_digits(s, start) {
        None => None,
        Some(v) => {
            if neg {
                if v <= 9223372036854775808 {
                    Some((0 - (v as i128)) as i64)
                } else {
                    None
                }
            } else {
                if v <= 9223372036854775807 {
                    Some(v as i64)
                } else {
                    None
                }
            }
        },
    }
}

/// Parses an unsigned decimal integer as `str::parse::<u32>` does.
pub fn parse_u32(s: &Vec<char>) -> (r: Option<u32>)
    ensures
        r matches Some(v) ==> spec_parse_u32(s@) == Some(v as int),
        r is None ==> spec_parse_u32(s@) is None,
{
    let signed = s.len() > 0 && s[0] == '+';
    let start: usize = if signed { 1 } else { 0 };
    let ghost body = if signed { s@.drop_first() } else { s@ };
    assert(s@.skip(start as int) =~= body);
    match capped_digits(s, start) {
        None => None,
        Some(v) => {
            if v <= 4294967295 {
                Some(v as u32)
            } else {
                None
            }
        },
    }
}


/// ASCII lower-casing of one character; other characters are unchanged.
pub open spec fn ascii_lower(c: char) -> char {
    if 'A' <= c && c <= 'Z' {
        ((c as int) + 32) as char
    } else {
        c
    }
}

/// ASCII lower-casing of a text.
pub open spec fn lower_text(s: Seq<char>) -> Seq<char> {
    s.map_values(|c: char| ascii_lower(c))
}

/// A sign character.
pub open spec fn is_sign(c: char) -> bool {
    c == '+' || c == '-'
}

/// The mantissa of a decimal number: `Digit+`, `Digit+ '.' Digit*` or
/// `Digit* '.' Digit+`.
pub open spec fn is_mantissa(s: Seq<char>) -> bool {
    ||| (s.len() > 0 && all_digits(s))
    ||| exists|p: int|
        0 <= p < s.len() && s[p] == '.' && s.len() >= 2 && all_digits(#[trigger] s.take(p))
            && all_digits(s.skip(p + 1))
}

/// The exponent of a decimal number: `e` (either case), an optional sign,
/// then one or more digits.
pub open spec fn is_exponent(s: Seq<char>) -> bool {
    let r = s.drop_first();
    let b = if r.len() > 0 && is_sign(r[0]) { r.drop_first() } else { r };
    s.len() > 0 && ascii_lower(s[0]) == 'e' && b.len() > 0 && all_digits(b)
}

/// A decimal number: a mantissa, then an optional exponent.
pub open spec fn is_number(s: Seq<char>) -> bool {
    exists|q: int|
        0 <= q <= s.len() && is_mantissa(#[trigger] s.take(q)) && (q == s.len() || is_exponent(
            s.skip(q),
        ))
}

/// What `str::parse::<f64>` accepts, as its documentation gives the grammar:
/// an optional sign, then `inf`, `infinity`, `nan` (in any ASCII case) or a
/// decimal number.
pub open spec fn is_float_text(s: Seq<char>) -> bool {
    let b = if s.len() > 0 && is_sign(s[0]) { s.drop_first() } else { s };
    ||| lower_text(b) == seq!['i', 'n', 'f']
    ||| lower_text(b) == seq!['i', 'n', 'f', 'i', 'n', 'i', 't', 'y']
    ||| lower_text(b) == seq!['n', 'a', 'n']
    ||| is_number(b)
}

/// The characters of `s` from `a` to `b`.
pub fn sub_text(s: &Vec<char>, a: usize, b: usize) -> (r: Vec<char>)
    requires
        a <= b <= s@.len(),
    ensures
        r@ == s@.subrange(a as int, b as int),
{
    let mut r: Vec<char> = Vec::new();
    let mut i = a;
    while i < b
        invariant
            a <= i <= b <= s@.len(),
            r@ == s@.subrange(a as int, i as int),
        decreases b - i,
    {
        r.push(s[i]);
        i = i + 1;
        assert(r@ =~= s@.subrange(a as int, i as int));
    }
    r
}

fn ascii_lower_char(c: char) -> (r: char)
    ensures
        r == ascii_lower(c),
{
    if 'A' <= c && c <= 'Z' {
        let u: u8 = (c as u32 + 32) as u8;
        u as char
    } else {
        c
    }
}

/// Whether `s`, ASCII lower-cased, is `w`.
fn lower_equals(s: &Vec<char>, w: &Vec<char>) -> (r: bool)
    ensures
        r == (lower_text(s@) == w@),
{
    if s.len() != w.len() {
        assert(lower_text(s@).len() != w@.len());
        return false;
    }
    let mut i: usize = 0;
    while i < s.len()
        invariant
            s@.len() == w@.len(),
            i <= s@.len(),
            forall|j: int| 0 <= j < i ==> ascii_lower(s@[j]) == w@[j],
        decreases s@.len() - i,
    {
        if ascii_lower_char(s[i]) != w[i] {
            assert(lower_text(s@)[i as int] != w@[i as int]);
            return false;
        }
        i = i + 1;
    }
    assert(lower_text(s@) =~= w@);
    true
}

/// The index of the first non-digit of `s`, or its length.
fn first_non_digit(s: &Vec<char>) -> (r: usize)
    ensures
        r <= s@.len(),
        all_digits(s@.take(r as int)),
        r < s@.len() ==> !is_digit(s@[r as int]),
{
    let mut i: usize = 0;
    while i < s.len()
        invariant
            i <= s@.len(),
            all_digits(s@.take(i as int)),
        decreases s@.len() - i,
    {
        if !('0' <= s[i] && s[i] <= '9') {
            return i;
        }
        assert forall|j: int| 0 <= j < i + 1 implies is_digit(#[trigger] s@.take(i + 1)[j]) by {
            if j < i {
                assert(s@.take(i + 1)[j] == s@.take(i as int)[j]);
            }
        }
        i = i + 1;
    }
    i
}

fn digits_only(s: &Vec<char>) -> (r: bool)
    ensures
        r == all_digits(s@),
{
    let k = first_non_digit(s);
    if k == s.len() {
        assert(s@.take(k as int) =~= s@);
        true
    } else {
        false
    }
}

fn mantissa_ok(s: &Vec<char>) -> (r: bool)
    ensures
        r == is_mantissa(s@),
{
    let p = first_non_digit(s);
    if p == s.len() {
        assert(s@.take(p as int) =~= s@);
        if s.len() > 0 {
            return true;
        }
        assert forall|q: int| 0 <= q < s@.len() implies !(s@[q] == '.') by {}
        return false;
    }
    if s[p] != '.' {
        assert forall|q: int|
            0 <= q < s@.len() && s@[q] == '.' implies !all_digits(#[trigger] s@.take(q)) by {
            assert(q != p);
            if q > p {
                assert(s@.take(q)[p as int] == s@[p as int]);
            }
            if q < p {
                assert(s@.take(p as int)[q] == s@[q]);
            }
        }
        assert(!all_digits(s@));
        return false;
    }
    let rest = sub_text(s, p + 1, s.len());
    assert(rest@ =~= s@.skip(p + 1));
    let ok = digits_only(&rest) && s.len() >= 2;
    if ok {
        assert(all_digits(s@.take(p as int)));
    } else {
        assert(!all_digits(s@)) by {
            assert(!is_digit(s@[p as int]));
        }
        assert forall|q: int|
            0 <= q < s@.len() && s@[q] == '.' && s@.len() >= 2 && all_digits(
                #[trigger] s@.take(q),
            ) implies !all_digits(s@.skip(q + 1)) by {
            if q > p {
                assert(s@.take(q)[p as int] == s@[p as int]);
            }
            if q < p {
                assert(s@.take(p as int)[q] == s@[q]);
            }
        }
    }
    ok
}

fn exponent_ok(s: &Vec<char>) -> (r: bool)
    ensures
        r == is_exponent(s@),
{
    if s.len() == 0 {
        return false;
    }
    if ascii_lower_char(s[0]) != 'e' {
        return false;
    }
    let signed = s.len() > 1 && (s[1] == '+' || s[1] == '-');
    let start: usize = if signed { 2 } else { 1 };
    let b = sub_text(s, start, s.len());
    let ghost r = s@.drop_first();
    assert(b@ =~= if r.len() > 0 && is_sign(r[0]) { r.drop_first() } else { r });
    b.len() > 0 && digits_only(&b)
}

/// Whether `s` is a decimal number: mantissa and optional exponent.
fn number_ok(s: &Vec<char>) -> (r: bool)
    ensures
        r == is_number(s@),
{
    let mut q: usize = 0;
    while q < s.len() && ascii_lower_char(s[q]) != 'e'
        invariant
            q <= s@.len(),
            forall|j: int| 0 <= j < q ==> ascii_lower(#[trigger] s@[j]) != 'e',
        decreases s@.len() - q,
    {
        q = q + 1;
    }
    let m = sub_text(s, 0, q);
    assert(m@ =~= s@.take(q as int));
    let ok = if q == s.len() {
        mantissa_ok(&m)
    } else {
        let e = sub_text(s, q, s.len());
        assert(e@ =~= s@.skip(q as int));
        mantissa_ok(&m) && exponent_ok(&e)
    };
    if !ok {
        assert forall|q2: int|
            0 <= q2 <= s@.len() && is_mantissa(#[trigger] s@.take(q2)) implies !(q2 == s@.len()
            || is_exponent(s@.skip(q2))) by {
            if q2 < q {
                assert(ascii_lower(s@.skip(q2)[0]) != 'e');
            } else if q2 > q {
                let t = s@.take(q2);
                assert(t[q as int] == s@[q as int]);
                assert(ascii_lower(t[q as int]) == 'e');
                if t.len() > 0 && all_digits(t) {
                    assert(is_digit(t[q as int]));
                } else {
                    let p = choose|p: int|
                        0 <= p < t.len() && t[p] == '.' && t.len() >= 2 && all_digits(
                            #[trigger] t.take(p),
                        ) && all_digits(t.skip(p + 1));
                    if q < p {
                        assert(t.take(p)[q as int] == t[q as int]);
                        assert(is_digit(t.take(p)[q as int]));
                    } else if q > p {
                        assert(t.skip(p + 1)[q - p - 1] == t[q as int]);
                        assert(is_digit(t.skip(p + 1)[q - p - 1]));
                    }
                }
            }
        }
    }
    ok
}

/// Whether `s` is accepted by `str::parse::<f64>` (see `is_float_text`).
pub fn float_text_ok(s: &Vec<char>) -> (r: bool)
    ensures
        r == is_float_text(s@),
{
    let signed = s.len() > 0 && (s[0] == '+' || s[0] == '-');
    let start: usize = if signed { 1 } else { 0 };
    let b = sub_text(s, start, s.len());
    assert(b@ =~= if s@.len() > 0 && is_sign(s@[0]) { s@.drop_first() } else { s@ });
    let inf = vec!['i', 'n', 'f'];
    let infinity = vec!['i', 'n', 'f', 'i', 'n', 'i', 't', 'y'];
    let nan = vec!['n', 'a', 'n'];
    assert(inf@ =~= seq!['i', 'n', 'f']);
    assert(infinity@ =~= seq!['i', 'n', 'f', 'i', 'n', 'i', 't', 'y']);
    assert(nan@ =~= seq!['n', 'a', 'n']);
    lower_equals(&b, &inf) || lower_equals(&b, &infinity) || lower_equals(&b, &nan) || number_ok(
        &b,
    )
}


/// Unicode `White_Space`, the whitespace of `char::is_whitespace` and
/// `str::trim`.
pub open spec fn is_space(c: char) -> bool {
    let u = c as u32;
    ||| 0x09 <= u <= 0x0D
    ||| u == 0x20
    ||| u == 0x85
    ||| u == 0xA0
    ||| u == 0x1680
    ||| 0x2000 <= u <= 0x200A
    ||| u == 0x2028
    ||| u == 0x2029
    ||| u == 0x202F
    ||| u == 0x205F
    ||| u == 0x3000
}

/// `s` without its leading whitespace.
pub open spec fn trim_start(s: Seq<char>) -> Seq<char>
    decreases s.len(),
{
    if s.len() > 0 && is_space(s[0]) {
        trim_start(s.drop_first())
    } else {
        s
    }
}

/// `s` without its trailing whitespace.
pub open spec fn trim_end(s: Seq<char>) -> Seq<char>
    decreases s.len(),
{
    if s.len() > 0 && is_space(s.last()) {
        trim_end(s.drop_last())
    } else {
        s
    }
}

/// `s` without leading and trailing whitespace, as `str::trim` gives it.
pub open spec fn trim(s: Seq<char>) -> Seq<char> {
    trim_end(trim_start(s))
}

fn space_char(c: char) -> (r: bool)
    ensures
        r == is_space(c),
{
    let u = c as u32;
    (0x09 <= u && u <= 0x0D) || u == 0x20 || u == 0x85 || u == 0xA0 || u == 0x1680 || (0x2000
        <= u && u <= 0x200A) || u == 0x2028 || u == 0x2029 || u == 0x202F || u == 0x205F || u
        == 0x3000
}

proof fn lemma_trim_start_skip(s: Seq<char>, k: int)
    requires
        0 <= k <= s.len(),
        forall|i: int| 0 <= i < k ==> is_space(#[trigger] s[i]),
        k == s.len() || !is_space(s[k]),
    ensures
        trim_start(s) == s.skip(k),
    decreases k,
{
    if k == 0 {
        assert(s.skip(0) =~= s);
    } else {
        let t = s.drop_first();
        assert forall|i: int| 0 <= i < k - 1 implies is_space(#[trigger] t[i]) by {
            assert(t[i] == s[i + 1]);
        }
        if k - 1 < t.len() {
            assert(t[k - 1] == s[k]);
        }
        lemma_trim_start_skip(t, k - 1);
        assert(t.skip(k - 1) =~= s.skip(k));
    }
}

proof fn lemma_trim_end_take(s: Seq<char>, e: int)
    requires
        0 <= e <= s.len(),
        forall|i: int| e <= i < s.len() ==> is_space(#[trigger] s[i]),
        e == 0 || !is_space(s[e - 1]),
    ensures
        trim_end(s) == s.take(e),
    decreases s.len() - e,
{
    if e == s.len() {
        assert(s.take(e) =~= s);
    } else {
        let t = s.drop_last();
        assert forall|i: int| e <= i < t.len() implies is_space(#[trigger] t[i]) by {
            assert(t[i] == s[i]);
        }
        if e > 0 {
            assert(t[e - 1] == s[e - 1]);
        }
        lemma_trim_end_take(t, e);
        assert(t.take(e) =~= s.take(e));
    }
}

/// `s` without leading and trailing whitespace.
pub fn trim_text(s: &Vec<char>) -> (r: Vec<char>)
    ensures
        r@ == trim(s@),
{
    let mut a: usize = 0;
    while a < s.len() && space_char(s[a])
        invariant
            a <= s@.len(),
            forall|i: int| 0 <= i < a ==> is_space(#[trigger] s@[i]),
        decreases s@.len() - a,
    {
        a = a + 1;
    }
    proof {
        lemma_trim_start_skip(s@, a as int);
    }
    let t = sub_text(s, a, s.len());
    assert(t@ =~= s@.skip(a as int));
    let mut e: usize = t.len();
    while e > 0 && space_char(t[e - 1])
        invariant
            e <= t@.len(),
            forall|i: int| e <= i < t@.len() ==> is_space(#[trigger] t@[i]),
        decreases e,
    {
        e = e - 1;
    }
    proof {
        lemma_trim_end_take(t@, e as int);
    }
    let r = sub_text(&t, 0, e);
    assert(r@ =~= t@.take(e as int));
    r
}

/// The character of a decimal digit value.
pub open spec fn digit_char(d: int) -> char {
    (('0' as int) + d) as char
}

/// The decimal text of a natural number, without leading zeros.
pub open spec fn dec_text(n: nat) -> Seq<char>
    decreases n,
{
    if n < 10 {
        seq![digit_char(n as int)]
    } else {
        dec_text(n / 10).push(digit_char((n % 10) as int))
    }
}

/// The decimal text of an integer, with a leading `-` when negative.
pub open spec fn int_text(n: int) -> Seq<char> {
    if n < 0 {
        seq!['-'] + dec_text((-n) as nat)
    } else {
        dec_text(n as nat)
    }
}

proof fn lemma_dec_text(n: nat)
    ensures
        dec_text(n).len() > 0,
        all_digits(dec_text(n)),
        digits_value(dec_text(n)) == n,
    decreases n,
{
    let d = (n % 10) as int;
    assert(digit_value(digit_char(d)) == d);
    if n >= 10 {
        lemma_dec_text(n / 10);
        assert(dec_text(n).drop_last() =~= dec_text(n / 10));
        assert(n == 10 * (n / 10) + d);
        let t = dec_text(n);
        assert(t.last() == digit_char(d));
        assert(digits_value(t) == 10 * digits_value(t.drop_last()) + digit_value(t.last()));
    } else {
        let t = dec_text(n);
        assert(t.drop_last() =~= Seq::<char>::empty());
        assert(digits_value(t.drop_last()) == 0);
        assert(digits_value(t) == 10 * digits_value(t.drop_last()) + digit_value(t.last()));
    }
}

/// Reading back the decimal text of an integer in the range of `i64` gives
/// that integer.
pub proof fn law_int_text_parses(n: int)
    requires
        i64::MIN <= n <= i64::MAX,
    ensures
        spec_parse_i64(int_text(n)) == Some(n),
{
    if n < 0 {
        lemma_dec_text((-n) as nat);
        assert((seq!['-'] + dec_text((-n) as nat)).drop_first() =~= dec_text((-n) as nat));
    } else {
        lemma_dec_text(n as nat);
        assert(is_digit(dec_text(n as nat)[0]));
    }
}

fn digit_of(d: u64) -> (c: char)
    requires
        d < 10,
    ensures
        c == digit_char(d as int),
{
    let b: u8 = (48 + d) as u8;
    b as char
}

/// Appends the decimal text of `n` to `out`.
pub fn push_dec(n: u64, out: &mut Vec<char>)
    ensures
        final(out)@ == old(out)@ + dec_text(n as nat),
    decreases n,
{
    if n >= 10 {
        push_dec(n / 10, out);
    }
    let ghost before = out@;
    out.push(digit_of(n % 10));
    proof {
        if n >= 10 {
            assert(out@ =~= old(out)@ + dec_text(n as nat));
        } else {
            assert(out@ =~= old(out)@ + dec_text(n as nat));
        }
    }
}

/// The decimal text of a signed integer.
pub fn int_to_text(n: i64) -> (r: Vec<char>)
    ensures
        r@ == int_text(n as int),
{
    let mut r: Vec<char> = Vec::new();
    if n < 0 {
        r.push('-');
        let m: u64 = (0 - (n as i128)) as u64;
        push_dec(m, &mut r);
    } else {
        push_dec(n as u64, &mut r);
    }
    assert(r@ =~= int_text(n as int));
    r
}

/// The decimal text of an unsigned integer.
pub fn nat_to_text(n: u64) -> (r: Vec<char>)
    ensures
        r@ == dec_text(n as nat),
{
    let mut r: Vec<char> = Vec::new();
    push_dec(n, &mut r);
    assert(r@ =~= dec_text(n as nat));
    r
}

/// The order of `String`: lexicographic by character (the order of the
/// UTF-8 bytes).
pub open spec fn text_lt(a: Seq<char>, b: Seq<char>) -> bool {
    ||| (a.len() < b.len() && a == b.take(a.len() as int))
    ||| exists|i: int|
        0 <= i < a.len() && i < b.len() && #[trigger] a.take(i) == b.take(i) && (a[i] as u32) < (
        b[i] as u32)
}

/// The place of one value against another.
#[derive(Clone, Copy, Debug, PartialEq, Eq, Structural)]
pub enum Rank {
    Before,
    Same,
    After,
}

/// Where text `a` stands against text `b` in the order of `String`.
pub fn rank_text(a: &Vec<char>, b: &Vec<char>) -> (r: Rank)
    ensures
        r == Rank::Before <==> text_lt(a@, b@),
        r == Rank::Same <==> a@ == b@,
        r == Rank::After <==> text_lt(b@, a@),
{
    let n = if a.len() < b.len() { a.len() } else { b.len() };
    let mut i: usize = 0;
    while i < n && a[i] == b[i]
        invariant
            n <= a@.len(),
            n <= b@.len(),
            n == a@.len() || n == b@.len(),
            i <= n,
            a@.take(i as int) == b@.take(i as int),
        decreases n - i,
    {
        assert(a@.take(i + 1) =~= a@.take(i as int).push(a@[i as int]));
        assert(b@.take(i + 1) =~= b@.take(i as int).push(b@[i as int]));
        i = i + 1;
    }
    if i < n {
        let x = a[i] as u32;
        let y = b[i] as u32;
        assert(a@[i as int] != b@[i as int]);
        assert(x != y) by {
            if x == y {
                vstd::utf8::char_u32_cast(a@[i as int], x);
                vstd::utf8::char_u32_cast(b@[i as int], y);
            }
        }
        if x < y {
            assert(a@.take(i as int) == b@.take(i as int));
            proof {
                lemma_not_lt_after_diff(b@, a@, i as int);
            }
            assert(a@ != b@);
            Rank::Before
        } else {
            assert(b@.take(i as int) == a@.take(i as int));
            proof {
                lemma_not_lt_after_diff(a@, b@, i as int);
            }
            assert(a@ != b@);
            Rank::After
        }
    } else {
        if a.len() < b.len() {
            assert(a@ =~= b@.take(a@.len() as int));
            proof {
                lemma_not_lt_prefix(b@, a@);
            }
            Rank::Before
        } else if a.len() > b.len() {
            assert(b@ =~= a@.take(b@.len() as int));
            proof {
                lemma_not_lt_prefix(a@, b@);
            }
            Rank::After
        } else {
            assert(a@ =~= a@.take(i as int));
            assert(b@ =~= b@.take(i as int));
            proof {
                lemma_text_lt_irreflexive(a@);
            }
            Rank::Same
        }
    }
}

proof fn lemma_not_lt_after_diff(a: Seq<char>, b: Seq<char>, i: int)
    requires
        0 <= i < a.len(),
        i < b.len(),
        a.take(i) == b.take(i),
        (b[i] as u32) < (a[i] as u32),
    ensures
        !text_lt(a, b),
{
    if a.len() < b.len() && a == b.take(a.len() as int) {
        assert(a[i] == b.take(a.len() as int)[i]);
    }
    assert forall|j: int|
        0 <= j < a.len() && j < b.len() && #[trigger] a.take(j) == b.take(j) implies !((a[j] as u32)
        < (b[j] as u32)) by {
        if j < i {
            assert(a.take(i)[j] == a[j]);
            assert(b.take(i)[j] == b[j]);
        } else if j > i {
            assert(a.take(j)[i] == a[i]);
            assert(b.take(j)[i] == b[i]);
        }
    }
}

proof fn lemma_not_lt_prefix(a: Seq<char>, b: Seq<char>)
    requires
        b.len() < a.len(),
        b == a.take(b.len() as int),
    ensures
        !text_lt(a, b),
{
    assert forall|j: int|
        0 <= j < a.len() && j < b.len() && #[trigger] a.take(j) == b.take(j) implies !((a[j] as u32)
        < (b[j] as u32)) by {
        assert(b[j] == a.take(b.len() as int)[j]);
    }
}

/// No text comes before itself.
pub proof fn lemma_text_lt_irreflexive(a: Seq<char>)
    ensures
        !text_lt(a, a),
{
}

proof fn lemma_text_lt_total_from(a: Seq<char>, b: Seq<char>, i: int)
    requires
        0 <= i <= a.len(),
        i <= b.len(),
        a.take(i) == b.take(i),
        a != b,
    ensures
        text_lt(a, b) || text_lt(b, a),
    decreases a.len() - i,
{
    if i == a.len() || i == b.len() {
        if a.len() < b.len() {
            assert(a.take(i) =~= a);
            assert(a =~= b.take(a.len() as int));
        } else if b.len() < a.len() {
            assert(b.take(i) =~= b);
            assert(b =~= a.take(b.len() as int));
        } else {
            assert(a.take(i) =~= a);
            assert(b.take(i) =~= b);
        }
    } else if a[i] != b[i] {
        let x = a[i] as u32;
        let y = b[i] as u32;
        if x == y {
            vstd::utf8::char_u32_cast(a[i], x);
            vstd::utf8::char_u32_cast(b[i], y);
        }
        if x < y {
            assert(0 <= i < a.len() && i < b.len() && a.take(i) == b.take(i) && (a[i] as u32) < (b[i] as u32));
        } else {
            assert(0 <= i < b.len() && i < a.len() && b.take(i) == a.take(i) && (b[i] as u32) < (a[i] as u32));
        }
    } else {
        assert(a.take(i + 1) =~= a.take(i).push(a[i]));
        assert(b.take(i + 1) =~= b.take(i).push(b[i]));
        lemma_text_lt_total_from(a, b, i + 1);
    }
}

/// Of two different texts, one comes before the other.
pub proof fn lemma_text_lt_total(a: Seq<char>, b: Seq<char>)
    ensures
        a == b || text_lt(a, b) || text_lt(b, a),
{
    if a != b {
        assert(a.take(0) =~= b.take(0));
        lemma_text_lt_total_from(a, b, 0);
    }
}

/// A copy of a text.
pub fn copy_text(v: &Vec<char>) -> (r: Vec<char>)
    ensures
        r@ == v@,
{
    let mut r: Vec<char> = Vec::new();
    let mut i: usize = 0;
    while i < v.len()
        invariant
            i <= v@.len(),
            r@ == v@.take(i as int),
        decreases v@.len() - i,
    {
        r.push(v[i]);
        i = i + 1;
        assert(r@ =~= v@.take(i as int));
    }
    assert(v@.take(i as int) =~= v@);
    r
}

/// Appends one character to a `String`.
#[verifier::external_body]
fn push_char(s: &mut String, c: char)
    ensures
        final(s)@ == old(s)@.push(c),
{
    s.push(c)
}

/// The `String` of a sequence of characters.
pub fn text_to_string(v: &Vec<char>) -> (r: String)
    ensures
        r@ == v@,
{
    let mut r = String::new();
    let mut i: usize = 0;
    while i < v.len()
        invariant
            i <= v@.len(),
            r@ == v@.take(i as int),
        decreases v@.len() - i,
    {
        push_char(&mut r, v[i]);
        i = i + 1;
        assert(r@ =~= v@.take(i as int));
    }
    assert(v@.take(i as int) =~= v@);
    r
}

/// The characters of a `String`.
pub fn string_chars(s: &String) -> (r: Vec<char>)
    ensures
        r@ == s@,
{
    let t = s.as_str();
    let n = t.unicode_len();
    let mut r: Vec<char> = Vec::new();
    let mut i: usize = 0;
    while i < n
        invariant
            n == t@.len(),
            t@ == s@,
            i <= n,
            r@ == t@.take(i as int),
        decreases n - i,
    {
        r.push(t.get_char(i));
        i = i + 1;
        assert(r@ =~= t@.take(i as int));
    }
    assert(t@.take(i as int) =~= t@);
    r
}

/// Decodes UTF-8 bytes into a `String`: `String::from_utf8`, which fails
/// exactly on invalid UTF-8; the decoded characters are those of the
/// encoding.
#[verifier::external_body]
pub fn utf8_string(bytes: Vec<u8>) -> (r: Option<String>)
    ensures
        r is Some <==> vstd::utf8::valid_utf8(bytes@),
        r matches Some(s) ==> s@ == vstd::utf8::decode_utf8(bytes@),
{
    String::from_utf8(bytes).ok()
}

} // verus!

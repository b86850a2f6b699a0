//! Character-level scanning used by the text formats of this crate.

use vstd::prelude::*;

verus! {

/// Unicode `White_Space`: the characters that `char::is_whitespace` accepts.
pub open spec fn is_unicode_whitespace(c: char) -> bool {
    let v = c as u32;
    ||| 0x9 <= v <= 0xd
    ||| v == 0x20
    ||| v == 0x85
    ||| v == 0xa0
    ||| v == 0x1680
    ||| 0x2000 <= v <= 0x200a
    ||| v == 0x2028
    ||| v == 0x2029
    ||| v == 0x202f
    ||| v == 0x205f
    ||| v == 0x3000
}

/// Tells whether `c` is Unicode white space.
pub fn is_whitespace(c: char) -> (r: bool)
    ensures
        r == is_unicode_whitespace(c),
{
    let v = c as u32;
    (0x9 <= v && v <= 0xd) || v == 0x20 || v == 0x85 || v == 0xa0 || v == 0x1680 || (0x2000 <= v
        && v <= 0x200a) || v == 0x2028 || v == 0x2029 || v == 0x202f || v == 0x205f || v == 0x3000
}

/// The characters of a string, in order.
pub fn chars_of(s: &str) -> (out: Vec<char>)
    ensures
        out@ == s@,
{
    let mut out: Vec<char> = Vec::new();
    for c in it: s.chars()
        invariant
            out@ == it.seq().take(it.index() as int),
    {
        out.push(c);
    }
    out
}

} // verus!

verus! {

/// Offset of the first `sep` in `s`, or `s.len()` when `s` holds none.
pub open spec fn first_sep(s: Seq<char>, sep: char) -> nat
    decreases s.len(),
{
    if s.len() == 0 {
        0
    } else if s[0] == sep {
        0
    } else {
        1 + first_sep(s.drop_first(), sep)
    }
}

/// The pieces of `s` between occurrences of `sep`: `k` separators give `k + 1` pieces.
pub open spec fn segments(s: Seq<char>, sep: char) -> Seq<Seq<char>>
    decreases s.len(),
{
    let e = first_sep(s, sep);
    if e >= s.len() {
        seq![s]
    } else {
        seq![s.take(e as int)] + segments(s.skip((e + 1) as int), sep)
    }
}

pub proof fn lemma_first_sep(s: Seq<char>, sep: char)
    ensures
        first_sep(s, sep) <= s.len(),
        first_sep(s, sep) < s.len() ==> s[first_sep(s, sep) as int] == sep,
        forall|j: int| 0 <= j < first_sep(s, sep) ==> s[j] != sep,
    decreases s.len(),
{
    if s.len() > 0 && s[0] != sep {
        let t = s.drop_first();
        lemma_first_sep(t, sep);
        assert forall|j: int| 0 <= j < first_sep(s, sep) implies s[j] != sep by {
            if j > 0 {
                assert(s[j] == t[j - 1]);
            }
        }
    }
}

/// `first_sep` is characterized by its two properties.
pub proof fn lemma_first_sep_at(s: Seq<char>, sep: char, k: int)
    requires
        0 <= k <= s.len(),
        k < s.len() ==> s[k] == sep,
        forall|j: int| 0 <= j < k ==> s[j] != sep,
    ensures
        first_sep(s, sep) == k,
    decreases s.len(),
{
    if s.len() > 0 && s[0] != sep {
        assert(k > 0);
        lemma_first_sep_at(s.drop_first(), sep, k - 1);
    }
}

/// Index of the first `sep` at or after `start`, or `chars.len()`.
pub fn find_from(chars: &Vec<char>, start: usize, sep: char) -> (e: usize)
    requires
        start <= chars.len(),
    ensures
        start <= e <= chars.len(),
        e - start == first_sep(chars@.skip(start as int), sep),
        e < chars.len() ==> chars@[e as int] == sep,
        forall|j: int| start <= j < e ==> chars@[j] != sep,
{
    let mut e = start;
    while e < chars.len() && chars[e] != sep
        invariant
            start <= e <= chars.len(),
            forall|j: int| start <= j < e ==> chars@[j] != sep,
        decreases chars.len() - e,
    {
        e += 1;
    }
    proof {
        let t = chars@.skip(start as int);
        lemma_first_sep_at(t, sep, e - start);
    }
    e
}

/// Left-to-right scan that cuts `s` at Unicode white space: the finished pieces and the piece
/// still open at the end.
pub open spec fn ws_scan(s: Seq<char>) -> (Seq<Seq<char>>, Seq<char>)
    decreases s.len(),
{
    if s.len() == 0 {
        (seq![], seq![])
    } else {
        let (done, cur) = ws_scan(s.drop_last());
        let c = s.last();
        if is_unicode_whitespace(c) {
            if cur.len() > 0 {
                (done.push(cur), seq![])
            } else {
                (done, seq![])
            }
        } else {
            (done, cur.push(c))
        }
    }
}

/// The maximal runs of non-white-space characters of `s`, in order (`str::split_whitespace`).
pub open spec fn ws_tokens(s: Seq<char>) -> Seq<Seq<char>> {
    let (done, cur) = ws_scan(s);
    if cur.len() > 0 {
        done.push(cur)
    } else {
        done
    }
}

pub proof fn lemma_ws_scan_pieces(s: Seq<char>)
    ensures
        forall|i: int| 0 <= i < ws_scan(s).0.len() ==> #[trigger] ws_scan(s).0[i].len() > 0,
    decreases s.len(),
{
    if s.len() > 0 {
        lemma_ws_scan_pieces(s.drop_last());
        let (done, cur) = ws_scan(s.drop_last());
        assert(forall|i: int| 0 <= i < done.len() ==> #[trigger] done[i].len() > 0);
    }
}

/// The character sequences held by a list of character vectors.
pub open spec fn token_views(v: Seq<Vec<char>>) -> Seq<Seq<char>> {
    v.map_values(|t: Vec<char>| t@)
}

/// The white-space separated tokens of `chars[start..end]`.
pub fn ws_tokens_in(chars: &Vec<char>, start: usize, end: usize) -> (tokens: Vec<Vec<char>>)
    requires
        start <= end <= chars.len(),
    ensures
        token_views(tokens@) == ws_tokens(chars@.subrange(start as int, end as int)),
{
    let mut done: Vec<Vec<char>> = Vec::new();
    let mut cur: Vec<char> = Vec::new();
    let mut i = start;
    while i < end
        invariant
            start <= i <= end <= chars.len(),
            (token_views(done@), cur@) == ws_scan(chars@.subrange(start as int, i as int)),
        decreases end - i,
    {
        let c = chars[i];
        proof {
            let p = chars@.subrange(start as int, i + 1);
            assert(p.drop_last() =~= chars@.subrange(start as int, i as int));
            assert(p.last() == c);
        }
        if is_whitespace(c) {
            if cur.len() > 0 {
                let ghost before = token_views(done@);
                let ghost piece_view = cur@;
                let piece = cur;
                cur = Vec::new();
                done.push(piece);
                proof {
                    assert(token_views(done@) =~= before.push(piece_view));
                }
            }
        } else {
            cur.push(c);
        }
        i += 1;
    }
    if cur.len() > 0 {
        let ghost before = token_views(done@);
        let ghost piece_view = cur@;
        done.push(cur);
        proof {
            assert(token_views(done@) =~= before.push(piece_view));
        }
    }
    done
}

} // verus!

verus! {

pub open spec fn is_ascii_digit(c: char) -> bool {
    '0' <= c <= '9'
}

pub open spec fn digit_value(c: char) -> nat {
    (c as u32 - '0' as u32) as nat
}

pub open spec fn all_digits(s: Seq<char>) -> bool {
    forall|i: int| 0 <= i < s.len() ==> is_ascii_digit(#[trigger] s[i])
}

/// The number that a string of decimal digits writes.
pub open spec fn digits_value(s: Seq<char>) -> nat
    decreases s.len(),
{
    if s.len() == 0 {
        0
    } else {
        digits_value(s.drop_last()) * 10 + digit_value(s.last())
    }
}

/// What `usize::from_str` accepts: an optional `+` and then one or more ASCII digits whose
/// value fits in a `usize`.
pub open spec fn parse_usize_spec(s: Seq<char>) -> Option<nat> {
    let d = if s.len() > 0 && s[0] == '+' {
        s.drop_first()
    } else {
        s
    };
    if d.len() > 0 && all_digits(d) && digits_value(d) <= usize::MAX {
        Some(digits_value(d))
    } else {
        None
    }
}

proof fn lemma_digits_value_prefix(s: Seq<char>, k: int)
    requires
        0 <= k <= s.len(),
    ensures
        digits_value(s.take(k)) <= digits_value(s),
    decreases s.len() - k,
{
    if k < s.len() {
        lemma_digits_value_prefix(s, k + 1);
        assert(s.take(k + 1).drop_last() =~= s.take(k));
    } else {
        assert(s.take(k) =~= s);
    }
}

/// Parses a decimal `usize` as `usize::from_str` does.
#[verifier::loop_isolation(false)]
pub fn parse_usize(s: &Vec<char>) -> (r: Option<usize>)
    ensures
        match r {
            Some(v) => parse_usize_spec(s@) == Some(v as nat),
            None => parse_usize_spec(s@) is None,
        },
{
    let start: usize = if s.len() > 0 && s[0] == '+' {
        1
    } else {
        0
    };
    let ghost d = if s.len() > 0 && s[0] == '+' {
        s@.drop_first()
    } else {
        s@
    };
    assert(d =~= s@.skip(start as int));
    if start >= s.len() {
        return None;
    }
    let mut value: usize = 0;
    let mut i = start;
    while i < s.len()
        invariant
            start <= i <= s.len(),
            d =~= s@.skip(start as int),
            forall|j: int| start <= j < i ==> is_ascii_digit(#[trigger] s@[j]),
            value as nat == digits_value(s@.subrange(start as int, i as int)),
        decreases s.len() - i,
    {
        let c = s[i];
        if !(c >= '0' && c <= '9') {
            assert(d[i - start] == c);
            assert(!all_digits(d));
            assert(parse_usize_spec(s@) is None);
            return None;
        }
        let digit = (c as u32 - '0' as u32) as usize;
        proof {
            let p = s@.subrange(start as int, i + 1);
            assert(p.drop_last() =~= s@.subrange(start as int, i as int));
            assert(p =~= d.take(i + 1 - start));
        }
        let m = value.checked_mul(10);
        match m {
            None => {
                proof {
                    assert(digits_value(d.take(i + 1 - start)) > usize::MAX);
                    lemma_digits_value_prefix(d, i + 1 - start);
                }
                return None;
            },
            Some(m) => match m.checked_add(digit) {
                None => {
                    proof {
                        assert(digits_value(d.take(i + 1 - start)) > usize::MAX);
                        lemma_digits_value_prefix(d, i + 1 - start);
                    }
                    return None;
                },
                Some(v) => {
                    value = v;
                },
            },
        }
        i += 1;
    }
    assert(s@.subrange(start as int, s.len() as int) =~= d);
    Some(value)
}

pub open spec fn is_sign(c: char) -> bool {
    c == '+' || c == '-'
}

/// `t` spells `lower` with every letter in either case.
pub open spec fn matches_word(t: Seq<char>, lower: Seq<char>, upper: Seq<char>) -> bool {
    &&& t.len() == lower.len()
    &&& forall|i: int| 0 <= i < t.len() ==> #[trigger] t[i] == lower[i] || t[i] == upper[i]
}

/// `Digit+ | Digit+ '.' Digit* | Digit* '.' Digit+`
pub open spec fn is_mantissa(m: Seq<char>) -> bool {
    &&& forall|i: int| 0 <= i < m.len() ==> is_ascii_digit(#[trigger] m[i]) || m[i] == '.'
    &&& forall|i: int, j: int| 0 <= i < m.len() && 0 <= j < m.len() && #[trigger] m[i] == '.' && #[trigger] m[j]
        == '.' ==> i == j
    &&& exists|i: int| 0 <= i < m.len() && is_ascii_digit(#[trigger] m[i])
}

/// Empty, or `('e' | 'E') Sign? Digit+`.
pub open spec fn is_exponent(x: Seq<char>) -> bool {
    x.len() == 0 || {
        &&& (x[0] == 'e' || x[0] == 'E')
        &&& {
            let y = x.drop_first();
            let d = if y.len() > 0 && is_sign(y[0]) {
                y.drop_first()
            } else {
                y
            };
            d.len() > 0 && all_digits(d)
        }
    }
}

/// The grammar that the documentation of `f32::from_str` gives, read without regard to the case
/// of letters: `Sign? ('inf' | 'infinity' | 'nan' | Number)`, where `Number` is a mantissa and an
/// optional exponent.
pub open spec fn is_float_literal(s: Seq<char>) -> bool {
    let t = unsigned_part(s);
    ||| matches_word(t, seq!['i', 'n', 'f'], seq!['I', 'N', 'F'])
    ||| matches_word(
        t,
        seq!['i', 'n', 'f', 'i', 'n', 'i', 't', 'y'],
        seq!['I', 'N', 'F', 'I', 'N', 'I', 'T', 'Y'],
    )
    ||| matches_word(t, seq!['n', 'a', 'n'], seq!['N', 'A', 'N'])
    ||| is_number(t)
}

/// `s` without one leading sign.
pub open spec fn unsigned_part(s: Seq<char>) -> Seq<char> {
    if s.len() > 0 && is_sign(s[0]) {
        s.drop_first()
    } else {
        s
    }
}

/// A mantissa followed by an optional exponent.
pub open spec fn is_number(t: Seq<char>) -> bool {
    exists|e: int| 0 <= e <= t.len() && is_mantissa(t.take(e)) && is_exponent(t.skip(e))
}

fn matches_word_at(s: &Vec<char>, start: usize, lower: &[char], upper: &[char]) -> (r: bool)
    requires
        start <= s.len(),
        lower@.len() == upper@.len(),
    ensures
        r == matches_word(s@.skip(start as int), lower@, upper@),
{
    if s.len() - start != lower.len() {
        return false;
    }
    let mut i: usize = 0;
    while i < lower.len()
        invariant
            start <= s.len(),
            s.len() - start == lower@.len(),
            lower@.len() == upper@.len(),
            i <= lower@.len(),
            forall|j: int| 0 <= j < i ==> #[trigger] s@[start + j] == lower@[j] || s@[start + j] == upper@[j],
        decreases lower.len() - i,
    {
        if s[start + i] != lower[i] && s[start + i] != upper[i] {
            assert(s@.skip(start as int)[i as int] == s@[start + i]);
            return false;
        }
        i += 1;
    }
    assert forall|j: int| 0 <= j < s@.skip(start as int).len() implies #[trigger] s@.skip(start as int)[j] == lower@[j]
        || s@.skip(start as int)[j] == upper@[j] by {
        assert(s@.skip(start as int)[j] == s@[start + j]);
    }
    true
}

/// Whether `f32::from_str` accepts `s` (see `is_float_literal`).
pub fn is_float_literal_chars(s: &Vec<char>) -> (r: bool)
    ensures
        r == is_float_literal(s@),
{
    let start: usize = if s.len() > 0 && (s[0] == '+' || s[0] == '-') {
        1
    } else {
        0
    };
    let ghost t = unsigned_part(s@);
    assert(t =~= s@.skip(start as int));
    let w1 = matches_word_at(s, start, &['i', 'n', 'f'], &['I', 'N', 'F']);
    let w2 = matches_word_at(
        s,
        start,
        &['i', 'n', 'f', 'i', 'n', 'i', 't', 'y'],
        &['I', 'N', 'F', 'I', 'N', 'I', 'T', 'Y'],
    );
    let w3 = matches_word_at(s, start, &['n', 'a', 'n'], &['N', 'A', 'N']);
    assert(['i', 'n', 'f']@ =~= seq!['i', 'n', 'f']);
    assert(['I', 'N', 'F']@ =~= seq!['I', 'N', 'F']);
    assert(['i', 'n', 'f', 'i', 'n', 'i', 't', 'y']@ =~= seq!['i', 'n', 'f', 'i', 'n', 'i', 't', 'y']);
    assert(['I', 'N', 'F', 'I', 'N', 'I', 'T', 'Y']@ =~= seq!['I', 'N', 'F', 'I', 'N', 'I', 'T', 'Y']);
    assert(['n', 'a', 'n']@ =~= seq!['n', 'a', 'n']);
    assert(['N', 'A', 'N']@ =~= seq!['N', 'A', 'N']);
    assert(w1 == matches_word(t, seq!['i', 'n', 'f'], seq!['I', 'N', 'F']));
    assert(w2 == matches_word(t, seq!['i', 'n', 'f', 'i', 'n', 'i', 't', 'y'], seq!['I', 'N', 'F', 'I', 'N', 'I', 'T', 'Y']));
    assert(w3 == matches_word(t, seq!['n', 'a', 'n'], seq!['N', 'A', 'N']));
    if w1 || w2 || w3 {
        return true;
    }
    let number = is_number_at(s, start);
    number
}

/// Whether `s[start..]` is a mantissa followed by an optional exponent.
fn is_number_at(s: &Vec<char>, start: usize) -> (r: bool)
    requires
        start <= s.len(),
    ensures
            r == is_number(s@.skip(start as int)),
{
    let ghost t = s@.skip(start as int);
    // the mantissa ends at the first exponent mark
    let mut e = start;
    let mut dots: usize = 0;
    let mut digits: usize = 0;
    let mut only_mantissa_chars = true;
    while e < s.len() && s[e] != 'e' && s[e] != 'E'
        invariant
            start <= e <= s.len(),
            t =~= s@.skip(start as int),
            forall|j: int| start <= j < e ==> s@[j] != 'e' && s@[j] != 'E',
            dots <= e - start,
            digits <= e - start,
            only_mantissa_chars == forall|j: int|
                start <= j < e ==> is_ascii_digit(#[trigger] s@[j]) || s@[j] == '.',
            dots == 0 ==> forall|j: int| start <= j < e ==> #[trigger] s@[j] != '.',
            dots == 1 ==> exists|j: int| start <= j < e && #[trigger] s@[j] == '.' && forall|k: int|
                start <= k < e && #[trigger] s@[k] == '.' ==> k == j,
            dots >= 2 ==> exists|j: int, k: int|
                start <= j < k < e && #[trigger] s@[j] == '.' && #[trigger] s@[k] == '.',
            digits == 0 <==> forall|j: int| start <= j < e ==> !is_ascii_digit(#[trigger] s@[j]),
        decreases s.len() - e,
    {
        let c = s[e];
        if c == '.' {
            if dots < 2 {
                dots += 1;
            }
        } else if c >= '0' && c <= '9' {
            if digits < 1 {
                digits += 1;
            }
        } else {
            only_mantissa_chars = false;
        }
        e += 1;
    }
    let ghost m = e - start;
    assert(t.take(m) =~= s@.subrange(start as int, e as int));
    let mantissa_ok = only_mantissa_chars && dots <= 1 && digits >= 1;
    proof {
        if mantissa_ok {
            assert forall|i: int| 0 <= i < t.take(m).len() implies is_ascii_digit(#[trigger] t.take(m)[i])
                || t.take(m)[i] == '.' by {
                assert(t.take(m)[i] == s@[start + i]);
            }
            assert forall|i: int, j: int|
                0 <= i < t.take(m).len() && 0 <= j < t.take(m).len() && #[trigger] t.take(m)[i] == '.'
                    && #[trigger] t.take(m)[j] == '.' implies i == j by {
                assert(t.take(m)[i] == s@[start + i]);
                assert(t.take(m)[j] == s@[start + j]);
            }
            let w = choose|j: int| start <= j < e && is_ascii_digit(#[trigger] s@[j]);
            assert(t.take(m)[w - start] == s@[w]);
            assert(is_mantissa(t.take(m)));
        } else {
            if !only_mantissa_chars {
                let j = choose|j: int| start <= j < e && !(is_ascii_digit(#[trigger] s@[j]) || s@[j] == '.');
                assert(t.take(m)[j - start] == s@[j]);
            } else if dots >= 2 {
                let (j, k) = choose|j: int, k: int|
                    start <= j < k < e && #[trigger] s@[j] == '.' && #[trigger] s@[k] == '.';
                assert(t.take(m)[j - start] == s@[j]);
                assert(t.take(m)[k - start] == s@[k]);
            } else {
                assert forall|i: int| 0 <= i < t.take(m).len() implies !is_ascii_digit(#[trigger] t.take(m)[i]) by {
                    assert(t.take(m)[i] == s@[start + i]);
                }
            }
            assert(!is_mantissa(t.take(m)));
        }
    }
    let exponent_ok = is_exponent_at(s, e);
    assert(t.skip(m) =~= s@.skip(e as int));
    proof {
        // any other split point fails
        assert forall|e2: int|
            0 <= e2 <= t.len() && e2 != m && is_mantissa(t.take(e2)) implies !is_exponent(t.skip(e2)) by {
            if e2 > m {
                assert(t.take(e2)[m] == s@[e as int]);
                assert(s@[e as int] == 'e' || s@[e as int] == 'E');
            } else {
                assert(t.skip(e2)[0] == s@[start + e2]);
                assert(t.skip(e2).len() > 0);
            }
        }
    }
    mantissa_ok && exponent_ok
}

/// Whether `s[start..]` is empty or an exponent.
#[verifier::loop_isolation(false)]
fn is_exponent_at(s: &Vec<char>, start: usize) -> (r: bool)
    requires
        start <= s.len(),
    ensures
        r == is_exponent(s@.skip(start as int)),
{
    let ghost x = s@.skip(start as int);
    if start == s.len() {
        return true;
    }
    if s[start] != 'e' && s[start] != 'E' {
        return false;
    }
    let mut i = start + 1;
    if i < s.len() && (s[i] == '+' || s[i] == '-') {
        i += 1;
    }
    let ghost y = x.drop_first();
    assert(y =~= s@.skip(start + 1));
    let ghost d = if y.len() > 0 && is_sign(y[0]) {
        y.drop_first()
    } else {
        y
    };
    assert(d =~= s@.skip(i as int));
    if i == s.len() {
        assert(d.len() == 0);
        assert(!is_exponent(x));
        return false;
    }
    let first = i;
    while i < s.len()
        invariant
            first <= i <= s.len(),
            d =~= s@.skip(first as int),
            forall|j: int| first <= j < i ==> is_ascii_digit(#[trigger] s@[j]),
        decreases s.len() - i,
    {
        if !(s[i] >= '0' && s[i] <= '9') {
            assert(d[i - first] == s@[i as int]);
            return false;
        }
        i += 1;
    }
    assert forall|j: int| 0 <= j < d.len() implies is_ascii_digit(#[trigger] d[j]) by {
        assert(d[j] == s@[first + j]);
    }
    true
}

} // verus!

verus! {

/// The decimal digit character for `d < 10`.
pub open spec fn digit_char(d: nat) -> char {
    (48 + d) as char
}

/// The decimal writing of `n`: no sign, no leading zeros, `"0"` for zero.
pub open spec fn decimal_text(n: nat) -> Seq<char>
    decreases n,
{
    if n < 10 {
        seq![digit_char(n)]
    } else {
        decimal_text(n / 10).push(digit_char(n % 10))
    }
}

/// The digit character of `d < 10`.
fn digit_to_char(d: u64) -> (c: char)
    requires
        d < 10,
    ensures
        c == digit_char(d as nat),
{
    if d == 0 {
        '0'
    } else if d == 1 {
        '1'
    } else if d == 2 {
        '2'
    } else if d == 3 {
        '3'
    } else if d == 4 {
        '4'
    } else if d == 5 {
        '5'
    } else if d == 6 {
        '6'
    } else if d == 7 {
        '7'
    } else if d == 8 {
        '8'
    } else {
        '9'
    }
}

/// The decimal writing of `n`, as `u64`'s `Display` gives it.
pub fn decimal_string(n: u64) -> (s: String)
    ensures
        s@ == decimal_text(n as nat),
{
    let mut m: u64 = n;
    let mut tail: Vec<char> = Vec::new();
    while m >= 10
        invariant
            decimal_text(n as nat) == decimal_text(m as nat) + tail@,
        decreases m,
    {
        let c = digit_to_char(m % 10);
        proof {
            assert(decimal_text(m as nat) == decimal_text((m / 10) as nat).push(c));
            assert(decimal_text((m / 10) as nat).push(c) + tail@ =~= decimal_text((m / 10) as nat) + (seq![c]
                + tail@));
        }
        tail.insert(0, c);
        m = m / 10;
    }
    let c = digit_to_char(m);
    tail.insert(0, c);
    string_from_chars(&tail)
}

/// A `String` of the given characters, through `FromIterator<char>`.
#[verifier::external_body]
pub(crate) fn string_from_chars(chars: &Vec<char>) -> (s: String)
    ensures
        s@ == chars@,
{
    chars.iter().collect()
}

} // verus!

verus! {

/// `chars[a..b]` as a vector.
pub fn sub_chars(chars: &Vec<char>, a: usize, b: usize) -> (r: Vec<char>)
    requires
        a <= b <= chars.len(),
    ensures
        r@ == chars@.subrange(a as int, b as int),
{
    let mut r: Vec<char> = Vec::new();
    let mut i = a;
    while i < b
        invariant
            a <= i <= b <= chars.len(),
            r@ == chars@.subrange(a as int, i as int),
        decreases b - i,
    {
        r.push(chars[i]);
        proof {
            assert(chars@.subrange(a as int, i + 1) =~= chars@.subrange(a as int, i as int).push(chars@[i as int]));
        }
        i += 1;
    }
    r
}

/// The first piece of `segments(s, sep)` ends at the first separator; when there is one, the
/// other pieces are those of the text after it.
pub proof fn lemma_segments_unfold(s: Seq<char>, sep: char)
    ensures
        segments(s, sep).len() >= 1,
        segments(s, sep)[0] == s.take(first_sep(s, sep) as int),
        first_sep(s, sep) < s.len() ==> segments(s, sep) == seq![s.take(first_sep(s, sep) as int)]
            + segments(s.skip((first_sep(s, sep) + 1) as int), sep),
        first_sep(s, sep) >= s.len() ==> segments(s, sep).len() == 1,
{
    lemma_first_sep(s, sep);
    if first_sep(s, sep) >= s.len() {
        assert(s.take(first_sep(s, sep) as int) =~= s);
    }
}

} // verus!

verus! {

pub proof fn lemma_ws_tokens_nonempty(s: Seq<char>)
    ensures
        forall|i: int| 0 <= i < ws_tokens(s).len() ==> #[trigger] ws_tokens(s)[i].len() > 0,
{
    lemma_ws_scan_pieces(s);
}

} // verus!

//! Character-level text helpers shared by the command-line parser.
use vstd::prelude::*;

verus! {

broadcast use vstd::string::group_string_axioms;

/// The characters of `s`, in order.
pub fn chars_of(s: &str) -> (v: Vec<char>)
    ensures
        v@ == s@,
{
    let mut v: Vec<char> = Vec::new();
    for c in it: s.chars()
        invariant
            it.seq() == s@,
            v@ == s@.take(it.index() as int),
    {
        v.push(c);
        assert(v@ =~= s@.take(it.index() + 1));
    }
    assert(v@ =~= s@);
    v
}

} // verus!

verus! {

/// Unicode `White_Space`: the characters that `char::is_whitespace` accepts.
pub open spec fn is_white_space(c: char) -> bool {
    let u = c as u32;
    ||| 0x09 <= u <= 0x0d
    ||| u == 0x20
    ||| u == 0x85
    ||| u == 0xa0
    ||| u == 0x1680
    ||| 0x2000 <= u <= 0x200a
    ||| u == 0x2028
    ||| u == 0x2029
    ||| u == 0x202f
    ||| u == 0x205f
    ||| u == 0x3000
}

/// Whether `c` is Unicode white space.
pub fn is_white_space_char(c: char) -> (r: bool)
    ensures
        r == is_white_space(c),
{
    let u = c as u32;
    (0x09 <= u && u <= 0x0d) || u == 0x20 || u == 0x85 || u == 0xa0 || u == 0x1680 || (0x2000
        <= u && u <= 0x200a) || u == 0x2028 || u == 0x2029 || u == 0x202f || u == 0x205f || u
        == 0x3000
}

/// `s` without its leading white space.
pub open spec fn trim_start(s: Seq<char>) -> Seq<char>
    decreases s.len(),
{
    if s.len() > 0 && is_white_space(s[0]) {
        trim_start(s.drop_first())
    } else {
        s
    }
}

/// `s` without its trailing white space.
pub open spec fn trim_end(s: Seq<char>) -> Seq<char>
    decreases s.len(),
{
    if s.len() > 0 && is_white_space(s.last()) {
        trim_end(s.drop_last())
    } else {
        s
    }
}

/// `s` without leading and trailing white space, as `str::trim` gives it.
pub open spec fn trim(s: Seq<char>) -> Seq<char> {
    trim_end(trim_start(s))
}

/// The characters `v[lo..hi]` as a new vector.
pub fn copy_range(v: &Vec<char>, lo: usize, hi: usize) -> (r: Vec<char>)
    requires
        lo <= hi <= v.len(),
    ensures
        r@ == v@.subrange(lo as int, hi as int),
{
    let mut r: Vec<char> = Vec::new();
    let mut i = lo;
    while i < hi
        invariant
            lo <= i <= hi <= v.len(),
            r@ == v@.subrange(lo as int, i as int),
        decreases hi - i,
    {
        r.push(v[i]);
        i += 1;
        assert(r@ =~= v@.subrange(lo as int, i as int));
    }
    r
}

proof fn lemma_trim_start_step(s: Seq<char>, i: int)
    requires
        0 <= i < s.len(),
        is_white_space(s[i]),
    ensures
        trim_start(s.subrange(i, s.len() as int)) == trim_start(s.subrange(i + 1, s.len() as int)),
{
    assert(s.subrange(i, s.len() as int).drop_first() =~= s.subrange(i + 1, s.len() as int));
}

proof fn lemma_trim_end_step(s: Seq<char>, j: int)
    requires
        0 < j <= s.len(),
        is_white_space(s[j - 1]),
    ensures
        trim_end(s.subrange(0, j)) == trim_end(s.subrange(0, j - 1)),
{
    assert(s.subrange(0, j).drop_last() =~= s.subrange(0, j - 1));
}

/// `v` with leading and trailing white space removed.
pub fn trim_chars(v: &Vec<char>) -> (r: Vec<char>)
    ensures
        r@ == trim(v@),
{
    let n = v.len();
    let mut lo: usize = 0;
    assert(v@.subrange(0, n as int) =~= v@);
    while lo < n && is_white_space_char(v[lo])
        invariant
            lo <= n == v.len(),
            trim_start(v@) == trim_start(v@.subrange(lo as int, n as int)),
        decreases n - lo,
    {
        proof {
            lemma_trim_start_step(v@, lo as int);
        }
        lo += 1;
    }
    let ghost t = v@.subrange(lo as int, n as int);
    assert(trim_start(v@) == t);
    assert(t.subrange(0, t.len() as int) =~= t);
    let mut hi: usize = n;
    while hi > lo && is_white_space_char(v[hi - 1])
        invariant
            lo <= hi <= n == v.len(),
            t == v@.subrange(lo as int, n as int),
            trim_end(t) == trim_end(v@.subrange(lo as int, hi as int)),
        decreases hi,
    {
        proof {
            let u = v@.subrange(lo as int, hi as int);
            assert(u =~= t.subrange(0, hi - lo));
            lemma_trim_end_step(t, hi - lo);
            assert(t.subrange(0, hi - lo - 1) =~= v@.subrange(lo as int, hi - 1));
        }
        hi -= 1;
    }
    assert(trim_end(v@.subrange(lo as int, hi as int)) == v@.subrange(lo as int, hi as int));
    copy_range(v, lo, hi)
}

} // verus!

verus! {

/// The fields of `s` between occurrences of `sep`, as `str::split` yields them:
/// `k` separators give `k + 1` fields, empty ones included.
pub open spec fn split_on(s: Seq<char>, sep: char) -> Seq<Seq<char>>
    decreases s.len(),
{
    if s.len() == 0 {
        seq![Seq::empty()]
    } else {
        let fields = split_on(s.drop_last(), sep);
        if s.last() == sep {
            fields.push(Seq::empty())
        } else {
            fields.update(fields.len() - 1, fields.last().push(s.last()))
        }
    }
}

/// `split_on` never yields an empty list of fields.
pub proof fn lemma_split_on_nonempty(s: Seq<char>, sep: char)
    ensures
        split_on(s, sep).len() >= 1,
    decreases s.len(),
{
    if s.len() > 0 {
        lemma_split_on_nonempty(s.drop_last(), sep);
    }
}

/// The fields of `v` separated by `sep`.
pub fn split_chars(v: &Vec<char>, sep: char) -> (fields: Vec<Vec<char>>)
    ensures
        fields.deep_view() == split_on(v@, sep),
{
    let mut fields: Vec<Vec<char>> = Vec::new();
    let mut cur: Vec<char> = Vec::new();
    let n = v.len();
    let mut i: usize = 0;
    assert(v@.take(0) =~= Seq::<char>::empty());
    while i < n
        invariant
            i <= n == v.len(),
            split_on(v@.take(i as int), sep) == fields.deep_view().push(cur@),
        decreases n - i,
    {
        let c = v[i];
        proof {
            lemma_split_on_nonempty(v@.take(i as int), sep);
            assert(v@.take(i + 1).drop_last() =~= v@.take(i as int));
        }
        let ghost before = fields.deep_view();
        let ghost old_cur = cur@;
        if c == sep {
            assert(cur.deep_view() =~= old_cur);
            fields.push(cur);
            cur = Vec::new();
            assert(fields.deep_view() =~= before.push(old_cur));
        } else {
            cur.push(c);
        }
        i += 1;
        assert(split_on(v@.take(i as int), sep) =~= fields.deep_view().push(cur@));
    }
    assert(v@.take(n as int) =~= v@);
    let ghost before = fields.deep_view();
    let ghost last = cur@;
    assert(cur.deep_view() =~= last);
    fields.push(cur);
    assert(fields.deep_view() =~= before.push(last));
    fields
}

} // verus!

verus! {

/// Why a decimal `u32` could not be read, as `std::num::IntErrorKind` names it.
#[derive(Debug, Clone, Copy, PartialEq, Eq, Structural)]
pub enum IntErrorKind {
    /// The text is empty.
    Empty,
    /// A character is not a decimal digit (or the text is a lone sign).
    InvalidDigit,
    /// The number is larger than `u32::MAX`.
    PosOverflow,
}

/// An ASCII decimal digit.
pub open spec fn is_digit(c: char) -> bool {
    '0' <= c <= '9'
}

/// The value of an ASCII decimal digit.
pub open spec fn digit_value(c: char) -> int {
    c as int - '0' as int
}

/// Reads the digits of `s` after the value `acc` has been read, left to right;
/// the first character that fails decides the error.
pub open spec fn accumulate_digits(s: Seq<char>, acc: int) -> Result<u32, IntErrorKind>
    decreases s.len(),
{
    if s.len() == 0 {
        Ok(acc as u32)
    } else if !is_digit(s[0]) {
        Err(IntErrorKind::InvalidDigit)
    } else if acc * 10 + digit_value(s[0]) > u32::MAX {
        Err(IntErrorKind::PosOverflow)
    } else {
        accumulate_digits(s.drop_first(), acc * 10 + digit_value(s[0]))
    }
}

/// What `<u32 as FromStr>::from_str` gives for `s`: an optional `+`, then decimal digits.
pub open spec fn u32_from_str(s: Seq<char>) -> Result<u32, IntErrorKind> {
    if s.len() == 0 {
        Err(IntErrorKind::Empty)
    } else if s.len() == 1 && (s[0] == '+' || s[0] == '-') {
        Err(IntErrorKind::InvalidDigit)
    } else if s[0] == '+' {
        accumulate_digits(s.drop_first(), 0)
    } else {
        accumulate_digits(s, 0)
    }
}

/// Reads `v` as a decimal `u32`, as `str::parse::<u32>` does.
pub fn parse_u32(v: &Vec<char>) -> (r: Result<u32, IntErrorKind>)
    ensures
        r == u32_from_str(v@),
{
    let n = v.len();
    if n == 0 {
        return Err(IntErrorKind::Empty);
    }
    if n == 1 && (v[0] == '+' || v[0] == '-') {
        return Err(IntErrorKind::InvalidDigit);
    }
    let mut i: usize = if v[0] == '+' { 1 } else { 0 };
    assert(v@.skip(1) =~= v@.drop_first());
    assert(v@.skip(0) =~= v@);
    let mut acc: u32 = 0;
    while i < n
        invariant
            i <= n == v.len(),
            u32_from_str(v@) == accumulate_digits(v@.skip(i as int), acc as int),
        decreases n - i,
    {
        let c = v[i];
        assert(v@.skip(i as int)[0] == c);
        assert(v@.skip(i as int).drop_first() =~= v@.skip(i + 1));
        if !('0' <= c && c <= '9') {
            return Err(IntErrorKind::InvalidDigit);
        }
        let d = (c as u32) - ('0' as u32);
        if acc > 429496729 || (acc == 429496729 && d > 5) {
            return Err(IntErrorKind::PosOverflow);
        }
        acc = acc * 10 + d;
        i += 1;
    }
    Ok(acc)
}

} // verus!

verus! {

/// Why a decimal `f32` literal could not be read, as `ParseFloatError` tells the two apart.
#[derive(Debug, Clone, Copy, PartialEq, Eq, Structural)]
pub enum FloatErrorKind {
    /// The text is empty.
    Empty,
    /// The text is not a float literal.
    Invalid,
}

/// `c` with ASCII upper case letters made lower case.
pub open spec fn ascii_lower(c: char) -> char {
    if 'A' <= c <= 'Z' {
        ((c as u32) + 32) as char
    } else {
        c
    }
}

/// `s` with ASCII upper case letters made lower case.
pub open spec fn ascii_lowercase(s: Seq<char>) -> Seq<char> {
    s.map_values(|c: char| ascii_lower(c))
}

/// Every character of `s` is a decimal digit.
pub open spec fn all_digits(s: Seq<char>) -> bool {
    forall|i: int| 0 <= i < s.len() ==> is_digit(#[trigger] s[i])
}

/// `Digit+ | Digit+ '.' Digit* | Digit* '.' Digit+`.
pub open spec fn is_mantissa(m: Seq<char>) -> bool {
    ||| m.len() >= 1 && all_digits(m)
    ||| m.len() >= 2 && exists|d: int|
        0 <= d < m.len() && #[trigger] m[d] == '.' && all_digits(m.take(d)) && all_digits(
            m.skip(d + 1),
        )
}

/// `Sign? Digit+`, the part after the exponent letter.
pub open spec fn is_exponent_tail(x: Seq<char>) -> bool {
    ||| x.len() >= 1 && all_digits(x)
    ||| x.len() >= 2 && (x[0] == '+' || x[0] == '-') && all_digits(x.drop_first())
}

/// `Mantissa ('e' Sign? Digit+)?`, in lower case.
pub open spec fn is_decimal_number(b: Seq<char>) -> bool {
    ||| is_mantissa(b)
    ||| exists|k: int|
        0 <= k < b.len() && #[trigger] b[k] == 'e' && is_mantissa(b.take(k)) && is_exponent_tail(
            b.skip(k + 1),
        )
}

/// `s` without one leading sign.
pub open spec fn unsigned_part(s: Seq<char>) -> Seq<char> {
    if s.len() > 0 && (s[0] == '+' || s[0] == '-') {
        s.drop_first()
    } else {
        s
    }
}

pub open spec fn inf_word() -> Seq<char> {
    seq!['i', 'n', 'f']
}

pub open spec fn infinity_word() -> Seq<char> {
    seq!['i', 'n', 'f', 'i', 'n', 'i', 't', 'y']
}

pub open spec fn nan_word() -> Seq<char> {
    seq!['n', 'a', 'n']
}

/// The grammar that `<f32 as FromStr>::from_str` documents:
/// `Sign? ('inf' | 'infinity' | 'nan' | Number)`, letters in any case.
pub open spec fn is_float_literal(s: Seq<char>) -> bool {
    let b = unsigned_part(ascii_lowercase(s));
    b == inf_word() || b == infinity_word() || b == nan_word() || is_decimal_number(b)
}

/// The literal reads as NaN.
pub open spec fn is_nan_literal(s: Seq<char>) -> bool {
    unsigned_part(ascii_lowercase(s)) == nan_word()
}

/// Whether `<f32 as FromStr>::from_str` accepts `s`, and if not, which error it gives.
pub open spec fn float_literal_check(s: Seq<char>) -> Result<(), FloatErrorKind> {
    if s.len() == 0 {
        Err(FloatErrorKind::Empty)
    } else if is_float_literal(s) {
        Ok(())
    } else {
        Err(FloatErrorKind::Invalid)
    }
}

fn lowercase_chars(v: &Vec<char>) -> (r: Vec<char>)
    ensures
        r@ == ascii_lowercase(v@),
{
    let mut r: Vec<char> = Vec::new();
    let n = v.len();
    for i in 0..n
        invariant
            n == v.len(),
            r@ == ascii_lowercase(v@.take(i as int)),
    {
        let c = v[i];
        let l = if 'A' <= c && c <= 'Z' {
            let u = ((c as u32) + 32) as u8;
            u as char
        } else {
            c
        };
        r.push(l);
        assert(ascii_lowercase(v@.take(i + 1)) =~= ascii_lowercase(v@.take(i as int)).push(
            ascii_lower(c),
        ));
    }
    assert(v@.take(n as int) =~= v@);
    r
}

} // verus!

verus! {

/// Whether every character of `t[lo..hi]` is a decimal digit.
fn all_digits_in(t: &Vec<char>, lo: usize, hi: usize) -> (r: bool)
    requires
        lo <= hi <= t.len(),
    ensures
        r == all_digits(t@.subrange(lo as int, hi as int)),
{
    let mut i = lo;
    while i < hi
        invariant
            lo <= i <= hi <= t.len(),
            forall|k: int| lo <= k < i ==> is_digit(#[trigger] t@[k]),
        decreases hi - i,
    {
        if !('0' <= t[i] && t[i] <= '9') {
            assert(t@.subrange(lo as int, hi as int)[i - lo] == t@[i as int]);
            return false;
        }
        i += 1;
    }
    assert forall|k: int| 0 <= k < hi - lo implies is_digit(
        #[trigger] t@.subrange(lo as int, hi as int)[k],
    ) by {
        assert(t@.subrange(lo as int, hi as int)[k] == t@[lo + k]);
    }
    true
}

/// The first position in `t[lo..hi]` that holds `c`, or `hi`.
fn find_char(t: &Vec<char>, lo: usize, hi: usize, c: char) -> (r: usize)
    requires
        lo <= hi <= t.len(),
    ensures
        lo <= r <= hi,
        forall|k: int| lo <= k < r ==> t@[k] != c,
        r < hi ==> t@[r as int] == c,
{
    let mut i = lo;
    while i < hi && t[i] != c
        invariant
            lo <= i <= hi <= t.len(),
            forall|k: int| lo <= k < i ==> t@[k] != c,
        decreases hi - i,
    {
        i += 1;
    }
    i
}

/// Whether `t[lo..hi]` is a mantissa.
fn is_mantissa_in(t: &Vec<char>, lo: usize, hi: usize) -> (r: bool)
    requires
        lo <= hi <= t.len(),
    ensures
        r == is_mantissa(t@.subrange(lo as int, hi as int)),
{
    let ghost m = t@.subrange(lo as int, hi as int);
    let d = find_char(t, lo, hi, '.');
    if d == hi {
        let r = hi - lo >= 1 && all_digits_in(t, lo, hi);
        assert forall|x: int| 0 <= x < m.len() implies #[trigger] m[x] != '.' by {
            assert(m[x] == t@[lo + x]);
        }
        r
    } else {
        let ghost dd: int = d - lo;
        assert(m[dd] == '.');
        assert(m.take(dd) =~= t@.subrange(lo as int, d as int));
        assert(m.skip(dd + 1) =~= t@.subrange(d + 1, hi as int));
        let r = hi - lo >= 2 && all_digits_in(t, lo, d) && all_digits_in(t, d + 1, hi);
        if r {
            assert(0 <= dd < m.len() && m[dd] == '.' && all_digits(m.take(dd)) && all_digits(
                m.skip(dd + 1),
            ));
        } else {
            assert(!all_digits(m)) by {
                assert(!is_digit(m[dd]));
            }
            proof {
            if exists|x: int|
                0 <= x < m.len() && #[trigger] m[x] == '.' && all_digits(m.take(x)) && all_digits(
                    m.skip(x + 1),
                ) {
                let x = choose|x: int|
                    0 <= x < m.len() && #[trigger] m[x] == '.' && all_digits(m.take(x))
                        && all_digits(m.skip(x + 1));
                if x < dd {
                    assert(m[x] == t@[lo + x]);
                } else if x > dd {
                    assert(m.take(x)[dd] == '.');
                }
                assert(x == dd);
            }
            }
        }
        r
    }
}

/// Whether `t[lo..hi]` is `Sign? Digit+`.
fn is_exponent_tail_in(t: &Vec<char>, lo: usize, hi: usize) -> (r: bool)
    requires
        lo <= hi <= t.len(),
    ensures
        r == is_exponent_tail(t@.subrange(lo as int, hi as int)),
{
    let ghost x = t@.subrange(lo as int, hi as int);
    if hi - lo >= 2 && (t[lo] == '+' || t[lo] == '-') {
        assert(x.drop_first() =~= t@.subrange(lo + 1, hi as int));
        assert(!all_digits(x)) by {
            assert(!is_digit(x[0]));
        }
        all_digits_in(t, lo + 1, hi)
    } else {
        if hi - lo >= 2 {
            assert(x[0] == t@[lo as int]);
        }
        hi - lo >= 1 && all_digits_in(t, lo, hi)
    }
}

/// Whether `t[lo..hi]` is a decimal number with an optional exponent (in lower case).
fn is_decimal_number_in(t: &Vec<char>, lo: usize, hi: usize) -> (r: bool)
    requires
        lo <= hi <= t.len(),
    ensures
        r == is_decimal_number(t@.subrange(lo as int, hi as int)),
{
    let ghost b = t@.subrange(lo as int, hi as int);
    let e = find_char(t, lo, hi, 'e');
    if e == hi {
        assert forall|x: int| 0 <= x < b.len() implies #[trigger] b[x] != 'e' by {
            assert(b[x] == t@[lo + x]);
        }
        is_mantissa_in(t, lo, hi)
    } else {
        let ghost ee: int = e - lo;
        assert(b[ee] == 'e');
        assert(b.take(ee) =~= t@.subrange(lo as int, e as int));
        assert(b.skip(ee + 1) =~= t@.subrange(e + 1, hi as int));
        let whole = is_mantissa_in(t, lo, hi);
        assert(!whole) by {
            assert(!is_digit(b[ee]));
            if b.len() >= 2 && exists|d: int|
                0 <= d < b.len() && #[trigger] b[d] == '.' && all_digits(b.take(d))
                    && all_digits(b.skip(d + 1)) {
                let d = choose|d: int|
                    0 <= d < b.len() && #[trigger] b[d] == '.' && all_digits(b.take(d))
                        && all_digits(b.skip(d + 1));
                if ee < d {
                    assert(b.take(d)[ee] == 'e');
                } else {
                    assert(b.skip(d + 1)[ee - d - 1] == 'e');
                }
            }
        }
        let r = is_mantissa_in(t, lo, e) && is_exponent_tail_in(t, e + 1, hi);
        if !r {
            proof {
            if exists|k: int|
                0 <= k < b.len() && #[trigger] b[k] == 'e' && is_mantissa(b.take(k))
                    && is_exponent_tail(b.skip(k + 1)) {
                let k = choose|k: int|
                    0 <= k < b.len() && #[trigger] b[k] == 'e' && is_mantissa(b.take(k))
                        && is_exponent_tail(b.skip(k + 1));
                if k < ee {
                    assert(b[k] == t@[lo + k]);
                } else if k > ee {
                    let m = b.take(k);
                    assert(m[ee] == 'e');
                    assert(!all_digits(m)) by {
                        assert(!is_digit(m[ee]));
                    }
                    if exists|d: int|
                        0 <= d < m.len() && #[trigger] m[d] == '.' && all_digits(m.take(d))
                            && all_digits(m.skip(d + 1)) {
                        let d = choose|d: int|
                            0 <= d < m.len() && #[trigger] m[d] == '.' && all_digits(m.take(d))
                                && all_digits(m.skip(d + 1));
                        if ee < d {
                            assert(m.take(d)[ee] == 'e');
                        } else {
                            assert(m.skip(d + 1)[ee - d - 1] == 'e');
                        }
                    }
                }
            }
            }
        }
        r
    }
}

} // verus!

verus! {

/// Whether `t[lo..hi]` spells out `w`.
fn range_equals(t: &Vec<char>, lo: usize, hi: usize, w: &Vec<char>) -> (r: bool)
    requires
        lo <= hi <= t.len(),
    ensures
        r == (t@.subrange(lo as int, hi as int) == w@),
{
    if hi - lo != w.len() {
        return false;
    }
    let mut i: usize = 0;
    while i < w.len()
        invariant
            lo <= hi <= t.len(),
            hi - lo == w.len(),
            i <= w.len(),
            forall|k: int| 0 <= k < i ==> t@[lo + k] == w@[k],
        decreases w.len() - i,
    {
        if t[lo + i] != w[i] {
            assert(t@.subrange(lo as int, hi as int)[i as int] != w@[i as int]);
            return false;
        }
        i += 1;
    }
    assert(t@.subrange(lo as int, hi as int) =~= w@);
    true
}

/// Where the unsigned part of `t` starts: after one leading sign, if there is one.
fn unsigned_start(t: &Vec<char>) -> (s: usize)
    ensures
        s <= t.len(),
        t@.subrange(s as int, t.len() as int) == unsigned_part(t@),
{
    if t.len() > 0 && (t[0] == '+' || t[0] == '-') {
        assert(t@.subrange(1, t.len() as int) =~= t@.drop_first());
        1
    } else {
        assert(t@.subrange(0, t.len() as int) =~= t@);
        0
    }
}

/// Checks `v` against the `f32` literal grammar, as `str::parse::<f32>` does.
pub fn check_float_literal(v: &Vec<char>) -> (r: Result<(), FloatErrorKind>)
    ensures
        r == float_literal_check(v@),
{
    if v.len() == 0 {
        return Err(FloatErrorKind::Empty);
    }
    let t = lowercase_chars(v);
    let s = unsigned_start(&t);
    let n = t.len();
    let ok = range_equals(&t, s, n, &vec!['i', 'n', 'f'])
        || range_equals(&t, s, n, &vec!['i', 'n', 'f', 'i', 'n', 'i', 't', 'y'])
        || range_equals(&t, s, n, &vec!['n', 'a', 'n'])
        || is_decimal_number_in(&t, s, n);
    if ok {
        Ok(())
    } else {
        Err(FloatErrorKind::Invalid)
    }
}

/// Whether `v` is a literal that reads as NaN.
pub fn is_nan_text(v: &Vec<char>) -> (r: bool)
    ensures
        r == is_nan_literal(v@),
{
    let t = lowercase_chars(v);
    let s = unsigned_start(&t);
    range_equals(&t, s, t.len(), &vec!['n', 'a', 'n'])
}

} // verus!

verus! {

/// Whether `a` and `b` hold the same characters.
pub fn chars_equal(a: &Vec<char>, b: &Vec<char>) -> (r: bool)
    ensures
        r == (a@ == b@),
{
    assert(a@.subrange(0, a.len() as int) =~= a@);
    range_equals(a, 0, a.len(), b)
}

} // verus!

verus! {

/// `String::push`: appends `c` to `s`.
#[verifier::external_body]
pub(crate) fn push_char(s: &mut String, c: char)
    ensures
        final(s)@ == old(s)@.push(c),
{
    s.push(c);
}

} // verus!

verus! {

/// Text without `sep` is a single field.
pub proof fn lemma_split_on_no_separator(s: Seq<char>, sep: char)
    requires
        forall|i: int| 0 <= i < s.len() ==> s[i] != sep,
    ensures
        split_on(s, sep) == seq![s],
    decreases s.len(),
{
    if s.len() > 0 {
        lemma_split_on_no_separator(s.drop_last(), sep);
        assert(s.last() != sep);
        assert(s.drop_last().push(s.last()) =~= s);
        assert(seq![s.drop_last()].update(0, s.drop_last().push(s.last())) =~= seq![s]);
    } else {
        assert(s =~= Seq::<char>::empty());
    }
}

/// Joining two texts with a separator joins their lists of fields.
pub proof fn lemma_split_on_join(s: Seq<char>, t: Seq<char>, sep: char)
    ensures
        split_on(s + seq![sep] + t, sep) == split_on(s, sep) + split_on(t, sep),
    decreases t.len(),
{
    let a = s + seq![sep];
    assert(a.drop_last() =~= s);
    lemma_split_on_nonempty(s, sep);
    if t.len() == 0 {
        assert(a + t =~= a);
        assert(split_on(s, sep).push(Seq::empty()) =~= split_on(s, sep) + seq![Seq::<char>::empty()]);
    } else {
        lemma_split_on_join(s, t.drop_last(), sep);
        lemma_split_on_nonempty(t.drop_last(), sep);
        let whole = s + seq![sep] + t;
        assert(whole.drop_last() =~= s + seq![sep] + t.drop_last());
        assert(whole.last() == t.last());
        let left = split_on(s, sep);
        let right = split_on(t.drop_last(), sep);
        if t.last() == sep {
            assert((left + right).push(Seq::empty()) =~= left + right.push(Seq::empty()));
        } else {
            let joined = left + right;
            assert(joined.update(joined.len() - 1, joined.last().push(t.last())) =~= left
                + right.update(right.len() - 1, right.last().push(t.last())));
        }
    }
}

} // verus!

verus! {

/// `10` to the power `n`.
pub open spec fn pow10(n: nat) -> nat
    decreases n,
{
    if n == 0 {
        1
    } else {
        10 * pow10((n - 1) as nat)
    }
}

/// The number that a string of decimal digits writes, its last digit the units.
pub open spec fn decimal_value(s: Seq<char>) -> nat
    decreases s.len(),
{
    if s.len() == 0 {
        0
    } else {
        (decimal_value(s.drop_last()) * 10 + (s.last() as int - '0' as int)) as nat
    }
}

proof fn lemma_pow10_positive(n: nat)
    ensures
        pow10(n) >= 1,
    decreases n,
{
    if n > 0 {
        lemma_pow10_positive((n - 1) as nat);
    }
}

/// Reading the leading digit first: `d r` is worth `d * 10^|r| + value(r)`.
proof fn lemma_decimal_value_front(s: Seq<char>)
    requires
        s.len() > 0,
        forall|i: int| 0 <= i < s.len() ==> '0' <= #[trigger] s[i] <= '9',
    ensures
        decimal_value(s) == (s[0] as int - '0' as int) * pow10((s.len() - 1) as nat)
            + decimal_value(s.drop_first()),
    decreases s.len(),
{
    if s.len() == 1 {
        assert(s.drop_last() =~= Seq::<char>::empty());
        assert(s.drop_first() =~= Seq::<char>::empty());
        assert(decimal_value(Seq::<char>::empty()) == 0);
        assert(s.last() == s[0]);
        assert('0' <= s[0] <= '9');
        assert(pow10(0) == 1);
        assert(decimal_value(s) == decimal_value(s.drop_last()) * 10 + (s.last() as int - '0' as int));
        assert(decimal_value(s.drop_first()) == 0);
        assert((s[0] as int - '0' as int) * 1 == s[0] as int - '0' as int);
    } else {
        let d = s.drop_last();
        let r = s.drop_first();
        assert forall|i: int| 0 <= i < d.len() implies '0' <= #[trigger] d[i] <= '9' by {
            assert(d[i] == s[i]);
        }
        lemma_decimal_value_front(d);
        assert(d.drop_first() =~= r.drop_last());
        assert(r.last() == s.last());
        assert(d[0] == s[0]);
        assert('0' <= s.last() <= '9') by {
            assert(s.last() == s[s.len() - 1]);
        }
        assert('0' <= s[0] <= '9');
        let n = (s.len() - 2) as nat;
        assert(pow10((s.len() - 1) as nat) == 10 * pow10(n));
        let lead = s[0] as int - '0' as int;
        let last = s.last() as int - '0' as int;
        let inner = decimal_value(d.drop_first());
        assert(decimal_value(d) == lead * pow10(n) + inner);
        assert(decimal_value(s) == decimal_value(d) * 10 + last);
        assert(decimal_value(r) == decimal_value(r.drop_last()) * 10 + last);
        assert((lead * pow10(n) + inner) * 10 + last == lead * (10 * pow10(n)) + (inner * 10
            + last)) by (nonlinear_arith);
        assert(decimal_value(r.drop_last()) == inner);
        assert(decimal_value(r) == inner * 10 + last);
    }
}

proof fn lemma_accumulate_digits(s: Seq<char>, acc: int)
    requires
        0 <= acc <= u32::MAX,
        forall|i: int| 0 <= i < s.len() ==> '0' <= #[trigger] s[i] <= '9',
    ensures
        acc * pow10(s.len()) + decimal_value(s) <= u32::MAX ==> accumulate_digits(s, acc) == Ok::<
            u32,
            IntErrorKind,
        >((acc * pow10(s.len()) + decimal_value(s)) as u32),
        acc * pow10(s.len()) + decimal_value(s) > u32::MAX ==> accumulate_digits(s, acc) == Err::<
            u32,
            IntErrorKind,
        >(IntErrorKind::PosOverflow),
    decreases s.len(),
{
    if s.len() > 0 {
        let d = s[0] as int - '0' as int;
        let rest = s.drop_first();
        let n = (s.len() - 1) as nat;
        lemma_decimal_value_front(s);
        lemma_pow10_positive(n);
        assert(pow10(s.len()) == 10 * pow10(n));
        let next = acc * 10 + d;
        assert(acc * pow10(s.len()) + decimal_value(s) == next * pow10(n) + decimal_value(rest))
            by (nonlinear_arith)
            requires
                pow10(s.len()) == 10 * pow10(n),
                decimal_value(s) == d * pow10(n) + decimal_value(rest),
                next == acc * 10 + d,
        ;
        assert(next <= next * pow10(n)) by (nonlinear_arith)
            requires
                pow10(n) >= 1,
                next >= 0,
        ;
        if next <= u32::MAX {
            lemma_accumulate_digits(rest, next);
        }
    } else {
        assert(pow10(0) == 1);
        assert(acc * pow10(0) == acc);
    }
}

/// A non-empty string of the digits `0`..`9` reads as the `u32` it writes when that
/// number fits, and fails with `PosOverflow` when it does not.
pub proof fn lemma_u32_of_digits(s: Seq<char>)
    requires
        s.len() > 0,
        forall|i: int| 0 <= i < s.len() ==> '0' <= #[trigger] s[i] <= '9',
    ensures
        decimal_value(s) <= u32::MAX ==> u32_from_str(s) == Ok::<u32, IntErrorKind>(
            decimal_value(s) as u32,
        ),
        decimal_value(s) > u32::MAX ==> u32_from_str(s) == Err::<u32, IntErrorKind>(
            IntErrorKind::PosOverflow,
        ),
        decimal_value(s) <= u32::MAX ==> u32_from_str(seq!['+'] + s) == Ok::<u32, IntErrorKind>(
            decimal_value(s) as u32,
        ),
{
    lemma_accumulate_digits(s, 0);
    assert(0 * pow10(s.len()) == 0);
    let p = seq!['+'] + s;
    assert(p.drop_first() =~= s);
    assert(p[0] == '+');
}

/// Digits only: every character is one of `0`..`9`.
proof fn lemma_digits_all_digits(s: Seq<char>)
    requires
        forall|i: int| 0 <= i < s.len() ==> '0' <= #[trigger] s[i] <= '9',
    ensures
        all_digits(s),
        ascii_lowercase(s) == s,
{
    assert forall|i: int| 0 <= i < s.len() implies is_digit(#[trigger] s[i]) by {}
    assert(ascii_lowercase(s) =~= s);
}

/// A non-empty string of the digits `0`..`9`, such as `10` or `08`, is a float literal.
pub proof fn lemma_digits_are_float_literal(s: Seq<char>)
    requires
        s.len() > 0,
        forall|i: int| 0 <= i < s.len() ==> '0' <= #[trigger] s[i] <= '9',
    ensures
        float_literal_check(s) == Ok::<(), FloatErrorKind>(()),
{
    lemma_digits_all_digits(s);
    assert(unsigned_part(s) == s);
    assert(is_mantissa(s));
}

/// Digits with one decimal point, and at least one digit on either side of it, such as
/// `0.8`, `.5` or `5.`, form a float literal.
pub proof fn lemma_decimal_point_literal(a: Seq<char>, b: Seq<char>)
    requires
        a.len() + b.len() >= 1,
        forall|i: int| 0 <= i < a.len() ==> '0' <= #[trigger] a[i] <= '9',
        forall|i: int| 0 <= i < b.len() ==> '0' <= #[trigger] b[i] <= '9',
    ensures
        float_literal_check(a + seq!['.'] + b) == Ok::<(), FloatErrorKind>(()),
{
    let m = a + seq!['.'] + b;
    lemma_digits_all_digits(a);
    lemma_digits_all_digits(b);
    assert(ascii_lowercase(m) =~= m);
    assert(m[0] != '+' && m[0] != '-') by {
        if a.len() > 0 {
            assert(m[0] == a[0]);
        }
    }
    assert(unsigned_part(m) == m);
    let d = a.len() as int;
    assert(m[d] == '.');
    assert(m.take(d) =~= a);
    assert(m.skip(d + 1) =~= b);
    assert(is_mantissa(m));
}

/// Digits, `e` or `E`, then digits, such as `1e5`, form a float literal.
pub proof fn lemma_exponent_literal(a: Seq<char>, e: char, b: Seq<char>)
    requires
        a.len() >= 1,
        b.len() >= 1,
        e == 'e' || e == 'E',
        forall|i: int| 0 <= i < a.len() ==> '0' <= #[trigger] a[i] <= '9',
        forall|i: int| 0 <= i < b.len() ==> '0' <= #[trigger] b[i] <= '9',
    ensures
        float_literal_check(a + seq![e] + b) == Ok::<(), FloatErrorKind>(()),
{
    let s = a + seq![e] + b;
    let l = a + seq!['e'] + b;
    lemma_digits_all_digits(a);
    lemma_digits_all_digits(b);
    assert(ascii_lowercase(s) =~= l);
    assert(l[0] == a[0]);
    assert(unsigned_part(l) == l);
    let k = a.len() as int;
    assert(l[k] == 'e');
    assert(l.take(k) =~= a);
    assert(l.skip(k + 1) =~= b);
    assert(is_mantissa(a));
    assert(is_exponent_tail(b));
    assert(is_decimal_number(l));
}

} // verus!

verus! {

/// A `u32` never reads text that starts with `-`, and never reads empty text.
pub proof fn lemma_u32_refuses_minus(s: Seq<char>)
    ensures
        u32_from_str(seq!['-'] + s) == Err::<u32, IntErrorKind>(IntErrorKind::InvalidDigit),
        u32_from_str(Seq::empty()) == Err::<u32, IntErrorKind>(IntErrorKind::Empty),
{
    let m = seq!['-'] + s;
    assert(m[0] == '-');
    assert(!is_digit('-'));
}

/// White space around a text goes when it is trimmed, and what remains neither starts
/// nor ends with white space.
pub proof fn lemma_trim_bounds(s: Seq<char>)
    ensures
        trim(s).len() > 0 ==> !is_white_space(trim(s)[0]) && !is_white_space(trim(s).last()),
        (s.len() > 0 && !is_white_space(s[0]) && !is_white_space(s.last())) ==> trim(s) == s,
{
    lemma_trim_start_shape(s);
    lemma_trim_end_shape(trim_start(s));
    if trim(s).len() > 0 {
        let t = trim_start(s);
        let k = choose|k: int| 0 <= k <= t.len() && trim_end(t) == t.take(k);
        assert(trim(s)[0] == t[0]);
    }
}

proof fn lemma_trim_start_shape(s: Seq<char>)
    ensures
        exists|k: int| 0 <= k <= s.len() && trim_start(s) == #[trigger] s.skip(k),
        trim_start(s).len() > 0 ==> !is_white_space(trim_start(s)[0]),
        (s.len() > 0 && !is_white_space(s[0])) ==> trim_start(s) == s,
    decreases s.len(),
{
    if s.len() > 0 && is_white_space(s[0]) {
        lemma_trim_start_shape(s.drop_first());
        let k = choose|k: int|
            0 <= k <= s.drop_first().len() && trim_start(s.drop_first()) == #[trigger] s.drop_first().skip(k);
        assert(s.drop_first().skip(k) =~= s.skip(k + 1));
    } else {
        assert(s.skip(0) =~= s);
    }
}

proof fn lemma_trim_end_shape(s: Seq<char>)
    ensures
        exists|k: int| 0 <= k <= s.len() && trim_end(s) == #[trigger] s.take(k),
        trim_end(s).len() > 0 ==> !is_white_space(trim_end(s).last()),
        (s.len() > 0 && !is_white_space(s.last())) ==> trim_end(s) == s,
    decreases s.len(),
{
    if s.len() > 0 && is_white_space(s.last()) {
        lemma_trim_end_shape(s.drop_last());
        let k = choose|k: int|
            0 <= k <= s.drop_last().len() && trim_end(s.drop_last()) == #[trigger] s.drop_last().take(k);
        assert(s.drop_last().take(k) =~= s.take(k));
    } else {
        assert(s.take(s.len() as int) =~= s);
    }
}

} // verus!

//! Character-level helpers for names and templates: trimming, UTF-8 widths,
//! decimal numbers, ASCII case folding, and the Unicode case and class
//! queries that only the standard library knows.

use vstd::prelude::*;

verus! {

/// `String::push` appends one character at the end.
pub assume_specification[ String::push ](s: &mut String, ch: char)
    ensures
        final(s)@ == old(s)@.push(ch),
;

/// The lowercase form of a string, as `str::to_lowercase` computes it by the
/// Unicode tables.
pub uninterp spec fn lowercase(s: Seq<char>) -> Seq<char>;

/// Whether a character is alphabetic or numeric by the Unicode tables, as
/// `char::is_alphanumeric` answers.
pub uninterp spec fn alphanumeric(c: char) -> bool;

/// Calls `str::to_lowercase`. Its result is named by `lowercase`; nothing
/// more is claimed of it.
#[verifier::external_body]
pub(crate) fn to_lowercase(s: &str) -> (r: String)
    ensures
        r@ == lowercase(s@),
{
    s.to_lowercase()
}

/// Calls `char::is_alphanumeric`. Its answer is named by `alphanumeric`.
#[verifier::external_body]
pub(crate) fn is_alphanumeric(c: char) -> (r: bool)
    ensures
        r == alphanumeric(c),
{
    c.is_alphanumeric()
}

/// The characters of `s`, in order.
pub fn chars_of(s: &str) -> (v: Vec<char>)
    ensures
        v@ == s@,
{
    let mut v: Vec<char> = Vec::new();
    for c in it: s.chars()
        invariant
            v@ == it.seq().take(it.index() as int),
    {
        v.push(c);
    }
    v
}

/// A string made of the characters `v`.
pub fn string_of(v: &[char]) -> (s: String)
    ensures
        s@ == v@,
{
    let mut s = String::new();
    let mut i: usize = 0;
    while i < v.len()
        invariant
            i <= v.len(),
            s@ == v@.take(i as int),
        decreases v.len() - i,
    {
        s.push(v[i]);
        i += 1;
        assert(v@.take(i as int) == v@.take(i - 1).push(v@[i - 1]));
    }
    assert(v@.take(v.len() as int) == v@);
    s
}

/// `v[from..to]` as a vector of its own.
pub fn slice_of(v: &Vec<char>, from: usize, to: usize) -> (r: Vec<char>)
    requires
        from <= to <= v.len(),
    ensures
        r@ == v@.subrange(from as int, to as int),
{
    let mut r: Vec<char> = Vec::new();
    let mut i = from;
    while i < to
        invariant
            from <= i <= to <= v.len(),
            r@ == v@.subrange(from as int, i as int),
        decreases to - i,
    {
        r.push(v[i]);
        i += 1;
    }
    r
}

/// Append all of `w` to `v`.
pub fn append(v: &mut Vec<char>, w: &Vec<char>)
    ensures
        final(v)@ == old(v)@ + w@,
{
    let mut i: usize = 0;
    while i < w.len()
        invariant
            i <= w.len(),
            v@ == old(v)@ + w@.take(i as int),
        decreases w.len() - i,
    {
        v.push(w[i]);
        i += 1;
        assert(w@.take(i as int) == w@.take(i - 1).push(w@[i - 1]));
    }
    assert(w@.take(w.len() as int) == w@);
}

/// Whether two character sequences are equal.
pub fn same_chars(a: &Vec<char>, b: &Vec<char>) -> (r: bool)
    ensures
        r == (a@ == b@),
{
    if a.len() != b.len() {
        return false;
    }
    let mut i: usize = 0;
    while i < a.len()
        invariant
            a.len() == b.len(),
            i <= a.len(),
            forall|k: int| 0 <= k < i ==> a@[k] == b@[k],
        decreases a.len() - i,
    {
        if a[i] != b[i] {
            return false;
        }
        i += 1;
    }
    assert(a@ =~= b@);
    true
}

// ------------------------------------------------------------ character classes

/// White space by the Unicode `White_Space` property, which is what
/// `char::is_whitespace` and `str::trim` go by.
pub open spec fn is_white(c: char) -> bool {
    let u = c as u32;
    ||| 0x9 <= u <= 0xD
    ||| u == 0x20
    ||| u == 0x85
    ||| u == 0xA0
    ||| u == 0x1680
    ||| 0x2000 <= u <= 0x200A
    ||| u == 0x2028
    ||| u == 0x2029
    ||| u == 0x202F
    ||| u == 0x205F
    ||| u == 0x3000
}

/// Control characters, the Unicode general category `Cc`.
pub open spec fn is_control(c: char) -> bool {
    let u = c as u32;
    u <= 0x1F || (0x7F <= u <= 0x9F)
}

/// Sets of characters that names are trimmed by.
#[derive(Clone, Copy, PartialEq, Eq, Debug, Structural)]
pub enum CharSet {
    /// Unicode white space.
    White,
    /// `*`.
    Star,
    /// Name separators: `_`, `-`, space, `.`.
    Separator,
    /// `.`.
    Dot,
    /// `_`.
    Underscore,
}

pub open spec fn in_set(set: CharSet, c: char) -> bool {
    match set {
        CharSet::White => is_white(c),
        CharSet::Star => c == '*',
        CharSet::Separator => c == '_' || c == '-' || c == ' ' || c == '.',
        CharSet::Dot => c == '.',
        CharSet::Underscore => c == '_',
    }
}

pub fn char_in_set(set: CharSet, c: char) -> (r: bool)
    ensures
        r == in_set(set, c),
{
    let u = c as u32;
    match set {
        CharSet::White => {
            (0x9 <= u && u <= 0xD) || u == 0x20 || u == 0x85 || u == 0xA0 || u == 0x1680 || (0x2000
                <= u && u <= 0x200A) || u == 0x2028 || u == 0x2029 || u == 0x202F || u == 0x205F
                || u == 0x3000
        },
        CharSet::Star => c == '*',
        CharSet::Separator => c == '_' || c == '-' || c == ' ' || c == '.',
        CharSet::Dot => c == '.',
        CharSet::Underscore => c == '_',
    }
}

pub fn char_is_control(c: char) -> (r: bool)
    ensures
        r == is_control(c),
{
    let u = c as u32;
    u <= 0x1F || (0x7F <= u && u <= 0x9F)
}

/// `s` without the characters of `set` at its start.
pub open spec fn trim_start(s: Seq<char>, set: CharSet) -> Seq<char>
    decreases s.len(),
{
    if s.len() > 0 && in_set(set, s[0]) {
        trim_start(s.drop_first(), set)
    } else {
        s
    }
}

/// `s` without the characters of `set` at its end.
pub open spec fn trim_end(s: Seq<char>, set: CharSet) -> Seq<char>
    decreases s.len(),
{
    if s.len() > 0 && in_set(set, s.last()) {
        trim_end(s.drop_last(), set)
    } else {
        s
    }
}

/// `s` without the characters of `set` at either end, as `str::trim_matches`.
pub open spec fn trim(s: Seq<char>, set: CharSet) -> Seq<char> {
    trim_end(trim_start(s, set), set)
}

/// How many characters of `set` open `s`.
pub open spec fn lead_count(s: Seq<char>, set: CharSet) -> nat
    decreases s.len(),
{
    if s.len() > 0 && in_set(set, s[0]) {
        1 + lead_count(s.drop_first(), set)
    } else {
        0
    }
}

pub proof fn lemma_trim_start_skip(s: Seq<char>, set: CharSet)
    ensures
        lead_count(s, set) <= s.len(),
        trim_start(s, set) == s.skip(lead_count(s, set) as int),
        forall|k: int| 0 <= k < lead_count(s, set) ==> in_set(set, #[trigger] s[k]),
        lead_count(s, set) < s.len() ==> !in_set(set, s[lead_count(s, set) as int]),
    decreases s.len(),
{
    if s.len() > 0 && in_set(set, s[0]) {
        lemma_trim_start_skip(s.drop_first(), set);
        assert(s.drop_first().skip(lead_count(s.drop_first(), set) as int) == s.skip(
            lead_count(s, set) as int,
        ));
        assert forall|k: int| 0 <= k < lead_count(s, set) implies in_set(set, #[trigger] s[k]) by {
            if k > 0 {
                assert(s[k] == s.drop_first()[k - 1]);
            }
        }
        if lead_count(s, set) < s.len() {
            assert(s[lead_count(s, set) as int] == s.drop_first()[lead_count(
                s.drop_first(),
                set,
            ) as int]);
        }
    } else {
        assert(s.skip(0) == s);
    }
}

/// How many characters of `set` close `s`.
pub open spec fn trail_count(s: Seq<char>, set: CharSet) -> nat
    decreases s.len(),
{
    if s.len() > 0 && in_set(set, s.last()) {
        1 + trail_count(s.drop_last(), set)
    } else {
        0
    }
}

pub proof fn lemma_trim_end_take(s: Seq<char>, set: CharSet)
    ensures
        trail_count(s, set) <= s.len(),
        trim_end(s, set) == s.take(s.len() - trail_count(s, set)),
        forall|k: int|
            s.len() - trail_count(s, set) <= k < s.len() ==> in_set(set, #[trigger] s[k]),
        trail_count(s, set) < s.len() ==> !in_set(set, s[s.len() - trail_count(s, set) - 1]),
    decreases s.len(),
{
    if s.len() > 0 && in_set(set, s.last()) {
        lemma_trim_end_take(s.drop_last(), set);
        assert(s.drop_last().take(s.drop_last().len() - trail_count(s.drop_last(), set)) == s.take(
            s.len() - trail_count(s, set),
        ));
        assert forall|k: int|
            s.len() - trail_count(s, set) <= k < s.len() implies in_set(set, #[trigger] s[k]) by {
            if k < s.len() - 1 {
                assert(s[k] == s.drop_last()[k]);
            }
        }
        if trail_count(s, set) < s.len() {
            assert(s[s.len() - trail_count(s, set) - 1] == s.drop_last()[s.drop_last().len()
                - trail_count(s.drop_last(), set) - 1]);
        }
    } else {
        assert(s.take(s.len() as int) == s);
    }
}

/// The first and last characters of a trimmed sequence are outside the set.
pub proof fn lemma_trim_ends(s: Seq<char>, set: CharSet)
    ensures
        trim(s, set).len() > 0 ==> !in_set(set, trim(s, set)[0]) && !in_set(
            set,
            trim(s, set).last(),
        ),
        trim(s, set).len() <= s.len(),
        trim_end(s, set).len() > 0 ==> !in_set(set, trim_end(s, set).last()),
        trim_start(s, set).len() > 0 ==> !in_set(set, trim_start(s, set)[0]),
{
    lemma_trim_start_skip(s, set);
    let a = trim_start(s, set);
    lemma_trim_end_take(a, set);
    lemma_trim_end_take(s, set);
    if trim(s, set).len() > 0 {
        assert(trim(s, set)[0] == a[0]);
        assert(a[0] == s[lead_count(s, set) as int]);
    }
}

/// `v` with the characters of `set` removed at its start (when `start`) and
/// at its end (when `end`).
pub fn trim_chars(v: &Vec<char>, set: CharSet, start: bool, end: bool) -> (r: Vec<char>)
    ensures
        r@ == if start && end {
            trim(v@, set)
        } else if start {
            trim_start(v@, set)
        } else if end {
            trim_end(v@, set)
        } else {
            v@
        },
{
    proof {
        lemma_trim_start_skip(v@, set);
    }
    let mut a: usize = 0;
    if start {
        while a < v.len() && char_in_set(set, v[a])
            invariant
                a <= v.len(),
                a <= lead_count(v@, set),
                forall|k: int| 0 <= k < lead_count(v@, set) ==> in_set(set, #[trigger] v@[k]),
                lead_count(v@, set) < v@.len() ==> !in_set(set, v@[lead_count(v@, set) as int]),
                lead_count(v@, set) <= v@.len(),
            decreases v.len() - a,
        {
            a += 1;
        }
        assert(a == lead_count(v@, set));
    }
    let ghost mid = v@.skip(a as int);
    proof {
        lemma_trim_end_take(mid, set);
        if !start {
            assert(mid == v@);
        }
    }
    assert(mid == if start { trim_start(v@, set) } else { v@ });
    let mut b: usize = v.len();
    if end {
        while b > a && char_in_set(set, v[b - 1])
            invariant
                a <= b <= v.len(),
                mid == v@.skip(a as int),
                v.len() - b <= trail_count(mid, set),
                forall|k: int|
                    mid.len() - trail_count(mid, set) <= k < mid.len() ==> in_set(
                        set,
                        #[trigger] mid[k],
                    ),
                trail_count(mid, set) < mid.len() ==> !in_set(
                    set,
                    mid[mid.len() - trail_count(mid, set) - 1],
                ),
                trail_count(mid, set) <= mid.len(),
            decreases b - a,
        {
            assert(v@[b - 1] == mid[b - 1 - a]);
            b -= 1;
        }
        assert(v.len() - b == trail_count(mid, set)) by {
            if b > a {
                assert(v@[b - 1] == mid[b - 1 - a]);
            }
        }
    }
    let r = slice_of(v, a, b);
    if end {
        assert(mid.take(mid.len() - (v.len() - b)) == v@.subrange(a as int, b as int));
        assert(r@ == trim_end(mid, set));
    } else {
        assert(mid == v@.subrange(a as int, b as int));
    }
    r
}

// ------------------------------------------------------------ UTF-8 widths

/// Bytes that `c` takes in UTF-8.
pub open spec fn char_width(c: char) -> nat {
    let u = c as u32;
    if u < 0x80 {
        1
    } else if u < 0x800 {
        2
    } else if u < 0x10000 {
        3
    } else {
        4
    }
}

/// Bytes that `s` takes in UTF-8: what `str::len` reports.
pub open spec fn utf8_len(s: Seq<char>) -> nat
    decreases s.len(),
{
    if s.len() == 0 {
        0
    } else {
        utf8_len(s.drop_last()) + char_width(s.last())
    }
}

pub fn width_of(c: char) -> (w: u128)
    ensures
        w == char_width(c),
{
    let u = c as u32;
    if u < 0x80 {
        1
    } else if u < 0x800 {
        2
    } else if u < 0x10000 {
        3
    } else {
        4
    }
}

pub proof fn lemma_utf8_len_bound(s: Seq<char>)
    ensures
        s.len() <= utf8_len(s) <= 4 * s.len(),
    decreases s.len(),
{
    if s.len() > 0 {
        lemma_utf8_len_bound(s.drop_last());
    }
}

pub proof fn lemma_utf8_len_concat(a: Seq<char>, b: Seq<char>)
    ensures
        utf8_len(a + b) == utf8_len(a) + utf8_len(b),
    decreases b.len(),
{
    if b.len() > 0 {
        lemma_utf8_len_concat(a, b.drop_last());
        assert((a + b).drop_last() == a + b.drop_last());
    } else {
        assert(a + b == a);
    }
}

/// UTF-8 length of `v[..n]`.
pub fn utf8_len_of(v: &Vec<char>, n: usize) -> (r: u128)
    requires
        n <= v.len(),
    ensures
        r == utf8_len(v@.take(n as int)),
{
    let mut r: u128 = 0;
    let mut i: usize = 0;
    while i < n
        invariant
            i <= n <= v.len(),
            r == utf8_len(v@.take(i as int)),
            r <= 4 * i,
        decreases n - i,
    {
        assert(v@.take(i + 1).drop_last() == v@.take(i as int));
        r = r + width_of(v[i]);
        i += 1;
    }
    r
}

// ------------------------------------------------------------ numbers

pub open spec fn digit_char(d: nat) -> char {
    if d == 0 {
        '0'
    } else if d == 1 {
        '1'
    } else if d == 2 {
        '2'
    } else if d == 3 {
        '3'
    } else if d == 4 {
        '4'
    } else if d == 5 {
        '5'
    } else if d == 6 {
        '6'
    } else if d == 7 {
        '7'
    } else if d == 8 {
        '8'
    } else {
        '9'
    }
}

/// `n` written in decimal, as `Display` writes an unsigned integer.
pub open spec fn decimal(n: nat) -> Seq<char>
    decreases n,
{
    if n < 10 {
        seq![digit_char(n)]
    } else {
        decimal(n / 10).push(digit_char(n % 10))
    }
}

pub open spec fn is_digit(c: char) -> bool {
    '0' <= c <= '9'
}

fn digit_of(d: u128) -> (c: char)
    requires
        d < 10,
    ensures
        c == digit_char(d as nat),
{
    if d == 0 {
        '0'
    } else if d == 1 {
        '1'
    } else if d == 2 {
        '2'
    } else if d == 3 {
        '3'
    } else if d == 4 {
        '4'
    } else if d == 5 {
        '5'
    } else if d == 6 {
        '6'
    } else if d == 7 {
        '7'
    } else if d == 8 {
        '8'
    } else {
        '9'
    }
}

/// `n` in decimal.
pub fn decimal_chars(n: u128) -> (r: Vec<char>)
    ensures
        r@ == decimal(n as nat),
    decreases n,
{
    if n < 10 {
        let mut r: Vec<char> = Vec::new();
        r.push(digit_of(n));
        r
    } else {
        let mut r = decimal_chars(n / 10);
        r.push(digit_of(n % 10));
        r
    }
}

/// Decimal numerals are made of digits and are never empty.
pub proof fn lemma_decimal_digits(n: nat)
    ensures
        decimal(n).len() > 0,
        forall|k: int| 0 <= k < decimal(n).len() ==> is_digit(#[trigger] decimal(n)[k]),
        n < 10 <==> decimal(n).len() == 1,
    decreases n,
{
    if n >= 10 {
        lemma_decimal_digits(n / 10);
    }
}

proof fn lemma_digit_char_injective(a: nat, b: nat)
    requires
        a < 10,
        b < 10,
        digit_char(a) == digit_char(b),
    ensures
        a == b,
{
}

/// Different numbers have different decimal numerals.
pub proof fn lemma_decimal_injective(a: nat, b: nat)
    requires
        decimal(a) == decimal(b),
    ensures
        a == b,
    decreases a,
{
    lemma_decimal_digits(a);
    lemma_decimal_digits(b);
    if a < 10 {
        assert(b < 10);
        assert(decimal(a) == seq![digit_char(a)]);
        assert(decimal(b) == seq![digit_char(b)]);
        assert(decimal(a)[0] == decimal(b)[0]);
        assert(decimal(a)[0] == digit_char(a));
        assert(decimal(b)[0] == digit_char(b));
        lemma_digit_char_injective(a, b);
    } else {
        assert(decimal(a).drop_last() == decimal(a / 10));
        assert(decimal(b).drop_last() == decimal(b / 10));
        lemma_decimal_injective(a / 10, b / 10);
        assert(b >= 10);
        assert(decimal(a) == decimal(a / 10).push(digit_char(a % 10)));
        assert(decimal(b) == decimal(b / 10).push(digit_char(b % 10)));
        assert(decimal(a).last() == decimal(b).last());
        assert(decimal(a).last() == digit_char(a % 10));
        assert(decimal(b).last() == digit_char(b % 10));
        lemma_digit_char_injective(a % 10, b % 10);
    }
}

// ------------------------------------------------------------ ASCII case

/// The code of `c` with ASCII capitals folded to small letters.
pub open spec fn ascii_fold(c: char) -> u32 {
    let u = c as u32;
    if 0x41 <= u <= 0x5A {
        (u + 32) as u32
    } else {
        u
    }
}

/// Equality that ignores the case of ASCII letters, as
/// `str::eq_ignore_ascii_case`.
pub open spec fn eq_ignore_ascii_case(a: Seq<char>, b: Seq<char>) -> bool {
    &&& a.len() == b.len()
    &&& forall|k: int| 0 <= k < a.len() ==> ascii_fold(#[trigger] a[k]) == ascii_fold(b[k])
}

pub fn fold_of(c: char) -> (r: u32)
    ensures
        r == ascii_fold(c),
{
    let u = c as u32;
    if 0x41 <= u && u <= 0x5A {
        u + 32
    } else {
        u
    }
}

pub fn chars_eq_ignore_ascii_case(a: &Vec<char>, b: &Vec<char>) -> (r: bool)
    ensures
        r == eq_ignore_ascii_case(a@, b@),
{
    if a.len() != b.len() {
        return false;
    }
    let mut i: usize = 0;
    while i < a.len()
        invariant
            a.len() == b.len(),
            i <= a.len(),
            forall|k: int| 0 <= k < i ==> ascii_fold(#[trigger] a@[k]) == ascii_fold(b@[k]),
        decreases a.len() - i,
    {
        if fold_of(a[i]) != fold_of(b[i]) {
            return false;
        }
        i += 1;
    }
    true
}


// ------------------------------------------------------------ order

/// `a` sorts before `b`: character by character by code point, a prefix
/// first. This is the order of `String`.
pub open spec fn lex_lt(a: Seq<char>, b: Seq<char>) -> bool
    decreases a.len(),
{
    if a.len() == 0 {
        b.len() > 0
    } else if b.len() == 0 {
        false
    } else if a[0] != b[0] {
        (a[0] as u32) < (b[0] as u32)
    } else {
        lex_lt(a.drop_first(), b.drop_first())
    }
}

pub proof fn lemma_lex_transitive(a: Seq<char>, b: Seq<char>, c: Seq<char>)
    requires
        lex_lt(a, b),
        lex_lt(b, c),
    ensures
        lex_lt(a, c),
    decreases a.len(),
{
    if a.len() > 0 && b.len() > 0 && c.len() > 0 && a[0] == b[0] && b[0] == c[0] {
        lemma_lex_transitive(a.drop_first(), b.drop_first(), c.drop_first());
    }
}

pub proof fn lemma_lex_irreflexive(a: Seq<char>)
    ensures
        !lex_lt(a, a),
    decreases a.len(),
{
    if a.len() > 0 {
        lemma_lex_irreflexive(a.drop_first());
    }
}

pub proof fn lemma_lex_total(a: Seq<char>, b: Seq<char>)
    ensures
        a == b || lex_lt(a, b) || lex_lt(b, a),
        !(lex_lt(a, b) && lex_lt(b, a)),
        !lex_lt(a, a),
    decreases a.len(),
{
    lemma_lex_irreflexive(a);
    if a.len() > 0 && b.len() > 0 {
        if a[0] == b[0] {
            lemma_lex_total(a.drop_first(), b.drop_first());
            if a.drop_first() == b.drop_first() {
                assert forall|k: int| 0 <= k < a.len() implies a[k] == b[k] by {
                    if k > 0 {
                        assert(a[k] == a.drop_first()[k - 1]);
                        assert(b[k] == b.drop_first()[k - 1]);
                    }
                }
                assert(a =~= b);
            }
        } else {
            assert((a[0] as u32) != (b[0] as u32)) by {
                vstd::utf8::char_u32_cast(a[0], #[verifier::truncate] (a[0] as u32));
                vstd::utf8::char_u32_cast(b[0], #[verifier::truncate] (b[0] as u32));
            }
        }
    } else if a.len() == 0 && b.len() == 0 {
        assert(a =~= b);
    }
}

pub fn chars_lt(a: &Vec<char>, b: &Vec<char>) -> (r: bool)
    ensures
        r == lex_lt(a@, b@),
{
    let mut i: usize = 0;
    assert(a@.skip(0) == a@ && b@.skip(0) == b@);
    loop
        invariant
            i <= a.len(),
            i <= b.len(),
            lex_lt(a@, b@) == lex_lt(a@.skip(i as int), b@.skip(i as int)),
        decreases a.len() - i,
    {
        let ghost sa = a@.skip(i as int);
        let ghost sb = b@.skip(i as int);
        if i == a.len() {
            return i < b.len();
        }
        if i == b.len() {
            return false;
        }
        assert(sa[0] == a@[i as int] && sb[0] == b@[i as int]);
        if a[i] != b[i] {
            return (a[i] as u32) < (b[i] as u32);
        }
        assert(sa.drop_first() == a@.skip(i + 1));
        assert(sb.drop_first() == b@.skip(i + 1));
        i += 1;
    }
}

} // verus!

//! File names: recognise the channel of a map by its suffix, and build the
//! name of the result.

use vstd::prelude::*;

use crate::model::{Channel, Preset, PresetView, channels_of, strings_view};
use crate::text::{
    CharSet, alphanumeric, append, char_in_set, chars_of, in_set, lead_count, lemma_trim_end_take,
    lemma_trim_ends, lemma_trim_start_skip, lowercase, slice_of, string_of, to_lowercase, trim,
    trim_chars, trim_start, utf8_len, utf8_len_of, width_of, is_alphanumeric, trim_end, is_white,
    is_control, char_is_control,
};

verus! {

// ------------------------------------------------------------ tidying

pub open spec fn is_sep(c: char) -> bool {
    in_set(CharSet::Separator, c)
}

/// `s` with every run of separators cut down to its first character.
pub open spec fn collapse(s: Seq<char>) -> Seq<char>
    decreases s.len(),
{
    if s.len() == 0 {
        s
    } else {
        let p = collapse(s.drop_last());
        let c = s.last();
        if is_sep(c) && p.len() > 0 && is_sep(p.last()) {
            p
        } else {
            p.push(c)
        }
    }
}

/// Dangling separators removed: `Rock__2K` becomes `Rock_2K`, `Rock_` becomes `Rock`.
pub open spec fn tidy(s: Seq<char>) -> Seq<char> {
    trim(collapse(s), CharSet::Separator)
}

/// No two separators stand next to each other.
pub open spec fn no_double_sep(s: Seq<char>) -> bool {
    forall|k: int| 0 <= k < s.len() - 1 ==> !(is_sep(#[trigger] s[k]) && is_sep(s[k + 1]))
}

proof fn lemma_collapse_clean(s: Seq<char>)
    ensures
        no_double_sep(collapse(s)),
    decreases s.len(),
{
    if s.len() > 0 {
        lemma_collapse_clean(s.drop_last());
        let p = collapse(s.drop_last());
        let c = s.last();
        if !(is_sep(c) && p.len() > 0 && is_sep(p.last())) {
            let q = p.push(c);
            assert forall|k: int| 0 <= k < q.len() - 1 implies !(is_sep(#[trigger] q[k]) && is_sep(
                q[k + 1],
            )) by {
                if k < p.len() - 1 {
                    assert(q[k] == p[k] && q[k + 1] == p[k + 1]);
                } else {
                    assert(q[k] == p.last());
                }
            }
        }
    }
}

/// A tidied name has no separator at either end and no two separators in a row.
pub proof fn law_tidy_clean(s: Seq<char>)
    ensures
        tidy(s).len() > 0 ==> !is_sep(tidy(s)[0]) && !is_sep(tidy(s).last()),
        no_double_sep(tidy(s)),
{
    let c = collapse(s);
    lemma_collapse_clean(s);
    lemma_trim_ends(c, CharSet::Separator);
    lemma_trim_start_skip(c, CharSet::Separator);
    let a = trim_start(c, CharSet::Separator);
    lemma_trim_end_take(a, CharSet::Separator);
    let t = tidy(s);
    let off = lead_count(c, CharSet::Separator) as int;
    assert forall|k: int| 0 <= k < t.len() - 1 implies !(is_sep(#[trigger] t[k]) && is_sep(
        t[k + 1],
    )) by {
        assert(t[k] == c[k + off]);
        assert(t[k + 1] == c[k + 1 + off]);
    }
}

fn tidy_chars(name: &Vec<char>) -> (r: Vec<char>)
    ensures
        r@ == tidy(name@),
{
    let mut out: Vec<char> = Vec::new();
    let mut i: usize = 0;
    while i < name.len()
        invariant
            i <= name.len(),
            out@ == collapse(name@.take(i as int)),
        decreases name.len() - i,
    {
        let c = name[i];
        assert(name@.take(i + 1).drop_last() == name@.take(i as int));
        let sep = char_in_set(CharSet::Separator, c);
        if !(sep && out.len() > 0 && char_in_set(CharSet::Separator, out[out.len() - 1])) {
            out.push(c);
        }
        i += 1;
    }
    assert(name@.take(name.len() as int) == name@);
    trim_chars(&out, CharSet::Separator, true, true)
}

// ------------------------------------------------------------ finding a suffix

/// `p` occurs in `h` starting at `i`.
pub open spec fn occurs_at(h: Seq<char>, p: Seq<char>, i: int) -> bool {
    0 <= i && i + p.len() <= h.len() && h.subrange(i, i + p.len()) == p
}

/// The last start below `n` at which `p` occurs in `h`.
pub open spec fn last_occurrence(h: Seq<char>, p: Seq<char>, n: nat) -> Option<int>
    decreases n,
{
    if n == 0 {
        None
    } else if occurs_at(h, p, n - 1) {
        Some(n - 1)
    } else {
        last_occurrence(h, p, (n - 1) as nat)
    }
}

pub proof fn lemma_last_occurrence(h: Seq<char>, p: Seq<char>, n: nat)
    ensures
        last_occurrence(h, p, n) matches Some(i) ==> 0 <= i < n && occurs_at(h, p, i),
        last_occurrence(h, p, n) matches Some(i) ==> forall|j: int|
            i < j < n ==> !occurs_at(h, p, j),
        last_occurrence(h, p, n) is None ==> forall|j: int| 0 <= j < n ==> !occurs_at(h, p, j),
    decreases n,
{
    if n > 0 && !occurs_at(h, p, n - 1) {
        lemma_last_occurrence(h, p, (n - 1) as nat);
    }
}

/// The match at `i` ends at the end of `h` or before a character that is
/// not a letter or a digit.
pub open spec fn at_boundary(h: Seq<char>, j: int) -> bool {
    j >= h.len() || !alphanumeric(h[j])
}

/// The matches of `p` in `h[..end]`, taken from the right without overlap
/// (as `str::rmatch_indices` yields them): the first that ends on a word
/// boundary.
pub open spec fn token_search(h: Seq<char>, p: Seq<char>, end: nat) -> Option<int>
    decreases end,
{
    if p.len() == 0 {
        None
    } else {
        let n: nat = if end >= p.len() {
            (end - p.len() + 1) as nat
        } else {
            0
        };
        match last_occurrence(h, p, n) {
            None => None,
            Some(i) => {
                proof {
                    lemma_last_occurrence(h, p, n);
                }
                if at_boundary(h, i + p.len()) {
                    Some(i)
                } else {
                    token_search(h, p, i as nat)
                }
            },
        }
    }
}

/// The last occurrence of `p` in `h` that ends on a word boundary.
pub open spec fn find_token(h: Seq<char>, p: Seq<char>) -> Option<int> {
    token_search(h, p, h.len())
}

fn occurs_exec(h: &Vec<char>, p: &Vec<char>, i: usize) -> (r: bool)
    requires
        i + p.len() <= h.len(),
    ensures
        r == occurs_at(h@, p@, i as int),
{
    let mut k: usize = 0;
    while k < p.len()
        invariant
            i + p.len() <= h.len(),
            k <= p.len(),
            forall|m: int| 0 <= m < k ==> h@[i + m] == p@[m],
        decreases p.len() - k,
    {
        if h[i + k] != p[k] {
            assert(h@.subrange(i as int, i + p.len())[k as int] != p@[k as int]);
            return false;
        }
        k += 1;
    }
    assert(h@.subrange(i as int, i + p.len()) =~= p@);
    true
}

fn find_token_exec(h: &Vec<char>, p: &Vec<char>) -> (r: Option<usize>)
    ensures
        r matches Some(i) ==> find_token(h@, p@) == Some(i as int),
        r is None ==> find_token(h@, p@) is None,
{
    if p.len() == 0 {
        return None;
    }
    let mut end: usize = h.len();
    while end >= p.len()
        invariant
            p.len() > 0,
            end <= h.len(),
            find_token(h@, p@) == token_search(h@, p@, end as nat),
        decreases end,
    {
        // the last occurrence that ends by `end`
        let n = end - p.len() + 1;
        let mut i = n;
        while i > 0 && !occurs_exec(h, p, i - 1)
            invariant
                i <= n,
                n == end - p.len() + 1,
                end <= h.len(),
                last_occurrence(h@, p@, n as nat) == last_occurrence(h@, p@, i as nat),
            decreases i,
        {
            i -= 1;
        }
        if i == 0 {
            assert(token_search(h@, p@, end as nat) is None);
            return None;
        }
        let at = i - 1;
        proof {
            lemma_last_occurrence(h@, p@, n as nat);
        }
        let stop = at + p.len();
        if stop >= h.len() || !is_alphanumeric(h[stop]) {
            return Some(at);
        }
        end = at;
    }
    assert(token_search(h@, p@, end as nat) is None);
    None
}

// ------------------------------------------------------------ cutting the suffix out

/// The character index in `s` at which the byte offset `b` falls, if it
/// falls on a character boundary.
pub open spec fn char_at_byte(s: Seq<char>, b: int) -> Option<int> {
    if exists|j: int| 0 <= j <= s.len() && utf8_len(s.take(j)) == b {
        Some(choose|j: int| 0 <= j <= s.len() && utf8_len(s.take(j)) == b)
    } else {
        None
    }
}

proof fn lemma_prefix_bytes_increase(s: Seq<char>, i: int, j: int)
    requires
        0 <= i < j <= s.len(),
    ensures
        utf8_len(s.take(i)) < utf8_len(s.take(j)),
    decreases j - i,
{
    assert(s.take(j).drop_last() == s.take(j - 1));
    if i < j - 1 {
        lemma_prefix_bytes_increase(s, i, j - 1);
    }
}

fn char_at_byte_exec(s: &Vec<char>, b: u128) -> (r: Option<usize>)
    ensures
        r matches Some(j) ==> char_at_byte(s@, b as int) == Some(j as int),
        r is None ==> char_at_byte(s@, b as int) is None,
{
    let mut acc: u128 = 0;
    let mut i: usize = 0;
    while i < s.len() && acc < b
        invariant
            i <= s.len(),
            acc == utf8_len(s@.take(i as int)),
            acc <= 4 * i,
            forall|j: int| 0 <= j < i ==> utf8_len(s@.take(j)) < b,
        decreases s.len() - i,
    {
        assert(s@.take(i + 1).drop_last() == s@.take(i as int));
        acc = acc + width_of(s[i]);
        i += 1;
    }
    if acc == b {
        proof {
            let j = choose|j: int| 0 <= j <= s@.len() && utf8_len(s@.take(j)) == b;
            if j < i {
                lemma_prefix_bytes_increase(s@, j, i as int);
            } else if j > i {
                lemma_prefix_bytes_increase(s@, i as int, j);
            }
        }
        Some(i)
    } else {
        proof {
            assert forall|j: int| 0 <= j <= s@.len() implies utf8_len(s@.take(j)) != b by {
                if j < i {
                } else if j > i {
                    lemma_prefix_bytes_increase(s@, i as int, j);
                } else {
                }
            }
            if i == s.len() && acc < b {
            }
        }
        None
    }
}

/// The stem without the suffix that matched in `lower` at `at` with `plen`
/// characters. The match was found in the lowercased stem; its byte offsets
/// are used in the stem itself only when lowercasing kept the byte length,
/// and otherwise the stem is kept whole. `None` when the cut falls inside a
/// character of the stem.
pub open spec fn cut_name(stem: Seq<char>, lower: Seq<char>, at: int, plen: int) -> Option<
    Seq<char>,
> {
    if utf8_len(lower) == utf8_len(stem) {
        let b = utf8_len(lower.take(at));
        let e = utf8_len(lower.take(at + plen));
        match (char_at_byte(stem, b as int), char_at_byte(stem, e as int)) {
            (Some(j), Some(k)) => Some(tidy(stem.take(j) + stem.skip(k))),
            _ => None,
        }
    } else {
        Some(stem)
    }
}

/// A byte count as `usize` holds it.
pub open spec fn sat(n: nat) -> int {
    if n <= usize::MAX {
        n as int
    } else {
        usize::MAX as int
    }
}

/// One pattern tried against the stem, after the ones before it found `best`:
/// a longer match replaces it. `None` when the cut falls inside a character.
pub open spec fn pattern_step(
    stem: Seq<char>,
    lower: Seq<char>,
    best: Option<(int, Seq<char>)>,
    key: Seq<char>,
) -> Option<Option<(int, Seq<char>)>> {
    if key.len() == 0 || (best matches Some(b) && b.0 >= sat(utf8_len(key))) {
        Some(best)
    } else {
        match find_token(lower, key) {
            None => Some(best),
            Some(at) => match cut_name(stem, lower, at, key.len() as int) {
                None => None,
                Some(base) => Some(Some((sat(utf8_len(key)), base))),
            },
        }
    }
}

pub open spec fn pattern_fold(stem: Seq<char>, lower: Seq<char>, keys: Seq<Seq<char>>) -> Option<
    Option<(int, Seq<char>)>,
>
    decreases keys.len(),
{
    if keys.len() == 0 {
        Some(None)
    } else {
        match pattern_fold(stem, lower, keys.drop_last()) {
            None => None,
            Some(best) => pattern_step(stem, lower, best, keys.last()),
        }
    }
}

/// The longest of the (trimmed, lowercased) patterns `keys` found in
/// `lower`, the lowercased `stem`: its length in bytes and the stem without it.
pub open spec fn match_keys(stem: Seq<char>, lower: Seq<char>, keys: Seq<Seq<char>>) -> Option<
    (int, Seq<char>),
> {
    match pattern_fold(stem, lower, keys) {
        Some(best) => best,
        None => None,
    }
}

/// A suffix pattern as it is searched for: trimmed, without `*` at the
/// ends, lowercased.
pub open spec fn pattern_key(p: Seq<char>) -> Seq<char> {
    lowercase(trim(trim(p, CharSet::White), CharSet::Star))
}

pub open spec fn pattern_keys(patterns: Seq<Seq<char>>) -> Seq<Seq<char>> {
    patterns.map_values(|p: Seq<char>| pattern_key(p))
}

pub open spec fn opt_view(r: Option<(usize, String)>) -> Option<(int, Seq<char>)> {
    match r {
        Some((n, s)) => Some((n as int, s@)),
        None => None,
    }
}

fn byte_count(v: &Vec<char>) -> (r: usize)
    ensures
        r == sat(utf8_len(v@)),
{
    let n = utf8_len_of(v, v.len());
    assert(v@.take(v.len() as int) == v@);
    if n <= usize::MAX as u128 {
        n as usize
    } else {
        usize::MAX
    }
}

/// The cut of `cut_name`, computed.
fn cut_exec(stem: &Vec<char>, lower: &Vec<char>, at: usize, plen: usize) -> (r: Option<Vec<char>>)
    requires
        at + plen <= lower.len(),
    ensures
        r matches Some(v) ==> cut_name(stem@, lower@, at as int, plen as int) == Some(v@),
        r is None ==> cut_name(stem@, lower@, at as int, plen as int) is None,
{
    let lb = utf8_len_of(lower, lower.len());
    let sb = utf8_len_of(stem, stem.len());
    assert(lower@.take(lower.len() as int) == lower@);
    assert(stem@.take(stem.len() as int) == stem@);
    if lb != sb {
        return Some(slice_of(stem, 0, stem.len()));
    }
    let b = utf8_len_of(lower, at);
    let e = utf8_len_of(lower, at + plen);
    let j = match char_at_byte_exec(stem, b) {
        Some(j) => j,
        None => return None,
    };
    let k = match char_at_byte_exec(stem, e) {
        Some(k) => k,
        None => return None,
    };
    let mut joined = slice_of(stem, 0, j);
    let tail = slice_of(stem, k, stem.len());
    append(&mut joined, &tail);
    assert(stem@.subrange(0, j as int) == stem@.take(j as int));
    assert(stem@.subrange(k as int, stem.len() as int) == stem@.skip(k as int));
    Some(tidy_chars(&joined))
}

/// The longest of the patterns `keys` (already trimmed and lowercased) that
/// occurs in `lower`, the lowercased `stem`, ending on a word boundary: its
/// length in bytes and the stem without it, tidied. Patterns no longer than
/// an earlier match are skipped. `None` when nothing matches, and also when
/// the cut would fall inside a character of the stem.
pub fn match_keys_in(stem: &str, lower: &str, keys: &[String]) -> (r: Option<(usize, String)>)
    ensures
        opt_view(r) == match_keys(stem@, lower@, strings_view(keys@)),
{
    let stem_v = chars_of(stem);
    let lower_v = chars_of(lower);
    let ghost ks = strings_view(keys@);
    let mut best: Option<(usize, Vec<char>)> = None;
    let mut i: usize = 0;
    while i < keys.len()
        invariant
            i <= keys.len(),
            ks == strings_view(keys@),
            stem_v@ == stem@,
            lower_v@ == lower@,
            pattern_fold(stem@, lower@, ks.take(i as int)) == Some(
                match best {
                    Some((n, v)) => Some((n as int, v@)),
                    None => None,
                },
            ),
        decreases keys.len() - i,
    {
        assert(ks.take(i + 1).drop_last() == ks.take(i as int));
        assert(ks.take(i + 1).last() == keys@[i as int]@);
        let key = chars_of(keys[i].as_str());
        let len = byte_count(&key);
        let skip = match &best {
            Some((n, _)) => *n >= len,
            None => false,
        };
        if key.len() > 0 && !skip {
            match find_token_exec(&lower_v, &key) {
                None => {},
                Some(at) => {
                    proof {
                        let ghost t = token_search(lower@, key@, lower@.len());
                        lemma_find_token_in(lower@, key@, lower@.len());
                    }
                    match cut_exec(&stem_v, &lower_v, at, key.len()) {
                        None => {
                            proof {
                                lemma_fold_broken(stem@, lower@, ks, (i + 1) as int);
                            }
                            return None;
                        },
                        Some(base) => {
                            best = Some((len, base));
                        },
                    }
                },
            }
        }
        i += 1;
    }
    assert(ks.take(keys.len() as int) == ks);
    match best {
        Some((n, v)) => Some((n, string_of(v.as_slice()))),
        None => None,
    }
}

proof fn lemma_find_token_in(h: Seq<char>, p: Seq<char>, end: nat)
    requires
        end <= h.len(),
    ensures
        token_search(h, p, end) matches Some(i) ==> 0 <= i && i + p.len() <= h.len(),
    decreases end,
{
    if p.len() > 0 {
        let n: nat = if end >= p.len() {
            (end - p.len() + 1) as nat
        } else {
            0
        };
        lemma_last_occurrence(h, p, n);
        if let Some(i) = last_occurrence(h, p, n) {
            if !at_boundary(h, i + p.len()) {
                lemma_find_token_in(h, p, i as nat);
            }
        }
    }
}

proof fn lemma_fold_broken(stem: Seq<char>, lower: Seq<char>, keys: Seq<Seq<char>>, i: int)
    requires
        0 <= i <= keys.len(),
        pattern_fold(stem, lower, keys.take(i)) is None,
    ensures
        match_keys(stem, lower, keys) is None,
    decreases keys.len() - i,
{
    if i < keys.len() {
        assert(keys.take(i + 1).drop_last() == keys.take(i));
        lemma_fold_broken(stem, lower, keys, i + 1);
    } else {
        assert(keys.take(i) == keys);
    }
}

/// The pattern as it is searched for.
pub fn pattern_key_of(p: &str) -> (r: String)
    ensures
        r@ == pattern_key(p@),
{
    let v = chars_of(p);
    let t = trim_chars(&v, CharSet::White, true, true);
    let t = trim_chars(&t, CharSet::Star, true, true);
    let s = string_of(t.as_slice());
    to_lowercase(s.as_str())
}

/// The longest of the patterns found in the name, matched without regard to
/// case and ending on a word boundary: its length and the name without it.
pub fn match_patterns(stem: &str, patterns: &[String]) -> (r: Option<(usize, String)>)
    ensures
        opt_view(r) == match_keys(stem@, lowercase(stem@), pattern_keys(strings_view(patterns@))),
{
    let lower = to_lowercase(stem);
    let mut keys: Vec<String> = Vec::new();
    let mut i: usize = 0;
    while i < patterns.len()
        invariant
            i <= patterns.len(),
            keys@.len() == i,
            forall|k: int| 0 <= k < i ==> #[trigger] keys@[k]@ == pattern_key(patterns@[k]@),
        decreases patterns.len() - i,
    {
        keys.push(pattern_key_of(patterns[i].as_str()));
        i += 1;
    }
    assert(strings_view(keys@) =~= pattern_keys(strings_view(patterns@)));
    match_keys_in(stem, lower.as_str(), keys.as_slice())
}


// ------------------------------------------------------------ the channel of a map

/// A suffix pattern found in a file name.
#[derive(Debug, Clone, PartialEq, Eq)]
pub struct SuffixMatch {
    pub channel: Channel,
    /// The name without the suffix found: common to all maps of one material.
    pub base: String,
    /// Length in bytes of the pattern that matched; the longest wins.
    pub len: usize,
}

/// The match of one channel's suffixes against the stem.
pub open spec fn slot_match(stem: Seq<char>, preset: PresetView, c: Channel) -> Option<
    (int, Seq<char>),
> {
    match_keys(stem, lowercase(stem), pattern_keys(preset.slots[c.idx() as int].suffixes))
}

/// The channels `chans` tried in order; a later one wins only with a
/// strictly longer pattern.
pub open spec fn suffix_fold(stem: Seq<char>, preset: PresetView, chans: Seq<Channel>) -> Option<
    (Channel, Seq<char>, int),
>
    decreases chans.len(),
{
    if chans.len() == 0 {
        None
    } else {
        let best = suffix_fold(stem, preset, chans.drop_last());
        let c = chans.last();
        match slot_match(stem, preset, c) {
            None => best,
            Some((len, base)) => match best {
                Some(b) if len <= b.2 => best,
                _ => Some((c, base, len)),
            },
        }
    }
}

/// The channel of the preset that a file with this stem belongs to.
pub open spec fn suffix_match(stem: Seq<char>, preset: PresetView) -> Option<
    (Channel, Seq<char>, int),
> {
    suffix_fold(stem, preset, channels_of(preset.alpha))
}

pub open spec fn match_view(m: Option<SuffixMatch>) -> Option<(Channel, Seq<char>, int)> {
    match m {
        Some(m) => Some((m.channel, m.base@, m.len as int)),
        None => None,
    }
}

proof fn lemma_suffix_fold(stem: Seq<char>, preset: PresetView, chans: Seq<Channel>)
    ensures
        suffix_fold(stem, preset, chans) matches Some(m) ==> {
            &&& chans.contains(m.0)
            &&& slot_match(stem, preset, m.0) == Some((m.2, m.1))
            &&& forall|k: int|
                0 <= k < chans.len() ==> (slot_match(stem, preset, #[trigger] chans[k]) matches Some(
                    o,
                ) ==> o.0 <= m.2)
        },
        suffix_fold(stem, preset, chans) is None ==> forall|k: int|
            0 <= k < chans.len() ==> slot_match(stem, preset, #[trigger] chans[k]) is None,
    decreases chans.len(),
{
    if chans.len() > 0 {
        let rest = chans.drop_last();
        let c = chans.last();
        lemma_suffix_fold(stem, preset, rest);
        assert forall|k: int| 0 <= k < rest.len() implies #[trigger] rest[k] == chans[k] by {}
        assert(chans[chans.len() - 1] == c);
        let best = suffix_fold(stem, preset, rest);
        let r = suffix_fold(stem, preset, chans);
        if let Some(b) = best {
            let j = choose|j: int| 0 <= j < rest.len() && rest[j] == b.0;
            assert(chans[j] == b.0);
        }
        match slot_match(stem, preset, c) {
            None => {
                assert(r == best);
                if let Some(m) = r {
                    assert forall|k: int| 0 <= k < chans.len() implies (slot_match(
                        stem,
                        preset,
                        #[trigger] chans[k],
                    ) matches Some(o) ==> o.0 <= m.2) by {
                        if k < rest.len() {
                            assert(rest[k] == chans[k]);
                        }
                    }
                } else {
                    assert forall|k: int| 0 <= k < chans.len() implies slot_match(
                        stem,
                        preset,
                        #[trigger] chans[k],
                    ) is None by {
                        if k < rest.len() {
                            assert(rest[k] == chans[k]);
                        }
                    }
                }
            },
            Some((len, base)) => {
                if best is Some && len <= best.unwrap().2 {
                    assert(r == best);
                    let m = r->0;
                    assert forall|k: int| 0 <= k < chans.len() implies (slot_match(
                        stem,
                        preset,
                        #[trigger] chans[k],
                    ) matches Some(o) ==> o.0 <= m.2) by {
                        if k < rest.len() {
                            assert(rest[k] == chans[k]);
                        }
                    }
                } else {
                    assert(r == Some((c, base, len)));
                    assert forall|k: int| 0 <= k < chans.len() implies (slot_match(
                        stem,
                        preset,
                        #[trigger] chans[k],
                    ) matches Some(o) ==> o.0 <= len) by {
                        if k < rest.len() {
                            assert(rest[k] == chans[k]);
                        }
                    }
                }
            },
        }
    }
}

/// The match found is the longest pattern over the channels that go into
/// the file, and the channel that wins takes part in the file; without
/// alpha it is never the alpha channel; when nothing is found, no channel
/// of the file matches.
pub proof fn law_longest_suffix_wins(stem: Seq<char>, preset: PresetView)
    ensures
        suffix_match(stem, preset) matches Some(m) ==> {
            &&& channels_of(preset.alpha).contains(m.0)
            &&& (!preset.alpha ==> m.0 != Channel::A)
            &&& slot_match(stem, preset, m.0) == Some((m.2, m.1))
            &&& forall|c: Channel|
                channels_of(preset.alpha).contains(c) ==> (slot_match(stem, preset, c) matches Some(
                    o,
                ) ==> o.0 <= m.2)
        },
        suffix_match(stem, preset) is None ==> forall|c: Channel|
            channels_of(preset.alpha).contains(c) ==> slot_match(stem, preset, c) is None,
{
    let chans = channels_of(preset.alpha);
    lemma_suffix_fold(stem, preset, chans);
    if let Some(m) = suffix_match(stem, preset) {
        assert forall|c: Channel| chans.contains(c) implies (slot_match(stem, preset, c) matches Some(
            o,
        ) ==> o.0 <= m.2) by {
            let k = choose|k: int| 0 <= k < chans.len() && chans[k] == c;
            assert(chans[k] == c);
        }
        if !preset.alpha {
            let k = choose|k: int| 0 <= k < chans.len() && chans[k] == m.0;
            assert(chans[k] != Channel::A);
        }
    } else {
        assert forall|c: Channel| chans.contains(c) implies slot_match(stem, preset, c) is None by {
            let k = choose|k: int| 0 <= k < chans.len() && chans[k] == c;
            assert(chans[k] == c);
        }
    }
}

proof fn lemma_suffix_fold_ties(stem: Seq<char>, preset: PresetView, chans: Seq<Channel>)
    ensures
        suffix_fold(stem, preset, chans) matches Some(m) ==> exists|w: int|
            0 <= w < chans.len() && #[trigger] chans[w] == m.0 && forall|k: int|
                0 <= k < w ==> (slot_match(stem, preset, #[trigger] chans[k]) matches Some(o) ==> o.0
                    < m.2),
    decreases chans.len(),
{
    if chans.len() > 0 {
        let rest = chans.drop_last();
        let c = chans.last();
        lemma_suffix_fold_ties(stem, preset, rest);
        lemma_suffix_fold(stem, preset, rest);
        assert forall|k: int| 0 <= k < rest.len() implies #[trigger] rest[k] == chans[k] by {}
        let best = suffix_fold(stem, preset, rest);
        let r = suffix_fold(stem, preset, chans);
        if let Some(m) = r {
            if r == best {
                let w = choose|w: int|
                    0 <= w < rest.len() && #[trigger] rest[w] == m.0 && forall|k: int|
                        0 <= k < w ==> (slot_match(stem, preset, #[trigger] rest[k]) matches Some(o)
                            ==> o.0 < m.2);
                assert(chans[w] == m.0);
                assert forall|k: int| 0 <= k < w implies (slot_match(stem, preset, #[trigger] chans[k])
                    matches Some(o) ==> o.0 < m.2) by {
                    assert(rest[k] == chans[k]);
                }
            } else {
                let w = chans.len() - 1;
                assert(chans[w] == m.0);
                assert forall|k: int| 0 <= k < w implies (slot_match(stem, preset, #[trigger] chans[k])
                    matches Some(o) ==> o.0 < m.2) by {
                    assert(rest[k] == chans[k]);
                }
            }
        }
    }
}

/// On patterns of the same length the channel that comes first (R, G, B, A)
/// wins: every channel before the winner matches only shorter patterns.
pub proof fn law_first_channel_wins_ties(stem: Seq<char>, preset: PresetView)
    ensures
        suffix_match(stem, preset) matches Some(m) ==> forall|k: int, w: int|
            0 <= k < w < channels_of(preset.alpha).len() && #[trigger] channels_of(preset.alpha)[w]
                == m.0 ==> (slot_match(stem, preset, #[trigger] channels_of(preset.alpha)[k]) matches Some(
                o,
            ) ==> o.0 < m.2),
{
    let chans = channels_of(preset.alpha);
    lemma_suffix_fold_ties(stem, preset, chans);
    if let Some(m) = suffix_match(stem, preset) {
        let w0 = choose|w: int|
            0 <= w < chans.len() && #[trigger] chans[w] == m.0 && forall|k: int|
                0 <= k < w ==> (slot_match(stem, preset, #[trigger] chans[k]) matches Some(o) ==> o.0
                    < m.2);
        assert forall|k: int, w: int|
            0 <= k < w < chans.len() && #[trigger] chans[w] == m.0 implies (slot_match(
            stem,
            preset,
            #[trigger] chans[k],
        ) matches Some(o) ==> o.0 < m.2) by {
            assert(chans[w].idx() == w);
            assert(chans[w0].idx() == w0);
        }
    }
}

/// Find the channel of the preset that a file with this name (without
/// extension) belongs to. The pattern is matched without regard to case and
/// must end on a word boundary: `_M` is found in `Rock_M` and `Rock_M_2K` but
/// not in `Rock_Mask`. When several match, the longest wins.
pub fn match_suffix(stem: &str, preset: &Preset) -> (r: Option<SuffixMatch>)
    ensures
        match_view(r) == suffix_match(stem@, preset@),
{
    let chans = preset.channels();
    let ghost cs = channels_of(preset.alpha);
    let mut best: Option<SuffixMatch> = None;
    let mut i: usize = 0;
    while i < chans.len()
        invariant
            i <= chans.len(),
            chans@ == cs,
            cs == channels_of(preset@.alpha),
            match_view(best) == suffix_fold(stem@, preset@, cs.take(i as int)),
        decreases chans.len() - i,
    {
        let channel = chans[i];
        assert(cs.take(i + 1).drop_last() == cs.take(i as int));
        assert(cs.take(i + 1).last() == channel);
        assert(preset@.slots[channel.idx() as int].suffixes == strings_view(
            preset.slots@[channel.idx() as int].suffixes@,
        ));
        match match_patterns(stem, preset.slots[channel.index()].suffixes.as_slice()) {
            None => {},
            Some((len, base)) => {
                let better = match &best {
                    Some(b) => len > b.len,
                    None => true,
                };
                if better {
                    best = Some(SuffixMatch { channel, base, len });
                }
            },
        }
        i += 1;
    }
    assert(cs.take(chans.len() as int) == cs);
    best
}

/// The common name of a material, taken from the name of one of its maps.
pub open spec fn base_name_of(stem: Seq<char>, preset: PresetView) -> Seq<char> {
    match suffix_match(stem, preset) {
        Some(m) if m.1.len() > 0 => m.1,
        _ => stem,
    }
}

pub fn base_name(stem: &str, preset: &Preset) -> (r: String)
    ensures
        r@ == base_name_of(stem@, preset@),
{
    match match_suffix(stem, preset) {
        Some(m) if !m.base.as_str().is_empty() => m.base,
        _ => stem.to_owned(),
    }
}

// ------------------------------------------------------------ the name of the result

/// Values put into a name template.
pub struct NameParts<'a> {
    pub basename: &'a str,
    pub preset: &'a str,
    pub label: &'a str,
}

/// Every non-overlapping occurrence of `from`, left to right, replaced by
/// `to`, as `str::replace` does.
pub open spec fn replace_all(s: Seq<char>, from: Seq<char>, to: Seq<char>) -> Seq<char>
    decreases s.len(),
{
    if from.len() == 0 || s.len() == 0 {
        s
    } else if from.len() <= s.len() && s.take(from.len() as int) == from {
        to + replace_all(s.skip(from.len() as int), from, to)
    } else {
        seq![s[0]] + replace_all(s.drop_first(), from, to)
    }
}

fn replace_chars(s: &Vec<char>, from: &Vec<char>, to: &Vec<char>) -> (r: Vec<char>)
    ensures
        r@ == replace_all(s@, from@, to@),
{
    if from.len() == 0 {
        return slice_of(s, 0, s.len());
    }
    let mut out: Vec<char> = Vec::new();
    let mut i: usize = 0;
    assert(s@.skip(0) == s@);
    while i < s.len()
        invariant
            from@.len() > 0,
            i <= s.len(),
            out@ + replace_all(s@.skip(i as int), from@, to@) == replace_all(s@, from@, to@),
        decreases s.len() - i,
    {
        let ghost rest = s@.skip(i as int);
        if from.len() <= s.len() - i && occurs_exec(s, from, i) {
            assert(rest.take(from.len() as int) == s@.subrange(i as int, i + from.len()));
            assert(rest.skip(from.len() as int) == s@.skip(i + from.len()));
            assert(replace_all(rest, from@, to@) == to@ + replace_all(
                s@.skip(i + from.len()),
                from@,
                to@,
            ));
            append(&mut out, to);
            assert(out@ + replace_all(s@.skip(i + from.len()), from@, to@) == replace_all(
                s@,
                from@,
                to@,
            ));
            i = i + from.len();
        } else {
            proof {
                if from.len() <= rest.len() && rest.take(from.len() as int) == from@ {
                    assert(rest.take(from.len() as int) == s@.subrange(i as int, i + from.len()));
                    assert(occurs_at(s@, from@, i as int));
                }
            }
            assert(rest.drop_first() == s@.skip(i + 1));
            assert(replace_all(rest, from@, to@) == seq![s@[i as int]] + replace_all(
                s@.skip(i + 1),
                from@,
                to@,
            ));
            out.push(s[i]);
            assert(out@ + replace_all(s@.skip(i + 1), from@, to@) == replace_all(s@, from@, to@));
            i += 1;
        }
    }
    assert(s@.skip(s.len() as int).len() == 0);
    assert(out@ + replace_all(s@.skip(i as int), from@, to@) == out@);
    out
}

/// One character of a preset name on its way into a file name.
pub open spec fn slug_push(out: Seq<char>, c: char) -> Seq<char> {
    if alphanumeric(c) || c == '-' {
        out.push(c)
    } else if out.len() > 0 && out.last() != '_' {
        out.push('_')
    } else {
        out
    }
}

pub open spec fn slug_raw(s: Seq<char>) -> Seq<char>
    decreases s.len(),
{
    if s.len() == 0 {
        s
    } else {
        slug_push(slug_raw(s.drop_last()), s.last())
    }
}

/// A preset name fit for a file name: letters, digits and `-` are kept, every
/// other run becomes one `_`, and none is left at the end:
/// `Unity HDRP — Mask Map` becomes `Unity_HDRP_Mask_Map`.
pub open spec fn slug(s: Seq<char>) -> Seq<char> {
    trim_end(slug_raw(s), CharSet::Underscore)
}

fn slug_chars(name: &Vec<char>) -> (r: Vec<char>)
    ensures
        r@ == slug(name@),
{
    let mut out: Vec<char> = Vec::new();
    let mut i: usize = 0;
    while i < name.len()
        invariant
            i <= name.len(),
            out@ == slug_raw(name@.take(i as int)),
        decreases name.len() - i,
    {
        let c = name[i];
        assert(name@.take(i + 1).drop_last() == name@.take(i as int));
        if is_alphanumeric(c) || c == '-' {
            out.push(c);
        } else if out.len() > 0 && out[out.len() - 1] != '_' {
            out.push('_');
        }
        i += 1;
    }
    assert(name@.take(name.len() as int) == name@);
    trim_chars(&out, CharSet::Underscore, false, true)
}

/// Characters that a file name on Windows cannot hold.
pub open spec fn forbidden(c: char) -> bool {
    is_control(c) || c == '<' || c == '>' || c == ':' || c == '"' || c == '/' || c == '\\' || c
        == '|' || c == '?' || c == '*'
}

pub open spec fn clean_char(c: char) -> char {
    if forbidden(c) {
        '_'
    } else {
        c
    }
}

/// The file name that a template gives, without extension, for the given
/// parts and date: tokens are filled in, forbidden characters become `_`,
/// white space is trimmed and dots at the end dropped; an empty result is
/// `packed`.
pub open spec fn render_name(
    template: Seq<char>,
    basename: Seq<char>,
    preset: Seq<char>,
    label: Seq<char>,
    date: Seq<char>,
) -> Seq<char> {
    let name = replace_all(
        replace_all(
            replace_all(replace_all(template, "{basename}"@, basename), "{label}"@, label),
            "{preset}"@,
            slug(preset),
        ),
        "{date}"@,
        date,
    );
    let clean = name.map_values(|c: char| clean_char(c));
    let clean = trim_end(trim(clean, CharSet::White), CharSet::Dot);
    if clean.len() == 0 {
        "packed"@
    } else {
        clean
    }
}

/// A rendered file name is never empty, holds no character that Windows
/// refuses in a file name, does not start with white space and does not end
/// with a dot.
pub proof fn law_render_clean(
    template: Seq<char>,
    basename: Seq<char>,
    preset: Seq<char>,
    label: Seq<char>,
    date: Seq<char>,
)
    ensures
        ({
            let r = render_name(template, basename, preset, label, date);
            &&& r.len() > 0
            &&& forall|k: int| 0 <= k < r.len() ==> !forbidden(#[trigger] r[k])
            &&& !is_white(r[0])
            &&& r.last() != '.'
        }),
{
    reveal_strlit("packed");
    let name = replace_all(
        replace_all(
            replace_all(replace_all(template, "{basename}"@, basename), "{label}"@, label),
            "{preset}"@,
            slug(preset),
        ),
        "{date}"@,
        date,
    );
    let c0 = name.map_values(|c: char| clean_char(c));
    assert forall|k: int| 0 <= k < c0.len() implies !forbidden(#[trigger] c0[k]) by {
        reveal_strlit("_");
    }
    let c1 = trim(c0, CharSet::White);
    lemma_trim_start_skip(c0, CharSet::White);
    let a = trim_start(c0, CharSet::White);
    lemma_trim_end_take(a, CharSet::White);
    let off = lead_count(c0, CharSet::White) as int;
    assert forall|k: int| 0 <= k < c1.len() implies !forbidden(#[trigger] c1[k]) by {
        assert(c1[k] == c0[k + off]);
    }
    lemma_trim_ends(c0, CharSet::White);
    let c2 = trim_end(c1, CharSet::Dot);
    lemma_trim_end_take(c1, CharSet::Dot);
    lemma_trim_ends(c1, CharSet::Dot);
    assert forall|k: int| 0 <= k < c2.len() implies !forbidden(#[trigger] c2[k]) by {
        assert(c2[k] == c1[k]);
    }
    if c2.len() > 0 {
        assert(c2[0] == c1[0]);
    }
}

fn clean_chars(v: &Vec<char>) -> (r: Vec<char>)
    ensures
        r@ == v@.map_values(|c: char| clean_char(c)),
{
    let mut out: Vec<char> = Vec::new();
    let mut i: usize = 0;
    while i < v.len()
        invariant
            i <= v.len(),
            out@ == v@.take(i as int).map_values(|c: char| clean_char(c)),
        decreases v.len() - i,
    {
        let c = v[i];
        let bad = char_is_control(c) || c == '<' || c == '>' || c == ':' || c == '"' || c == '/'
            || c == '\\' || c == '|' || c == '?' || c == '*';
        out.push(if bad { '_' } else { c });
        i += 1;
        assert(v@.take(i as int).map_values(|c: char| clean_char(c)) =~= v@.take(i - 1).map_values(
            |c: char| clean_char(c),
        ).push(clean_char(c)));
    }
    assert(v@.take(v.len() as int) == v@);
    out
}

/// The file name from a template, without extension, with `date` for
/// `{date}` (today's date, read by the caller). Characters that Windows does
/// not accept become `_`.
pub fn render(template: &str, parts: &NameParts, date: &str) -> (r: String)
    ensures
        r@ == render_name(template@, parts.basename@, parts.preset@, parts.label@, date@),
{
    let t = chars_of(template);
    let t = replace_chars(&t, &chars_of("{basename}"), &chars_of(parts.basename));
    let t = replace_chars(&t, &chars_of("{label}"), &chars_of(parts.label));
    let t = replace_chars(&t, &chars_of("{preset}"), &slug_chars(&chars_of(parts.preset)));
    let t = replace_chars(&t, &chars_of("{date}"), &chars_of(date));
    let c = clean_chars(&t);
    let c = trim_chars(&c, CharSet::White, true, true);
    let c = trim_chars(&c, CharSet::Dot, false, true);
    if c.len() == 0 {
        "packed".to_owned()
    } else {
        string_of(c.as_slice())
    }
}

} // verus!

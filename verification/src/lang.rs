//! The interface language. Strings in the code are English; the Russian
//! translation is a table of `english<TAB>russian` lines.

use vstd::prelude::*;

use crate::text::{chars_of, decimal, decimal_chars, same_chars, string_of};

verus! {

// ------------------------------------------------------------ the dictionary

/// The first position of `c` in `s`.
pub open spec fn index_of(s: Seq<char>, c: char) -> Option<int>
    decreases s.len(),
{
    if s.len() == 0 {
        None
    } else {
        match index_of(s.drop_last(), c) {
            Some(i) => Some(i),
            None => if s.last() == c {
                Some(s.len() - 1)
            } else {
                None
            },
        }
    }
}

pub proof fn lemma_index_of(s: Seq<char>, c: char)
    ensures
        index_of(s, c) matches Some(i) ==> 0 <= i < s.len() && s[i] == c && forall|k: int|
            0 <= k < i ==> s[k] != c,
        index_of(s, c) is None ==> forall|k: int| 0 <= k < s.len() ==> s[k] != c,
    decreases s.len(),
{
    if s.len() > 0 {
        lemma_index_of(s.drop_last(), c);
        assert forall|k: int| 0 <= k < s.len() - 1 implies s[k] == s.drop_last()[k] by {}
    }
}

/// A line of the table as a pair: lines that are empty or start with `#`
/// are skipped, and a line is split at its first tab.
pub open spec fn entry_of(line: Seq<char>) -> Option<(Seq<char>, Seq<char>)> {
    if line.len() == 0 || line[0] == '#' {
        None
    } else {
        match index_of(line, '\t') {
            Some(j) => Some((line.take(j), line.skip(j + 1))),
            None => None,
        }
    }
}

pub open spec fn add_line(m: Map<Seq<char>, Seq<char>>, line: Seq<char>) -> Map<
    Seq<char>,
    Seq<char>,
> {
    match entry_of(line) {
        Some((k, v)) => m.insert(k, v),
        None => m,
    }
}

/// A line ended by `\n`, without a `\r` before it.
pub open spec fn finish_line(piece: Seq<char>) -> Seq<char> {
    if piece.len() > 0 && piece.last() == '\r' {
        piece.drop_last()
    } else {
        piece
    }
}

/// The text read up to its end: the line still open, and the table of the
/// lines closed so far.
pub open spec fn scan(text: Seq<char>) -> (Seq<char>, Map<Seq<char>, Seq<char>>)
    decreases text.len(),
{
    if text.len() == 0 {
        (Seq::empty(), Map::empty())
    } else {
        let (cur, m) = scan(text.drop_last());
        if text.last() == '\n' {
            (Seq::empty(), add_line(m, finish_line(cur)))
        } else {
            (cur.push(text.last()), m)
        }
    }
}

/// The table a text holds; a later line for the same English string wins.
pub open spec fn parse_table(text: Seq<char>) -> Map<Seq<char>, Seq<char>> {
    add_line(scan(text).1, scan(text).0)
}

/// English strings with their translations.
pub struct Dictionary {
    entries: Vec<(String, String)>,
}

pub open spec fn table_of(entries: Seq<(Seq<char>, Seq<char>)>) -> Map<Seq<char>, Seq<char>>
    decreases entries.len(),
{
    if entries.len() == 0 {
        Map::empty()
    } else {
        table_of(entries.drop_last()).insert(entries.last().0, entries.last().1)
    }
}

pub open spec fn pairs_view(v: Seq<(String, String)>) -> Seq<(Seq<char>, Seq<char>)> {
    v.map_values(|p: (String, String)| (p.0@, p.1@))
}

impl View for Dictionary {
    type V = Map<Seq<char>, Seq<char>>;

    closed spec fn view(&self) -> Map<Seq<char>, Seq<char>> {
        table_of(pairs_view(self.entries@))
    }
}

proof fn lemma_table_lookup(entries: Seq<(Seq<char>, Seq<char>)>, i: int, key: Seq<char>)
    requires
        0 <= i <= entries.len(),
        forall|k: int| i <= k < entries.len() ==> #[trigger] entries[k].0 != key,
    ensures
        table_of(entries).contains_key(key) == table_of(entries.take(i)).contains_key(key),
        table_of(entries).contains_key(key) ==> table_of(entries)[key] == table_of(
            entries.take(i),
        )[key],
    decreases entries.len() - i,
{
    if i < entries.len() {
        let e = entries.take(i + 1);
        assert(e.drop_last() == entries.take(i));
        lemma_table_lookup(entries, i + 1, key);
        assert(e.last() == entries[i]);
    } else {
        assert(entries.take(i) == entries);
    }
}

impl Dictionary {
    /// A dictionary with no entries: every string stays English.
    pub fn new() -> (r: Dictionary)
        ensures
            r@ == Map::<Seq<char>, Seq<char>>::empty(),
    {
        let r = Dictionary { entries: Vec::new() };
        proof {
            assert(pairs_view(r.entries@).len() == 0);
        }
        r
    }

    fn add(&mut self, line: &Vec<char>)
        ensures
            final(self)@ == add_line(old(self)@, line@),
    {
        if line.len() == 0 || line[0] == '#' {
            return;
        }
        let mut j: usize = 0;
        proof {
            lemma_index_of(line@, '\t');
        }
        while j < line.len() && line[j] != '\t'
            invariant
                j <= line.len(),
                forall|k: int| 0 <= k < j ==> line@[k] != '\t',
            decreases line.len() - j,
        {
            j += 1;
        }
        if j == line.len() {
            return;
        }
        let key = string_of(crate::text::slice_of(line, 0, j).as_slice());
        let value = string_of(crate::text::slice_of(line, j + 1, line.len()).as_slice());
        let ghost before = pairs_view(self.entries@);
        self.entries.push((key, value));
        proof {
            assert(pairs_view(self.entries@).drop_last() == before);
            assert(line@.take(j as int) == line@.subrange(0, j as int));
            assert(line@.skip(j + 1) == line@.subrange(j + 1, line@.len() as int));
        }
    }

    /// The translation of `en`, if the table has one.
    pub fn get(&self, en: &str) -> (r: Option<String>)
        ensures
            match r {
                Some(v) => self@.contains_key(en@) && self@[en@] == v@,
                None => !self@.contains_key(en@),
            },
    {
        let key = chars_of(en);
        let ghost ps = pairs_view(self.entries@);
        let mut i = self.entries.len();
        while i > 0
            invariant
                i <= self.entries.len(),
                ps == pairs_view(self.entries@),
                key@ == en@,
                forall|k: int| i <= k < ps.len() ==> #[trigger] ps[k].0 != en@,
            decreases i,
        {
            let k = chars_of(self.entries[i - 1].0.as_str());
            if same_chars(&k, &key) {
                proof {
                    lemma_table_lookup(ps, i as int, en@);
                    let e = ps.take(i as int);
                    assert(e.drop_last() == ps.take(i - 1));
                }
                return Some(self.entries[i - 1].1.clone());
            }
            i -= 1;
        }
        proof {
            lemma_table_lookup(ps, 0, en@);
        }
        None
    }
}

// ------------------------------------------------------------ holes

/// How many `{}` a string holds, counted left to right without overlap from `i`.
pub open spec fn holes_from(s: Seq<char>, i: int) -> nat
    decreases s.len() - i,
{
    if i < 0 || i + 2 > s.len() {
        0
    } else if s[i] == '{' && s[i + 1] == '}' {
        1 + holes_from(s, i + 2)
    } else {
        holes_from(s, i + 1)
    }
}

/// How many values `fill` puts into a string.
pub open spec fn hole_count(s: Seq<char>) -> nat {
    holes_from(s, 0)
}

/// Every translation in the table has as many `{}` as its English string.
pub open spec fn holes_kept(table: Map<Seq<char>, Seq<char>>) -> bool {
    forall|k: Seq<char>| table.contains_key(k) ==> hole_count(#[trigger] table[k]) == hole_count(k)
}

/// A table that keeps the `{}` of every string gives back as many `{}` as
/// the English string has, in either language.
pub proof fn law_translation_keeps_holes(
    russian: bool,
    table: Map<Seq<char>, Seq<char>>,
    en: Seq<char>,
)
    requires
        holes_kept(table),
    ensures
        hole_count(translated(russian, table, en)) == hole_count(en),
{
}

fn count_holes(s: &String) -> (n: usize)
    ensures
        n == hole_count(s@),
{
    let v = chars_of(s.as_str());
    let mut n: usize = 0;
    let mut i: usize = 0;
    while i < v.len()
        invariant
            i <= v.len(),
            v@ == s@,
            n + holes_from(v@, i as int) == hole_count(v@),
            n <= i,
        decreases v.len() - i,
    {
        if i + 1 < v.len() && v[i] == '{' && v[i + 1] == '}' {
            n += 1;
            i += 2;
        } else {
            i += 1;
        }
    }
    n
}

proof fn lemma_table_has(entries: Seq<(Seq<char>, Seq<char>)>, key: Seq<char>)
    requires
        table_of(entries).contains_key(key),
    ensures
        exists|i: int|
            0 <= i < entries.len() && (#[trigger] entries[i]).0 == key && entries[i].1 == table_of(
                entries,
            )[key] && forall|j: int| i < j < entries.len() ==> (#[trigger] entries[j]).0 != key,
    decreases entries.len(),
{
    let d = entries.drop_last();
    if entries.last().0 == key {
        assert(entries[entries.len() - 1].0 == key);
    } else {
        lemma_table_has(d, key);
        let i = choose|i: int|
            0 <= i < d.len() && (#[trigger] d[i]).0 == key && d[i].1 == table_of(d)[key] && forall|
                j: int,
            | i < j < d.len() ==> (#[trigger] d[j]).0 != key;
        assert(entries[i] == d[i]);
        assert forall|j: int| i < j < entries.len() implies (#[trigger] entries[j]).0 != key by {
            if j < d.len() {
                assert(entries[j] == d[j]);
            }
        }
    }
}

impl Dictionary {
    /// Whether every translation has as many `{}` as its English string.
    pub fn holes_match(&self) -> (r: bool)
        ensures
            r == holes_kept(self@),
    {
        let ghost ps = pairs_view(self.entries@);
        let n = self.entries.len();
        let mut i: usize = 0;
        while i < n
            invariant
                i <= n,
                n == self.entries.len(),
                ps == pairs_view(self.entries@),
                forall|a: int|
                    0 <= a < i && (forall|b: int| a < b < ps.len() ==> (#[trigger] ps[b]).0 != ps[a].0)
                        ==> hole_count(#[trigger] ps[a].1) == hole_count(ps[a].0),
            decreases n - i,
        {
            let key = chars_of(self.entries[i].0.as_str());
            let mut later = false;
            let mut j = i + 1;
            while j < n
                invariant
                    i < j <= n,
                    n == self.entries.len(),
                    ps == pairs_view(self.entries@),
                    key@ == ps[i as int].0,
                    later <==> exists|b: int| i < b < j && (#[trigger] ps[b]).0 == ps[i as int].0,
                decreases n - j,
            {
                if same_chars(&chars_of(self.entries[j].0.as_str()), &key) {
                    assert(ps[j as int].0 == ps[i as int].0);
                    later = true;
                }
                j += 1;
            }
            if !later && count_holes(&self.entries[i].0) != count_holes(&self.entries[i].1) {
                proof {
                    let k = ps[i as int].0;
                    lemma_table_lookup(ps, i + 1, k);
                    assert(ps.take(i + 1).drop_last() == ps.take(i as int));
                    assert(ps.take(i + 1).last() == ps[i as int]);
                    assert(self@.contains_key(k) && self@[k] == ps[i as int].1);
                }
                return false;
            }
            i += 1;
        }
        proof {
            assert forall|k: Seq<char>| self@.contains_key(k) implies hole_count(#[trigger] self@[k])
                == hole_count(k) by {
                lemma_table_has(ps, k);
                let a = choose|a: int|
                    0 <= a < ps.len() && (#[trigger] ps[a]).0 == k && ps[a].1 == table_of(ps)[k]
                        && forall|j: int| a < j < ps.len() ==> (#[trigger] ps[j]).0 != k;
                assert(hole_count(ps[a].1) == hole_count(ps[a].0));
            }
        }
        true
    }
}

/// Read a translation table: one `english<TAB>russian` pair a line; empty
/// lines and lines that start with `#` are skipped.
pub fn parse(text: &str) -> (r: Dictionary)
    ensures
        r@ == parse_table(text@),
{
    let t = chars_of(text);
    let mut dict = Dictionary::new();
    let mut cur: Vec<char> = Vec::new();
    let mut i: usize = 0;
    while i < t.len()
        invariant
            i <= t.len(),
            t@ == text@,
            (cur@, dict@) == scan(t@.take(i as int)),
        decreases t.len() - i,
    {
        assert(t@.take(i + 1).drop_last() == t@.take(i as int));
        let c = t[i];
        if c == '\n' {
            if cur.len() > 0 && cur[cur.len() - 1] == '\r' {
                cur.pop();
            }
            dict.add(&cur);
            cur = Vec::new();
        } else {
            cur.push(c);
        }
        i += 1;
    }
    assert(t@.take(t.len() as int) == t@);
    dict.add(&cur);
    dict
}

/// Read a translation table for use: a table in which some translation
/// drops or adds a `{}` would put values in the wrong places, so such a table
/// is not used and every string stays English.
pub fn load(text: &str) -> (r: Dictionary)
    ensures
        r@ == if holes_kept(parse_table(text@)) {
            parse_table(text@)
        } else {
            Map::<Seq<char>, Seq<char>>::empty()
        },
        holes_kept(r@),
{
    let d = parse(text);
    if d.holes_match() {
        d
    } else {
        Dictionary::new()
    }
}

// ------------------------------------------------------------ translating

/// The language of the interface and the table that translates it.
pub struct Translator {
    pub russian: bool,
    pub ru: Dictionary,
}

/// `en` in the interface language: the translation when the language is
/// Russian and the table has one, else `en` itself.
pub open spec fn translated(russian: bool, table: Map<Seq<char>, Seq<char>>, en: Seq<char>) -> Seq<
    char,
> {
    if russian && table.contains_key(en) {
        table[en]
    } else {
        en
    }
}

/// Translate a string. Without a translation it stays English.
pub fn t(tr: &Translator, en: &str) -> (r: String)
    ensures
        r@ == translated(tr.russian, tr.ru@, en@),
{
    if tr.russian {
        match tr.ru.get(en) {
            Some(v) => v,
            None => en.to_owned(),
        }
    } else {
        en.to_owned()
    }
}

// ------------------------------------------------------------ placeholders

/// The first `{}` in `s` at or after `i`.
pub open spec fn first_hole_from(s: Seq<char>, i: int) -> Option<int>
    decreases s.len() - i,
{
    if i < 0 || i + 2 > s.len() {
        None
    } else if s[i] == '{' && s[i + 1] == '}' {
        Some(i)
    } else {
        first_hole_from(s, i + 1)
    }
}

/// The values put in place of the `{}` in `s`, in order. Values without a
/// `{}` left are dropped; `{}` without a value stay.
pub open spec fn fill_holes(s: Seq<char>, values: Seq<Seq<char>>) -> Seq<char>
    decreases values.len(),
{
    if values.len() == 0 {
        s
    } else {
        match first_hole_from(s, 0) {
            None => s,
            Some(at) => s.take(at) + values[0] + fill_holes(s.skip(at + 2), values.drop_first()),
        }
    }
}

/// Put the values in place of `{}`, in order: `fill("{} of {} failed", ["2", "5"])`.
pub fn fill(template: &str, values: &[String]) -> (r: String)
    ensures
        r@ == fill_holes(template@, values@.map_values(|v: String| v@)),
{
    let ghost vs = values@.map_values(|v: String| v@);
    let mut out: Vec<char> = Vec::new();
    let mut rest = chars_of(template);
    let mut j: usize = 0;
    assert(vs.skip(0) == vs);
    assert(out@ + fill_holes(rest@, vs.skip(0)) =~= fill_holes(template@, vs));
    while j < values.len()
        invariant
            j <= values.len(),
            vs == values@.map_values(|v: String| v@),
            out@ + fill_holes(rest@, vs.skip(j as int)) == fill_holes(template@, vs),
        decreases values.len() - j,
    {
        let mut at: usize = 0;
        while rest.len() >= 2 && at <= rest.len() - 2 && !(rest[at] == '{' && rest[at + 1] == '}')
            invariant
                at <= rest.len(),
                first_hole_from(rest@, 0) == first_hole_from(rest@, at as int),
            decreases rest.len() - at,
        {
            at += 1;
        }
        assert(vs.skip(j as int).len() > 0);
        assert(vs.skip(j as int)[0] == values@[j as int]@);
        assert(vs.skip(j as int).drop_first() == vs.skip(j + 1));
        if rest.len() < 2 || at > rest.len() - 2 {
            assert(fill_holes(rest@, vs.skip(j as int)) == rest@);
            crate::text::append(&mut out, &rest);
            return string_of(out.as_slice());
        }
        let head = crate::text::slice_of(&rest, 0, at);
        crate::text::append(&mut out, &head);
        crate::text::append(&mut out, &chars_of(values[j].as_str()));
        let tail = crate::text::slice_of(&rest, at + 2, rest.len());
        assert(head@ == rest@.take(at as int));
        assert(tail@ == rest@.skip(at + 2));
        rest = tail;
        j += 1;
    }
    assert(vs.skip(values.len() as int).len() == 0);
    crate::text::append(&mut out, &rest);
    string_of(out.as_slice())
}

// ------------------------------------------------------------ numbers with words

/// The form of the word that goes with `n`: English has two (one, many),
/// Russian three (1, 21…; 2–4, 22–24…; the rest).
pub open spec fn plural_index(n: nat, russian: bool) -> int {
    if russian {
        let n10 = n % 10;
        let n100 = n % 100;
        if n10 == 1 && n100 != 11 {
            0
        } else if 2 <= n10 <= 4 && !(12 <= n100 <= 14) {
            1
        } else {
            2
        }
    } else if n == 1 {
        0
    } else {
        1
    }
}

/// A number with its word in the right form: "1 image", "3 images" or
/// "1 картинка", "3 картинки", "5 картинок".
pub fn count(n: usize, russian: bool, en: [&str; 2], ru: [&str; 3]) -> (r: String)
    ensures
        r@ == decimal(n as nat) + " "@ + (if russian {
            ru@[plural_index(n as nat, true)]@
        } else {
            en@[plural_index(n as nat, false)]@
        }),
{
    let word: &str = if russian {
        let n10 = n % 10;
        let n100 = n % 100;
        if n10 == 1 && n100 != 11 {
            ru[0]
        } else if 2 <= n10 && n10 <= 4 && !(12 <= n100 && n100 <= 14) {
            ru[1]
        } else {
            ru[2]
        }
    } else if n == 1 {
        en[0]
    } else {
        en[1]
    };
    let mut out = decimal_chars(n as u128);
    out.push(' ');
    crate::text::append(&mut out, &chars_of(word));
    proof {
        reveal_strlit(" ");
    }
    string_of(out.as_slice())
}

} // verus!

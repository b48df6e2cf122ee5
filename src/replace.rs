use vstd::prelude::*;
use vstd::std_specs::iter::IteratorSpec;

use crate::text::{chars_eq, chars_of, is_ascii_space, is_ascii_space_char, string_from_chars};

verus! {

broadcast use vstd::string::axiom_spec_iter, vstd::string::next_postcondition;

/// Whitespace as `char::is_whitespace` defines it: Unicode `White_Space`.
pub open spec fn is_white_space(c: char) -> bool {
    ('\u{9}' <= c && c <= '\u{d}') || c == ' ' || c == '\u{85}' || c == '\u{a0}'
        || c == '\u{1680}' || ('\u{2000}' <= c && c <= '\u{200a}') || c == '\u{2028}'
        || c == '\u{2029}' || c == '\u{202f}' || c == '\u{205f}' || c == '\u{3000}'
}

fn is_white_space_char(c: char) -> (r: bool)
    ensures
        r == is_white_space(c),
{
    ('\u{9}' <= c && c <= '\u{d}') || c == ' ' || c == '\u{85}' || c == '\u{a0}'
        || c == '\u{1680}' || ('\u{2000}' <= c && c <= '\u{200a}') || c == '\u{2028}'
        || c == '\u{2029}' || c == '\u{202f}' || c == '\u{205f}' || c == '\u{3000}'
}

/// ASCII punctuation as `char::is_ascii_punctuation` defines it.
pub open spec fn is_ascii_punct(c: char) -> bool {
    ('!' <= c && c <= '/') || (':' <= c && c <= '@') || ('[' <= c && c <= '`') || ('{' <= c
        && c <= '~')
}

/// Neither ASCII whitespace nor ASCII punctuation.
pub open spec fn is_word_char(c: char) -> bool {
    !is_ascii_space(c) && !is_ascii_punct(c)
}

fn is_word_char_exec(c: char) -> (r: bool)
    ensures
        r == is_word_char(c),
{
    !(is_ascii_space_char(c) || ('!' <= c && c <= '/') || (':' <= c && c <= '@') || ('[' <= c
        && c <= '`') || ('{' <= c && c <= '~'))
}

pub open spec fn is_ascii_upper(c: char) -> bool {
    'A' <= c && c <= 'Z'
}

pub open spec fn is_ascii_lower(c: char) -> bool {
    'a' <= c && c <= 'z'
}

/// The character with an ASCII lower case letter made upper case.
pub open spec fn ascii_upper(c: char) -> char {
    if is_ascii_lower(c) {
        ((c as u8) - 32) as u8 as char
    } else {
        c
    }
}

fn ascii_upper_char(c: char) -> (r: char)
    ensures
        r == ascii_upper(c),
{
    if 'a' <= c && c <= 'z' {
        ((c as u8) - 32) as char
    } else {
        c
    }
}

/// Leading whitespace removed.
pub open spec fn trim_start(s: Seq<char>) -> Seq<char>
    decreases s.len(),
{
    if s.len() > 0 && is_white_space(s[0]) {
        trim_start(s.drop_first())
    } else {
        s
    }
}

/// Trailing whitespace removed.
pub open spec fn trim_end(s: Seq<char>) -> Seq<char>
    decreases s.len(),
{
    if s.len() > 0 && is_white_space(s.last()) {
        trim_end(s.drop_last())
    } else {
        s
    }
}

/// Leading and trailing whitespace removed, as `str::trim` does.
pub open spec fn trim(s: Seq<char>) -> Seq<char> {
    trim_end(trim_start(s))
}

/// The last word of `out` (what follows its last ASCII whitespace or
/// punctuation) holds an ASCII upper case letter.
pub open spec fn last_word_has_upper(out: Seq<char>) -> bool {
    exists|i: int|
        0 <= i < out.len() && is_ascii_upper(out[i]) && forall|j: int|
            i <= j < out.len() ==> !is_ascii_space(#[trigger] out[j]) && !is_ascii_punct(out[j])
}

/// `to` appended to `out`, its first letter made upper case where the last
/// word of `out` holds an upper case letter.
pub open spec fn pasted(out: Seq<char>, to: Seq<char>) -> Seq<char> {
    if last_word_has_upper(out) && to.len() > 0 {
        out.push(ascii_upper(to[0])) + to.drop_first()
    } else {
        out + to
    }
}

/// The state of a substitution: the text so far, the placeholder being read
/// (from its second `{`), and the previous character.
pub struct Subst {
    pub out: Seq<char>,
    pub keyword: Seq<char>,
    pub prev: char,
}

/// The substitution of one character, with `m` the table of replacements.
pub open spec fn subst_step(m: Map<Seq<char>, Seq<char>>, st: Subst, c: char) -> Subst {
    let next = if c == '}' && st.keyword.len() > 0 && st.prev == '}' {
        let key = trim(st.keyword.subrange(1, st.keyword.len() - 1));
        if m.contains_key(key) {
            let out = if st.out.len() > 0 {
                st.out.drop_last()
            } else {
                st.out
            };
            Subst { out: pasted(out, m[key]), keyword: seq![], ..st }
        } else {
            Subst { out: st.out + st.keyword.push(c), keyword: seq![], ..st }
        }
    } else if st.keyword.len() > 0 {
        Subst { keyword: st.keyword.push(c), ..st }
    } else if c == '{' && st.prev == '{' {
        Subst { keyword: st.keyword.push(c), ..st }
    } else {
        Subst { out: st.out.push(c), ..st }
    };
    Subst { prev: c, ..next }
}

pub open spec fn subst_scan(m: Map<Seq<char>, Seq<char>>, cs: Seq<char>) -> Subst
    decreases cs.len(),
{
    if cs.len() == 0 {
        Subst { out: seq![], keyword: seq![], prev: ' ' }
    } else {
        subst_step(m, subst_scan(m, cs.drop_last()), cs.last())
    }
}

/// The text with each `{{ key }}` whose trimmed key is in `m` replaced by its
/// value; a placeholder still open at the end of the text is left out.
pub open spec fn replaced(m: Map<Seq<char>, Seq<char>>, cs: Seq<char>) -> Seq<char> {
    subst_scan(m, cs).out
}

/// The value of `k` in a list of entries where a later entry shadows an earlier one.
pub open spec fn lookup(p: Seq<(Seq<char>, Seq<char>)>, k: Seq<char>) -> Option<Seq<char>>
    decreases p.len(),
{
    if p.len() == 0 {
        None
    } else if p.last().0 == k {
        Some(p.last().1)
    } else {
        lookup(p.drop_last(), k)
    }
}

/// A table of replacements for `{{ key }}` placeholders.
///
/// The entries are a `Vec` of key and value pairs in which a later entry
/// shadows an earlier one, rather than a `HashMap<String, String>`: vstd's
/// specification of `HashMap` gives lookups a usable contract only for keys
/// whose hashing and equality it models, and `String` keys are not among
/// them. Seen through its view, the table is a map all the same.
pub struct Replace {
    entries: Vec<(Vec<char>, Vec<char>)>,
}

impl View for Replace {
    type V = Map<Seq<char>, Seq<char>>;

    closed spec fn view(&self) -> Map<Seq<char>, Seq<char>> {
        Map::new(|k: Seq<char>| lookup(self.pairs(), k) is Some, |k: Seq<char>| lookup(self.pairs(), k)->0)
    }
}

impl Default for Replace {
    fn default() -> (r: Replace)
        ensures
            r@ == Map::<Seq<char>, Seq<char>>::empty(),
    {
        Replace::new()
    }
}

impl Replace {
    closed spec fn pairs(&self) -> Seq<(Seq<char>, Seq<char>)> {
        self.entries@.map_values(|e: (Vec<char>, Vec<char>)| (e.0@, e.1@))
    }

    /// An empty table.
    pub fn new() -> (r: Replace)
        ensures
            r@ == Map::<Seq<char>, Seq<char>>::empty(),
    {
        let r = Replace { entries: Vec::new() };
        assert(r.pairs() =~= seq![]);
        assert(r@ =~= Map::<Seq<char>, Seq<char>>::empty());
        r
    }

    /// Sets the replacement of `key` to `value`.
    pub fn insert(&mut self, key: &str, value: &str)
        ensures
            final(self)@ == old(self)@.insert(key@, value@),
    {
        let k = chars_of(key);
        let v = chars_of(value);
        self.entries.push((k, v));
        let ghost p = self.pairs();
        assert(p.drop_last() =~= old(self).pairs());
        assert(forall|q: Seq<char>| #[trigger] lookup(p, q) == (if q == key@ {
            Some(value@)
        } else {
            lookup(old(self).pairs(), q)
        }));
        assert(self@ =~= old(self)@.insert(key@, value@));
    }

    /// `source` with each `{{ key }}` placeholder whose key, trimmed of
    /// whitespace, is in the table replaced by its value. The value's first
    /// letter is made upper case where the word it joins already holds an
    /// upper case letter (`Get{{ name }}` gives `GetUser`). A placeholder whose
    /// key is not in the table stays as it is; one still open at the end of
    /// `source` is left out.
    pub fn replace(&self, source: &str) -> (r: String)
        ensures
            r@ == replaced(self@, source@),
    {
        let n = source.unicode_len();
        let mut it = source.chars();
        let mut keyword: Vec<char> = Vec::new();
        let mut output: Vec<char> = Vec::new();
        let mut prev = ' ';
        let mut i: usize = 0;
        while i < n
            invariant
                n == source@.len(),
                i <= n,
                it.remaining() == source@.skip(i as int),
                (Subst { out: output@, keyword: keyword@, prev }) == subst_scan(
                    self@,
                    source@.take(i as int),
                ),
                keyword@.len() == 1 ==> prev == '{',
            decreases n - i,
        {
            let c = it.next().unwrap();
            assert(source@.skip(i + 1) =~= source@.skip(i as int).drop_first());
            assert(source@.take(i + 1).drop_last() =~= source@.take(i as int));
            let ghost st = Subst { out: output@, keyword: keyword@, prev };
            if c == '}' && keyword.len() > 0 && prev == '}' {
                let key = Self::trimmed(&keyword, 1, keyword.len() - 1);
                match self.get(&key) {
                    Some(to) => {
                        output.pop();
                        Self::push(&mut output, to);
                    },
                    None => {
                        let mut k: usize = 0;
                        while k < keyword.len()
                            invariant
                                k <= keyword@.len(),
                                output@ == st.out + keyword@.take(k as int),
                            decreases keyword.len() - k,
                        {
                            output.push(keyword[k]);
                            k = k + 1;
                            assert(output@ =~= st.out + keyword@.take(k as int));
                        }
                        output.push(c);
                        assert(keyword@.take(keyword@.len() as int) =~= keyword@);
                        assert(output@ =~= st.out + keyword@.push(c));
                    },
                }
                keyword = Vec::new();
            } else if keyword.len() > 0 || (c == '{' && prev == '{') {
                keyword.push(c);
            } else {
                output.push(c);
            }
            prev = c;
            i = i + 1;
            assert((Subst { out: output@, keyword: keyword@, prev }) == subst_step(self@, st, c));
        }
        assert(source@.take(n as int) =~= source@);
        string_from_chars(&output)
    }

    /// The replacement of `key`, if the table has one.
    pub fn get(&self, key: &Vec<char>) -> (r: Option<&Vec<char>>)
        ensures
            match r {
                Some(v) => self@.contains_key(key@) && self@[key@] == v@,
                None => !self@.contains_key(key@),
            },
    {
        let mut i = self.entries.len();
        assert(self.pairs().take(i as int) =~= self.pairs());
        while i > 0
            invariant
                i <= self.entries@.len(),
                lookup(self.pairs(), key@) == lookup(self.pairs().take(i as int), key@),
            decreases i,
        {
            assert(self.pairs().take(i as int).drop_last() =~= self.pairs().take(i - 1));
            if chars_eq(&self.entries[i - 1].0, key) {
                return Some(&self.entries[i - 1].1);
            }
            i = i - 1;
        }
        None
    }

    /// Appends `to` to `source`, its first character made upper case where
    /// the last word of `source` holds an ASCII upper case letter.
    pub fn push(source: &mut Vec<char>, to: &Vec<char>)
        ensures
            final(source)@ == pasted(old(source)@, to@),
    {
        let ghost base = source@;
        let mut upper = false;
        let mut stop = false;
        let mut i = source.len();
        while i > 0 && !stop
            invariant
                i <= base.len(),
                source@ == base,
                stop ==> i > 0 && !is_word_char(base[i - 1]),
                forall|j: int| i <= j < base.len() ==> is_word_char(#[trigger] base[j]),
                upper == exists|j: int| i <= j < base.len() && is_ascii_upper(base[j]),
            decreases i + (if stop {
                0int
            } else {
                1int
            }),
        {
            let c = source[i - 1];
            if !is_word_char_exec(c) {
                stop = true;
            } else {
                if 'A' <= c && c <= 'Z' {
                    upper = true;
                }
                i = i - 1;
            }
        }
        assert(upper == last_word_has_upper(base)) by {
            if last_word_has_upper(base) {
                let w = choose|w: int|
                    0 <= w < base.len() && is_ascii_upper(base[w]) && forall|j: int|
                        w <= j < base.len() ==> !is_ascii_space(#[trigger] base[j])
                            && !is_ascii_punct(base[j]);
                if w < i {
                    assert(is_word_char(base[i - 1]));
                }
            }
            if upper {
                let w = choose|w: int| i <= w < base.len() && is_ascii_upper(base[w]);
                assert(forall|j: int| w <= j < base.len() ==> is_word_char(#[trigger] base[j]));
            }
        }
        let mut k: usize = 0;
        if upper && to.len() > 0 {
            source.push(ascii_upper_char(to[0]));
            k = 1;
        }
        let ghost pre = source@;
        let ghost k0 = k as int;
        assert(pasted(base, to@) == pre + to@.subrange(k0, to@.len() as int)) by {
            if k0 == 1 {
                assert(to@.drop_first() =~= to@.subrange(1, to@.len() as int));
            } else {
                assert(to@ =~= to@.subrange(0, to@.len() as int));
            }
        }
        assert(pre + to@.subrange(k0, k0) =~= pre);
        while k < to.len()
            invariant
                0 <= k0 <= k <= to@.len(),
                source@ == pre + to@.subrange(k0, k as int),
            decreases to.len() - k,
        {
            source.push(to[k]);
            k = k + 1;
            assert(source@ =~= pre + to@.subrange(k0, k as int));
        }
    }

    /// Removes leading and trailing whitespace from `v[lo..hi]`.
    fn trimmed(v: &Vec<char>, lo: usize, hi: usize) -> (r: Vec<char>)
        requires
            lo <= hi <= v@.len(),
        ensures
            r@ == trim(v@.subrange(lo as int, hi as int)),
    {
        let mut a = lo;
        while a < hi && is_white_space_char(v[a])
            invariant
                lo <= a <= hi <= v@.len(),
                trim_start(v@.subrange(lo as int, hi as int)) == trim_start(
                    v@.subrange(a as int, hi as int),
                ),
            decreases hi - a,
        {
            assert(v@.subrange(a + 1, hi as int) =~= v@.subrange(a as int, hi as int).drop_first());
            a = a + 1;
        }
        let mut b = hi;
        while b > a && is_white_space_char(v[b - 1])
            invariant
                a <= b <= hi <= v@.len(),
                trim_end(v@.subrange(a as int, hi as int)) == trim_end(v@.subrange(a as int, b as int)),
            decreases b - a,
        {
            assert(v@.subrange(a as int, b - 1) =~= v@.subrange(a as int, b as int).drop_last());
            b = b - 1;
        }
        let mut r: Vec<char> = Vec::new();
        let mut k = a;
        while k < b
            invariant
                a <= k <= b <= v@.len(),
                r@ == v@.subrange(a as int, k as int),
            decreases b - k,
        {
            r.push(v[k]);
            k = k + 1;
            assert(r@ =~= v@.subrange(a as int, k as int));
        }
        r
    }
}

} // verus!

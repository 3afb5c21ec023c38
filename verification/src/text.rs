//! Text on the level of characters: trimming, prefixes and suffixes, searching, small
//! letters and joining.

use vstd::prelude::*;

verus! {

/// Appends one character.
///
/// Trusted: `std::string::String::push` puts the character behind the ones
/// already there and changes nothing else.
pub assume_specification[ String::push ](s: &mut String, c: char)
    ensures
        final(s)@ == old(s)@.push(c),
;

/// The characters of a string.
pub fn to_chars(s: &str) -> (r: Vec<char>)
    ensures
        r@ == s@,
{
    let mut r: Vec<char> = Vec::new();
    for c in it: s.chars()
        invariant
            r@ == s@.take(it.index()),
            it.seq() == s@,
    {
        r.push(c);
        assert(s@.take(it.index() + 1) == s@.take(it.index()).push(c));
    }
    assert(s@.take(s@.len() as int) == s@);
    r
}

/// The string made of the given characters.
pub fn from_chars(v: &Vec<char>) -> (r: String)
    ensures
        r@ == v@,
{
    let mut r = String::new();
    for i in 0..v.len()
        invariant
            r@ == v@.take(i as int),
    {
        r.push(v[i]);
        assert(v@.take(i + 1) == v@.take(i as int).push(v@[i as int]));
    }
    assert(v@.take(v@.len() as int) == v@);
    r
}

/// Whether two strings hold the same characters.
pub fn same_text(a: &str, b: &str) -> (r: bool)
    ensures
        r == (a@ == b@),
{
    let x = a.to_owned();
    let y = b.to_owned();
    x == y
}


/// Whether a character has the Unicode property White_Space.
pub open spec fn is_space(c: char) -> bool {
    ||| '\u{9}' <= c <= '\u{d}'
    ||| c == '\u{20}'
    ||| c == '\u{85}'
    ||| c == '\u{a0}'
    ||| c == '\u{1680}'
    ||| '\u{2000}' <= c <= '\u{200a}'
    ||| c == '\u{2028}'
    ||| c == '\u{2029}'
    ||| c == '\u{202f}'
    ||| c == '\u{205f}'
    ||| c == '\u{3000}'
}

fn space(c: char) -> (r: bool)
    ensures
        r == is_space(c),
{
    ('\u{9}' <= c && c <= '\u{d}') || c == '\u{20}' || c == '\u{85}' || c == '\u{a0}' || c
        == '\u{1680}' || ('\u{2000}' <= c && c <= '\u{200a}') || c == '\u{2028}' || c == '\u{2029}'
        || c == '\u{202f}' || c == '\u{205f}' || c == '\u{3000}'
}

/// The text without the white space it starts with.
pub open spec fn trim_start(s: Seq<char>) -> Seq<char>
    decreases s.len(),
{
    if s.len() > 0 && is_space(s[0]) {
        trim_start(s.drop_first())
    } else {
        s
    }
}

/// The text without the white space it ends with.
pub open spec fn trim_end(s: Seq<char>) -> Seq<char>
    decreases s.len(),
{
    if s.len() > 0 && is_space(s.last()) {
        trim_end(s.drop_last())
    } else {
        s
    }
}

/// The text without white space around it.
pub open spec fn trim(s: Seq<char>) -> Seq<char> {
    trim_end(trim_start(s))
}

/// A copy of the characters `from..to`.
pub fn part(v: &Vec<char>, from: usize, to: usize) -> (r: Vec<char>)
    requires
        from <= to <= v@.len(),
    ensures
        r@ == v@.subrange(from as int, to as int),
{
    let mut r: Vec<char> = Vec::new();
    for i in from..to
        invariant
            from <= to <= v@.len(),
            r@ == v@.subrange(from as int, i as int),
    {
        r.push(v[i]);
        assert(v@.subrange(from as int, i + 1) == v@.subrange(from as int, i as int).push(
            v@[i as int],
        ));
    }
    r
}

/// Takes away the white space around a text.
pub fn trimmed(v: &Vec<char>) -> (r: Vec<char>)
    ensures
        r@ == trim(v@),
{
    let mut lo: usize = 0;
    assert(v@.skip(0) == v@);
    while lo < v.len() && space(v[lo])
        invariant
            lo <= v@.len(),
            trim_start(v@) == trim_start(v@.skip(lo as int)),
        decreases v@.len() - lo,
    {
        assert(v@.skip(lo as int).drop_first() == v@.skip(lo + 1));
        lo = lo + 1;
    }
    let mut hi: usize = v.len();
    let ghost t = v@.skip(lo as int);
    assert(t == v@.subrange(lo as int, hi as int));
    while hi > lo && space(v[hi - 1])
        invariant
            lo <= hi <= v@.len(),
            trim_end(t) == trim_end(v@.subrange(lo as int, hi as int)),
        decreases hi,
    {
        assert(v@.subrange(lo as int, hi as int).drop_last() == v@.subrange(lo as int, hi - 1));
        hi = hi - 1;
    }
    part(v, lo, hi)
}

/// The text with every `suffix` cut off its end, as often as it stands there.
pub open spec fn strip_suffixes(s: Seq<char>, suffix: Seq<char>) -> Seq<char>
    decreases s.len(),
{
    if 0 < suffix.len() <= s.len() && s.skip(s.len() - suffix.len()) == suffix {
        strip_suffixes(s.take(s.len() - suffix.len()), suffix)
    } else {
        s
    }
}

/// Whether the characters `from..from + w.len()` of `v` are those of `w`.
fn stands_at(v: &Vec<char>, from: usize, w: &Vec<char>) -> (r: bool)
    requires
        from + w@.len() <= v@.len(),
    ensures
        r == (v@.subrange(from as int, from + w@.len()) == w@),
{
    let n = v.len();
    for i in 0..w.len()
        invariant
            n == v@.len(),
            from + w@.len() <= n,
            forall|j: int| 0 <= j < i ==> v@[from + j] == w@[j],
    {
        if v[from + i] != w[i] {
            assert(v@.subrange(from as int, from + w@.len())[i as int] != w@[i as int]);
            return false;
        }
    }
    assert(v@.subrange(from as int, from + w@.len()) =~= w@);
    true
}

/// Cuts `suffix` off the end of a text as often as it stands there.
pub fn without_suffixes(v: &Vec<char>, suffix: &str) -> (r: Vec<char>)
    ensures
        r@ == strip_suffixes(v@, suffix@),
{
    let w = to_chars(suffix);
    let mut hi: usize = v.len();
    assert(v@.take(hi as int) == v@);
    while w.len() > 0 && w.len() <= hi && stands_at(v, hi - w.len(), &w)
        invariant
            hi <= v@.len(),
            w@ == suffix@,
            strip_suffixes(v@, suffix@) == strip_suffixes(v@.take(hi as int), suffix@),
        decreases hi,
    {
        let ghost t = v@.take(hi as int);
        assert(t.skip(t.len() - w@.len()) == v@.subrange(hi - w@.len(), hi as int));
        assert(t.take(t.len() - w@.len()) == v@.take(hi - w@.len()));
        hi = hi - w.len();
    }
    proof {
        let t = v@.take(hi as int);
        if 0 < w@.len() <= hi {
            assert(t.skip(t.len() - w@.len()) == v@.subrange(hi - w@.len(), hi as int));
        }
    }
    part(v, 0, hi)
}

/// Whether a text starts with another.
pub open spec fn starts_with(s: Seq<char>, prefix: Seq<char>) -> bool {
    prefix.len() <= s.len() && s.take(prefix.len() as int) == prefix
}

/// Whether a text starts with another.
pub fn has_prefix(v: &Vec<char>, prefix: &str) -> (r: bool)
    ensures
        r == starts_with(v@, prefix@),
{
    let w = to_chars(prefix);
    if w.len() <= v.len() {
        assert(v@.subrange(0, w@.len() as int) == v@.take(w@.len() as int));
        stands_at(v, 0, &w)
    } else {
        false
    }
}

/// Where the first `c` stands in a text.
pub open spec fn first_at(s: Seq<char>, c: char) -> Option<int>
    decreases s.len(),
{
    if s.len() == 0 {
        None
    } else if s[0] == c {
        Some(0int)
    } else {
        match first_at(s.drop_first(), c) {
            Some(i) => Some(i + 1),
            None => None,
        }
    }
}

/// What `first_at` finds: the place of a `c` with none before it.
pub proof fn lemma_first_at(s: Seq<char>, c: char)
    ensures
        match first_at(s, c) {
            Some(i) => 0 <= i < s.len() && s[i] == c && forall|j: int| 0 <= j < i ==> s[j] != c,
            None => forall|j: int| 0 <= j < s.len() ==> s[j] != c,
        },
    decreases s.len(),
{
    if s.len() > 0 && s[0] != c {
        lemma_first_at(s.drop_first(), c);
        assert forall|j: int| 0 < j < s.len() implies s[j] == s.drop_first()[j - 1] by {}
    }
}

/// The first place of `c` is the one place that has none before it.
pub proof fn lemma_first_at_is(s: Seq<char>, c: char, i: int)
    requires
        0 <= i < s.len(),
        s[i] == c,
        forall|j: int| 0 <= j < i ==> s[j] != c,
    ensures
        first_at(s, c) == Some(i),
{
    lemma_first_at(s, c);
}

/// Finds the first `c` in a text.
pub fn find_char(v: &Vec<char>, c: char) -> (r: Option<usize>)
    ensures
        match r {
            Some(i) => first_at(v@, c) == Some(i as int) && i < v@.len(),
            None => first_at(v@, c) is None,
        },
{
    for i in 0..v.len()
        invariant
            forall|j: int| 0 <= j < i ==> v@[j] != c,
    {
        if v[i] == c {
            proof {
                lemma_first_at_is(v@, c, i as int);
            }
            return Some(i);
        }
    }
    proof {
        lemma_first_at(v@, c);
    }
    None
}

/// A character with the ASCII letters `A` to `Z` made small.
pub open spec fn lower_char(c: char) -> char {
    if 'A' <= c <= 'Z' {
        (c as u8 + 32) as char
    } else {
        c
    }
}

/// A text with the ASCII letters made small.
pub open spec fn lower(s: Seq<char>) -> Seq<char> {
    s.map_values(|c: char| lower_char(c))
}

/// Makes the ASCII letters of a text small.
pub fn lowered(v: &Vec<char>) -> (r: Vec<char>)
    ensures
        r@ == lower(v@),
{
    let mut r: Vec<char> = Vec::new();
    for i in 0..v.len()
        invariant
            r@ == lower(v@.take(i as int)),
    {
        let c = v[i];
        if 'A' <= c && c <= 'Z' {
            r.push((c as u8 + 32) as char);
        } else {
            r.push(c);
        }
        assert(v@.take(i + 1) == v@.take(i as int).push(c));
        assert(lower(v@.take(i + 1)) == lower(v@.take(i as int)).push(lower_char(c)));
    }
    assert(v@.take(v@.len() as int) == v@);
    r
}

/// The texts one behind the other, with `sep` between them.
pub open spec fn join(parts: Seq<Seq<char>>, sep: Seq<char>) -> Seq<char>
    decreases parts.len(),
{
    if parts.len() == 0 {
        Seq::empty()
    } else if parts.len() == 1 {
        parts[0]
    } else {
        join(parts.drop_last(), sep) + sep + parts.last()
    }
}

/// What a list of strings says.
pub open spec fn texts(v: Seq<String>) -> Seq<Seq<char>> {
    v.map_values(|s: String| s@)
}

/// Joins strings with a separator.
pub fn joined(parts: &Vec<String>, sep: &str) -> (r: String)
    ensures
        r@ == join(texts(parts@), sep@),
{
    let mut r = String::new();
    let ghost all = texts(parts@);
    for i in 0..parts.len()
        invariant
            all == texts(parts@),
            r@ == join(all.take(i as int), sep@),
    {
        if i > 0 {
            r.append(sep);
        }
        r.append(parts[i].as_str());
        assert(all.take(i + 1).drop_last() == all.take(i as int));
        assert(all.take(i + 1).last() == parts@[i as int]@);
        assert(r@ == join(all.take(i + 1), sep@));
    }
    assert(all.take(parts@.len() as int) == all);
    r
}

/// Trimming takes white space from both ends, all of it, and nothing else.
pub proof fn law_trimming_takes_white_space_only(s: Seq<char>)
    ensures
        trim(s).len() > 0 ==> !is_space(trim(s)[0]) && !is_space(trim(s).last()),
        exists|i: int, j: int|
            0 <= i <= j <= s.len() && trim(s) == #[trigger] s.subrange(i, j) && (forall|k: int|
                0 <= k < i ==> is_space(#[trigger] s[k])) && (forall|k: int|
                j <= k < s.len() ==> is_space(#[trigger] s[k])),
{
    let i = lemma_trim_start(s);
    let t = trim_start(s);
    let j = lemma_trim_end(t);
    assert(trim(s) =~= s.subrange(i, i + j));
    assert forall|k: int| i + j <= k < s.len() implies is_space(#[trigger] s[k]) by {
        assert(t[k - i] == s[k]);
    }
    if trim(s).len() > 0 {
        assert(trim(s)[0] == t[0]);
    }
}

proof fn lemma_trim_start(s: Seq<char>) -> (i: int)
    ensures
        0 <= i <= s.len(),
        trim_start(s) == s.skip(i),
        forall|k: int| 0 <= k < i ==> is_space(#[trigger] s[k]),
        trim_start(s).len() > 0 ==> !is_space(trim_start(s)[0]),
    decreases s.len(),
{
    if s.len() > 0 && is_space(s[0]) {
        let t = s.drop_first();
        let i = lemma_trim_start(t);
        assert(t.skip(i) =~= s.skip(i + 1));
        assert forall|k: int| 0 <= k < i + 1 implies is_space(#[trigger] s[k]) by {
            if k > 0 {
                assert(t[k - 1] == s[k]);
            }
        }
        i + 1
    } else {
        assert(s.skip(0) =~= s);
        0
    }
}

proof fn lemma_trim_end(s: Seq<char>) -> (j: int)
    ensures
        0 <= j <= s.len(),
        trim_end(s) == s.take(j),
        forall|k: int| j <= k < s.len() ==> is_space(#[trigger] s[k]),
        trim_end(s).len() > 0 ==> !is_space(trim_end(s).last()),
    decreases s.len(),
{
    if s.len() > 0 && is_space(s.last()) {
        let t = s.drop_last();
        let j = lemma_trim_end(t);
        assert(t.take(j) =~= s.take(j));
        assert forall|k: int| j <= k < s.len() implies is_space(#[trigger] s[k]) by {
            if k < t.len() {
                assert(t[k] == s[k]);
            }
        }
        j
    } else {
        assert(s.take(s.len() as int) =~= s);
        s.len() as int
    }
}

/// A suffix is cut off as often as it stands at the end.
pub proof fn law_suffixes_are_cut_off(s: Seq<char>, suffix: Seq<char>)
    requires
        suffix.len() > 0,
    ensures
        strip_suffixes(s + suffix, suffix) == strip_suffixes(s, suffix),
        s.len() < suffix.len() || s.skip(s.len() - suffix.len()) != suffix ==> strip_suffixes(
            s,
            suffix,
        ) == s,
{
    let t = s + suffix;
    assert(t.skip(t.len() - suffix.len()) =~= suffix);
    assert(t.take(t.len() - suffix.len()) =~= s);
}

/// Each capital letter becomes its small one, 32 further on, and every other character
/// stays; a text keeps its length.
pub proof fn law_capitals_become_small(s: Seq<char>, i: int)
    requires
        0 <= i < s.len(),
    ensures
        lower(s).len() == s.len(),
        'A' <= s[i] <= 'Z' ==> lower(s)[i] as u32 == s[i] as u32 + 32,
        !('A' <= s[i] <= 'Z') ==> lower(s)[i] == s[i],
{
}

/// Joining puts the separator between two parts, and nowhere else.
pub proof fn law_joining_separates(parts: Seq<Seq<char>>, p: Seq<char>, sep: Seq<char>)
    ensures
        join(Seq::empty(), sep).len() == 0,
        join(seq![p], sep) == p,
        parts.len() > 0 ==> join(parts.push(p), sep) == join(parts, sep) + sep + p,
{
    assert(parts.push(p).drop_last() =~= parts);
}

}

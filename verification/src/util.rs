//! String utilities: character-level equality, whitespace handling,
//! trimming and camel-casing of human-readable names.

use vstd::prelude::*;

verus! {

use vstd::string::StrSliceExecFns;

/// The first character of the Unicode lowercase mapping of `c`, or `c`
/// itself when the mapping is empty. The mapping depends on the character
/// alone.
pub uninterp spec fn lower_char_of(c: char) -> char;

/// The first character of the Unicode uppercase mapping of `c`, or `c`
/// itself when the mapping is empty. The mapping depends on the character
/// alone.
pub uninterp spec fn upper_char_of(c: char) -> char;

/// Relies on char::to_lowercase: yields the lowercase mapping of the
/// character, a function of the character alone.
#[verifier::external_body]
fn lower_char(c: char) -> (r: char)
    ensures
        r == lower_char_of(c),
{
    c.to_lowercase().next().unwrap_or(c)
}

/// Relies on char::to_uppercase: yields the uppercase mapping of the
/// character, a function of the character alone.
#[verifier::external_body]
fn upper_char(c: char) -> (r: char)
    ensures
        r == upper_char_of(c),
{
    c.to_uppercase().next().unwrap_or(c)
}

/// Relies on String::push: appends exactly the one character.
#[verifier::external_body]
pub(crate) fn push_char(s: &mut String, c: char)
    ensures
        final(s)@ == old(s)@.push(c),
{
    s.push(c);
}

/// Character-sequence equality of two string slices.
pub fn str_eq(a: &str, b: &str) -> (r: bool)
    ensures
        r == (a@ == b@),
{
    let an = a.unicode_len();
    let bn = b.unicode_len();
    if an != bn {
        return false;
    }
    let mut i: usize = 0;
    while i < an
        invariant
            an == a@.len(),
            an == b@.len(),
            i <= an,
            forall|j: int| 0 <= j < i ==> a@[j] == b@[j],
        decreases an - i,
    {
        if a.get_char(i) != b.get_char(i) {
            return false;
        }
        i = i + 1;
    }
    proof {
        assert(a@ =~= b@);
    }
    true
}

/// Whether `c` has the Unicode white-space property.
pub open spec fn is_space(c: char) -> bool {
    c == ' ' || c == '\u{9}' || c == '\u{a}' || c == '\u{b}' || c == '\u{c}' || c == '\u{d}'
        || c == '\u{85}' || c == '\u{a0}' || c == '\u{1680}' || ('\u{2000}' <= c && c
        <= '\u{200a}') || c == '\u{2028}' || c == '\u{2029}' || c == '\u{202f}' || c == '\u{205f}'
        || c == '\u{3000}'
}

fn is_space_char(c: char) -> (r: bool)
    ensures
        r == is_space(c),
{
    c == ' ' || c == '\u{9}' || c == '\u{a}' || c == '\u{b}' || c == '\u{c}' || c == '\u{d}'
        || c == '\u{85}' || c == '\u{a0}' || c == '\u{1680}' || ('\u{2000}' <= c && c
        <= '\u{200a}') || c == '\u{2028}' || c == '\u{2029}' || c == '\u{202f}' || c == '\u{205f}'
        || c == '\u{3000}'
}

/// Each character replaced by its lowercase mapping.
pub open spec fn lower_seq(s: Seq<char>) -> Seq<char> {
    s.map_values(|c: char| lower_char_of(c))
}

/// The first character replaced by its uppercase mapping, the rest by
/// their lowercase mappings.
pub open spec fn capital_seq(s: Seq<char>) -> Seq<char> {
    if s.len() == 0 {
        s
    } else {
        seq![upper_char_of(s[0])] + lower_seq(s.drop_first())
    }
}

/// Each character of `s` replaced by its lowercase mapping.
pub fn lowercase(s: &str) -> (r: String)
    ensures
        r@ == lower_seq(s@),
{
    let n = s.unicode_len();
    let mut out = String::new();
    let mut i: usize = 0;
    while i < n
        invariant
            n == s@.len(),
            i <= n,
            out@ == lower_seq(s@.take(i as int)),
        decreases n - i,
    {
        let c = s.get_char(i);
        push_char(&mut out, lower_char(c));
        i = i + 1;
        proof {
            assert(s@.take(i as int) =~= s@.take(i - 1).push(s@[i - 1]));
            assert(out@ =~= lower_seq(s@.take(i as int)));
        }
    }
    proof {
        assert(s@.take(n as int) =~= s@);
    }
    out
}

/// The first character of `s` uppercased, the rest lowercased.
pub fn capital(s: &str) -> (r: String)
    ensures
        r@ == capital_seq(s@),
{
    let n = s.unicode_len();
    let mut out = String::new();
    if n == 0 {
        return out;
    }
    push_char(&mut out, upper_char(s.get_char(0)));
    let mut i: usize = 1;
    while i < n
        invariant
            n == s@.len(),
            1 <= i <= n,
            out@ == seq![upper_char_of(s@[0])] + lower_seq(s@.subrange(1, i as int)),
        decreases n - i,
    {
        let c = s.get_char(i);
        push_char(&mut out, lower_char(c));
        i = i + 1;
        proof {
            assert(s@.subrange(1, i as int) =~= s@.subrange(1, i - 1).push(s@[i - 1]));
            assert(lower_seq(s@.subrange(1, i as int)) =~= lower_seq(
                s@.subrange(1, i - 1),
            ).push(lower_char_of(s@[i - 1])));
        }
    }
    proof {
        assert(s@.subrange(1, n as int) =~= s@.drop_first());
        assert(out@ =~= capital_seq(s@));
    }
    out
}

/// Whether some character of `s` is not white space.
pub open spec fn has_word(s: Seq<char>) -> bool {
    exists|i: int| 0 <= i < s.len() && !is_space(s[i])
}

/// The camel-cased form of `s`, one character at a time: white space is
/// dropped, the first word is lowercased, and every later word starts with
/// an uppercased character followed by lowercased ones. `started` records
/// whether a word has been seen, `in_word` whether the previous character
/// belonged to a word.
pub open spec fn camel_go(s: Seq<char>, started: bool, in_word: bool) -> Seq<char>
    decreases s.len(),
{
    if s.len() == 0 {
        Seq::empty()
    } else {
        let c = s[0];
        let rest = s.drop_first();
        if is_space(c) {
            camel_go(rest, started, false)
        } else if in_word {
            seq![lower_char_of(c)] + camel_go(rest, started, true)
        } else if started {
            seq![upper_char_of(c)] + camel_go(rest, true, true)
        } else {
            seq![lower_char_of(c)] + camel_go(rest, true, true)
        }
    }
}

/// The camel-cased form of `s`; a string with no word is kept as it is.
pub open spec fn camel_of(s: Seq<char>) -> Seq<char> {
    if has_word(s) {
        camel_go(s, false, false)
    } else {
        s
    }
}

/// Camel-cases a human-readable name: words are joined, the first one
/// lowercased and the rest capitalized. A string without words is returned
/// unchanged.
pub fn to_camel_case(s: &str) -> (r: String)
    ensures
        r@ == camel_of(s@),
{
    let n = s.unicode_len();
    let mut found = false;
    let mut k: usize = 0;
    while k < n
        invariant
            n == s@.len(),
            k <= n,
            found == exists|j: int| 0 <= j < k && !is_space(s@[j]),
        decreases n - k,
    {
        if !is_space_char(s.get_char(k)) {
            found = true;
            k = n;
        } else {
            k = k + 1;
        }
    }
    if !found {
        return s.to_owned();
    }
    let mut out = String::new();
    let mut started = false;
    let mut in_word = false;
    let mut i: usize = 0;
    proof {
        assert(s@.skip(0) =~= s@);
    }
    while i < n
        invariant
            n == s@.len(),
            i <= n,
            camel_go(s@, false, false) == out@ + camel_go(s@.skip(i as int), started, in_word),
        decreases n - i,
    {
        let c = s.get_char(i);
        proof {
            assert(s@.skip(i as int)[0] == s@[i as int]);
            assert(s@.skip(i as int).drop_first() =~= s@.skip(i + 1));
        }
        if is_space_char(c) {
            in_word = false;
        } else if in_word {
            push_char(&mut out, lower_char(c));
        } else if started {
            push_char(&mut out, upper_char(c));
            in_word = true;
        } else {
            push_char(&mut out, lower_char(c));
            started = true;
            in_word = true;
        }
        i = i + 1;
    }
    proof {
        assert(s@.skip(n as int) =~= Seq::<char>::empty());
        assert(out@ =~= camel_of(s@));
    }
    out
}

/// The decimal digit `d` as a character.
pub open spec fn digit_char(d: int) -> char {
    if d == 0 {
        '0'
    } else if d == 1 {
        '1'
    } else if d == 2 {
        '2'
    } else if d == 3 {
        '3'
    } else if d == 4 {
        '4'
    } else if d == 5 {
        '5'
    } else if d == 6 {
        '6'
    } else if d == 7 {
        '7'
    } else if d == 8 {
        '8'
    } else {
        '9'
    }
}

/// The decimal digits of `n`, most significant first.
pub open spec fn dec_digits(n: int) -> Seq<char>
    decreases n,
    when n >= 0
{
    if n < 10 {
        seq![digit_char(n)]
    } else {
        dec_digits(n / 10).push(digit_char(n % 10))
    }
}

fn digit(d: u64) -> (c: char)
    requires
        d < 10,
    ensures
        c == digit_char(d as int),
{
    if d == 0 {
        '0'
    } else if d == 1 {
        '1'
    } else if d == 2 {
        '2'
    } else if d == 3 {
        '3'
    } else if d == 4 {
        '4'
    } else if d == 5 {
        '5'
    } else if d == 6 {
        '6'
    } else if d == 7 {
        '7'
    } else if d == 8 {
        '8'
    } else {
        '9'
    }
}

/// Renders `n` in decimal.
pub fn u64_string(n: u64) -> (r: String)
    ensures
        r@ == dec_digits(n as int),
    decreases n,
{
    if n < 10 {
        let mut s = String::new();
        push_char(&mut s, digit(n));
        proof {
            assert(s@ =~= dec_digits(n as int));
        }
        s
    } else {
        let mut s = u64_string(n / 10);
        push_char(&mut s, digit(n % 10));
        s
    }
}

/// `s` with white space removed from the front.
pub open spec fn trim_front(s: Seq<char>) -> Seq<char>
    decreases s.len(),
{
    if s.len() > 0 && is_space(s[0]) {
        trim_front(s.drop_first())
    } else {
        s
    }
}

/// `s` with white space removed from the back.
pub open spec fn trim_back(s: Seq<char>) -> Seq<char>
    decreases s.len(),
{
    if s.len() > 0 && is_space(s.last()) {
        trim_back(s.drop_last())
    } else {
        s
    }
}

/// `s` with white space removed from both ends.
pub open spec fn trim_of(s: Seq<char>) -> Seq<char> {
    trim_back(trim_front(s))
}

/// Trims white space from both ends of the string.
pub fn trim_in_place(s: String) -> (r: String)
    ensures
        r@ == trim_of(s@),
{
    let n = s.as_str().unicode_len();
    let mut start: usize = 0;
    proof {
        assert(s@.skip(0) =~= s@);
    }
    while start < n && is_space_char(s.as_str().get_char(start))
        invariant
            n == s@.len(),
            start <= n,
            trim_front(s@) == trim_front(s@.skip(start as int)),
            forall|j: int| 0 <= j < start ==> is_space(s@[j]),
        decreases n - start,
    {
        proof {
            assert(s@.skip(start as int)[0] == s@[start as int]);
            assert(s@.skip(start as int).drop_first() =~= s@.skip(start + 1));
        }
        start = start + 1;
    }
    proof {
        if start < n {
            assert(s@.skip(start as int)[0] == s@[start as int]);
        }
        assert(trim_front(s@) =~= s@.skip(start as int));
    }
    let mut end: usize = n;
    proof {
        assert(s@.skip(start as int).take(n - start) =~= s@.skip(start as int));
    }
    while end > start && is_space_char(s.as_str().get_char(end - 1))
        invariant
            n == s@.len(),
            start <= end <= n,
            trim_front(s@) == s@.skip(start as int),
            trim_back(s@.skip(start as int)) == trim_back(
                s@.skip(start as int).take(end - start),
            ),
        decreases end,
    {
        proof {
            let cur = s@.skip(start as int).take(end - start);
            assert(cur.last() == s@[end - 1]);
            assert(cur.drop_last() =~= s@.skip(start as int).take(end - 1 - start));
        }
        end = end - 1;
    }
    proof {
        let cur = s@.skip(start as int).take(end - start);
        if end > start {
            assert(cur.last() == s@[end - 1]);
        }
        assert(trim_of(s@) =~= cur);
        assert(cur =~= s@.subrange(start as int, end as int));
    }
    s.as_str().substring_char(start, end).to_owned()
}

} // verus!

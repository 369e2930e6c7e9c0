//! What the notions that the library has of texts come to, character by character.

use crate::config::{covered, glob};
use crate::text::{
    begins, decimal, fit_prefix, fit_suffix, lemma_fit_bounds, lemma_split_on_join,
    lemma_utf8_concat, lines, lower, occurs, split_on, stands_at, strip_end, swap_char, trim,
    trim_end, trim_start, utf8_len, white, without_cr,
};
use vstd::prelude::*;

verus! {

/// Whether the characters of a word stand in a text, one behind the other, from some place on.
pub open spec fn holds_word(s: Seq<char>, word: Seq<char>) -> bool {
    exists|i: int| #[trigger] word_from(s, word, i)
}

/// Whether the characters of a word stand in a text from a place on.
pub open spec fn word_from(s: Seq<char>, word: Seq<char>, i: int) -> bool {
    0 <= i && i + word.len() <= s.len() && forall|k: int|
        0 <= k < word.len() ==> s[i + k] == #[trigger] word[k]
}

/// Whether two characters are the same but for the case of a letter of ASCII.
pub open spec fn same_letter(c: char, d: char) -> bool {
    ||| c == d
    ||| 'A' <= c <= 'Z' && d == (c as u32 + 32) as char
    ||| 'A' <= d <= 'Z' && c == (d as u32 + 32) as char
}

/// Whether a word in small letters stands in a text in any case of letters.
pub open spec fn holds_word_in_any_case(s: Seq<char>, word: Seq<char>) -> bool {
    exists|i: int| #[trigger] letters_from(s, word, i)
}

/// Whether the letters of a word stand in a text from a place on, in any case.
pub open spec fn letters_from(s: Seq<char>, word: Seq<char>, i: int) -> bool {
    0 <= i && i + word.len() <= s.len() && forall|k: int|
        0 <= k < word.len() ==> same_letter(s[i + k], #[trigger] word[k])
}

/// Whether a text has no capital letter of ASCII.
pub open spec fn small(s: Seq<char>) -> bool {
    forall|k: int| 0 <= k < s.len() ==> !('A' <= #[trigger] s[k] <= 'Z')
}

/// A part stands at a place exactly where each of its characters does.
pub proof fn law_stands_at(s: Seq<char>, word: Seq<char>, i: int)
    ensures
        stands_at(s, word, i) == word_from(s, word, i),
{
    if 0 <= i && i + word.len() <= s.len() {
        let part = s.subrange(i, i + word.len());
        if part == word {
            assert forall|k: int| 0 <= k < word.len() implies s[i + k] == #[trigger] word[k] by {
                assert(part[k] == s[i + k]);
            }
        }
        if word_from(s, word, i) {
            assert forall|k: int| 0 <= k < word.len() implies #[trigger] part[k] == word[k] by {}
            assert(part =~= word);
        }
    }
}

/// A part occurs in a text exactly where its characters stand there one behind the other, at
/// whatever place.
pub proof fn law_occurs(s: Seq<char>, word: Seq<char>)
    ensures
        occurs(s, word) <==> holds_word(s, word),
{
    if occurs(s, word) {
        let i = choose|i: int| stands_at(s, word, i);
        law_stands_at(s, word, i);
        assert(word_from(s, word, i));
    }
    if holds_word(s, word) {
        let i = choose|i: int| #[trigger] word_from(s, word, i);
        law_stands_at(s, word, i);
        assert(stands_at(s, word, i));
    }
}

/// A text begins with a part exactly where all characters of the part come first in it.
pub proof fn law_begins(s: Seq<char>, word: Seq<char>)
    ensures
        begins(s, word) <==> word.len() <= s.len() && forall|k: int|
            0 <= k < word.len() ==> s[k] == #[trigger] word[k],
{
    law_stands_at(s, word, 0);
    if begins(s, word) {
        assert forall|k: int| 0 <= k < word.len() implies s[k] == #[trigger] word[k] by {
            assert(s[0 + k] == word[k]);
        }
    }
}

/// The small letters of a text are its characters one for one: a capital letter of ASCII becomes
/// the small one, and every other character stays.
pub proof fn law_lower(s: Seq<char>)
    ensures
        lower(s).len() == s.len(),
        small(lower(s)),
        forall|i: int|
            #![trigger lower(s)[i]]
            0 <= i < s.len() ==> same_letter(s[i], lower(s)[i]) && (!('A' <= s[i] <= 'Z')
                ==> lower(s)[i] == s[i]),
        small(s) ==> lower(s) == s,
{
    assert forall|i: int| 0 <= i < s.len() implies !('A' <= #[trigger] lower(s)[i] <= 'Z') by {
        let c = s[i];
        if 'A' <= c <= 'Z' {
            let d = (c as u32 + 32) as char;
            assert(d == (c as u32 + 32) as char);
        }
    }
    if small(s) {
        assert(lower(s) =~= s);
    }
}

/// A word in small letters occurs in the small letters of a text exactly where it stands in the
/// text in any case of letters.
pub proof fn law_occurs_in_any_case(s: Seq<char>, word: Seq<char>)
    requires
        small(word),
    ensures
        occurs(lower(s), word) <==> holds_word_in_any_case(s, word),
{
    law_lower(s);
    law_occurs(lower(s), word);
    let l = lower(s);
    if holds_word(l, word) {
        let i = choose|i: int| #[trigger] word_from(l, word, i);
        assert forall|k: int| 0 <= k < word.len() implies same_letter(s[i + k], #[trigger] word[k]) by {
            assert(l[i + k] == word[k]);
        }
        assert(letters_from(s, word, i));
    }
    if holds_word_in_any_case(s, word) {
        let i = choose|i: int| #[trigger] letters_from(s, word, i);
        assert forall|k: int| 0 <= k < word.len() implies l[i + k] == #[trigger] word[k] by {
            assert(same_letter(s[i + k], word[k]));
            assert(same_letter(s[i + k], l[i + k]));
            assert(!('A' <= word[k] <= 'Z'));
            assert(!('A' <= l[i + k] <= 'Z'));
        }
        assert(word_from(l, word, i));
    }
}

/// What is white: the tab, the line feed and what lies between it and the carriage return, the
/// space, and the spaces of Unicode beyond ASCII. No letter, digit or mark of ASCII is.
pub proof fn law_white(c: char)
    ensures
        white(' ') && white('\t') && white('\n') && white('\r') && white('\x0b') && white('\x0c'),
        white('\u{85}') && white('\u{a0}') && white('\u{1680}') && white('\u{2028}') && white(
            '\u{2029}',
        ) && white('\u{202f}') && white('\u{205f}') && white('\u{3000}'),
        '\u{2000}' <= c <= '\u{200a}' ==> white(c),
        '!' <= c <= '~' ==> !white(c),
        '\0' <= c <= '\x08' || '\x0e' <= c <= '\x1f' || c == '\x7f' ==> !white(c),
        '\u{a1}' <= c < '\u{1680}' || '\u{1680}' < c < '\u{2000}' || '\u{200a}' < c < '\u{2028}'
            || '\u{3000}' < c ==> !white(c),
{
}

/// Trimming takes the white characters at both ends away, all of them and nothing else.
pub proof fn law_trim(s: Seq<char>)
    ensures
        exists|i: int, j: int| #[trigger]
            trims_to(s, i, j) && trim(s) == s.subrange(i, j),
{
    let i = lemma_trim_start(s);
    let rest = trim_start(s);
    let j = lemma_trim_end(rest);
    assert(rest == s.skip(i));
    assert(s.subrange(i, i + j) =~= rest.take(j));
    assert forall|k: int| i + j <= k < s.len() implies white(#[trigger] s[k]) by {
        assert(s[k] == rest[k - i]);
    }
    if j > 0 {
        assert(s[i] == rest[0]);
        assert(s[i + j - 1] == rest[j - 1]);
    }
    assert(trims_to(s, i, i + j));
}

/// Whether the part of a text from `i` to `j` is what stays when white characters at the ends go.
pub open spec fn trims_to(s: Seq<char>, i: int, j: int) -> bool {
    &&& 0 <= i <= j <= s.len()
    &&& forall|k: int| 0 <= k < i ==> white(#[trigger] s[k])
    &&& forall|k: int| j <= k < s.len() ==> white(#[trigger] s[k])
    &&& i < j ==> !white(s[i]) && !white(s[j - 1])
}

proof fn lemma_trim_start(s: Seq<char>) -> (i: int)
    ensures
        0 <= i <= s.len(),
        trim_start(s) == s.skip(i),
        forall|k: int| 0 <= k < i ==> white(#[trigger] s[k]),
        i < s.len() ==> !white(s[i]),
    decreases s.len(),
{
    if s.len() > 0 && white(s[0]) {
        let rest = s.drop_first();
        let i = lemma_trim_start(rest);
        assert(rest.skip(i) =~= s.skip(i + 1));
        assert forall|k: int| 0 <= k < i + 1 implies white(#[trigger] s[k]) by {
            if k > 0 {
                assert(s[k] == rest[k - 1]);
            }
        }
        if i < rest.len() {
            assert(s[i + 1] == rest[i]);
        }
        i + 1
    } else {
        assert(s.skip(0) =~= s);
        0
    }
}

proof fn lemma_trim_end(s: Seq<char>) -> (j: int)
    ensures
        0 <= j <= s.len(),
        trim_end(s) == s.take(j),
        forall|k: int| j <= k < s.len() ==> white(#[trigger] s[k]),
        j > 0 ==> !white(s[j - 1]),
    decreases s.len(),
{
    if s.len() > 0 && white(s.last()) {
        let rest = s.drop_last();
        let j = lemma_trim_end(rest);
        assert(rest.take(j) =~= s.take(j));
        assert forall|k: int| j <= k < s.len() implies white(#[trigger] s[k]) by {
            if k < rest.len() {
                assert(s[k] == rest[k]);
            }
        }
        j
    } else {
        assert(s.take(s.len() as int) =~= s);
        s.len() as int
    }
}

/// Stripping a character from the end of a text takes all of it that stands there, and nothing
/// else.
pub proof fn law_strip_end(s: Seq<char>, c: char)
    ensures
        strip_end(s, c).len() <= s.len(),
        strip_end(s, c) == s.take(strip_end(s, c).len() as int),
        forall|k: int| strip_end(s, c).len() <= k < s.len() ==> #[trigger] s[k] == c,
        strip_end(s, c).len() > 0 ==> strip_end(s, c).last() != c,
    decreases s.len(),
{
    if s.len() > 0 && s.last() == c {
        let rest = s.drop_last();
        law_strip_end(rest, c);
        let n = strip_end(s, c).len() as int;
        assert(rest.take(n) =~= s.take(n));
        assert forall|k: int| n <= k < s.len() implies #[trigger] s[k] == c by {
            if k < rest.len() {
                assert(s[k] == rest[k]);
            }
        }
    } else {
        assert(s.take(s.len() as int) =~= s);
    }
}

/// Replacing a character changes that one wherever it stands, and no other.
pub proof fn law_swap_char(s: Seq<char>, from: char, to: char, i: int)
    requires
        0 <= i < s.len(),
    ensures
        swap_char(s, from, to).len() == s.len(),
        s[i] == from ==> swap_char(s, from, to)[i] == to,
        s[i] != from ==> swap_char(s, from, to)[i] == s[i],
{
}

/// A text without the character is one part; two texts with the character between them have the
/// parts of both.
pub proof fn law_split_on(a: Seq<char>, c: char, b: Seq<char>)
    ensures
        (forall|k: int| 0 <= k < a.len() ==> #[trigger] a[k] != c) ==> split_on(a, c) == seq![a],
        split_on(a.push(c) + b, c) == split_on(a, c) + split_on(b, c),
{
    lemma_split_on_join(a, c, b);
    if forall|k: int| 0 <= k < a.len() ==> #[trigger] a[k] != c {
        lemma_unsplit(a, c);
    }
}

proof fn lemma_unsplit(a: Seq<char>, c: char)
    requires
        forall|k: int| 0 <= k < a.len() ==> #[trigger] a[k] != c,
    ensures
        split_on(a, c) == seq![a],
    decreases a.len(),
{
    if a.len() > 0 {
        let init = a.drop_last();
        assert forall|k: int| 0 <= k < init.len() implies #[trigger] init[k] != c by {
            assert(init[k] == a[k]);
        }
        lemma_unsplit(init, c);
        assert(a[a.len() - 1] != c);
        assert(init.push(a.last()) =~= a);
        assert(split_on(a, c) =~= seq![a]);
    } else {
        assert(a =~= Seq::<char>::empty());
        assert(split_on(a, c) =~= seq![a]);
    }
}

/// A text without a line feed is one line, unless it is empty.
pub proof fn law_one_line(a: Seq<char>)
    requires
        forall|k: int| 0 <= k < a.len() ==> #[trigger] a[k] != '\n',
    ensures
        lines(a) == if a.len() == 0 {
            Seq::<Seq<char>>::empty()
        } else {
            seq![a]
        },
{
    lemma_unsplit(a, '\n');
    if a.len() == 0 {
        assert(lines(a) =~= Seq::<Seq<char>>::empty());
    } else {
        assert(lines(a) =~= seq![a]);
    }
}

/// The lines of a text go on behind a line feed: what stands before it without a line feed is the
/// first line, less a carriage return at its end, and the lines of what stands behind it follow.
pub proof fn law_lines(a: Seq<char>, b: Seq<char>)
    requires
        forall|k: int| 0 <= k < a.len() ==> #[trigger] a[k] != '\n',
    ensures
        lines(a.push('\n') + b) == seq![
            if a.len() > 0 && a.last() == '\r' {
                a.drop_last()
            } else {
                a
            },
        ] + lines(b),
{
    lemma_unsplit(a, '\n');
    lemma_split_on_join(a, '\n', b);
    let parts = split_on(b, '\n');
    let all = split_on(a.push('\n') + b, '\n');
    assert(all =~= seq![a] + parts);
    assert(all.last() == parts.last());
    assert(lines(a.push('\n') + b) =~= seq![without_cr(a)] + lines(b));
}

/// The longest beginning and the longest end of a text that fit a number of bytes fit it, and one
/// character more would not.
pub proof fn law_fit(s: Seq<char>, limit: int)
    requires
        0 <= limit,
    ensures
        ({
            let h = fit_prefix(s, limit);
            let e = fit_suffix(s, limit);
            &&& 0 <= h <= s.len() && utf8_len(s.take(h)) <= limit
            &&& h < s.len() ==> utf8_len(s.take(h + 1)) > limit
            &&& 0 <= e <= s.len() && utf8_len(s.skip(s.len() - e)) <= limit
            &&& e < s.len() ==> utf8_len(s.skip(s.len() - e - 1)) > limit
        }),
    decreases s.len(),
{
    lemma_fit_bounds(s, limit);
    if s.len() > 0 && utf8_len(s) > limit {
        let a = s.drop_last();
        let b = s.drop_first();
        law_fit(a, limit);
        law_fit(b, limit);
        let h = fit_prefix(s, limit);
        let e = fit_suffix(s, limit);
        if h < a.len() {
            assert(a.take(h + 1) =~= s.take(h + 1));
        } else {
            assert(s.take(h + 1) =~= s);
        }
        if e < b.len() {
            assert(b.skip(b.len() - e - 1) =~= s.skip(s.len() - e - 1));
        } else {
            assert(s.skip(s.len() - e - 1) =~= s);
        }
    }
}

/// The number that a row of digits stands for.
pub open spec fn value_of(s: Seq<char>) -> int
    decreases s.len(),
{
    if s.len() == 0 {
        0
    } else {
        10 * value_of(s.drop_last()) + (s.last() as int - '0' as int)
    }
}

/// The digits of a number are digits, stand for the number, and do not begin with a needless zero.
pub proof fn law_decimal(n: nat)
    ensures
        decimal(n).len() > 0,
        forall|i: int| 0 <= i < decimal(n).len() ==> '0' <= #[trigger] decimal(n)[i] <= '9',
        value_of(decimal(n)) == n,
        n > 0 ==> decimal(n)[0] != '0',
    decreases n,
{
    reveal_with_fuel(value_of, 2);
    if n < 10 {
        let c = ('0' as u32 + n) as char;
        assert(c as int == '0' as int + n);
        assert(decimal(n).drop_last() =~= Seq::<char>::empty());
    } else {
        law_decimal(n / 10);
        let c = ('0' as u32 + n % 10) as char;
        assert(c as int == '0' as int + n % 10);
        assert(decimal(n).drop_last() =~= decimal(n / 10));
        assert(decimal(n)[0] == decimal(n / 10)[0]);
    }
}

/// The bytes of a text are those of its parts together; a character of ASCII takes one.
pub proof fn law_utf8_len(a: Seq<char>, b: Seq<char>)
    ensures
        utf8_len(a + b) == utf8_len(a) + utf8_len(b),
{
    lemma_utf8_concat(a, b);
}

/// A pattern without a star covers itself and nothing else.
pub proof fn law_glob_without_star(pattern: Seq<char>, s: Seq<char>)
    requires
        forall|k: int| 0 <= k < pattern.len() ==> #[trigger] pattern[k] != '*',
    ensures
        glob(pattern, s) <==> s == pattern,
    decreases pattern.len(),
{
    if pattern.len() == 0 {
        assert(s.len() == 0 ==> s =~= pattern);
    } else {
        assert(pattern[0] != '*');
        let rest = pattern.drop_first();
        assert forall|k: int| 0 <= k < rest.len() implies #[trigger] rest[k] != '*' by {
            assert(rest[k] == pattern[k + 1]);
        }
        if s.len() > 0 {
            law_glob_without_star(rest, s.drop_first());
            assert(s =~= seq![s[0]] + s.drop_first());
            assert(pattern =~= seq![pattern[0]] + rest);
        }
    }
}

/// A pattern of two with a star between covers what begins with something that the first covers
/// and ends with something that the second covers, whatever stands between.
pub proof fn law_glob_star(a: Seq<char>, b: Seq<char>, s: Seq<char>)
    ensures
        glob(a.push('*') + b, s) <==> exists|i: int, j: int|
            0 <= i <= j <= s.len() && #[trigger] glob(a, s.take(i)) && #[trigger] glob(b, s.skip(j)),
    decreases a.len(), s.len(),
{
    let p = a.push('*') + b;
    if a.len() == 0 {
        assert(p.drop_first() =~= b);
        assert(p[0] == '*');
        if glob(p, s) {
            if glob(b, s) {
                assert(s.skip(0) =~= s);
                assert(glob(a, s.take(0)));
                assert(glob(b, s.skip(0)));
            } else {
                law_glob_star(a, b, s.drop_first());
                let rest = s.drop_first();
                let (i, j) = choose|i: int, j: int|
                    0 <= i <= j <= rest.len() && #[trigger] glob(a, rest.take(i))
                        && #[trigger] glob(b, rest.skip(j));
                assert(rest.skip(j) =~= s.skip(j + 1));
                assert(glob(a, s.take(0)));
                assert(glob(b, s.skip(j + 1)));
            }
        }
        if exists|i: int, j: int|
            0 <= i <= j <= s.len() && #[trigger] glob(a, s.take(i)) && #[trigger] glob(b, s.skip(j)) {
            let (i, j) = choose|i: int, j: int|
                0 <= i <= j <= s.len() && #[trigger] glob(a, s.take(i)) && #[trigger] glob(b, s.skip(j));
            if j == 0 {
                assert(s.skip(0) =~= s);
            } else {
                law_glob_star(a, b, s.drop_first());
                let rest = s.drop_first();
                assert(rest.skip(j - 1) =~= s.skip(j));
                assert(glob(a, rest.take(0)));
                assert(glob(b, rest.skip(j - 1)));
            }
        }
    } else {
        let c = a.drop_first();
        assert(p.drop_first() =~= c.push('*') + b);
        assert(p[0] == a[0]);
        if a[0] == '*' {
            law_glob_star(c, b, s);
            if s.len() > 0 {
                law_glob_star(a, b, s.drop_first());
            }
            lemma_star_first(a, b, c, s);
        } else if s.len() > 0 {
            let rest = s.drop_first();
            law_glob_star(c, b, rest);
            if glob(p, s) {
                let (i, j) = choose|i: int, j: int|
                    0 <= i <= j <= rest.len() && #[trigger] glob(c, rest.take(i))
                        && #[trigger] glob(b, rest.skip(j));
                assert(s.take(i + 1).drop_first() =~= rest.take(i));
                assert(s.skip(j + 1) =~= rest.skip(j));
                assert(glob(a, s.take(i + 1)));
                assert(glob(b, s.skip(j + 1)));
            }
            if exists|i: int, j: int|
                0 <= i <= j <= s.len() && #[trigger] glob(a, s.take(i)) && #[trigger] glob(b, s.skip(j)) {
                let (i, j) = choose|i: int, j: int|
                    0 <= i <= j <= s.len() && #[trigger] glob(a, s.take(i))
                        && #[trigger] glob(b, s.skip(j));
                assert(i > 0);
                assert(s.take(i).drop_first() =~= rest.take(i - 1));
                assert(s.skip(j) =~= rest.skip(j - 1));
                assert(glob(c, rest.take(i - 1)));
                assert(glob(b, rest.skip(j - 1)));
            }
        } else {
            assert forall|i: int, j: int|
                0 <= i <= j <= s.len() && #[trigger] glob(a, s.take(i)) && #[trigger] glob(b, s.skip(j)) implies false by {
                assert(s.take(i).len() == 0);
            }
        }
    }
}

/// The step of the law on stars for a first part that begins with a star itself.
proof fn lemma_star_first(a: Seq<char>, b: Seq<char>, c: Seq<char>, s: Seq<char>)
    requires
        a.len() > 0,
        a[0] == '*',
        c == a.drop_first(),
        glob(c.push('*') + b, s) <==> exists|i: int, j: int|
            0 <= i <= j <= s.len() && #[trigger] glob(c, s.take(i)) && #[trigger] glob(b, s.skip(j)),
        s.len() > 0 ==> (glob(a.push('*') + b, s.drop_first()) <==> exists|i: int, j: int|
            0 <= i <= j <= s.drop_first().len() && #[trigger] glob(a, s.drop_first().take(i))
                && #[trigger] glob(b, s.drop_first().skip(j))),
    ensures
        glob(a.push('*') + b, s) <==> exists|i: int, j: int|
            0 <= i <= j <= s.len() && #[trigger] glob(a, s.take(i)) && #[trigger] glob(b, s.skip(j)),
{
    let p = a.push('*') + b;
    let rest = s.drop_first();
    assert(p.drop_first() =~= c.push('*') + b);
    assert(p[0] == '*');
    if glob(p, s) {
        if glob(c.push('*') + b, s) {
            let (i, j) = choose|i: int, j: int|
                0 <= i <= j <= s.len() && #[trigger] glob(c, s.take(i)) && #[trigger] glob(b, s.skip(j));
            assert(glob(a, s.take(i)));
            assert(glob(b, s.skip(j)));
        } else {
            let (i, j) = choose|i: int, j: int|
                0 <= i <= j <= rest.len() && #[trigger] glob(a, rest.take(i))
                    && #[trigger] glob(b, rest.skip(j));
            assert(s.take(i + 1).drop_first() =~= rest.take(i));
            assert(s.skip(j + 1) =~= rest.skip(j));
            assert(glob(a, s.take(i + 1)));
            assert(glob(b, s.skip(j + 1)));
        }
    }
    if exists|i: int, j: int|
        0 <= i <= j <= s.len() && #[trigger] glob(a, s.take(i)) && #[trigger] glob(b, s.skip(j)) {
        let (i, j) = choose|i: int, j: int|
            0 <= i <= j <= s.len() && #[trigger] glob(a, s.take(i)) && #[trigger] glob(b, s.skip(j));
        if glob(c, s.take(i)) {
            assert(glob(c, s.take(i)) && glob(b, s.skip(j)));
        } else {
            assert(i > 0);
            assert(s.take(i).drop_first() =~= rest.take(i - 1));
            assert(s.skip(j) =~= rest.skip(j - 1));
            assert(glob(a, rest.take(i - 1)));
            assert(glob(b, rest.skip(j - 1)));
        }
    }
}

/// A list covers a name exactly where one of its patterns does, whichever.
pub proof fn law_covered(patterns: Seq<String>, name: Seq<char>)
    ensures
        covered(patterns, name) <==> exists|i: int|
            0 <= i < patterns.len() && glob(#[trigger] patterns[i]@, name),
{
}

} // verus!

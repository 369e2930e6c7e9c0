//! Strings as sequences of characters.

use vstd::prelude::*;
use vstd::utf8::*;

verus! {

/// `String::push`: puts one character behind the others.
pub assume_specification[ std::string::String::push ](s: &mut std::string::String, c: char)
    ensures
        final(s)@ == old(s)@.push(c),
;

/// The number of bytes of a text in UTF-8.
pub open spec fn utf8_len(s: Seq<char>) -> nat {
    encode_utf8(s).len()
}

/// The number of bytes of one character in UTF-8.
pub open spec fn char_width(c: char) -> nat {
    encode_scalar(c as u32).len()
}

pub proof fn lemma_utf8_concat(a: Seq<char>, b: Seq<char>)
    ensures
        encode_utf8(a + b) == encode_utf8(a) + encode_utf8(b),
        utf8_len(a + b) == utf8_len(a) + utf8_len(b),
    decreases a.len(),
{
    if a.len() == 0 {
        assert(a + b =~= b);
        assert(encode_utf8(a) + encode_utf8(b) =~= encode_utf8(b));
    } else {
        lemma_utf8_concat(a.drop_first(), b);
        assert((a + b).drop_first() =~= a.drop_first() + b);
        assert(encode_utf8(a + b) =~= encode_utf8(a) + encode_utf8(b));
    }
}

pub proof fn lemma_utf8_push(a: Seq<char>, c: char)
    ensures
        utf8_len(a.push(c)) == utf8_len(a) + char_width(c),
        1 <= char_width(c) <= 4,
{
    lemma_utf8_concat(a, seq![c]);
    assert(a.push(c) =~= a + seq![c]);
    assert(seq![c].drop_first() =~= Seq::empty());
    assert(encode_utf8(seq![c]) =~= encode_scalar(c as u32) + encode_utf8(Seq::empty()));
    assert(encode_utf8(Seq::<char>::empty()).len() == 0);
}

/// A part is no longer than the whole.
pub proof fn lemma_utf8_part(s: Seq<char>, i: int, j: int)
    requires
        0 <= i <= j <= s.len(),
    ensures
        utf8_len(s.subrange(i, j)) <= utf8_len(s),
        utf8_len(s) == utf8_len(s.take(i)) + utf8_len(s.subrange(i, j)) + utf8_len(s.skip(j)),
{
    lemma_utf8_concat(s.take(i), s.skip(i));
    assert(s.take(i) + s.skip(i) =~= s);
    lemma_utf8_concat(s.subrange(i, j), s.skip(j));
    assert(s.subrange(i, j) + s.skip(j) =~= s.skip(i));
}

/// A text has at least one byte for each character.
pub proof fn lemma_utf8_len_bound(s: Seq<char>)
    ensures
        s.len() <= utf8_len(s) <= 4 * s.len(),
    decreases s.len(),
{
    if s.len() > 0 {
        lemma_utf8_len_bound(s.drop_last());
        lemma_utf8_push(s.drop_last(), s.last());
        assert(s.drop_last().push(s.last()) =~= s);
    }
}

/// The number of bytes of a string.
pub fn byte_len(s: &str) -> (r: usize)
    ensures
        r == utf8_len(s@),
{
    s.as_bytes().len()
}

/// The number of bytes of one character.
pub fn width(c: char) -> (r: usize)
    ensures
        r == char_width(c),
        1 <= r <= 4,
{
    proof {
        lemma_utf8_push(Seq::empty(), c);
    }
    let u: u32 = c as u32;
    if u <= 0x7F {
        1
    } else if u <= 0x7FF {
        2
    } else if u <= 0xFFFF {
        3
    } else {
        4
    }
}

/// Whether two strings are the same.
pub fn same_text(a: &str, b: &str) -> (r: bool)
    ensures
        r == (a@ == b@),
{
    let x = a.as_bytes();
    let y = b.as_bytes();
    if x.len() != y.len() {
        return false;
    }
    let mut i: usize = 0;
    while i < x.len()
        invariant
            i <= x@.len(),
            x@.len() == y@.len(),
            x@ == encode_utf8(a@),
            y@ == encode_utf8(b@),
            forall|j: int| 0 <= j < i ==> x@[j] == y@[j],
        decreases x@.len() - i,
    {
        if x[i] != y[i] {
            return false;
        }
        i = i + 1;
    }
    proof {
        assert(x@ =~= y@);
        encode_utf8_decode_utf8(a@);
        encode_utf8_decode_utf8(b@);
    }
    true
}

/// The characters of a string.
pub fn chars_of(s: &str) -> (r: Vec<char>)
    ensures
        r@ == s@,
{
    let mut r: Vec<char> = Vec::new();
    for c in it: s.chars()
        invariant
            r@ == it.seq().take(it.index() as int),
            it.seq() == s@,
    {
        r.push(c);
        assert(r@ =~= it.seq().take(it.index() as int + 1));
    }
    assert(r@ =~= s@);
    r
}

/// The string of some of the characters.
pub fn string_of(chars: &Vec<char>, from: usize, to: usize) -> (r: String)
    requires
        from <= to <= chars@.len(),
    ensures
        r@ == chars@.subrange(from as int, to as int),
{
    let mut r = String::new();
    let mut i: usize = from;
    while i < to
        invariant
            from <= i <= to <= chars@.len(),
            r@ == chars@.subrange(from as int, i as int),
        decreases to - i,
    {
        r.push(chars[i]);
        i = i + 1;
        assert(r@ =~= chars@.subrange(from as int, i as int));
    }
    r
}

/// The decimal digits of a number.
pub open spec fn decimal(n: nat) -> Seq<char>
    decreases n,
{
    if n < 10 {
        seq![('0' as u32 + n) as char]
    } else {
        decimal(n / 10).push(('0' as u32 + n % 10) as char)
    }
}

fn digit(n: u128) -> (r: char)
    requires
        n < 10,
    ensures
        r == ('0' as u32 + n) as char,
{
    match n {
        0 => '0',
        1 => '1',
        2 => '2',
        3 => '3',
        4 => '4',
        5 => '5',
        6 => '6',
        7 => '7',
        8 => '8',
        _ => '9',
    }
}

/// Writes a number in decimal.
pub fn wide_decimal_of(n: u128) -> (r: String)
    ensures
        r@ == decimal(n as nat),
    decreases n,
{
    if n < 10 {
        let mut r = String::new();
        r.push(digit(n));
        assert(r@ =~= decimal(n as nat));
        r
    } else {
        let mut r = wide_decimal_of(n / 10);
        r.push(digit(n % 10));
        r
    }
}

/// Writes a number in decimal.
pub fn decimal_of(n: usize) -> (r: String)
    ensures
        r@ == decimal(n as nat),
{
    wide_decimal_of(n as u128)
}

/// A power of ten.
pub open spec fn ten_to(d: nat) -> nat
    decreases d,
{
    if d == 0 {
        1
    } else {
        10 * ten_to((d - 1) as nat)
    }
}

/// A number below a power of ten has no more digits than that power.
pub proof fn lemma_decimal_digits(n: nat, d: nat)
    requires
        n < ten_to(d),
        d > 0,
    ensures
        1 <= decimal(n).len() <= d,
    decreases d,
{
    if n >= 10 {
        assert(d > 1) by {
            if d == 1 {
                reveal_with_fuel(ten_to, 2);
            }
        }
        lemma_decimal_digits(n / 10, (d - 1) as nat);
    }
}

/// A number that the machine can hold has at most twenty digits.
pub proof fn lemma_machine_digits(n: nat)
    requires
        n <= usize::MAX,
    ensures
        1 <= decimal(n).len() <= 20,
{
    reveal_with_fuel(ten_to, 21);
    assert(ten_to(20) == 100000000000000000000);
    lemma_decimal_digits(n, 20);
}

/// What each string of a sequence holds.
pub open spec fn texts(v: Seq<String>) -> Seq<Seq<char>> {
    Seq::new(v.len(), |i: int| v[i]@)
}

pub proof fn lemma_texts_push(v: Seq<String>, s: String)
    ensures
        texts(v.push(s)) == texts(v).push(s@),
{
    assert(texts(v.push(s)) =~= texts(v).push(s@));
}

/// Whether a list of names holds one.
pub open spec fn lists(names: Seq<String>, name: Seq<char>) -> bool {
    exists|i: int| 0 <= i < names.len() && (#[trigger] names[i])@ == name
}

/// Whether a list of names holds one.
pub fn has_name(names: &Vec<String>, name: &str) -> (r: bool)
    ensures
        r == lists(names@, name@),
{
    let mut i: usize = 0;
    while i < names.len()
        invariant
            i <= names@.len(),
            forall|j: int| 0 <= j < i ==> (#[trigger] names@[j])@ != name@,
        decreases names@.len() - i,
    {
        if same_text(&names[i], name) {
            return true;
        }
        i = i + 1;
    }
    false
}

/// What an optional string holds.
pub open spec fn opt_string(v: Option<String>) -> Option<Seq<char>> {
    match v {
        Some(s) => Some(s@),
        None => None,
    }
}

/// Whether `part` stands in `s` from position `i` on.
pub open spec fn stands_at(s: Seq<char>, part: Seq<char>, i: int) -> bool {
    0 <= i && i + part.len() <= s.len() && s.subrange(i, i + part.len()) == part
}

/// Whether `part` occurs in `s`.
pub open spec fn occurs(s: Seq<char>, part: Seq<char>) -> bool {
    exists|i: int| stands_at(s, part, i)
}

/// Whether `s` begins with `part`.
pub open spec fn begins(s: Seq<char>, part: Seq<char>) -> bool {
    stands_at(s, part, 0)
}

/// Whether `part` stands at position `i`.
pub fn matches_at(s: &Vec<char>, part: &Vec<char>, i: usize) -> (r: bool)
    ensures
        r == stands_at(s@, part@, i as int),
{
    if i > s.len() || s.len() - i < part.len() {
        return false;
    }
    let mut k: usize = 0;
    while k < part.len()
        invariant
            k <= part@.len(),
            i + part@.len() <= s.len(),
            forall|j: int| 0 <= j < k ==> s@[i + j] == #[trigger] part@[j],
        decreases part@.len() - k,
    {
        if s[i + k] != part[k] {
            assert(s@.subrange(i as int, i + part@.len())[k as int] != part@[k as int]);
            return false;
        }
        k = k + 1;
    }
    assert(s@.subrange(i as int, i + part@.len()) =~= part@);
    true
}

/// The first position from `from` on at which `part` stands.
pub fn find_from(s: &Vec<char>, part: &Vec<char>, from: usize) -> (r: Option<usize>)
    ensures
        match r {
            Some(i) => from <= i && stands_at(s@, part@, i as int) && forall|j: int|
                from <= j < i ==> !stands_at(s@, part@, j),
            None => forall|j: int| from <= j ==> !stands_at(s@, part@, j),
        },
{
    let mut i: usize = from;
    while i < s.len()
        invariant
            from <= i,
            forall|j: int| from <= j < i ==> !stands_at(s@, part@, j),
        decreases s@.len() - i,
    {
        if matches_at(s, part, i) {
            return Some(i);
        }
        i = i + 1;
    }
    if matches_at(s, part, i) {
        return Some(i);
    }
    None
}

/// Whether `part` occurs in `s`.
pub fn has_part(s: &Vec<char>, part: &str) -> (r: bool)
    ensures
        r == occurs(s@, part@),
{
    let p = chars_of(part);
    match find_from(s, &p, 0) {
        Some(i) => true,
        None => false,
    }
}

/// Whether `s` begins with `part`.
pub fn starts_with(s: &str, part: &str) -> (r: bool)
    ensures
        r == begins(s@, part@),
{
    matches_at(&chars_of(s), &chars_of(part), 0)
}

/// Whether `part` occurs in `s`.
pub fn contains(s: &str, part: &str) -> (r: bool)
    ensures
        r == occurs(s@, part@),
{
    has_part(&chars_of(s), part)
}

/// Whether one of some words occurs in a text.
pub open spec fn any_word(s: Seq<char>, words: Seq<&'static str>) -> bool {
    exists|i: int| 0 <= i < words.len() && occurs(s, (#[trigger] words[i])@)
}

/// Whether one of some words occurs in a text.
pub fn has_word(s: &Vec<char>, words: &[&'static str]) -> (r: bool)
    ensures
        r == any_word(s@, words@),
{
    let mut i: usize = 0;
    while i < words.len()
        invariant
            i <= words@.len(),
            forall|j: int| 0 <= j < i ==> !occurs(s@, (#[trigger] words@[j])@),
        decreases words@.len() - i,
    {
        if has_part(s, words[i]) {
            return true;
        }
        i = i + 1;
    }
    false
}

/// The lower-case form of an ASCII letter; any other character itself.
pub open spec fn lower_char(c: char) -> char {
    if 'A' <= c <= 'Z' {
        (c as u32 + 32) as char
    } else {
        c
    }
}

/// The text with its ASCII letters in lower case.
pub open spec fn lower(s: Seq<char>) -> Seq<char> {
    Seq::new(s.len(), |i: int| lower_char(s[i]))
}

fn lower_char_of(c: char) -> (r: char)
    ensures
        r == lower_char(c),
{
    if 'A' <= c && c <= 'Z' {
        (c as u8 + 32) as char
    } else {
        c
    }
}

/// The characters with the ASCII letters in lower case.
pub fn lower_of(s: &str) -> (r: Vec<char>)
    ensures
        r@ == lower(s@),
{
    let mut r: Vec<char> = Vec::new();
    for c in it: s.chars()
        invariant
            r@.len() == it.index(),
            forall|i: int| 0 <= i < r@.len() ==> #[trigger] r@[i] == lower_char(s@[i]),
            it.seq() == s@,
    {
        r.push(lower_char_of(c));
    }
    assert(r@ =~= lower(s@));
    r
}

/// The parts of a text between the occurrences of a character: always one more than there are
/// occurrences.
pub open spec fn split_on(s: Seq<char>, c: char) -> Seq<Seq<char>>
    decreases s.len(),
{
    if s.len() == 0 {
        seq![Seq::<char>::empty()]
    } else {
        let parts = split_on(s.drop_last(), c);
        if s.last() == c {
            parts.push(Seq::empty())
        } else {
            parts.drop_last().push(parts.last().push(s.last()))
        }
    }
}

/// Splits a text at a character.
pub fn split_at_char(s: &str, c: char) -> (r: Vec<String>)
    ensures
        texts(r@) == split_on(s@, c),
        r@.len() > 0,
{
    let mut parts: Vec<String> = Vec::new();
    let mut current = String::new();
    assert(texts(parts@).push(current@) =~= split_on(Seq::empty(), c));
    assert(s@.take(0) =~= Seq::empty());
    for x in it: s.chars()
        invariant
            it.seq() == s@,
            texts(parts@).push(current@) == split_on(s@.take(it.index() as int), c),
    {
        let ghost before = texts(parts@).push(current@);
        let ghost n = it.index() as int;
        assert(s@.take(n + 1).drop_last() =~= s@.take(n));
        assert(s@.take(n + 1).last() == x);
        assert(before.drop_last() =~= texts(parts@));
        if x == c {
            proof {
                lemma_texts_push(parts@, current);
            }
            parts.push(current);
            current = String::new();
        } else {
            current.push(x);
        }
        assert(texts(parts@).push(current@) == split_on(s@.take(n + 1), c));
    }
    assert(s@.take(s@.len() as int) =~= s@);
    proof {
        lemma_texts_push(parts@, current);
    }
    parts.push(current);
    parts
}

/// The parts of two texts with the character between them are the parts of both.
pub proof fn lemma_split_on_join(a: Seq<char>, c: char, b: Seq<char>)
    ensures
        split_on(a.push(c) + b, c) == split_on(a, c) + split_on(b, c),
        split_on(b, c).len() > 0,
    decreases b.len(),
{
    let all = a.push(c) + b;
    if b.len() == 0 {
        assert(all =~= a.push(c));
        assert(all.drop_last() =~= a);
        assert(split_on(all, c) =~= split_on(a, c) + split_on(b, c));
    } else {
        let init = b.drop_last();
        lemma_split_on_join(a, c, init);
        assert(all.drop_last() =~= a.push(c) + init);
        assert(all.last() == b.last());
        assert(split_on(all, c) =~= split_on(a, c) + split_on(b, c));
    }
}

/// A line without the carriage return before its line feed.
pub open spec fn without_cr(line: Seq<char>) -> Seq<char> {
    if line.len() > 0 && line.last() == '\r' {
        line.drop_last()
    } else {
        line
    }
}

/// The lines of a text, without their line endings. A line feed, with or without a carriage return
/// before it, ends a line; what follows the last one is a line if it is not empty.
pub open spec fn lines(s: Seq<char>) -> Seq<Seq<char>> {
    let parts = split_on(s, '\n');
    let n = if parts.last().len() == 0 {
        (parts.len() - 1) as nat
    } else {
        parts.len()
    };
    Seq::new(
        n,
        |i: int|
            if i < parts.len() - 1 {
                without_cr(parts[i])
            } else {
                parts[i]
            },
    )
}

fn drop_cr(line: &String) -> (r: String)
    ensures
        r@ == without_cr(line@),
{
    let chars = chars_of(line);
    let n: usize = chars.len();
    if n > 0 && chars[n - 1] == '\r' {
        let r = string_of(&chars, 0, n - 1);
        assert(line@.subrange(0, n - 1) =~= line@.drop_last());
        r
    } else {
        line.clone()
    }
}

/// The lines of a text.
pub fn lines_of(s: &str) -> (r: Vec<String>)
    ensures
        texts(r@) == lines(s@),
{
    let parts = split_at_char(s, '\n');
    let ghost want = lines(s@);
    let ghost all = split_on(s@, '\n');
    let last: usize = parts.len() - 1;
    let mut r: Vec<String> = Vec::new();
    let mut i: usize = 0;
    while i < last
        invariant
            i <= last,
            last == parts@.len() - 1,
            texts(parts@) == all,
            all == split_on(s@, '\n'),
            r@.len() == i,
            forall|j: int| 0 <= j < i ==> (#[trigger] r@[j])@ == without_cr(all[j]),
        decreases last - i,
    {
        assert(parts@[i as int]@ == all[i as int]);
        r.push(drop_cr(&parts[i]));
        i = i + 1;
    }
    assert(parts@[last as int]@ == all[last as int]);
    if !parts[last].as_str().is_empty() {
        r.push(parts[last].clone());
    }
    assert(texts(r@) =~= want);
    r
}

/// The number of characters in the longest beginning of `s` that takes at most `limit` bytes.
pub open spec fn fit_prefix(s: Seq<char>, limit: int) -> int
    decreases s.len(),
{
    if s.len() == 0 || utf8_len(s) <= limit {
        s.len() as int
    } else {
        fit_prefix(s.drop_last(), limit)
    }
}

/// The number of characters in the longest end of `s` that takes at most `limit` bytes.
pub open spec fn fit_suffix(s: Seq<char>, limit: int) -> int
    decreases s.len(),
{
    if s.len() == 0 || utf8_len(s) <= limit {
        s.len() as int
    } else {
        fit_suffix(s.drop_first(), limit)
    }
}

/// What makes a beginning the longest that fits.
pub proof fn lemma_fit_prefix(s: Seq<char>, limit: int, k: int)
    requires
        0 <= limit,
        0 <= k <= s.len(),
        utf8_len(s.take(k)) <= limit,
        k < s.len() ==> utf8_len(s.take(k + 1)) > limit,
    ensures
        fit_prefix(s, limit) == k,
    decreases s.len(),
{
    if k == s.len() {
        assert(s.take(k) =~= s);
    } else {
        lemma_utf8_part(s, 0, k + 1);
        assert(s.subrange(0, k + 1) =~= s.take(k + 1));
        assert(s.drop_last().take(k) =~= s.take(k));
        if k < s.len() - 1 {
            assert(s.drop_last().take(k + 1) =~= s.take(k + 1));
        }
        lemma_fit_prefix(s.drop_last(), limit, k);
    }
}

/// What makes an end the longest that fits.
pub proof fn lemma_fit_suffix(s: Seq<char>, limit: int, k: int)
    requires
        0 <= limit,
        0 <= k <= s.len(),
        utf8_len(s.skip(s.len() - k)) <= limit,
        k < s.len() ==> utf8_len(s.skip(s.len() - k - 1)) > limit,
    ensures
        fit_suffix(s, limit) == k,
    decreases s.len(),
{
    if k == s.len() {
        assert(s.skip(0) =~= s);
    } else {
        let i = s.len() - k - 1;
        lemma_utf8_part(s, i, s.len() as int);
        assert(s.subrange(i, s.len() as int) =~= s.skip(i));
        let t = s.drop_first();
        assert(t.skip(t.len() - k) =~= s.skip(s.len() - k));
        if k < t.len() {
            assert(t.skip(t.len() - k - 1) =~= s.skip(s.len() - k - 1));
        }
        lemma_fit_suffix(t, limit, k);
    }
}

/// The bounds of the longest beginning and end that fit.
pub proof fn lemma_fit_bounds(s: Seq<char>, limit: int)
    requires
        0 <= limit,
    ensures
        0 <= fit_prefix(s, limit) <= s.len(),
        utf8_len(s.take(fit_prefix(s, limit))) <= limit,
        0 <= fit_suffix(s, limit) <= s.len(),
        utf8_len(s.skip(s.len() - fit_suffix(s, limit))) <= limit,
    decreases s.len(),
{
    if s.len() == 0 || utf8_len(s) <= limit {
        assert(s.take(s.len() as int) =~= s);
        assert(s.skip(0) =~= s);
        if s.len() == 0 {
            assert(encode_utf8(s).len() == 0);
        }
    } else {
        lemma_fit_bounds(s.drop_last(), limit);
        lemma_fit_bounds(s.drop_first(), limit);
        let p = fit_prefix(s.drop_last(), limit);
        assert(s.drop_last().take(p) =~= s.take(p));
        let q = fit_suffix(s.drop_first(), limit);
        assert(s.drop_first().skip(s.len() - 1 - q) =~= s.skip(s.len() - q));
    }
}

/// How many characters of the beginning fit into `limit` bytes.
pub fn floor_boundary(s: &Vec<char>, limit: usize) -> (r: usize)
    ensures
        r == fit_prefix(s@, limit as int),
        r <= s@.len(),
        utf8_len(s@.take(r as int)) <= limit,
{
    let mut k: usize = 0;
    let mut used: usize = 0;
    assert(s@.take(0) =~= Seq::empty());
    assert(encode_utf8(Seq::<char>::empty()).len() == 0);
    while k < s.len()
        invariant
            k <= s@.len(),
            used == utf8_len(s@.take(k as int)),
            used <= limit,
        decreases s@.len() - k,
    {
        let w = width(s[k]);
        proof {
            lemma_utf8_push(s@.take(k as int), s@[k as int]);
            assert(s@.take(k as int).push(s@[k as int]) =~= s@.take(k + 1));
        }
        if w > limit - used {
            proof {
                lemma_fit_prefix(s@, limit as int, k as int);
            }
            return k;
        }
        used = used + w;
        k = k + 1;
    }
    proof {
        lemma_fit_prefix(s@, limit as int, k as int);
    }
    k
}

/// From which character on the end fits into `limit` bytes.
pub fn ceil_boundary(s: &Vec<char>, limit: usize) -> (r: usize)
    ensures
        r == s@.len() - fit_suffix(s@, limit as int),
        r <= s@.len(),
        utf8_len(s@.skip(r as int)) <= limit,
{
    let mut i: usize = s.len();
    let mut used: usize = 0;
    assert(s@.skip(s@.len() as int) =~= Seq::empty());
    assert(encode_utf8(Seq::<char>::empty()).len() == 0);
    while i > 0
        invariant
            i <= s@.len(),
            used == utf8_len(s@.skip(i as int)),
            used <= limit,
        decreases i,
    {
        let w = width(s[i - 1]);
        proof {
            lemma_utf8_concat(seq![s@[i - 1]], s@.skip(i as int));
            assert(seq![s@[i - 1]] + s@.skip(i as int) =~= s@.skip(i - 1));
            lemma_utf8_push(Seq::empty(), s@[i - 1]);
            assert(Seq::empty().push(s@[i - 1]) =~= seq![s@[i - 1]]);
        }
        if w > limit - used {
            proof {
                lemma_fit_suffix(s@, limit as int, s@.len() - i);
            }
            return i;
        }
        used = used + w;
        i = i - 1;
    }
    proof {
        lemma_fit_suffix(s@, limit as int, s@.len() as int);
    }
    i
}

/// Whether a character is whitespace: one with the Unicode property White_Space.
pub open spec fn white(c: char) -> bool {
    let u = c as u32;
    ||| 0x09 <= u <= 0x0d || u == 0x20 || u == 0x85 || u == 0xa0 || u == 0x1680
    ||| 0x2000 <= u <= 0x200a || u == 0x2028 || u == 0x2029 || u == 0x202f || u == 0x205f
    ||| u == 0x3000
}

/// `char::is_whitespace`: whether a character has the Unicode property White_Space, which those
/// that `white` lists have.
pub assume_specification[ char::is_whitespace ](c: char) -> (r: bool)
    ensures
        r == white(c),
;

/// A text without the whitespace at its start.
pub open spec fn trim_start(s: Seq<char>) -> Seq<char>
    decreases s.len(),
{
    if s.len() > 0 && white(s[0]) {
        trim_start(s.drop_first())
    } else {
        s
    }
}

/// A text without the whitespace at its end.
pub open spec fn trim_end(s: Seq<char>) -> Seq<char>
    decreases s.len(),
{
    if s.len() > 0 && white(s.last()) {
        trim_end(s.drop_last())
    } else {
        s
    }
}

/// A text without the whitespace at its ends.
pub open spec fn trim(s: Seq<char>) -> Seq<char> {
    trim_end(trim_start(s))
}

/// Whitespace behind a text is taken off with the rest.
pub proof fn lemma_trim_push(s: Seq<char>, c: char)
    requires
        white(c),
    ensures
        trim(s.push(c)) == trim(s),
{
    lemma_trim_start_push(s, c);
    let t = trim_start(s);
    if t.len() > 0 {
        assert(t.push(c).drop_last() =~= t);
    } else {
        assert(trim_start(s.push(c)) =~= t);
    }
}

proof fn lemma_trim_start_push(s: Seq<char>, c: char)
    requires
        white(c),
    ensures
        trim_start(s).len() > 0 ==> trim_start(s.push(c)) == trim_start(s).push(c),
        trim_start(s).len() == 0 ==> trim_start(s.push(c)).len() == 0,
    decreases s.len(),
{
    let more = s.push(c);
    if s.len() == 0 {
        assert(trim_start(more) == trim_start(more.drop_first()));
    } else if white(s[0]) {
        lemma_trim_start_push(s.drop_first(), c);
        assert(more.drop_first() =~= s.drop_first().push(c));
    }
}

/// Takes the whitespace off the ends of a text.
pub fn trim_of(s: &str) -> (r: String)
    ensures
        r@ == trim(s@),
{
    let chars = chars_of(s);
    let mut i: usize = 0;
    assert(s@.skip(0) =~= s@);
    while i < chars.len() && chars[i].is_whitespace()
        invariant
            i <= chars@.len(),
            chars@ == s@,
            trim_start(s@) == trim_start(s@.skip(i as int)),
        decreases chars@.len() - i,
    {
        assert(s@.skip(i as int).drop_first() =~= s@.skip(i + 1));
        i = i + 1;
    }
    let ghost rest = s@.skip(i as int);
    assert(trim_start(s@) == rest);
    let mut j: usize = chars.len();
    assert(s@.subrange(i as int, j as int) =~= rest);
    while j > i && chars[j - 1].is_whitespace()
        invariant
            i <= j <= chars@.len(),
            chars@ == s@,
            trim_end(rest) == trim_end(s@.subrange(i as int, j as int)),
        decreases j,
    {
        assert(s@.subrange(i as int, j as int).drop_last() =~= s@.subrange(i as int, j - 1));
        j = j - 1;
    }
    string_of(&chars, i, j)
}

/// A text without the occurrences of a character at its end.
pub open spec fn strip_end(s: Seq<char>, c: char) -> Seq<char>
    decreases s.len(),
{
    if s.len() > 0 && s.last() == c {
        strip_end(s.drop_last(), c)
    } else {
        s
    }
}

/// Takes the occurrences of a character off the end of a text.
pub fn strip_end_of(s: &str, c: char) -> (r: String)
    ensures
        r@ == strip_end(s@, c),
{
    let chars = chars_of(s);
    let mut j: usize = chars.len();
    assert(s@.take(j as int) =~= s@);
    while j > 0 && chars[j - 1] == c
        invariant
            j <= chars@.len(),
            chars@ == s@,
            strip_end(s@, c) == strip_end(s@.take(j as int), c),
        decreases j,
    {
        assert(s@.take(j as int).drop_last() =~= s@.take(j - 1));
        j = j - 1;
    }
    assert(s@.subrange(0, j as int) =~= s@.take(j as int));
    string_of(&chars, 0, j)
}

/// Whether a text is empty but for whitespace.
pub fn is_blank(s: &str) -> (r: bool)
    ensures
        r == (trim(s@).len() == 0),
{
    trim_of(s).as_str().is_empty()
}

/// Whether a character is of ASCII.
pub open spec fn is_ascii(c: char) -> bool {
    c as u32 <= 0x7f
}

/// Whether a text is of ASCII alone.
pub open spec fn ascii_text(s: Seq<char>) -> bool {
    forall|i: int| 0 <= i < s.len() ==> is_ascii(#[trigger] s[i])
}

/// A text of ASCII alone has one byte for each character.
pub proof fn lemma_ascii_len(s: Seq<char>)
    requires
        ascii_text(s),
    ensures
        utf8_len(s) == s.len(),
    decreases s.len(),
{
    if s.len() > 0 {
        let init = s.drop_last();
        assert forall|i: int| 0 <= i < init.len() implies is_ascii(#[trigger] init[i]) by {
            assert(init[i] == s[i]);
        }
        lemma_ascii_len(init);
        assert(is_ascii(s[s.len() - 1]));
        lemma_utf8_push(init, s.last());
        assert(init.push(s.last()) =~= s);
    } else {
        assert(encode_utf8(s).len() == 0);
    }
}

/// What `str::to_lowercase` makes of a text that is not of ASCII alone.
pub uninterp spec fn wide_lowercase(s: Seq<char>) -> Seq<char>;

/// A text in lower case.
pub open spec fn lowercase(s: Seq<char>) -> Seq<char> {
    if ascii_text(s) {
        lower(s)
    } else {
        wide_lowercase(s)
    }
}

/// `str::to_lowercase`: the text in lower case, by the Unicode tables of std. Of a text of ASCII
/// alone, that is the text with its ASCII letters in lower case. What it makes of any other text
/// depends on the text alone and is not stated.
pub assume_specification[ str::to_lowercase ](s: &str) -> (r: std::string::String)
    ensures
        ascii_text(s@) ==> r@ == lower(s@),
        !ascii_text(s@) ==> r@ == wide_lowercase(s@),
;

/// A text with each occurrence of a character replaced by another.
pub open spec fn swap_char(s: Seq<char>, from: char, to: char) -> Seq<char> {
    Seq::new(
        s.len(),
        |i: int|
            if s[i] == from {
                to
            } else {
                s[i]
            },
    )
}

/// Replaces each occurrence of a character by another.
pub fn swap_char_in(s: &str, from: char, to: char) -> (r: String)
    ensures
        r@ == swap_char(s@, from, to),
{
    let mut r = String::new();
    for c in it: s.chars()
        invariant
            it.seq() == s@,
            r@.len() == it.index(),
            forall|i: int|
                0 <= i < r@.len() ==> #[trigger] r@[i] == if s@[i] == from {
                    to
                } else {
                    s@[i]
                },
    {
        if c == from {
            r.push(to);
        } else {
            r.push(c);
        }
    }
    assert(r@ =~= swap_char(s@, from, to));
    r
}

/// Where a part first stands in a text.
pub open spec fn first_at(s: Seq<char>, part: Seq<char>) -> Option<int> {
    if occurs(s, part) {
        Some(choose|i: int| is_first(s, part, i))
    } else {
        None
    }
}

/// Whether a part stands at a place and nowhere before.
pub open spec fn is_first(s: Seq<char>, part: Seq<char>, i: int) -> bool {
    stands_at(s, part, i) && forall|j: int| 0 <= j < i ==> !stands_at(s, part, j)
}

/// Where a part first stands in a text.
pub fn find_first(s: &Vec<char>, part: &str) -> (r: Option<usize>)
    ensures
        match r {
            Some(i) => first_at(s@, part@) == Some(i as int) && stands_at(s@, part@, i as int),
            None => first_at(s@, part@) is None,
        },
{
    let r = find_from(s, &chars_of(part), 0);
    proof {
        if let Some(i) = r {
            assert(is_first(s@, part@, i as int));
            let k = choose|k: int| is_first(s@, part@, k);
            assert(is_first(s@, part@, k));
            assert(k == i);
        }
    }
    r
}

/// Where a part first stands, it stands, and not before.
pub proof fn lemma_first_at(s: Seq<char>, part: Seq<char>)
    ensures
        first_at(s, part) matches Some(i) ==> is_first(s, part, i),
    decreases s.len(),
{
    if occurs(s, part) {
        let w = choose|w: int| stands_at(s, part, w);
        lemma_least(s, part, w);
    }
}

proof fn lemma_least(s: Seq<char>, part: Seq<char>, w: int)
    requires
        stands_at(s, part, w),
    ensures
        exists|i: int| is_first(s, part, i),
    decreases w,
{
    if exists|j: int| 0 <= j < w && stands_at(s, part, j) {
        let j = choose|j: int| 0 <= j < w && stands_at(s, part, j);
        lemma_least(s, part, j);
    } else {
        assert(is_first(s, part, w));
    }
}

/// Whether a text comes before another, character by character.
pub open spec fn precedes(a: Seq<char>, b: Seq<char>) -> bool
    decreases a.len(),
{
    if b.len() == 0 {
        false
    } else if a.len() == 0 {
        true
    } else if a[0] != b[0] {
        a[0] < b[0]
    } else {
        precedes(a.drop_first(), b.drop_first())
    }
}

/// Two texts of which neither comes before the other are the same.
pub proof fn lemma_precedes_total(a: Seq<char>, b: Seq<char>)
    requires
        !precedes(a, b),
        !precedes(b, a),
    ensures
        a == b,
    decreases a.len(),
{
    if a.len() > 0 && b.len() > 0 {
        assert(a[0] == b[0]);
        lemma_precedes_total(a.drop_first(), b.drop_first());
        assert(a =~= seq![a[0]] + a.drop_first());
        assert(b =~= seq![b[0]] + b.drop_first());
    } else {
        assert(a =~= b);
    }
}

/// No text comes before itself.
pub proof fn lemma_precedes_itself(a: Seq<char>)
    ensures
        !precedes(a, a),
    decreases a.len(),
{
    if a.len() > 0 {
        lemma_precedes_itself(a.drop_first());
    }
}

/// What comes before a text that comes before another comes before the other too.
pub proof fn lemma_precedes_chain(a: Seq<char>, b: Seq<char>, c: Seq<char>)
    requires
        precedes(a, b),
        precedes(b, c),
    ensures
        precedes(a, c),
    decreases a.len(),
{
    if a.len() > 0 && b.len() > 0 && c.len() > 0 && a[0] == b[0] && b[0] == c[0] {
        lemma_precedes_chain(a.drop_first(), b.drop_first(), c.drop_first());
    }
}

/// Whether a text comes before another, character by character.
pub fn comes_before(a: &str, b: &str) -> (r: bool)
    ensures
        r == precedes(a@, b@),
{
    let x = chars_of(a);
    let y = chars_of(b);
    assert(x@.skip(0) =~= a@);
    assert(y@.skip(0) =~= b@);
    let mut i: usize = 0;
    while i < x.len() && i < y.len() && x[i] == y[i]
        invariant
            i <= x@.len(),
            i <= y@.len(),
            precedes(a@, b@) == precedes(x@.skip(i as int), y@.skip(i as int)),
        decreases x@.len() - i,
    {
        assert(x@.skip(i as int).drop_first() =~= x@.skip(i + 1));
        assert(y@.skip(i as int).drop_first() =~= y@.skip(i + 1));
        i = i + 1;
    }
    if i >= y.len() {
        false
    } else if i >= x.len() {
        true
    } else {
        x[i] < y[i]
    }
}

} // verus!

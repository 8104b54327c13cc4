//! Reading and writing plain text: lines, words and decimal numbers.

use vstd::prelude::*;

verus! {

pub type Text = Seq<char>;

/// `String::push`: one more character at the end.
pub assume_specification[ String::push ](s: &mut String, c: char)
    ensures
        final(s)@ == old(s)@.push(c),
;

/// The characters of a string.
pub fn to_chars(s: &str) -> (v: Vec<char>)
    ensures
        v@ == s@,
{
    let mut v: Vec<char> = Vec::new();
    for c in it: s.chars()
        invariant
            v@ == s@.take(it.index() as int),
            it.seq() == s@,
    {
        v.push(c);
        assert(s@.take(it.index() + 1) =~= s@.take(it.index() as int).push(c));
    }
    assert(s@.take(s@.len() as int) =~= s@);
    v
}

/// The string with the given characters.
pub fn from_chars(v: &[char]) -> (s: String)
    ensures
        s@ == v@,
{
    let mut s: String = String::new();
    push_chars(&mut s, v);
    s
}

/// Append characters to a string.
pub fn push_chars(out: &mut String, v: &[char])
    ensures
        final(out)@ == old(out)@ + v@,
{
    let mut i: usize = 0;
    assert(out@ =~= old(out)@ + v@.take(0));
    while i < v.len()
        invariant
            i <= v@.len(),
            out@ == old(out)@ + v@.take(i as int),
        decreases v@.len() - i,
    {
        out.push(v[i]);
        assert(v@.take(i + 1) =~= v@.take(i as int).push(v@[i as int]));
        assert(out@ =~= old(out)@ + v@.take(i + 1));
        i += 1;
    }
    assert(v@.take(v@.len() as int) =~= v@);
}

/// Whether two texts are equal.
pub fn chars_eq(a: &[char], b: &[char]) -> (r: bool)
    ensures
        r == (a@ == b@),
{
    if a.len() != b.len() {
        return false;
    }
    let mut i: usize = 0;
    while i < a.len()
        invariant
            i <= a@.len(),
            a@.len() == b@.len(),
            forall|j: int| 0 <= j < i ==> a@[j] == b@[j],
        decreases a@.len() - i,
    {
        if a[i] != b[i] {
            return false;
        }
        i += 1;
    }
    assert(a@ =~= b@);
    true
}

/// Whether a text equals a string.
pub fn is_text(a: &[char], s: &str) -> (r: bool)
    ensures
        r == (a@ == s@),
{
    let b: Vec<char> = to_chars(s);
    chars_eq(a, b.as_slice())
}

/// Whether two strings are equal.
pub fn str_eq(a: &str, b: &str) -> (r: bool)
    ensures
        r == (a@ == b@),
{
    let x: Vec<char> = to_chars(a);
    is_text(x.as_slice(), b)
}

/// Whether a text starts with a string.
pub fn starts_with(a: &[char], s: &str) -> (r: bool)
    ensures
        r == s@.is_prefix_of(a@),
{
    let b: Vec<char> = to_chars(s);
    if b.len() > a.len() {
        return false;
    }
    let mut i: usize = 0;
    while i < b.len()
        invariant
            i <= b@.len() <= a@.len(),
            b@ == s@,
            forall|j: int| 0 <= j < i ==> a@[j] == b@[j],
        decreases b@.len() - i,
    {
        if a[i] != b[i] {
            assert(a@.take(b@.len() as int)[i as int] != s@[i as int]);
            return false;
        }
        i += 1;
    }
    assert(a@.take(b@.len() as int) =~= s@);
    true
}

// ---------------------------------------------------------------------------
// White space, lines and words
// ---------------------------------------------------------------------------

/// Unicode white space.
pub open spec fn is_space(c: char) -> bool {
    let x = c as int;
    ||| 0x9 <= x <= 0xD
    ||| x == 0x20
    ||| x == 0x85
    ||| x == 0xA0
    ||| x == 0x1680
    ||| 0x2000 <= x <= 0x200A
    ||| x == 0x2028
    ||| x == 0x2029
    ||| x == 0x202F
    ||| x == 0x205F
    ||| x == 0x3000
}

pub fn space(c: char) -> (r: bool)
    ensures
        r == is_space(c),
{
    let x: u32 = c as u32;
    (0x9 <= x && x <= 0xD) || x == 0x20 || x == 0x85 || x == 0xA0 || x == 0x1680 || (0x2000 <= x
        && x <= 0x200A) || x == 0x2028 || x == 0x2029 || x == 0x202F || x == 0x205F || x == 0x3000
}

/// The text without leading white space.
pub open spec fn trim_start(s: Text) -> Text
    decreases s.len(),
{
    if s.len() > 0 && is_space(s[0]) {
        trim_start(s.drop_first())
    } else {
        s
    }
}

/// The text without trailing white space.
pub open spec fn trim_end(s: Text) -> Text
    decreases s.len(),
{
    if s.len() > 0 && is_space(s.last()) {
        trim_end(s.drop_last())
    } else {
        s
    }
}

/// The text without leading and trailing white space.
pub open spec fn trimmed(s: Text) -> Text {
    trim_end(trim_start(s))
}

pub fn trim(s: &[char]) -> (r: &[char])
    ensures
        r@ == trimmed(s@),
{
    let mut i: usize = 0;
    assert(s@.skip(0) =~= s@);
    while i < s.len() && space(s[i])
        invariant
            i <= s@.len(),
            trim_start(s@.skip(i as int)) == trim_start(s@),
        decreases s@.len() - i,
    {
        assert(s@.skip(i as int).drop_first() =~= s@.skip(i + 1));
        i += 1;
    }
    let ghost rest = s@.skip(i as int);
    assert(trim_start(s@) == rest) by {
        if i < s@.len() {
            assert(rest[0] == s@[i as int]);
        }
    }
    let mut j: usize = s.len();
    assert(rest.take(j - i) =~= rest);
    while j > i && space(s[j - 1])
        invariant
            i <= j <= s@.len(),
            rest == s@.skip(i as int),
            trim_end(rest.take(j - i)) == trim_end(rest),
        decreases j,
    {
        assert(rest.take(j - i).last() == s@[j - 1]);
        assert(rest.take(j - i).drop_last() =~= rest.take(j - i - 1));
        j -= 1;
    }
    assert(trim_end(rest) == rest.take(j - i)) by {
        if j > i {
            assert(rest.take(j - i).last() == s@[j - 1]);
        }
    }
    let r = vstd::slice::slice_subrange(s, i, j);
    assert(r@ =~= rest.take(j - i));
    r
}

/// The characters without trailing white space.
pub fn trim_right(s: &[char]) -> (r: &[char])
    ensures
        r@ == trim_end(s@),
{
    let mut j: usize = s.len();
    assert(s@.take(j as int) =~= s@);
    while j > 0 && space(s[j - 1])
        invariant
            j <= s@.len(),
            trim_end(s@.take(j as int)) == trim_end(s@),
        decreases j,
    {
        assert(s@.take(j as int).last() == s@[j - 1]);
        assert(s@.take(j as int).drop_last() =~= s@.take(j - 1));
        j -= 1;
    }
    assert(trim_end(s@) == s@.take(j as int)) by {
        if j > 0 {
            assert(s@.take(j as int).last() == s@[j - 1]);
        }
    }
    let r = vstd::slice::slice_subrange(s, 0, j);
    assert(r@ =~= s@.take(j as int));
    r
}

/// Whether a text ends in another.
pub open spec fn ends_in(s: Text, suffix: Text) -> bool {
    s.len() >= suffix.len() && s.skip(s.len() - suffix.len()) == suffix
}

/// Whether characters end in a text.
pub fn ends_with(s: &[char], suffix: &str) -> (r: bool)
    ensures
        r == ends_in(s@, suffix@),
{
    let chars: Vec<char> = to_chars(suffix);
    if s.len() < chars.len() {
        return false;
    }
    let tail = vstd::slice::slice_subrange(s, s.len() - chars.len(), s.len());
    assert(tail@ =~= s@.skip(s@.len() - suffix@.len()));
    chars_eq(tail, chars.as_slice())
}

/// A copy of a string.
pub fn copy_str(s: &str) -> (r: String)
    ensures
        r@ == s@,
{
    String::from_str(s)
}

/// The texts of a sequence of strings.
pub open spec fn string_texts(v: Seq<String>) -> Seq<Text> {
    v.map_values(|s: String| s@)
}

/// A copy of a vector of strings.
pub fn copy_strings(v: &Vec<String>) -> (r: Vec<String>)
    ensures
        string_texts(r@) == string_texts(v@),
{
    let mut r: Vec<String> = Vec::new();
    let mut i: usize = 0;
    assert(string_texts(r@) =~= string_texts(v@).take(0));
    while i < v.len()
        invariant
            i <= v@.len(),
            string_texts(r@) == string_texts(v@).take(i as int),
        decreases v@.len() - i,
    {
        let s = copy_str(v[i].as_str());
        let ghost before = string_texts(r@);
        let ghost t = s@;
        r.push(s);
        assert(string_texts(r@) =~= before.push(t));
        assert(string_texts(v@).take(i + 1) =~= before.push(t));
        i += 1;
    }
    assert(string_texts(v@).take(i as int) =~= string_texts(v@));
    r
}

/// Where a character occurs first, or the length.
pub open spec fn find(s: Text, c: char) -> int
    decreases s.len(),
{
    if s.len() == 0 {
        0
    } else if s[0] == c {
        0
    } else {
        1 + find(s.drop_first(), c)
    }
}

pub proof fn find_bounds(s: Text, c: char)
    ensures
        0 <= find(s, c) <= s.len(),
    decreases s.len(),
{
    if s.len() > 0 && s[0] != c {
        find_bounds(s.drop_first(), c);
    }
}

/// The first occurrence is the one before which there is none.
pub proof fn find_is(s: Text, c: char, i: int)
    requires
        0 <= i <= s.len(),
        i < s.len() ==> s[i] == c,
        forall|j: int| 0 <= j < i ==> s[j] != c,
    ensures
        find(s, c) == i,
    decreases s.len(),
{
    if s.len() > 0 && i > 0 {
        assert(s[0] != c);
        let t = s.drop_first();
        assert forall|j: int| 0 <= j < i - 1 implies t[j] != c by {
            assert(t[j] == s[j + 1]);
        }
        find_is(t, c, i - 1);
    }
}

pub fn find_char(s: &[char], c: char) -> (i: usize)
    ensures
        i == find(s@, c),
        i <= s@.len(),
{
    let mut i: usize = 0;
    while i < s.len() && s[i] != c
        invariant
            i <= s@.len(),
            forall|j: int| 0 <= j < i ==> s@[j] != c,
        decreases s@.len() - i,
    {
        i += 1;
    }
    proof {
        find_is(s@, c, i as int);
    }
    i
}

/// The pieces between the occurrences of a character.
pub open spec fn pieces(s: Text, c: char) -> Seq<Text>
    decreases s.len(),
    via pieces_decreases
{
    let i = find(s, c);
    if i >= s.len() {
        seq![s]
    } else {
        seq![s.take(i)] + pieces(s.skip(i + 1), c)
    }
}

#[via_fn]
proof fn pieces_decreases(s: Text, c: char) {
    find_bounds(s, c);
}

/// The texts of a vector of texts.
pub open spec fn texts(v: Seq<Vec<char>>) -> Seq<Text> {
    v.map_values(|t: Vec<char>| t@)
}

/// Cut a text at every occurrence of a character.
pub fn split(s: &[char], c: char) -> (v: Vec<Vec<char>>)
    ensures
        texts(v@) == pieces(s@, c),
{
    let mut v: Vec<Vec<char>> = Vec::new();
    let mut start: usize = 0;
    assert(s@.skip(0) =~= s@);
    assert(texts(v@) + pieces(s@.skip(0), c) =~= pieces(s@, c));
    loop
        invariant
            start <= s@.len(),
            texts(v@) + pieces(s@.skip(start as int), c) == pieces(s@, c),
        decreases s@.len() - start,
    {
        let rest = vstd::slice::slice_subrange(s, start, s.len());
        assert(rest@ =~= s@.skip(start as int));
        let i: usize = find_char(rest, c);
        let piece = vstd::slice::slice_subrange(rest, 0, i);
        let ghost before = v@;
        v.push(vstd::slice::slice_to_vec(piece));
        assert(texts(v@) =~= texts(before).push(rest@.take(i as int)));
        if i >= rest.len() {
            assert(rest@.take(i as int) =~= rest@);
            assert(texts(v@) =~= texts(before) + pieces(rest@, c));
            return v;
        }
        assert(rest@.skip(i + 1) =~= s@.skip(start + i + 1));
        assert(texts(v@) + pieces(rest@.skip(i + 1), c) =~= texts(before) + pieces(rest@, c));
        start = start + i + 1;
    }
}

/// How many characters come before the first white space.
pub open spec fn word_len(s: Text) -> int
    decreases s.len(),
{
    if s.len() == 0 || is_space(s[0]) {
        0
    } else {
        1 + word_len(s.drop_first())
    }
}

pub proof fn word_len_bounds(s: Text)
    ensures
        0 <= word_len(s) <= s.len(),
    decreases s.len(),
{
    if s.len() > 0 && !is_space(s[0]) {
        word_len_bounds(s.drop_first());
    }
}

pub proof fn word_len_is(s: Text, i: int)
    requires
        0 <= i <= s.len(),
        i < s.len() ==> is_space(s[i]),
        forall|j: int| 0 <= j < i ==> !is_space(#[trigger] s[j]),
    ensures
        word_len(s) == i,
    decreases s.len(),
{
    if s.len() > 0 && i > 0 {
        assert(!is_space(s[0]));
        let t = s.drop_first();
        assert forall|j: int| 0 <= j < i - 1 implies !is_space(#[trigger] t[j]) by {
            assert(t[j] == s[j + 1]);
        }
        word_len_is(t, i - 1);
    }
}

pub proof fn trim_start_len(s: Text)
    ensures
        trim_start(s).len() <= s.len(),
        trim_start(s).len() > 0 ==> !is_space(trim_start(s)[0]),
    decreases s.len(),
{
    if s.len() > 0 && is_space(s[0]) {
        trim_start_len(s.drop_first());
    }
}

/// The maximal runs of characters that are not white space.
pub open spec fn words(s: Text) -> Seq<Text>
    decreases s.len(),
    via words_decreases
{
    let t = trim_start(s);
    if t.len() == 0 {
        Seq::empty()
    } else {
        seq![t.take(word_len(t))] + words(t.skip(word_len(t)))
    }
}

#[via_fn]
proof fn words_decreases(s: Text) {
    let t = trim_start(s);
    trim_start_len(s);
    word_len_bounds(t);
    if t.len() > 0 {
        assert(word_len(t) == 1 + word_len(t.drop_first()));
        word_len_bounds(t.drop_first());
    }
}

/// Cut a text into its words.
pub fn split_words(s: &[char]) -> (v: Vec<Vec<char>>)
    ensures
        texts(v@) == words(s@),
{
    let mut v: Vec<Vec<char>> = Vec::new();
    let mut at: usize = 0;
    assert(s@.skip(0) =~= s@);
    assert(texts(v@) + words(s@.skip(0)) =~= words(s@));
    loop
        invariant
            at <= s@.len(),
            texts(v@) + words(s@.skip(at as int)) == words(s@),
        decreases s@.len() - at,
    {
        let ghost here = s@.skip(at as int);
        let from: usize = at;
        let mut i: usize = at;
        while i < s.len() && space(s[i])
            invariant
                from <= i <= s@.len(),
                here == s@.skip(from as int),
                trim_start(s@.skip(i as int)) == trim_start(here),
            decreases s@.len() - i,
        {
            assert(s@.skip(i as int).drop_first() =~= s@.skip(i + 1));
            i += 1;
        }
        let ghost t = s@.skip(i as int);
        assert(trim_start(here) == t) by {
            if i < s@.len() {
                assert(t[0] == s@[i as int]);
            }
        }
        if i >= s.len() {
            assert(words(here) =~= Seq::<Text>::empty());
            assert(texts(v@) =~= words(s@));
            return v;
        }
        let mut j: usize = i;
        while j < s.len() && !space(s[j])
            invariant
                i <= j <= s@.len(),
                t == s@.skip(i as int),
                forall|k: int| 0 <= k < j - i ==> !is_space(#[trigger] t[k]),
            decreases s@.len() - j,
        {
            assert(t[j - i] == s@[j as int]);
            j += 1;
        }
        proof {
            if j < s@.len() {
                assert(t[j - i] == s@[j as int]);
            }
            word_len_is(t, j - i);
            assert(!is_space(t[0]));
        }
        let word = vstd::slice::slice_subrange(s, i, j);
        let ghost before = v@;
        v.push(vstd::slice::slice_to_vec(word));
        proof {
            assert(word@ =~= t.take(j - i));
            assert(texts(v@) =~= texts(before).push(word@));
            assert(t.skip(j - i) =~= s@.skip(j as int));
            assert(texts(v@) + words(s@.skip(j as int)) =~= texts(before) + words(here));
        }
        at = j;
    }
}

// ---------------------------------------------------------------------------
// Decimal numbers
// ---------------------------------------------------------------------------

pub open spec fn is_digit(c: char) -> bool {
    '0' as int <= c as int <= '9' as int
}

pub open spec fn digit_value(c: char) -> nat {
    (c as int - '0' as int) as nat
}

pub open spec fn digit_char(d: nat) -> char {
    (('0' as int) + d) as char
}

pub open spec fn all_digits(s: Text) -> bool {
    forall|i: int| 0 <= i < s.len() ==> is_digit(#[trigger] s[i])
}

/// The number that a run of digits denotes.
pub open spec fn digits_value(s: Text) -> nat
    decreases s.len(),
{
    if s.len() == 0 {
        0
    } else {
        digits_value(s.drop_last()) * 10 + digit_value(s.last())
    }
}

/// The number that a non-empty run of digits denotes.
pub open spec fn parsed_nat(s: Text) -> Option<nat> {
    if s.len() > 0 && all_digits(s) {
        Some(digits_value(s))
    } else {
        None
    }
}

/// The text without one leading plus sign.
pub open spec fn without_plus(s: Text) -> Text {
    if s.len() > 0 && s[0] == '+' {
        s.skip(1)
    } else {
        s
    }
}

/// The unsigned number up to `max` that a text denotes.
pub open spec fn parsed_unsigned(s: Text, max: nat) -> Option<nat> {
    match parsed_nat(without_plus(s)) {
        Some(v) => if v <= max {
            Some(v)
        } else {
            None
        },
        None => None,
    }
}

/// The 32-bit signed number that a text denotes.
pub open spec fn parsed_i32(s: Text) -> Option<int> {
    if s.len() > 0 && s[0] == '-' {
        match parsed_nat(s.skip(1)) {
            Some(v) => if v <= 0x8000_0000 {
                Some(-(v as int))
            } else {
                None
            },
            None => None,
        }
    } else {
        match parsed_unsigned(s, 0x7FFF_FFFF) {
            Some(v) => Some(v as int),
            None => None,
        }
    }
}

proof fn digits_value_grows(s: Text, n: int)
    requires
        0 <= n <= s.len(),
        all_digits(s),
    ensures
        digits_value(s.take(n)) <= digits_value(s),
    decreases s.len(),
{
    if n < s.len() {
        digits_value_grows(s.drop_last(), n);
        assert(s.drop_last().take(n) =~= s.take(n));
    } else {
        assert(s.take(n) =~= s);
    }
}

/// The number up to `max` that a run of digits denotes.
fn read_digits(s: &[char], max: u64) -> (r: Option<u64>)
    ensures
        match parsed_nat(s@) {
            Some(v) => if v <= max {
                r == Some(v as u64)
            } else {
                r is None
            },
            None => r is None,
        },
{
    if s.len() == 0 {
        return None;
    }
    let mut value: u64 = 0;
    let mut i: usize = 0;
    while i < s.len()
        invariant
            i <= s@.len(),
            value <= max,
            value == digits_value(s@.take(i as int)),
            forall|j: int| 0 <= j < i ==> is_digit(#[trigger] s@[j]),
        decreases s@.len() - i,
    {
        let c: char = s[i];
        if !(c >= '0' && c <= '9') {
            assert(!is_digit(s@[i as int]));
            return None;
        }
        let d: u64 = (c as u32 - '0' as u32) as u64;
        let ghost next = s@.take(i + 1);
        assert(next.drop_last() =~= s@.take(i as int));
        let grown: u128 = value as u128 * 10 + d as u128;
        if grown > max as u128 {
            proof {
                if all_digits(s@) {
                    digits_value_grows(s@, i + 1);
                }
            }
            return None;
        }
        value = grown as u64;
        i += 1;
    }
    assert(s@.take(s@.len() as int) =~= s@);
    Some(value)
}

/// The number up to `max` that a text denotes, with an optional plus sign.
fn read_unsigned(s: &[char], max: u64) -> (r: Option<u64>)
    ensures
        match parsed_unsigned(s@, max as nat) {
            Some(v) => r == Some(v as u64),
            None => r is None,
        },
{
    if s.len() > 0 && s[0] == '+' {
        let rest = vstd::slice::slice_subrange(s, 1, s.len());
        assert(rest@ =~= s@.skip(1));
        read_digits(rest, max)
    } else {
        read_digits(s, max)
    }
}

/// The `u32` that a text denotes.
pub fn parse_u32(s: &[char]) -> (r: Option<u32>)
    ensures
        match parsed_unsigned(s@, u32::MAX as nat) {
            Some(v) => r == Some(v as u32),
            None => r is None,
        },
{
    match read_unsigned(s, 0xFFFF_FFFF) {
        Some(v) => Some(v as u32),
        None => None,
    }
}

/// The `u64` that a text denotes.
pub fn parse_u64(s: &[char]) -> (r: Option<u64>)
    ensures
        match parsed_unsigned(s@, u64::MAX as nat) {
            Some(v) => r == Some(v as u64),
            None => r is None,
        },
{
    read_unsigned(s, 0xFFFF_FFFF_FFFF_FFFF)
}

/// The 64-bit signed number that a text denotes.
pub open spec fn parsed_i64(s: Text) -> Option<int> {
    if s.len() > 0 && s[0] == '-' {
        match parsed_nat(s.skip(1)) {
            Some(v) => if v <= 0x8000_0000_0000_0000 {
                Some(-(v as int))
            } else {
                None
            },
            None => None,
        }
    } else {
        match parsed_unsigned(s, 0x7FFF_FFFF_FFFF_FFFF) {
            Some(v) => Some(v as int),
            None => None,
        }
    }
}

/// The `i64` that a text denotes.
pub fn parse_i64(s: &[char]) -> (r: Option<i64>)
    ensures
        match parsed_i64(s@) {
            Some(v) => r == Some(v as i64) && i64::MIN <= v <= i64::MAX,
            None => r is None,
        },
{
    if s.len() > 0 && s[0] == '-' {
        let rest = vstd::slice::slice_subrange(s, 1, s.len());
        assert(rest@ =~= s@.skip(1));
        match read_digits(rest, 0x8000_0000_0000_0000) {
            Some(v) => Some((-(v as i128)) as i64),
            None => None,
        }
    } else {
        match read_unsigned(s, 0x7FFF_FFFF_FFFF_FFFF) {
            Some(v) => Some(v as i64),
            None => None,
        }
    }
}

/// The `i32` that a text denotes.
pub fn parse_i32(s: &[char]) -> (r: Option<i32>)
    ensures
        match parsed_i32(s@) {
            Some(v) => r == Some(v as i32) && i32::MIN <= v <= i32::MAX,
            None => r is None,
        },
{
    if s.len() > 0 && s[0] == '-' {
        let rest = vstd::slice::slice_subrange(s, 1, s.len());
        assert(rest@ =~= s@.skip(1));
        match read_digits(rest, 0x8000_0000) {
            Some(v) => Some((-(v as i64)) as i32),
            None => None,
        }
    } else {
        match read_unsigned(s, 0x7FFF_FFFF) {
            Some(v) => Some(v as i32),
            None => None,
        }
    }
}

/// The decimal digits of a number.
pub open spec fn decimal(n: nat) -> Text
    decreases n,
{
    if n < 10 {
        seq![digit_char(n)]
    } else {
        decimal(n / 10).push(digit_char(n % 10))
    }
}

/// The decimal form of an integer.
pub open spec fn decimal_int(n: int) -> Text {
    if n < 0 {
        seq!['-'] + decimal((-n) as nat)
    } else {
        decimal(n as nat)
    }
}

/// Append the decimal digits of a number.
pub fn push_decimal(out: &mut String, n: u64)
    ensures
        final(out)@ == old(out)@ + decimal(n as nat),
    decreases n,
{
    let digit: u8 = (n % 10) as u8;
    if n >= 10 {
        push_decimal(out, n / 10);
    }
    let c: char = (48u8 + digit) as char;
    out.push(c);
    proof {
        if n < 10 {
            assert(out@ =~= old(out)@ + decimal(n as nat));
        } else {
            assert(out@ =~= old(out)@ + decimal((n / 10) as nat).push(digit_char((n % 10) as nat)));
        }
    }
}

/// Append the decimal form of an integer.
pub fn push_decimal_i64(out: &mut String, n: i64)
    requires
        n > i64::MIN,
    ensures
        final(out)@ == old(out)@ + decimal_int(n as int),
{
    if n < 0 {
        out.push('-');
        push_decimal(out, (-n) as u64);
        assert(out@ =~= old(out)@ + decimal_int(n as int));
    } else {
        push_decimal(out, n as u64);
    }
}

/// Decimal digits denote the number they were made from.
pub proof fn decimal_round_trip(n: nat)
    ensures
        decimal(n).len() > 0,
        all_digits(decimal(n)),
        digits_value(decimal(n)) == n,
        parsed_nat(decimal(n)) == Some(n),
    decreases n,
{
    if n < 10 {
        assert(decimal(n).drop_last() =~= Seq::<char>::empty());
        assert(decimal(n).last() == digit_char(n));
        assert(digits_value(decimal(n).drop_last()) == 0);
    } else {
        decimal_round_trip(n / 10);
        let s = decimal(n);
        let t = decimal(n / 10);
        assert(s == t.push(digit_char(n % 10)));
        assert(s.drop_last() =~= t);
        assert forall|i: int| 0 <= i < s.len() implies is_digit(#[trigger] s[i]) by {
            if i < t.len() {
                assert(s[i] == t[i]);
            }
        }
    }
}

/// Reading back the decimal form of an `i32` gives the same number.
pub proof fn i32_round_trip(n: i32)
    ensures
        parsed_i32(decimal_int(n as int)) == Some(n as int),
{
    if n < 0 {
        let m = (-(n as int)) as nat;
        decimal_round_trip(m);
        assert(decimal_int(n as int).skip(1) =~= decimal(m));
    } else {
        decimal_round_trip(n as nat);
        let s = decimal(n as nat);
        assert(is_digit(s[0]));
    }
}

/// Reading back the decimal form of a `u32` gives the same number.
pub proof fn u32_round_trip(n: u32)
    ensures
        parsed_unsigned(decimal(n as nat), u32::MAX as nat) == Some(n as nat),
{
    decimal_round_trip(n as nat);
    assert(is_digit(decimal(n as nat)[0]));
}

/// A number that is read is in range.
pub proof fn parsed_i32_range(s: Text)
    ensures
        parsed_i32(s) matches Some(n) ==> i32::MIN <= n <= i32::MAX,
{
}

/// A number of zeros.
pub open spec fn zeros(k: nat) -> Text {
    Seq::new(k, |i: int| '0')
}

/// A run of digits is the decimal form of its value, behind some zeros.
proof fn digits_are_decimal(s: Text)
    requires
        s.len() > 0,
        all_digits(s),
    ensures
        exists|k: nat| s == #[trigger] zeros(k) + decimal(digits_value(s)),
    decreases s.len(),
{
    let t = s.drop_last();
    let c = s.last();
    assert(is_digit(s[s.len() - 1]));
    let d = digit_value(c);
    assert(digit_char(d) == c);
    if t.len() == 0 {
        assert(digits_value(t) == 0);
        assert(s =~= zeros(0) + decimal(d));
    } else {
        assert forall|i: int| 0 <= i < t.len() implies is_digit(#[trigger] t[i]) by {
            assert(t[i] == s[i]);
        }
        digits_are_decimal(t);
        let v = digits_value(t);
        let k = choose|k: nat| t == #[trigger] zeros(k) + decimal(v);
        let n = v * 10 + d;
        assert(digits_value(s) == n);
        assert(s =~= t.push(c));
        if v == 0 {
            assert(decimal(0) =~= seq!['0']);
            assert(s =~= zeros(k + 1) + decimal(n));
        } else {
            assert(n / 10 == v && n % 10 == d);
            assert(decimal(n) == decimal(v).push(c));
            assert(s =~= zeros(k) + decimal(n));
        }
    }
}

/// A text with the decimal form of a number, behind some zeros.
pub open spec fn spells(s: Text, n: nat) -> bool {
    exists|k: nat| s == #[trigger] zeros(k) + decimal(n)
}

/// What is read as a number is a decimal number: an optional sign, some zeros
/// and the decimal form of the number, and nothing else.
pub proof fn numbers_are_decimal(s: Text)
    ensures
        forall|max: nat| #[trigger]
            parsed_unsigned(s, max) matches Some(n) ==> n <= max && (spells(s, n) || s.len() > 0
                && s[0] == '+' && spells(s.skip(1), n)),
        parsed_i32(s) matches Some(n) ==> if n < 0 {
            s[0] == '-' && spells(s.skip(1), (-n) as nat)
        } else {
            ||| spells(s, n as nat)
            ||| (s[0] == '+' || n == 0 && s[0] == '-') && spells(s.skip(1), n as nat)
        },
        parsed_i64(s) matches Some(n) ==> if n < 0 {
            s[0] == '-' && spells(s.skip(1), (-n) as nat)
        } else {
            ||| spells(s, n as nat)
            ||| (s[0] == '+' || n == 0 && s[0] == '-') && spells(s.skip(1), n as nat)
        },
{
    let u = without_plus(s);
    if u.len() > 0 && all_digits(u) {
        digits_are_decimal(u);
    }
    if s.len() > 0 {
        let t = s.skip(1);
        if t.len() > 0 && all_digits(t) {
            digits_are_decimal(t);
        }
    }
}

/// Numbers that fit are read, with any number of leading zeros.
pub proof fn decimal_is_read(n: nat, k: nat)
    ensures
        forall|max: nat| n <= max ==> #[trigger] parsed_unsigned(zeros(k) + decimal(n), max)
            == Some(n),
        n <= i32::MAX ==> parsed_i32(zeros(k) + decimal(n)) == Some(n as int),
        n <= i32::MAX + 1 ==> parsed_i32(seq!['-'] + (zeros(k) + decimal(n))) == Some(-(n as int)),
        n <= i64::MAX ==> parsed_i64(zeros(k) + decimal(n)) == Some(n as int),
        n <= i64::MAX + 1 ==> parsed_i64(seq!['-'] + (zeros(k) + decimal(n))) == Some(-(n as int)),
{
    let s = zeros(k) + decimal(n);
    padded_value(n, k);
    assert(is_digit(s[0]));
    assert(without_plus(s) == s);
    let m = seq!['-'] + s;
    assert(m.skip(1) =~= s);
}

/// Leading zeros do not change the value of digits.
proof fn padded_value(n: nat, k: nat)
    ensures
        (zeros(k) + decimal(n)).len() > 0,
        all_digits(zeros(k) + decimal(n)),
        digits_value(zeros(k) + decimal(n)) == n,
    decreases n,
{
    let s = zeros(k) + decimal(n);
    decimal_round_trip(n);
    assert forall|i: int| 0 <= i < s.len() implies is_digit(#[trigger] s[i]) by {
        if i >= k {
            assert(s[i] == decimal(n)[i - k]);
        }
    }
    if n < 10 {
        zeros_value(k);
        assert(s.drop_last() =~= zeros(k));
        assert(s.last() == digit_char(n));
    } else {
        padded_value(n / 10, k);
        assert(s.drop_last() =~= zeros(k) + decimal(n / 10));
        assert(s.last() == digit_char(n % 10));
    }
}

proof fn zeros_value(k: nat)
    ensures
        digits_value(zeros(k)) == 0,
    decreases k,
{
    if k > 0 {
        zeros_value((k - 1) as nat);
        assert(zeros(k).drop_last() =~= zeros((k - 1) as nat));
        assert(zeros(k).last() == '0');
    }
}

// ---------------------------------------------------------------------------
// What trimming and splitting are for
// ---------------------------------------------------------------------------

/// Nothing but white space.
pub open spec fn blank(s: Text) -> bool {
    forall|i: int| 0 <= i < s.len() ==> is_space(#[trigger] s[i])
}

/// A non-empty text without white space.
pub open spec fn wordlike(s: Text) -> bool {
    s.len() > 0 && forall|i: int| 0 <= i < s.len() ==> !is_space(#[trigger] s[i])
}

/// White space before a text is trimmed away.
proof fn trim_start_blank(a: Text, t: Text)
    requires
        blank(a),
        t.len() > 0 ==> !is_space(t[0]),
    ensures
        trim_start(a + t) == t,
    decreases a.len(),
{
    if a.len() > 0 {
        assert(is_space(a[0]));
        assert((a + t)[0] == a[0]);
        assert((a + t).drop_first() =~= a.drop_first() + t);
        assert(blank(a.drop_first())) by {
            assert forall|i: int| 0 <= i < a.drop_first().len() implies is_space(
                #[trigger] a.drop_first()[i],
            ) by {
                assert(a.drop_first()[i] == a[i + 1]);
            }
        }
        trim_start_blank(a.drop_first(), t);
    } else {
        assert(a + t =~= t);
    }
}

/// White space behind a text is trimmed away.
pub proof fn trim_end_blank(t: Text, b: Text)
    requires
        blank(b),
        t.len() > 0 ==> !is_space(t.last()),
    ensures
        trim_end(t + b) == t,
    decreases b.len(),
{
    if b.len() > 0 {
        assert(is_space(b[b.len() - 1]));
        assert((t + b).last() == b.last());
        assert((t + b).drop_last() =~= t + b.drop_last());
        assert(blank(b.drop_last())) by {
            assert forall|i: int| 0 <= i < b.drop_last().len() implies is_space(
                #[trigger] b.drop_last()[i],
            ) by {
                assert(b.drop_last()[i] == b[i]);
            }
        }
        trim_end_blank(t, b.drop_last());
    } else {
        assert(t + b =~= t);
    }
}

/// Trimming takes away the white space around a text and nothing else.
pub proof fn trimming_removes_blanks(a: Text, t: Text, b: Text)
    requires
        blank(a),
        blank(b),
        t.len() > 0 ==> !is_space(t[0]) && !is_space(t.last()),
    ensures
        trimmed(a + t + b) == t,
{
    if t.len() > 0 {
        assert(a + t + b =~= a + (t + b));
        trim_start_blank(a, t + b);
        trim_end_blank(t, b);
    } else {
        let all = a + b;
        assert(a + t + b =~= all + Seq::<char>::empty());
        assert(blank(all)) by {
            assert forall|i: int| 0 <= i < all.len() implies is_space(#[trigger] all[i]) by {
                if i >= a.len() {
                    assert(all[i] == b[i - a.len()]);
                } else {
                    assert(all[i] == a[i]);
                }
            }
        }
        trim_start_blank(all, Seq::empty());
        assert(t =~= Seq::<char>::empty());
        assert(trim_end(t) == t);
    }
}

/// Leading white space does not matter for the words.
proof fn words_after_blank(a: Text, t: Text)
    requires
        blank(a),
    ensures
        words(a + t) == words(t),
    decreases a.len(),
{
    if a.len() > 0 {
        assert(is_space(a[0]));
        assert((a + t)[0] == a[0]);
        assert((a + t).drop_first() =~= a.drop_first() + t);
        assert(trim_start(a + t) == trim_start(a.drop_first() + t));
        assert(blank(a.drop_first())) by {
            assert forall|i: int| 0 <= i < a.drop_first().len() implies is_space(
                #[trigger] a.drop_first()[i],
            ) by {
                assert(a.drop_first()[i] == a[i + 1]);
            }
        }
        words_after_blank(a.drop_first(), t);
    } else {
        assert(a + t =~= t);
    }
}

/// The words of a text: white space around them does not matter, a text without
/// white space is one word, and a text is cut wherever there is white space.
pub proof fn words_are_cut_at_blanks(a: Text, w: Text, b: Text)
    requires
        blank(a),
        wordlike(w),
        b.len() > 0 ==> is_space(b[0]),
    ensures
        words(a) == Seq::<Text>::empty(),
        words(a + w + b) == seq![w] + words(b),
{
    words_after_blank(a, Seq::empty());
    assert(a + Seq::<char>::empty() =~= a);
    assert(words(Seq::<char>::empty()) =~= Seq::<Text>::empty());
    let s = w + b;
    assert(a + w + b =~= a + s);
    words_after_blank(a, s);
    assert(!is_space(w[0]));
    assert(trim_start(s) == s);
    assert forall|j: int| 0 <= j < w.len() implies !is_space(#[trigger] s[j]) by {
        assert(s[j] == w[j]);
    }
    if b.len() > 0 {
        assert(s[w.len() as int] == b[0]);
    }
    word_len_is(s, w.len() as int);
    assert(s.take(w.len() as int) =~= w);
    assert(s.skip(w.len() as int) =~= b);
}

/// The pieces of a text: one without the character is a single piece, and a
/// text is cut wherever the character occurs.
pub proof fn pieces_are_cut_at(t: Text, c: char, rest: Text)
    requires
        forall|i: int| 0 <= i < t.len() ==> #[trigger] t[i] != c,
    ensures
        pieces(t, c) == seq![t],
        pieces(t + seq![c] + rest, c) == seq![t] + pieces(rest, c),
{
    find_is(t, c, t.len() as int);
    let s = t + seq![c] + rest;
    assert forall|j: int| 0 <= j < t.len() implies s[j] != c by {
        assert(s[j] == t[j]);
    }
    find_is(s, c, t.len() as int);
    assert(s.take(t.len() as int) =~= t);
    assert(s.skip(t.len() as int + 1) =~= rest);
}

/// Numbers are written in Arabic digits, the last digit being the remainder of
/// a division by ten.
pub proof fn digits_are_arabic(n: nat, d: nat)
    requires
        d < 10,
    ensures
        decimal(d) == seq!["0123456789"@[d as int]],
        n > 0 ==> decimal(10 * n + d) == decimal(n).push("0123456789"@[d as int]),
{
    reveal_strlit("0123456789");
    assert("0123456789"@[d as int] == digit_char(d));
    assert((10 * n + d) / 10 == n);
    assert((10 * n + d) % 10 == d);
}

} // verus!

//! Reading and building text, character by character.
//!
//! The service lives on the output of command line tools, so nearly every
//! decision it takes starts with a piece of text. The functions here work on
//! slices of characters and say what they return over sequences.

use vstd::prelude::*;
use vstd::slice::slice_subrange;

verus! {

broadcast use vstd::string::group_string_axioms;

/// `String::push` of the standard library: appends one character.
pub assume_specification[ String::push ](s: &mut String, c: char)
    ensures
        final(s)@ == old(s)@.push(c),
;

/// Unicode's `White_Space` property.
pub open spec fn is_space(c: char) -> bool {
    ||| '\u{9}' <= c && c <= '\u{d}'
    ||| c == ' '
    ||| c == '\u{85}'
    ||| c == '\u{a0}'
    ||| c == '\u{1680}'
    ||| '\u{2000}' <= c && c <= '\u{200a}'
    ||| c == '\u{2028}'
    ||| c == '\u{2029}'
    ||| c == '\u{202f}'
    ||| c == '\u{205f}'
    ||| c == '\u{3000}'
}

/// The characters with the `White_Space` property.
pub open spec fn space() -> spec_fn(char) -> bool {
    |c: char| is_space(c)
}

/// The characters without it.
pub open spec fn ink() -> spec_fn(char) -> bool {
    |c: char| !is_space(c)
}

/// Every character but one.
pub open spec fn other_than(x: char) -> spec_fn(char) -> bool {
    |c: char| c != x
}

/// How many characters at the front satisfy `p` in a row.
pub open spec fn head_run(s: Seq<char>, p: spec_fn(char) -> bool) -> int
    decreases s.len(),
{
    if s.len() == 0 || !p(s[0]) {
        0
    } else {
        1 + head_run(s.skip(1), p)
    }
}

/// How many characters at the end satisfy `p` in a row.
pub open spec fn tail_run(s: Seq<char>, p: spec_fn(char) -> bool) -> int
    decreases s.len(),
{
    if s.len() == 0 || !p(s.last()) {
        0
    } else {
        1 + tail_run(s.drop_last(), p)
    }
}

pub proof fn lemma_head_run(s: Seq<char>, p: spec_fn(char) -> bool)
    ensures
        0 <= head_run(s, p) <= s.len(),
        forall|j: int| 0 <= j < head_run(s, p) ==> p(#[trigger] s[j]),
        head_run(s, p) < s.len() ==> !p(s[head_run(s, p)]),
    decreases s.len(),
{
    if s.len() != 0 && p(s[0]) {
        let rest = s.skip(1);
        lemma_head_run(rest, p);
        assert forall|j: int| 0 <= j < head_run(s, p) implies p(#[trigger] s[j]) by {
            if j > 0 {
                assert(s[j] == rest[j - 1]);
            }
        }
    }
}

pub proof fn lemma_head_run_is(s: Seq<char>, p: spec_fn(char) -> bool, n: int)
    requires
        0 <= n <= s.len(),
        forall|j: int| 0 <= j < n ==> p(#[trigger] s[j]),
        n < s.len() ==> !p(s[n]),
    ensures
        head_run(s, p) == n,
{
    lemma_head_run(s, p);
    let m = head_run(s, p);
    if m < n {
        assert(p(s[m]));
    } else if n < m {
        assert(p(s[n]));
    }
}

pub proof fn lemma_tail_run(s: Seq<char>, p: spec_fn(char) -> bool)
    ensures
        0 <= tail_run(s, p) <= s.len(),
        forall|j: int| s.len() - tail_run(s, p) <= j < s.len() ==> p(#[trigger] s[j]),
        tail_run(s, p) < s.len() ==> !p(s[s.len() - 1 - tail_run(s, p)]),
    decreases s.len(),
{
    if s.len() != 0 && p(s.last()) {
        let rest = s.drop_last();
        lemma_tail_run(rest, p);
        assert forall|j: int| s.len() - tail_run(s, p) <= j < s.len() implies p(
            #[trigger] s[j],
        ) by {
            if j < s.len() - 1 {
                assert(s[j] == rest[j]);
            }
        }
    }
}

pub proof fn lemma_tail_run_is(s: Seq<char>, p: spec_fn(char) -> bool, n: int)
    requires
        0 <= n <= s.len(),
        forall|j: int| s.len() - n <= j < s.len() ==> p(#[trigger] s[j]),
        n < s.len() ==> !p(s[s.len() - 1 - n]),
    ensures
        tail_run(s, p) == n,
{
    lemma_tail_run(s, p);
    let m = tail_run(s, p);
    if m < n {
        assert(p(s[s.len() - 1 - m]));
    } else if n < m {
        assert(p(s[s.len() - 1 - n]));
    }
}

/// The text without its leading white space.
pub open spec fn trim_start(s: Seq<char>) -> Seq<char> {
    s.skip(head_run(s, space()))
}

/// The text without its trailing white space.
pub open spec fn trim_end(s: Seq<char>) -> Seq<char> {
    s.take(s.len() - tail_run(s, space()))
}

/// The text without white space at either end.
pub open spec fn trim(s: Seq<char>) -> Seq<char> {
    trim_end(trim_start(s))
}

/// The position of the first `c`, or the length where there is none.
pub open spec fn find(s: Seq<char>, c: char) -> int {
    head_run(s, other_than(c))
}

/// A line without the carriage return that its line feed may have had before it.
pub open spec fn without_cr(s: Seq<char>) -> Seq<char> {
    if s.len() > 0 && s.last() == '\r' {
        s.drop_last()
    } else {
        s
    }
}

/// The lines of a text: each ends at a line feed, or at a carriage return and
/// a line feed, and the last may end with the text.
pub open spec fn lines(s: Seq<char>) -> Seq<Seq<char>>
    decreases s.len(),
{
    let n = find(s, '\n');
    if s.len() == 0 {
        Seq::empty()
    } else if n == s.len() {
        seq![s]
    } else {
        proof {
            lemma_head_run(s, other_than('\n'));
        }
        seq![without_cr(s.take(n))] + lines(s.skip(n + 1))
    }
}

/// The pieces of a text between one separator and the next.
pub open spec fn split(s: Seq<char>, c: char) -> Seq<Seq<char>>
    decreases s.len(),
{
    let n = find(s, c);
    if n == s.len() {
        seq![s]
    } else {
        proof {
            lemma_head_run(s, other_than(c));
        }
        seq![s.take(n)] + split(s.skip(n + 1), c)
    }
}

/// The words of a text: the longest runs without white space.
pub open spec fn words(s: Seq<char>) -> Seq<Seq<char>>
    decreases s.len(),
{
    let rest = trim_start(s);
    let n = head_run(rest, ink());
    if rest.len() == 0 {
        Seq::empty()
    } else {
        proof {
            lemma_head_run(s, space());
            lemma_head_run(rest, ink());
        }
        seq![rest.take(n)] + words(rest.skip(n))
    }
}

/// Where `part` begins in `s` for the first time.
pub open spec fn find_text(s: Seq<char>, part: Seq<char>) -> Option<int>
    decreases s.len(),
{
    if part.is_prefix_of(s) {
        Some(0int)
    } else if s.len() == 0 {
        None
    } else {
        match find_text(s.skip(1), part) {
            Some(i) => Some(i + 1),
            None => None,
        }
    }
}

/// Whether `part` occurs in `s`.
pub open spec fn has_text(s: Seq<char>, part: Seq<char>) -> bool {
    exists|i: int|
        0 <= i && i + part.len() <= s.len() && #[trigger] s.subrange(i, i + part.len()) == part
}

/// The text with every `_` shown as a blank.
pub open spec fn spaced(s: Seq<char>) -> Seq<char> {
    s.map_values(|c: char| if c == '_' { ' ' } else { c })
}

/// What a list of slices holds.
pub open spec fn pieces(v: Seq<&[char]>) -> Seq<Seq<char>> {
    v.map_values(|p: &[char]| p@)
}

/// Whether a character is white space.
pub fn is_whitespace(c: char) -> (r: bool)
    ensures
        r == is_space(c),
{
    ('\u{9}' <= c && c <= '\u{d}') || c == ' ' || c == '\u{85}' || c == '\u{a0}' || c == '\u{1680}'
        || ('\u{2000}' <= c && c <= '\u{200a}') || c == '\u{2028}' || c == '\u{2029}' || c
        == '\u{202f}' || c == '\u{205f}' || c == '\u{3000}'
}

/// The characters of a string.
pub fn chars_of(s: &str) -> (r: Vec<char>)
    ensures
        r@ == s@,
{
    let mut r: Vec<char> = Vec::new();
    for c in it: s.chars()
        invariant
            r@ == it.seq().take(it.index() as int),
            it.seq() == s@,
    {
        r.push(c);
    }
    r
}

/// The string that a slice of characters spells.
pub fn string_of(s: &[char]) -> (r: String)
    ensures
        r@ == s@,
{
    let mut r = String::new();
    for i in 0..s.len()
        invariant
            r@ == s@.take(i as int),
    {
        r.push(s[i]);
    }
    assert(s@.take(s@.len() as int) == s@);
    r
}

/// Whether a slice spells exactly `other`.
pub fn equals(s: &[char], other: &str) -> (r: bool)
    ensures
        r == (s@ == other@),
{
    string_of(s) == other.to_owned()
}

/// Whether two strings spell the same.
pub fn same(a: &str, b: &str) -> (r: bool)
    ensures
        r == (a@ == b@),
{
    a.to_owned() == b.to_owned()
}

/// The slice without its leading white space.
pub fn trimmed_start(s: &[char]) -> (r: &[char])
    ensures
        r@ == trim_start(s@),
{
    let mut n: usize = 0;
    while n < s.len() && is_whitespace(s[n])
        invariant
            n <= s@.len(),
            forall|j: int| 0 <= j < n ==> space()(#[trigger] s@[j]),
        decreases s@.len() - n,
    {
        n = n + 1;
    }
    proof {
        lemma_head_run_is(s@, space(), n as int);
    }
    slice_subrange(s, n, s.len())
}

/// The slice without its trailing white space.
pub fn trimmed_end(s: &[char]) -> (r: &[char])
    ensures
        r@ == trim_end(s@),
{
    let mut n: usize = s.len();
    while n > 0 && is_whitespace(s[n - 1])
        invariant
            n <= s@.len(),
            forall|j: int| n <= j < s@.len() ==> space()(#[trigger] s@[j]),
        decreases n,
    {
        n = n - 1;
    }
    proof {
        lemma_tail_run_is(s@, space(), s@.len() - n);
    }
    slice_subrange(s, 0, n)
}

/// The slice without white space at either end.
pub fn trimmed(s: &[char]) -> (r: &[char])
    ensures
        r@ == trim(s@),
{
    trimmed_end(trimmed_start(s))
}

/// The position of the first `c`, or the length where there is none.
pub fn position(s: &[char], c: char) -> (n: usize)
    ensures
        n == find(s@, c),
        n <= s@.len(),
{
    let mut n: usize = 0;
    while n < s.len() && s[n] != c
        invariant
            n <= s@.len(),
            forall|j: int| 0 <= j < n ==> other_than(c)(#[trigger] s@[j]),
        decreases s@.len() - n,
    {
        n = n + 1;
    }
    proof {
        lemma_head_run_is(s@, other_than(c), n as int);
    }
    n
}

/// The lines of a text.
pub fn lines_of(s: &[char]) -> (r: Vec<&[char]>)
    ensures
        pieces(r@) == lines(s@),
{
    let mut r: Vec<&[char]> = Vec::new();
    let mut rest: &[char] = s;
    while rest.len() > 0
        invariant
            lines(s@) == pieces(r@) + lines(rest@),
        decreases rest@.len(),
    {
        let n = position(rest, '\n');
        let ghost before = pieces(r@);
        if n == rest.len() {
            r.push(rest);
            assert(pieces(r@) == before.push(rest@));
            rest = slice_subrange(rest, n, n);
        } else {
            let line = if n > 0 && rest[n - 1] == '\r' {
                slice_subrange(rest, 0, n - 1)
            } else {
                slice_subrange(rest, 0, n)
            };
            assert(line@ == without_cr(rest@.take(n as int)));
            r.push(line);
            assert(pieces(r@) == before.push(line@));
            rest = slice_subrange(rest, n + 1, rest.len());
        }
        assert(lines(s@) == pieces(r@) + lines(rest@));
    }
    assert(pieces(r@) + lines(rest@) == pieces(r@));
    r
}

/// The pieces of a text between one separator and the next.
pub fn split_of(s: &[char], c: char) -> (r: Vec<&[char]>)
    ensures
        pieces(r@) == split(s@, c),
{
    let mut r: Vec<&[char]> = Vec::new();
    let mut rest: &[char] = s;
    let mut n = position(rest, c);
    while n < rest.len()
        invariant
            n == find(rest@, c),
            n <= rest@.len(),
            split(s@, c) == pieces(r@) + split(rest@, c),
        decreases rest@.len(),
    {
        let ghost before = pieces(r@);
        let piece = slice_subrange(rest, 0, n);
        r.push(piece);
        assert(pieces(r@) == before.push(piece@));
        rest = slice_subrange(rest, n + 1, rest.len());
        assert(split(s@, c) == pieces(r@) + split(rest@, c));
        n = position(rest, c);
    }
    let ghost before = pieces(r@);
    r.push(rest);
    assert(pieces(r@) == before.push(rest@));
    r
}

/// The words of a text.
pub fn words_of(s: &[char]) -> (r: Vec<&[char]>)
    ensures
        pieces(r@) == words(s@),
{
    let mut r: Vec<&[char]> = Vec::new();
    let mut rest: &[char] = trimmed_start(s);
    proof {
        lemma_words_trim(s@);
        lemma_trimmed_start(s@);
    }
    while rest.len() > 0
        invariant
            words(s@) == pieces(r@) + words(rest@),
            rest@.len() > 0 ==> !is_space(rest@[0]),
        decreases rest@.len(),
    {
        let mut n: usize = 0;
        while n < rest.len() && !is_whitespace(rest[n])
            invariant
                n <= rest@.len(),
                forall|j: int| 0 <= j < n ==> ink()(#[trigger] rest@[j]),
            decreases rest@.len() - n,
        {
            n = n + 1;
        }
        let ghost before = pieces(r@);
        let word = slice_subrange(rest, 0, n);
        let after = slice_subrange(rest, n, rest.len());
        proof {
            lemma_head_run_is(rest@, space(), 0);
            lemma_head_run_is(rest@, ink(), n as int);
            assert(rest@.skip(0) == rest@);
            lemma_words_trim(after@);
            lemma_trimmed_start(after@);
            lemma_head_run(after@, space());
        }
        r.push(word);
        assert(pieces(r@) == before.push(word@));
        rest = trimmed_start(after);
        assert(words(s@) == pieces(r@) + words(rest@));
    }
    proof {
        lemma_head_run_is(rest@, space(), 0);
        lemma_head_run_is(rest@.skip(0), ink(), 0);
    }
    assert(pieces(r@) + words(rest@) == pieces(r@));
    r
}

/// What is left once the leading white space is gone does not begin with any.
pub proof fn lemma_trimmed_start(s: Seq<char>)
    ensures
        trim_start(s).len() > 0 ==> !is_space(trim_start(s)[0]),
        trim_start(s).len() <= s.len(),
{
    lemma_head_run(s, space());
}

/// Leading white space holds no word.
pub proof fn lemma_words_trim(s: Seq<char>)
    ensures
        words(trim_start(s)) == words(s),
{
    lemma_head_run(s, space());
    let t = trim_start(s);
    lemma_trimmed_start(s);
    lemma_head_run_is(t, space(), 0);
    assert(t.skip(0) == t);
}

/// Whether a slice begins with `prefix`.
pub fn starts_with(s: &[char], prefix: &str) -> (r: bool)
    ensures
        r == prefix@.is_prefix_of(s@),
{
    let head = chars_of(prefix);
    if head.len() > s.len() {
        return false;
    }
    for i in 0..head.len()
        invariant
            head@ == prefix@,
            head@.len() <= s@.len(),
            forall|j: int| 0 <= j < i ==> #[trigger] s@[j] == head@[j],
    {
        if s[i] != head[i] {
            assert(s@.subrange(0, prefix@.len() as int)[i as int] != prefix@[i as int]);
            return false;
        }
    }
    assert(s@.subrange(0, prefix@.len() as int) == prefix@);
    true
}

/// What follows `prefix`, where the slice begins with it.
pub fn strip_prefix<'a>(s: &'a [char], prefix: &str) -> (r: Option<&'a [char]>)
    ensures
        match r {
            Some(rest) => prefix@.is_prefix_of(s@) && rest@ == s@.skip(prefix@.len() as int),
            None => !prefix@.is_prefix_of(s@),
        },
{
    if starts_with(s, prefix) {
        let n = chars_of(prefix).len();
        Some(slice_subrange(s, n, s.len()))
    } else {
        None
    }
}

/// Whether a character occurs in a slice.
pub fn contains_char(s: &[char], c: char) -> (r: bool)
    ensures
        r == s@.contains(c),
{
    for i in 0..s.len()
        invariant
            forall|j: int| 0 <= j < i ==> #[trigger] s@[j] != c,
    {
        if s[i] == c {
            return true;
        }
    }
    false
}

/// Where `part` begins in a slice for the first time.
pub fn position_of(s: &[char], part: &str) -> (r: Option<usize>)
    ensures
        match r {
            Some(n) => find_text(s@, part@) == Some(n as int) && n + part@.len() <= s@.len(),
            None => find_text(s@, part@) is None,
        },
{
    let mut n: usize = 0;
    assert(s@.skip(0) == s@);
    loop
        invariant
            n <= s@.len(),
            find_text(s@, part@) == match find_text(s@.skip(n as int), part@) {
                Some(i) => Some(i + n),
                None => None,
            },
        decreases s@.len() - n,
    {
        let rest = slice_subrange(s, n, s.len());
        if starts_with(rest, part) {
            return Some(n);
        }
        if n == s.len() {
            return None;
        }
        assert(s@.skip(n as int).skip(1) == s@.skip(n + 1));
        n = n + 1;
    }
}

/// Text is found somewhere exactly where it occurs, and found where it occurs
/// first.
pub proof fn lemma_find_text(s: Seq<char>, part: Seq<char>)
    ensures
        find_text(s, part) is Some <==> has_text(s, part),
        find_text(s, part) matches Some(n) ==> 0 <= n && n + part.len() <= s.len() && s.subrange(
            n,
            n + part.len(),
        ) == part,
    decreases s.len(),
{
    if part.is_prefix_of(s) {
        assert(s.subrange(0, 0int + part.len()) == part);
    } else if s.len() > 0 {
        let rest = s.skip(1);
        lemma_find_text(rest, part);
        if let Some(n) = find_text(rest, part) {
            assert(s.subrange(n + 1, n + 1 + part.len()) == rest.subrange(n, n + part.len()));
        }
        if has_text(s, part) {
            let i = choose|i: int|
                0 <= i && i + part.len() <= s.len() && #[trigger] s.subrange(i, i + part.len())
                    == part;
            if i == 0 {
                assert(part.is_prefix_of(s));
            }
            assert(rest.subrange(i - 1, i - 1 + part.len()) == s.subrange(i, i + part.len()));
        }
    } else if has_text(s, part) {
        assert(part == s);
        assert(part.is_prefix_of(s));
    }
}

/// Whether `part` occurs in a slice.
pub fn contains_text(s: &[char], part: &str) -> (r: bool)
    ensures
        r == has_text(s@, part@),
{
    proof {
        lemma_find_text(s@, part@);
    }
    match position_of(s, part) {
        Some(_) => true,
        None => false,
    }
}

/// The text with every `_` shown as a blank.
pub fn spaced_of(s: &[char]) -> (r: String)
    ensures
        r@ == spaced(s@),
{
    let mut r = String::new();
    for i in 0..s.len()
        invariant
            r@ == spaced(s@.take(i as int)),
    {
        let ghost before = r@;
        let c = if s[i] == '_' {
            ' '
        } else {
            s[i]
        };
        r.push(c);
        assert(spaced(s@.take(i + 1)) == before.push(c));
    }
    assert(s@.take(s@.len() as int) == s@);
    r
}

/// Nothing but white space.
pub open spec fn is_blank(s: Seq<char>) -> bool {
    forall|i: int| 0 <= i < s.len() ==> is_space(#[trigger] s[i])
}

/// No white space at either end.
pub open spec fn is_bare(s: Seq<char>) -> bool {
    s.len() > 0 ==> !is_space(s[0]) && !is_space(s.last())
}

/// Every word holds something, and no white space.
pub proof fn law_words_hold_no_blank(s: Seq<char>)
    ensures
        forall|i: int|
            0 <= i < words(s).len() ==> (#[trigger] words(s)[i]).len() > 0 && forall|j: int|
                0 <= j < words(s)[i].len() ==> !is_space(#[trigger] words(s)[i][j]),
    decreases s.len(),
{
    let rest = trim_start(s);
    let n = head_run(rest, ink());
    lemma_head_run(s, space());
    lemma_head_run(rest, ink());
    lemma_trimmed_start(s);
    if rest.len() > 0 {
        law_words_hold_no_blank(rest.skip(n));
        let first = rest.take(n);
        let others = words(rest.skip(n));
        assert(words(s) == seq![first] + others);
        assert forall|i: int| 0 <= i < words(s).len() implies (#[trigger] words(s)[i]).len() > 0
            && forall|j: int|
            0 <= j < words(s)[i].len() ==> !is_space(#[trigger] words(s)[i][j]) by {
            if i == 0 {
                assert forall|j: int| 0 <= j < first.len() implies !is_space(
                    #[trigger] first[j],
                ) by {
                    assert(ink()(rest[j]));
                }
            } else {
                assert(words(s)[i] == others[i - 1]);
            }
        }
    }
}

/// White space around a text is exactly what trimming takes away.
pub proof fn law_trim_takes_white_space(before: Seq<char>, text: Seq<char>, after: Seq<char>)
    requires
        is_blank(before),
        is_bare(text),
        is_blank(after),
    ensures
        trim(before + text + after) == text,
{
    let all = before + text + after;
    if text.len() == 0 {
        assert forall|j: int| 0 <= j < all.len() implies space()(#[trigger] all[j]) by {
            if j < before.len() {
                assert(all[j] == before[j]);
            } else {
                assert(all[j] == after[j - before.len()]);
            }
        }
        lemma_head_run_is(all, space(), all.len() as int);
        assert(trim_start(all) == text);
        lemma_tail_run_is(text, space(), 0);
    } else {
        assert forall|j: int| 0 <= j < before.len() implies space()(#[trigger] all[j]) by {
            assert(all[j] == before[j]);
        }
        assert(all[before.len() as int] == text[0]);
        lemma_head_run_is(all, space(), before.len() as int);
        let rest = text + after;
        assert(trim_start(all) == rest);
        assert forall|j: int| text.len() <= j < rest.len() implies space()(#[trigger] rest[j]) by {
            assert(rest[j] == after[j - text.len()]);
        }
        assert(rest[text.len() - 1] == text.last());
        lemma_tail_run_is(rest, space(), after.len() as int);
        assert(trim_end(rest) == text);
    }
}

/// A trimmed text has no white space at either end.
pub proof fn law_trimmed_is_bare(s: Seq<char>)
    ensures
        is_bare(trim(s)),
{
    lemma_trimmed_start(s);
    let rest = trim_start(s);
    lemma_tail_run(rest, space());
    let t = trim(s);
    if t.len() > 0 {
        assert(t[0] == rest[0]);
        assert(t.last() == rest[rest.len() - 1 - tail_run(rest, space())]);
    }
}

/// A text that ends a line, or holds none, is read apart from what follows it.
pub proof fn law_lines_of_two_texts(a: Seq<char>, b: Seq<char>)
    requires
        a.len() > 0 ==> a.last() == '\n',
    ensures
        lines(a + b) == lines(a) + lines(b),
    decreases a.len(),
{
    if a.len() == 0 {
        assert(a + b == b);
    } else {
        let n = find(a, '\n');
        lemma_head_run(a, other_than('\n'));
        assert(n < a.len()) by {
            if n == a.len() {
                assert(other_than('\n')(a[a.len() - 1]));
            }
        }
        let all = a + b;
        assert forall|j: int| 0 <= j < n implies other_than('\n')(#[trigger] all[j]) by {
            assert(other_than('\n')(a[j]));
        }
        lemma_head_run_is(all, other_than('\n'), n);
        assert(all.take(n) == a.take(n));
        assert(all.skip(n + 1) == a.skip(n + 1) + b);
        law_lines_of_two_texts(a.skip(n + 1), b);
        assert(lines(all) == seq![without_cr(a.take(n))] + (lines(a.skip(n + 1)) + lines(b)));
    }
}

/// A line is what stands before a line feed, or before a carriage return and a
/// line feed; the last one may do without. Nothing has no line.
pub proof fn law_a_line_ends_at_its_line_feed(line: Seq<char>)
    requires
        !line.contains('\n'),
    ensures
        lines(Seq::empty()) == Seq::<Seq<char>>::empty(),
        line.len() > 0 ==> lines(line) == seq![line],
        line.len() == 0 || line.last() != '\r' ==> lines(line.push('\n')) == seq![line],
        lines(line.push('\r').push('\n')) == seq![line],
{
    assert forall|j: int| 0 <= j < line.len() implies other_than('\n')(#[trigger] line[j]) by {
        if line[j] == '\n' {
            assert(line.contains('\n'));
        }
    }
    let n = line.len() as int;
    lemma_head_run_is(line, other_than('\n'), n);
    let fed = line.push('\n');
    lemma_head_run_is(fed, other_than('\n'), n);
    assert(fed.take(n) == line);
    assert(fed.skip(n + 1) == Seq::<char>::empty());
    let returned = line.push('\r');
    let both = returned.push('\n');
    lemma_head_run_is(both, other_than('\n'), n + 1);
    assert(both.take(n + 1) == returned);
    assert(returned.drop_last() == line);
    assert(both.skip(n + 2) == Seq::<char>::empty());
    assert(lines(fed) == seq![without_cr(line)] + lines(Seq::<char>::empty()));
    assert(lines(both) == seq![without_cr(returned)] + lines(Seq::<char>::empty()));
}

/// White space in front of a text holds no word.
pub proof fn law_white_space_holds_no_word(pad: Seq<char>, s: Seq<char>)
    requires
        is_blank(pad),
    ensures
        words(pad) == Seq::<Seq<char>>::empty(),
        words(pad + s) == words(s),
{
    lemma_blank_runs(pad);
    assert(pad.skip(pad.len() as int) == Seq::<char>::empty());
    let all = pad + s;
    let n = head_run(s, space());
    lemma_head_run(s, space());
    assert forall|j: int| 0 <= j < pad.len() + n implies space()(#[trigger] all[j]) by {
        if j < pad.len() {
            assert(is_space(pad[j]));
        } else {
            assert(space()(s[j - pad.len()]));
        }
    }
    if n < s.len() {
        assert(all[pad.len() + n] == s[n]);
    }
    lemma_head_run_is(all, space(), pad.len() + n);
    assert(trim_start(all) == trim_start(s));
}

proof fn lemma_blank_runs(pad: Seq<char>)
    requires
        is_blank(pad),
    ensures
        head_run(pad, space()) == pad.len(),
        tail_run(pad, space()) == pad.len(),
{
    assert forall|j: int| 0 <= j < pad.len() implies space()(#[trigger] pad[j]) by {
        assert(is_space(pad[j]));
    }
    lemma_head_run_is(pad, space(), pad.len() as int);
    lemma_tail_run_is(pad, space(), pad.len() as int);
}

/// No white space, and not empty.
pub open spec fn is_word(s: Seq<char>) -> bool {
    s.len() > 0 && forall|i: int| 0 <= i < s.len() ==> !is_space(#[trigger] s[i])
}

/// A word with white space or nothing around it is read as it stands.
pub proof fn law_a_word_is_read_as_it_stands(pad: Seq<char>, word: Seq<char>, rest: Seq<char>)
    requires
        is_blank(pad),
        is_word(word),
        rest.len() > 0 ==> is_space(rest[0]),
    ensures
        words(pad + word + rest) == seq![word] + words(rest),
{
    let s = word + rest;
    assert(pad + word + rest == pad + s);
    law_white_space_holds_no_word(pad, s);
    assert(s[0] == word[0]);
    lemma_head_run_is(s, space(), 0);
    assert(s.skip(0) == s);
    assert forall|j: int| 0 <= j < word.len() implies ink()(#[trigger] s[j]) by {
        assert(!is_space(word[j]));
    }
    lemma_head_run_is(s, ink(), word.len() as int);
    assert(s.take(word.len() as int) == word);
    assert(s.skip(word.len() as int) == rest);
}

/// The words of two texts with white space between them are those of the one, then
/// those of the other.
pub proof fn law_words_of_two_texts(a: Seq<char>, b: Seq<char>)
    requires
        a.len() == 0 || is_space(a.last()) || b.len() == 0 || is_space(b[0]),
    ensures
        words(a + b) == words(a) + words(b),
    decreases a.len(),
{
    lemma_head_run(a, space());
    let m = head_run(a, space());
    let pad = a.take(m);
    let t = a.skip(m);
    assert forall|j: int| 0 <= j < pad.len() implies is_space(#[trigger] pad[j]) by {
        assert(space()(a[j]));
    }
    if t.len() == 0 {
        assert(pad == a);
        law_white_space_holds_no_word(a, b);
        assert(Seq::<Seq<char>>::empty() + words(b) == words(b));
    } else {
        lemma_head_run(t, ink());
        let n = head_run(t, ink());
        let word = t.take(n);
        let rest = t.skip(n);
        assert(t[0] == a[m]);
        assert(n > 0);
        assert forall|j: int| 0 <= j < word.len() implies !is_space(#[trigger] word[j]) by {
            assert(ink()(t[j]));
        }
        assert(a == pad + word + rest);
        assert(a + b == pad + word + (rest + b));
        if rest.len() > 0 {
            assert(rest[0] == t[n]);
            assert(rest.last() == a.last());
        } else {
            assert(a.last() == word.last());
            assert(rest + b == b);
        }
        law_words_of_two_texts(rest, b);
        law_a_word_is_read_as_it_stands(pad, word, rest);
        law_a_word_is_read_as_it_stands(pad, word, rest + b);
        assert(seq![word] + (words(rest) + words(b)) == (seq![word] + words(rest)) + words(b));
    }
}

/// A piece ends at its separator; a text without separators is one piece.
pub proof fn law_a_piece_ends_at_its_separator(piece: Seq<char>, c: char, rest: Seq<char>)
    requires
        !piece.contains(c),
    ensures
        split(piece, c) == seq![piece],
        split(piece.push(c) + rest, c) == seq![piece] + split(rest, c),
{
    let n = piece.len() as int;
    assert forall|j: int| 0 <= j < n implies other_than(c)(#[trigger] piece[j]) by {
        if piece[j] == c {
            assert(piece.contains(c));
        }
    }
    lemma_head_run_is(piece, other_than(c), n);
    let all = piece.push(c) + rest;
    assert forall|j: int| 0 <= j < n implies other_than(c)(#[trigger] all[j]) by {
        assert(all[j] == piece[j]);
    }
    lemma_head_run_is(all, other_than(c), n);
    assert(all.take(n) == piece);
    assert(all.skip(n + 1) == rest);
}

/// Showing `_` as a blank leaves every other character in its place.
pub proof fn law_only_underscores_become_blanks(s: Seq<char>)
    ensures
        spaced(s).len() == s.len(),
        forall|i: int|
            0 <= i < s.len() ==> #[trigger] spaced(s)[i] == (if s[i] == '_' {
                ' '
            } else {
                s[i]
            }),
{
}

/// Text is found where it occurs first.
pub proof fn law_text_is_found_where_it_occurs_first(s: Seq<char>, part: Seq<char>, n: int)
    requires
        0 <= n,
        n + part.len() <= s.len(),
        s.subrange(n, n + part.len()) == part,
        forall|j: int| 0 <= j < n ==> #[trigger] s.subrange(j, j + part.len()) != part,
    ensures
        find_text(s, part) == Some(n),
        has_text(s, part),
    decreases n,
{
    if n == 0 {
        assert forall|j: int| 0 <= j < part.len() implies #[trigger] s[j] == part[j] by {
            assert(s.subrange(0, 0int + part.len())[j] == s[j]);
        }
        assert(part.is_prefix_of(s));
    } else {
        let rest = s.skip(1);
        assert(rest.subrange(n - 1, n - 1 + part.len()) == s.subrange(n, n + part.len()));
        assert forall|j: int| 0 <= j < n - 1 implies #[trigger] rest.subrange(j, j + part.len())
            != part by {
            assert(rest.subrange(j, j + part.len()) == s.subrange(j + 1, j + 1 + part.len()));
        }
        law_text_is_found_where_it_occurs_first(rest, part, n - 1);
        assert(s.subrange(0, 0int + part.len()) != part);
        if part.is_prefix_of(s) {
            assert(s.subrange(0, 0int + part.len()) == part);
        }
    }
}

/// What is made of each of some things, taken from the front.
pub proof fn lemma_filter_map_front<A, B>(a: A, s: Seq<A>, f: spec_fn(A) -> Option<B>)
    ensures
        (seq![a] + s).filter_map(f) == (match f(a) {
            Some(b) => seq![b],
            None => Seq::empty(),
        }) + s.filter_map(f),
    decreases s.len(),
{
    reveal(Seq::filter_map);
    let all = seq![a] + s;
    let first = match f(a) {
        Some(b) => seq![b],
        None => Seq::empty(),
    };
    if s.len() == 0 {
        assert(all == seq![a]);
        Seq::lemma_filter_map_singleton(a, f);
        assert(first + s.filter_map(f) == first);
    } else {
        lemma_filter_map_front(a, s.drop_last(), f);
        assert(all.drop_last() == seq![a] + s.drop_last());
        assert(all.last() == s.last());
        assert(all.filter_map(f) == first + s.filter_map(f));
    }
}

/// What is made of each of the things in two rows.
pub proof fn lemma_filter_map_of_two<A, B>(s: Seq<A>, t: Seq<A>, f: spec_fn(A) -> Option<B>)
    ensures
        (s + t).filter_map(f) == s.filter_map(f) + t.filter_map(f),
    decreases t.len(),
{
    reveal(Seq::filter_map);
    if t.len() == 0 {
        assert(s + t == s);
        assert(s.filter_map(f) + t.filter_map(f) == s.filter_map(f));
    } else {
        lemma_filter_map_of_two(s, t.drop_last(), f);
        assert((s + t).drop_last() == s + t.drop_last());
        assert((s + t).last() == t.last());
        assert((s + t).filter_map(f) == s.filter_map(f) + t.filter_map(f));
    }
}

} // verus!

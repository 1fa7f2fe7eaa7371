//! Text primitives over `Seq<char>`: searching, replacing, folding case and writing numbers.

use vstd::prelude::*;
use vstd::string::*;

verus! {

/// `String::push`: appends one character to the end of the string.
pub assume_specification[ std::string::String::push ](s: &mut std::string::String, c: char)
    ensures
        final(s)@ == old(s)@.push(c),
;

// ---------------------------------------------------------------------------
// Case
// ---------------------------------------------------------------------------

/// The lowercase equivalent that `str::to_lowercase` gives to a text.
pub uninterp spec fn lowercase_of(text: Seq<char>) -> Seq<char>;

/// An ASCII capital letter becomes the small letter; any other character stays.
pub open spec fn ascii_lower(c: char) -> char {
    if 'A' <= c <= 'Z' {
        ((c as u32) + 32) as char
    } else {
        c
    }
}

/// `text` with every ASCII capital letter made small.
pub open spec fn ascii_lowercase(text: Seq<char>) -> Seq<char> {
    text.map_values(|c: char| ascii_lower(c))
}

/// True when `text` holds ASCII characters only.
pub open spec fn all_ascii(text: Seq<char>) -> bool {
    forall|i: int| 0 <= i < text.len() ==> (#[trigger] text[i]) as u32 <= 127
}

/// Calls `str::to_lowercase`. The result is a function of the text alone, and on an
/// ASCII text it is the text with `A` to `Z` mapped to `a` to `z`. What becomes of
/// characters beyond ASCII is left to the Unicode tables behind that function.
#[verifier::external_body]
pub(crate) fn lowercase(text: &str) -> (result: String)
    ensures
        result@ == lowercase_of(text@),
        all_ascii(text@) ==> result@ == ascii_lowercase(text@),
{
    text.to_lowercase()
}

/// The ASCII small letter for `c`.
pub(crate) fn lower_char(c: char) -> (result: char)
    ensures
        result == ascii_lower(c),
{
    if 'A' <= c && c <= 'Z' {
        ((c as u8) + 32) as char
    } else {
        c
    }
}

/// True when the two texts are the same once ASCII capital letters are made small.
pub fn eq_ignore_ascii_case(a: &str, b: &str) -> (result: bool)
    ensures
        result == (ascii_lowercase(a@) == ascii_lowercase(b@)),
{
    let x = to_chars(a);
    let y = to_chars(b);
    if x.len() != y.len() {
        assert(ascii_lowercase(a@).len() != ascii_lowercase(b@).len());
        return false;
    }
    let mut i: usize = 0;
    while i < x.len()
        invariant
            x@ == a@,
            y@ == b@,
            x@.len() == y@.len(),
            i <= x@.len(),
            forall|j: int| 0 <= j < i ==> ascii_lower(x@[j]) == ascii_lower(#[trigger] y@[j]),
        decreases x@.len() - i,
    {
        if lower_char(x[i]) != lower_char(y[i]) {
            assert(ascii_lowercase(a@)[i as int] != ascii_lowercase(b@)[i as int]);
            return false;
        }
        i = i + 1;
    }
    assert(ascii_lowercase(a@) =~= ascii_lowercase(b@));
    true
}

// ---------------------------------------------------------------------------
// Characters
// ---------------------------------------------------------------------------

/// The characters of `text`, in order.
pub fn to_chars(text: &str) -> (result: Vec<char>)
    ensures
        result@ == text@,
{
    let mut out: Vec<char> = Vec::new();
    for c in it: text.chars()
        invariant
            it.seq() == text@,
            out@ == text@.take(it.index() as int),
    {
        out.push(c);
    }
    out
}

/// The text made of the characters `chars[from..to]`.
pub fn from_chars(chars: &Vec<char>, from: usize, to: usize) -> (result: String)
    requires
        from <= to <= chars@.len(),
    ensures
        result@ == chars@.subrange(from as int, to as int),
{
    let mut out = String::new();
    let mut i: usize = from;
    while i < to
        invariant
            from <= i <= to <= chars@.len(),
            out@ == chars@.subrange(from as int, i as int),
        decreases to - i,
    {
        out.push(chars[i]);
        assert(chars@.subrange(from as int, i as int).push(chars@[i as int]) =~= chars@.subrange(
            from as int,
            i + 1,
        ));
        i = i + 1;
    }
    out
}

/// True when both texts hold the same characters.
pub fn same_text(a: &str, b: &str) -> (result: bool)
    ensures
        result == (a@ == b@),
{
    a.to_owned() == b.to_owned()
}

// ---------------------------------------------------------------------------
// Searching
// ---------------------------------------------------------------------------

/// True when `needle` stands in `text` at position `at`.
pub open spec fn occurs_at(text: Seq<char>, needle: Seq<char>, at: int) -> bool {
    &&& 0 <= at
    &&& at + needle.len() <= text.len()
    &&& text.subrange(at, at + needle.len()) == needle
}

/// True when `needle` stands somewhere in `text`.
pub open spec fn contains_text(text: Seq<char>, needle: Seq<char>) -> bool {
    exists|at: int| occurs_at(text, needle, at)
}

/// The position of the leftmost occurrence of `needle` in `text` that starts at `from`
/// or later.
pub open spec fn first_from(text: Seq<char>, needle: Seq<char>, from: int) -> Option<int>
    decreases text.len() + 1 - from,
{
    if from < 0 || from > text.len() {
        None
    } else if occurs_at(text, needle, from) {
        Some(from)
    } else {
        first_from(text, needle, from + 1)
    }
}

/// The leftmost occurrence is an occurrence, and none starts before it.
pub proof fn lemma_first_from(text: Seq<char>, needle: Seq<char>, from: int)
    requires
        0 <= from,
    ensures
        match first_from(text, needle, from) {
            Some(at) => from <= at && occurs_at(text, needle, at) && forall|j: int|
                from <= j < at ==> !occurs_at(text, needle, j),
            None => forall|j: int| from <= j ==> !occurs_at(text, needle, j),
        },
    decreases text.len() + 1 - from,
{
    if from <= text.len() && !occurs_at(text, needle, from) {
        lemma_first_from(text, needle, from + 1);
    }
}

/// True when `needle` stands in `text` at `at`.
fn matches_at(text: &Vec<char>, needle: &Vec<char>, at: usize) -> (result: bool)
    requires
        at <= text@.len(),
    ensures
        result == occurs_at(text@, needle@, at as int),
{
    let total: usize = text.len();
    if needle.len() > total - at {
        return false;
    }
    let mut i: usize = 0;
    while i < needle.len()
        invariant
            at + needle@.len() <= text@.len(),
            text@.len() == total,
            i <= needle@.len(),
            forall|j: int| 0 <= j < i ==> text@[at + j] == #[trigger] needle@[j],
        decreases needle@.len() - i,
    {
        if text[at + i] != needle[i] {
            assert(text@.subrange(at as int, at + needle@.len())[i as int] != needle@[i as int]);
            return false;
        }
        i = i + 1;
    }
    assert(text@.subrange(at as int, at + needle@.len()) =~= needle@);
    true
}

/// The leftmost occurrence of `needle` in `text` at `from` or later.
pub fn find_from(text: &Vec<char>, needle: &Vec<char>, from: usize) -> (result: Option<usize>)
    requires
        from <= text@.len(),
    ensures
        match result {
            Some(at) => first_from(text@, needle@, from as int) == Some(at as int),
            None => first_from(text@, needle@, from as int) is None,
        },
{
    let mut i: usize = from;
    while i < text.len()
        invariant
            from <= i <= text@.len(),
            first_from(text@, needle@, from as int) == first_from(text@, needle@, i as int),
        decreases text@.len() - i,
    {
        if matches_at(text, needle, i) {
            return Some(i);
        }
        i = i + 1;
    }
    if matches_at(text, needle, i) {
        Some(i)
    } else {
        assert(first_from(text@, needle@, i + 1) is None);
        None
    }
}

/// The leftmost position of `c` in `text`.
pub open spec fn first_index(text: Seq<char>, c: char) -> Option<int>
    decreases text.len(),
{
    if text.len() == 0 {
        None
    } else if text[0] == c {
        Some(0)
    } else {
        match first_index(text.skip(1), c) {
            Some(i) => Some(i + 1),
            None => None,
        }
    }
}

/// The rightmost position of `c` in `text`.
pub open spec fn last_index(text: Seq<char>, c: char) -> Option<int>
    decreases text.len(),
{
    if text.len() == 0 {
        None
    } else if text.last() == c {
        Some(text.len() - 1)
    } else {
        last_index(text.drop_last(), c)
    }
}

/// The leftmost position holds the character, and no position before it does.
pub proof fn lemma_first_index(text: Seq<char>, c: char)
    ensures
        match first_index(text, c) {
            Some(i) => 0 <= i < text.len() && text[i] == c && forall|j: int|
                0 <= j < i ==> text[j] != c,
            None => !text.contains(c),
        },
    decreases text.len(),
{
    if text.len() > 0 && text[0] != c {
        let rest = text.skip(1);
        lemma_first_index(rest, c);
        match first_index(rest, c) {
            Some(i) => {
                assert forall|j: int| 0 <= j < i + 1 implies text[j] != c by {
                    if j > 0 {
                        assert(text[j] == rest[j - 1]);
                    }
                }
            },
            None => {
                assert forall|j: int| 0 <= j < text.len() implies text[j] != c by {
                    if j > 0 {
                        assert(text[j] == rest[j - 1]);
                    }
                }
            },
        }
    }
}

/// The rightmost position holds the character, and no position after it does.
pub proof fn lemma_last_index(text: Seq<char>, c: char)
    ensures
        match last_index(text, c) {
            Some(i) => 0 <= i < text.len() && text[i] == c && forall|j: int|
                i < j < text.len() ==> text[j] != c,
            None => !text.contains(c),
        },
    decreases text.len(),
{
    if text.len() > 0 && text.last() != c {
        let rest = text.drop_last();
        lemma_last_index(rest, c);
        match last_index(rest, c) {
            Some(i) => {
                assert forall|j: int| i < j < text.len() implies text[j] != c by {
                    if j < text.len() - 1 {
                        assert(text[j] == rest[j]);
                    }
                }
            },
            None => {
                assert forall|j: int| 0 <= j < text.len() implies text[j] != c by {
                    if j < text.len() - 1 {
                        assert(text[j] == rest[j]);
                    }
                }
            },
        }
    }
}

/// The leftmost position of `c` in `text`.
pub fn find_char(text: &Vec<char>, c: char) -> (result: Option<usize>)
    ensures
        match result {
            Some(at) => first_index(text@, c) == Some(at as int),
            None => first_index(text@, c) is None,
        },
{
    proof {
        lemma_first_index(text@, c);
    }
    let mut i: usize = 0;
    while i < text.len()
        invariant
            i <= text@.len(),
            forall|j: int| 0 <= j < i ==> text@[j] != c,
            match first_index(text@, c) {
                Some(k) => 0 <= k < text@.len() && text@[k] == c && forall|j: int|
                    0 <= j < k ==> text@[j] != c,
                None => !text@.contains(c),
            },
        decreases text@.len() - i,
    {
        if text[i] == c {
            return Some(i);
        }
        i = i + 1;
    }
    None
}

/// The rightmost position of `c` in `text`.
pub fn rfind_char(text: &Vec<char>, c: char) -> (result: Option<usize>)
    ensures
        match result {
            Some(at) => last_index(text@, c) == Some(at as int),
            None => last_index(text@, c) is None,
        },
{
    proof {
        lemma_last_index(text@, c);
    }
    let mut i: usize = text.len();
    while i > 0
        invariant
            i <= text@.len(),
            forall|j: int| i <= j < text@.len() ==> text@[j] != c,
            match last_index(text@, c) {
                Some(k) => 0 <= k < text@.len() && text@[k] == c && forall|j: int|
                    k < j < text@.len() ==> text@[j] != c,
                None => !text@.contains(c),
            },
        decreases i,
    {
        i = i - 1;
        if text[i] == c {
            return Some(i);
        }
    }
    None
}

// ---------------------------------------------------------------------------
// Replacing
// ---------------------------------------------------------------------------

/// `text` with every occurrence of `needle`, found from left to right and without
/// overlap, replaced by `to`.
pub open spec fn replace_all(text: Seq<char>, needle: Seq<char>, to: Seq<char>) -> Seq<char>
    recommends
        needle.len() > 0,
    decreases text.len(),
{
    if text.len() == 0 || needle.len() == 0 {
        text
    } else if occurs_at(text, needle, 0) {
        to + replace_all(text.skip(needle.len() as int), needle, to)
    } else {
        seq![text[0]] + replace_all(text.skip(1), needle, to)
    }
}

/// Replaces every occurrence of `needle` in `text` by `to`.
pub fn replace(text: &Vec<char>, needle: &Vec<char>, to: &Vec<char>) -> (result: Vec<char>)
    requires
        needle@.len() > 0,
    ensures
        result@ == replace_all(text@, needle@, to@),
{
    let mut out: Vec<char> = Vec::new();
    let mut i: usize = 0;
    assert(text@.skip(0) =~= text@);
    while i < text.len()
        invariant
            needle@.len() > 0,
            i <= text@.len(),
            out@ + replace_all(text@.skip(i as int), needle@, to@) == replace_all(
                text@,
                needle@,
                to@,
            ),
        decreases text@.len() - i,
    {
        let ghost rest = text@.skip(i as int);
        let ghost before = out@;
        assert(occurs_at(rest, needle@, 0) == occurs_at(text@, needle@, i as int)) by {
            if i + needle@.len() <= text@.len() {
                assert(rest.subrange(0, needle@.len() as int) =~= text@.subrange(
                    i as int,
                    i + needle@.len(),
                ));
            }
        }
        if matches_at(text, needle, i) {
            push_all(&mut out, to);
            assert(rest.skip(needle@.len() as int) =~= text@.skip(i + needle@.len()));
            assert(before + (to@ + replace_all(text@.skip(i + needle@.len()), needle@, to@))
                =~= out@ + replace_all(text@.skip(i + needle@.len()), needle@, to@));
            i = i + needle.len();
        } else {
            out.push(text[i]);
            assert(rest.skip(1) =~= text@.skip(i + 1));
            assert(before + (seq![rest[0]] + replace_all(text@.skip(i + 1), needle@, to@)) =~= out@
                + replace_all(text@.skip(i + 1), needle@, to@));
            i = i + 1;
        }
    }
    assert(out@ + replace_all(text@.skip(i as int), needle@, to@) =~= out@);
    out
}

/// Appends the characters of `more` to `out`.
fn push_all(out: &mut Vec<char>, more: &Vec<char>)
    ensures
        final(out)@ == old(out)@ + more@,
{
    let mut i: usize = 0;
    assert(out@ =~= old(out)@ + more@.take(0));
    while i < more.len()
        invariant
            i <= more@.len(),
            out@ == old(out)@ + more@.take(i as int),
        decreases more@.len() - i,
    {
        out.push(more[i]);
        assert(more@.take(i as int).push(more@[i as int]) =~= more@.take(i + 1));
        i = i + 1;
    }
    assert(more@.take(i as int) =~= more@);
}

/// Replacing a text that does not occur changes nothing.
pub proof fn lemma_replace_absent(text: Seq<char>, needle: Seq<char>, to: Seq<char>)
    requires
        !contains_text(text, needle),
    ensures
        replace_all(text, needle, to) == text,
    decreases text.len(),
{
    if text.len() > 0 && needle.len() > 0 {
        assert(!occurs_at(text, needle, 0));
        lemma_contains_in_skip(text, needle, 1);
        lemma_replace_absent(text.skip(1), needle, to);
        assert(seq![text[0]] + text.skip(1) =~= text);
    }
}

/// What occurs in the rest of a text occurs in the text.
pub proof fn lemma_contains_in_skip(text: Seq<char>, needle: Seq<char>, n: int)
    requires
        0 <= n <= text.len(),
    ensures
        contains_text(text.skip(n), needle) ==> contains_text(text, needle),
{
    if contains_text(text.skip(n), needle) {
        let at = choose|at: int| occurs_at(text.skip(n), needle, at);
        assert(text.subrange(n + at, n + at + needle.len()) =~= text.skip(n).subrange(
            at,
            at + needle.len(),
        ));
        assert(occurs_at(text, needle, n + at));
    }
}

/// True when no character is in both texts.
pub open spec fn disjoint(a: Seq<char>, b: Seq<char>) -> bool {
    forall|i: int, j: int| 0 <= i < a.len() && 0 <= j < b.len() ==> a[i] != b[j]
}

/// A start of the replaced text that shares no character with the replacement is a
/// start of the text itself.
proof fn lemma_replace_prefix(
    text: Seq<char>,
    needle: Seq<char>,
    to: Seq<char>,
    start: Seq<char>,
)
    requires
        to.len() > 0,
        disjoint(start, to),
        occurs_at(replace_all(text, needle, to), start, 0),
    ensures
        occurs_at(text, start, 0),
    decreases text.len(),
{
    let whole = replace_all(text, needle, to);
    assert(whole.subrange(0, start.len() as int) == start);
    if start.len() == 0 {
        assert(text.subrange(0, 0) =~= start);
    } else if text.len() > 0 && needle.len() > 0 {
        assert(start[0] == whole[0]);
        if occurs_at(text, needle, 0) {
            assert(whole[0] == to[0]);
            assert(false);
        } else {
            let rest = replace_all(text.skip(1), needle, to);
            let more = start.skip(1);
            assert(rest.subrange(0, more.len() as int) =~= more) by {
                assert forall|j: int| 0 <= j < more.len() implies rest[j] == more[j] by {
                    assert(whole[j + 1] == rest[j]);
                    assert(start[j + 1] == whole.subrange(0, start.len() as int)[j + 1]);
                }
            }
            assert(disjoint(more, to)) by {
                assert forall|i: int, j: int|
                    0 <= i < more.len() && 0 <= j < to.len() implies more[i] != to[j] by {
                    assert(more[i] == start[i + 1]);
                }
            }
            lemma_replace_prefix(text.skip(1), needle, to, more);
            assert(text.subrange(0, start.len() as int) =~= start) by {
                assert forall|j: int| 0 <= j < start.len() implies text[j] == start[j] by {
                    if j > 0 {
                        assert(text.skip(1).subrange(0, more.len() as int)[j - 1] == more[j - 1]);
                    }
                }
            }
        }
    }
}

/// Replacing `needle` leaves no occurrence of `needle`, and brings in no occurrence of a
/// `pattern` that was not there, where neither shares a character with the replacement.
pub proof fn lemma_replace_removes(
    text: Seq<char>,
    needle: Seq<char>,
    to: Seq<char>,
    pattern: Seq<char>,
)
    requires
        needle.len() > 0,
        to.len() > 0,
        pattern.len() > 0,
        disjoint(pattern, to),
        pattern == needle || !contains_text(text, pattern),
    ensures
        !contains_text(replace_all(text, needle, to), pattern),
    decreases text.len(),
{
    let whole = replace_all(text, needle, to);
    if contains_text(whole, pattern) {
        let at = choose|at: int| occurs_at(whole, pattern, at);
        if text.len() > 0 {
            assert(pattern[0] == whole.subrange(at, at + pattern.len())[0]);
            if occurs_at(text, needle, 0) {
                let n = needle.len() as int;
                lemma_contains_in_skip(text, pattern, n);
                lemma_replace_removes(text.skip(n), needle, to, pattern);
                if at < to.len() {
                    assert(whole[at] == to[at]);
                } else {
                    let rest = replace_all(text.skip(n), needle, to);
                    let k = at - to.len();
                    assert(rest.subrange(k, k + pattern.len()) =~= whole.subrange(
                        at,
                        at + pattern.len(),
                    ));
                    assert(occurs_at(rest, pattern, k));
                }
            } else if at == 0 {
                lemma_replace_prefix(text, needle, to, pattern);
            } else {
                lemma_contains_in_skip(text, pattern, 1);
                lemma_replace_removes(text.skip(1), needle, to, pattern);
                let rest = replace_all(text.skip(1), needle, to);
                assert(rest.subrange(at - 1, at - 1 + pattern.len()) =~= whole.subrange(
                    at,
                    at + pattern.len(),
                ));
                assert(occurs_at(rest, pattern, at - 1));
            }
        }
    }
}

/// A search from `from` on is the search in what is left after `from` characters.
pub proof fn lemma_first_from_shift(text: Seq<char>, needle: Seq<char>, from: int, by: int)
    requires
        0 <= by <= from,
        by <= text.len(),
    ensures
        first_from(text, needle, from) == (match first_from(text.skip(by), needle, from - by) {
            Some(at) => Some(at + by),
            None => None,
        }),
    decreases text.len() + 1 - from,
{
    if from <= text.len() {
        assert(occurs_at(text, needle, from) == occurs_at(text.skip(by), needle, from - by)) by {
            if from + needle.len() <= text.len() {
                assert(text.subrange(from, from + needle.len()) =~= text.skip(by).subrange(
                    from - by,
                    from - by + needle.len(),
                ));
            }
        }
        if !occurs_at(text, needle, from) {
            lemma_first_from_shift(text, needle, from + 1, by);
        }
    }
}

/// The leftmost occurrence is where `needle` occurs and no earlier place does.
pub proof fn lemma_first_from_is(text: Seq<char>, needle: Seq<char>, from: int, at: int)
    requires
        0 <= from <= at,
        occurs_at(text, needle, at),
        forall|j: int| from <= j < at ==> !occurs_at(text, needle, j),
    ensures
        first_from(text, needle, from) == Some(at),
    decreases at - from,
{
    if from < at {
        lemma_first_from_is(text, needle, from + 1, at);
    }
}

// ---------------------------------------------------------------------------
// Laws
// ---------------------------------------------------------------------------

/// Two characters are the same but for case exactly where they are the same, or where
/// they are the capital and the small form of one ASCII letter.
pub proof fn law_case_of_a_character(c: char, d: char)
    ensures
        ascii_lower(c) == ascii_lower(d) <==> {
            ||| c == d
            ||| 'A' <= c <= 'Z' && d as u32 == c as u32 + 32
            ||| 'A' <= d <= 'Z' && c as u32 == d as u32 + 32
        },
{
}

/// Two texts are the same but for case exactly where they have the same length and, at
/// every position, the same character or the two forms of one ASCII letter.
pub proof fn law_case_of_a_text(a: Seq<char>, b: Seq<char>)
    ensures
        ascii_lowercase(a) == ascii_lowercase(b) <==> {
            &&& a.len() == b.len()
            &&& forall|i: int| #![trigger a[i], b[i]]
                0 <= i < a.len() ==> {
                    ||| a[i] == b[i]
                    ||| 'A' <= a[i] <= 'Z' && b[i] as u32 == a[i] as u32 + 32
                    ||| 'A' <= b[i] <= 'Z' && a[i] as u32 == b[i] as u32 + 32
                }
        },
{
    let x = ascii_lowercase(a);
    let y = ascii_lowercase(b);
    if x == y {
        assert(x.len() == a.len() && y.len() == b.len());
        assert forall|i: int| #![trigger a[i], b[i]] 0 <= i < a.len() implies {
            ||| a[i] == b[i]
            ||| 'A' <= a[i] <= 'Z' && b[i] as u32 == a[i] as u32 + 32
            ||| 'A' <= b[i] <= 'Z' && a[i] as u32 == b[i] as u32 + 32
        } by {
            assert(x[i] == y[i]);
            law_case_of_a_character(a[i], b[i]);
        }
    } else if a.len() == b.len() && forall|i: int| #![trigger a[i], b[i]]
        0 <= i < a.len() ==> {
            ||| a[i] == b[i]
            ||| 'A' <= a[i] <= 'Z' && b[i] as u32 == a[i] as u32 + 32
            ||| 'A' <= b[i] <= 'Z' && a[i] as u32 == b[i] as u32 + 32
        } {
        assert forall|i: int| 0 <= i < a.len() implies x[i] == y[i] by {
            assert(a[i] == a[i] && b[i] == b[i]);
            law_case_of_a_character(a[i], b[i]);
        }
        assert(x =~= y);
    }
}

/// A text occurs in another exactly where the other is made of something, the text, and
/// something more.
pub proof fn law_occurrence(before: Seq<char>, needle: Seq<char>, after: Seq<char>, text: Seq<char>, at: int)
    ensures
        occurs_at(before + needle + after, needle, before.len() as int),
        occurs_at(text, needle, at) ==> text == text.take(at) + needle + text.skip(
            at + needle.len(),
        ),
{
    let whole = before + needle + after;
    let n = before.len() as int;
    assert(whole.subrange(n, n + needle.len()) =~= needle);
    if occurs_at(text, needle, at) {
        assert(text.subrange(at, at + needle.len()) == needle);
        assert(text =~= text.take(at) + text.subrange(at, at + needle.len()) + text.skip(
            at + needle.len(),
        ));
    }
}

/// Where no occurrence straddles the seam of two texts, replacing in both together is
/// replacing in each.
pub proof fn lemma_replace_concat(x: Seq<char>, y: Seq<char>, needle: Seq<char>, to: Seq<char>)
    requires
        needle.len() > 0,
        forall|at: int|
            0 <= at < x.len() && at + needle.len() > x.len() ==> !#[trigger] occurs_at(
                x + y,
                needle,
                at,
            ),
    ensures
        replace_all(x + y, needle, to) == replace_all(x, needle, to) + replace_all(y, needle, to),
    decreases x.len(),
{
    let whole = x + y;
    let n = needle.len() as int;
    if x.len() == 0 {
        assert(whole =~= y);
        assert(replace_all(x, needle, to) =~= Seq::empty());
        assert(Seq::<char>::empty() + replace_all(y, needle, to) =~= replace_all(y, needle, to));
    } else {
        if n <= x.len() {
            assert(whole.subrange(0, n) =~= x.subrange(0, n));
        }
        assert(occurs_at(whole, needle, 0) == occurs_at(x, needle, 0));
        let step = if occurs_at(x, needle, 0) {
            n
        } else {
            1
        };
        let rest = x.skip(step);
        assert(whole.skip(step) =~= rest + y);
        assert forall|at: int|
            0 <= at < rest.len() && at + n > rest.len() implies !#[trigger] occurs_at(
            rest + y,
            needle,
            at,
        ) by {
            if occurs_at(rest + y, needle, at) {
                assert(whole.subrange(at + step, at + step + n) =~= (rest + y).subrange(at, at + n));
                assert(occurs_at(whole, needle, at + step));
            }
        }
        lemma_replace_concat(rest, y, needle, to);
        assert(replace_all(whole, needle, to) =~= replace_all(x, needle, to) + replace_all(
            y,
            needle,
            to,
        ));
    }
}

/// Replacing swaps the leftmost occurrence for the replacement, keeps what stands before
/// it, and goes on with what stands after it.
pub proof fn law_replace_leftmost(
    before: Seq<char>,
    needle: Seq<char>,
    after: Seq<char>,
    to: Seq<char>,
)
    requires
        needle.len() > 0,
        forall|at: int|
            0 <= at < before.len() ==> !#[trigger] occurs_at(before + needle + after, needle, at),
    ensures
        replace_all(before + needle + after, needle, to) == before + to + replace_all(
            after,
            needle,
            to,
        ),
{
    let whole = before + needle + after;
    let rest = needle + after;
    let n = needle.len() as int;
    assert(whole =~= before + rest);
    assert forall|at: int|
        0 <= at < before.len() && at + n > before.len() implies !#[trigger] occurs_at(
        before + rest,
        needle,
        at,
    ) by {
        assert(!occurs_at(before + needle + after, needle, at));
    }
    lemma_replace_concat(before, rest, needle, to);
    if contains_text(before, needle) {
        let at = choose|at: int| occurs_at(before, needle, at);
        assert(whole.subrange(at, at + n) =~= before.subrange(at, at + n));
        assert(occurs_at(before + needle + after, needle, at));
    }
    lemma_replace_absent(before, needle, to);
    assert(rest.subrange(0, n) =~= needle);
    assert(rest.skip(n) =~= after);
    assert(before + (to + replace_all(after, needle, to)) =~= before + to + replace_all(
        after,
        needle,
        to,
    ));
}

} // verus!

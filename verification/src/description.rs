//! Schema descriptions made ready for display.

use vstd::prelude::*;
use vstd::string::*;

use crate::text::{contains_text, disjoint, find_char, find_from, first_from, first_index, from_chars,
    lemma_first_from, lemma_first_from_is, lemma_first_from_shift,
    lemma_first_index, lemma_replace_absent, lemma_replace_concat, lemma_replace_removes, occurs_at, replace, replace_all,
    to_chars};

verus! {

/// `text` with each of the three spellings of an HTML line break turned into an empty
/// line.
pub open spec fn line_breaks(text: Seq<char>) -> Seq<char> {
    replace_all(
        replace_all(replace_all(text, "<br />"@, "\n\n"@), "<br/>"@, "\n\n"@),
        "<br>"@,
        "\n\n"@,
    )
}

/// The Markdown for a cross reference with the given content, that is for what stands
/// between `$!` and `!$`.
pub open spec fn cross_ref(content: Seq<char>) -> Seq<char> {
    match first_index(content, '#') {
        Some(i) => {
            let file = content.take(i);
            let field = content.skip(i + 1);
            if file.len() > 0 && field.len() > 0 {
                "`"@ + field + "` (in *"@ + file + "*)"@
            } else if file.len() > 0 {
                "*"@ + file + "*"@
            } else if field.len() > 0 {
                "`"@ + field + "`"@
            } else {
                Seq::empty()
            }
        },
        None => if content.len() > 0 {
            "*"@ + content + "*"@
        } else {
            Seq::empty()
        },
    }
}

/// `text` from position `from` on, with every cross reference replaced by its Markdown.
/// A `$!` that no `!$` closes ends the search: the text stays as it is from there on.
pub open spec fn expand_refs(text: Seq<char>, from: int) -> Seq<char>
    decreases text.len() - from,
{
    if from < 0 || from > text.len() {
        Seq::empty()
    } else {
        match first_from(text, "$!"@, from) {
            Some(start) => match first_from(text, "!$"@, start + 2) {
                Some(end) => if from <= start && start + 2 <= end && end + 2 <= text.len() {
                    text.subrange(from, start) + cross_ref(text.subrange(start + 2, end))
                        + expand_refs(text, end + 2)
                } else {
                    Seq::empty()
                },
                None => text.skip(from),
            },
            None => text.skip(from),
        }
    }
}

/// What a schema description reads like on display.
pub open spec fn formatted(text: Seq<char>) -> Seq<char> {
    expand_refs(line_breaks(text), 0)
}

/// Format a schema description for display in hover output.
///
/// - `<br>`, `<br/>` and `<br />` become an empty line.
/// - `$!enums#EARMORTYPE!$` becomes `` `EARMORTYPE` (in *enums*) ``, `$!monstats!$`
///   becomes `*monstats*`, and `$!#Id!$` becomes `` `Id` ``.
pub fn format_description(text: &str) -> (result: String)
    ensures
        result@ == formatted(text@),
{
    proof {
        reveal_strlit("<br />");
        reveal_strlit("<br/>");
        reveal_strlit("<br>");
        reveal_strlit("$!");
        reveal_strlit("!$");
    }
    let gap = to_chars("\n\n");
    let once = replace(&to_chars(text), &to_chars("<br />"), &gap);
    let twice = replace(&once, &to_chars("<br/>"), &gap);
    let chars = replace(&twice, &to_chars("<br>"), &gap);
    let open = to_chars("$!");
    let close = to_chars("!$");
    let total: usize = chars.len();

    let mut out = String::new();
    let mut at: usize = 0;
    assert(out@ + expand_refs(chars@, 0) =~= formatted(text@));
    loop
        invariant
            total == chars@.len(),
            chars@ == line_breaks(text@),
            open@ == "$!"@,
            close@ == "!$"@,
            open@.len() == 2,
            close@.len() == 2,
            at <= total,
            out@ + expand_refs(chars@, at as int) == formatted(text@),
        decreases total - at,
    {
        let ghost before = out@;
        proof {
            lemma_first_from(chars@, "$!"@, at as int);
        }
        let start = match find_from(&chars, &open, at) {
            Some(start) => start,
            None => {
                out.append(from_chars(&chars, at, total).as_str());
                assert(chars@.subrange(at as int, total as int) =~= chars@.skip(at as int));
                return out;
            },
        };
        proof {
            lemma_first_from(chars@, "!$"@, start + 2);
        }
        let end = match find_from(&chars, &close, start + 2) {
            Some(end) => end,
            None => {
                out.append(from_chars(&chars, at, total).as_str());
                assert(chars@.subrange(at as int, total as int) =~= chars@.skip(at as int));
                return out;
            },
        };
        out.append(from_chars(&chars, at, start).as_str());
        push_cross_ref(from_chars(&chars, start + 2, end).as_str(), &mut out);
        assert(before + (chars@.subrange(at as int, start as int) + cross_ref(
            chars@.subrange(start + 2, end as int),
        ) + expand_refs(chars@, end + 2)) =~= out@ + expand_refs(chars@, end + 2));
        at = end + 2;
    }
}

/// Append the Markdown for the cross reference `content` to `out`.
pub fn push_cross_ref(content: &str, out: &mut String)
    ensures
        final(out)@ == old(out)@ + cross_ref(content@),
{
    let chars = to_chars(content);
    let total: usize = chars.len();
    proof {
        lemma_first_index(chars@, '#');
    }
    match find_char(&chars, '#') {
        Some(i) => {
            let file = from_chars(&chars, 0, i);
            let field = from_chars(&chars, i + 1, total);
            assert(chars@.subrange(0, i as int) =~= chars@.take(i as int));
            assert(chars@.subrange(i + 1, total as int) =~= chars@.skip(i + 1));
            let has_file = i > 0;
            let has_field = i + 1 < total;
            if has_file && has_field {
                out.append("`");
                out.append(field.as_str());
                out.append("` (in *");
                out.append(file.as_str());
                out.append("*)");
            } else if has_file {
                out.append("*");
                out.append(file.as_str());
                out.append("*");
            } else if has_field {
                out.append("`");
                out.append(field.as_str());
                out.append("`");
            }
        },
        None => {
            if total > 0 {
                out.append("*");
                out.append(content);
                out.append("*");
            }
        },
    }
    assert(out@ =~= old(out)@ + cross_ref(content@));
}

// ---------------------------------------------------------------------------
// Laws
// ---------------------------------------------------------------------------

/// No line-break tag, in any of its three spellings, outlives the first step of
/// formatting.
pub proof fn law_no_tag_left(text: Seq<char>)
    ensures
        !contains_text(line_breaks(text), "<br />"@),
        !contains_text(line_breaks(text), "<br/>"@),
        !contains_text(line_breaks(text), "<br>"@),
{
    reveal_strlit("<br />");
    reveal_strlit("<br/>");
    reveal_strlit("<br>");
    reveal_strlit("\n\n");
    let gap = "\n\n"@;
    assert(disjoint("<br />"@, gap));
    assert(disjoint("<br/>"@, gap));
    assert(disjoint("<br>"@, gap));
    let once = replace_all(text, "<br />"@, gap);
    let twice = replace_all(once, "<br/>"@, gap);
    lemma_replace_removes(text, "<br />"@, gap, "<br />"@);
    lemma_replace_removes(once, "<br/>"@, gap, "<br />"@);
    lemma_replace_removes(twice, "<br>"@, gap, "<br />"@);
    lemma_replace_removes(once, "<br/>"@, gap, "<br/>"@);
    lemma_replace_removes(twice, "<br>"@, gap, "<br/>"@);
    lemma_replace_removes(twice, "<br>"@, gap, "<br>"@);
}

/// A description with no line-break tag and no `$!` is displayed as it stands.
pub proof fn law_plain_text_stays(text: Seq<char>)
    requires
        !contains_text(text, "<br />"@),
        !contains_text(text, "<br/>"@),
        !contains_text(text, "<br>"@),
        !contains_text(text, "$!"@),
    ensures
        formatted(text) == text,
{
    lemma_replace_absent(text, "<br />"@, "\n\n"@);
    lemma_replace_absent(text, "<br/>"@, "\n\n"@);
    lemma_replace_absent(text, "<br>"@, "\n\n"@);
    lemma_first_from(text, "$!"@, 0);
    assert(text.skip(0) =~= text);
}

/// A search for references from `from` on is the search in what is left after `from`
/// characters.
proof fn lemma_expand_shift(text: Seq<char>, from: int, by: int)
    requires
        0 <= by <= from <= text.len(),
    ensures
        expand_refs(text, from) == expand_refs(text.skip(by), from - by),
    decreases text.len() - from,
{
    reveal_strlit("$!");
    reveal_strlit("!$");
    let rest = text.skip(by);
    lemma_first_from_shift(text, "$!"@, from, by);
    lemma_first_from(text, "$!"@, from);
    assert(text.skip(from) =~= rest.skip(from - by));
    match first_from(text, "$!"@, from) {
        Some(start) => {
            lemma_first_from_shift(text, "!$"@, start + 2, by);
            lemma_first_from(text, "!$"@, start + 2);
            match first_from(text, "!$"@, start + 2) {
                Some(end) => {
                    lemma_expand_shift(text, end + 2, by);
                    assert(text.subrange(from, start) =~= rest.subrange(from - by, start - by));
                    assert(text.subrange(start + 2, end) =~= rest.subrange(
                        start + 2 - by,
                        end - by,
                    ));
                },
                None => {},
            }
        },
        None => {},
    }
}

/// Where nothing before it opens a reference, `$!` is the first opening marker.
proof fn lemma_opening(text: Seq<char>, before: Seq<char>, after: Seq<char>)
    requires
        text == before + "$!"@ + after,
        !contains_text(before, "$!"@),
    ensures
        first_from(text, "$!"@, 0) == Some(before.len() as int),
{
    reveal_strlit("$!");
    let n = before.len() as int;
    assert(text.subrange(n, n + 2) =~= "$!"@);
    assert forall|j: int| 0 <= j < n implies !occurs_at(text, "$!"@, j) by {
        if occurs_at(text, "$!"@, j) {
            let found = text.subrange(j, j + 2);
            assert(found[0] == text[j] && found[1] == text[j + 1]);
            if j + 1 < n {
                assert(before.subrange(j, j + 2) =~= "$!"@);
                assert(occurs_at(before, "$!"@, j));
            } else {
                assert(text[n] == '$');
            }
        }
    }
    lemma_first_from_is(text, "$!"@, 0, n);
}

/// A closed cross reference is replaced by its Markdown: what stands before it is kept,
/// and what stands after it is formatted on its own.
pub proof fn law_cross_reference(
    text: Seq<char>,
    before: Seq<char>,
    content: Seq<char>,
    after: Seq<char>,
)
    requires
        line_breaks(text) == before + "$!"@ + content + "!$"@ + after,
        !contains_text(before, "$!"@),
        !contains_text(content, "!$"@),
    ensures
        formatted(text) == before + cross_ref(content) + expand_refs(after, 0),
{
    reveal_strlit("$!");
    reveal_strlit("!$");
    let whole = line_breaks(text);
    let n = before.len() as int;
    let m = n + 2 + content.len();
    assert(whole =~= before + "$!"@ + (content + "!$"@ + after));
    lemma_opening(whole, before, content + "!$"@ + after);
    assert(whole.subrange(m, m + 2) =~= "!$"@);
    assert forall|j: int| n + 2 <= j < m implies !occurs_at(whole, "!$"@, j) by {
        if occurs_at(whole, "!$"@, j) {
            let found = whole.subrange(j, j + 2);
            let k = j - n - 2;
            assert(found[0] == whole[j] && found[1] == whole[j + 1]);
            if j + 1 < m {
                assert(content.subrange(k, k + 2) =~= "!$"@);
                assert(occurs_at(content, "!$"@, k));
            } else {
                assert(whole[m] == '!');
            }
        }
    }
    lemma_first_from_is(whole, "!$"@, n + 2, m);
    assert(whole.subrange(0, n) =~= before);
    assert(whole.subrange(n + 2, m) =~= content);
    assert(whole.skip(m + 2) =~= after);
    lemma_expand_shift(whole, m + 2, m + 2);
}

/// A `$!` that is never closed is displayed literally, with all that follows it.
pub proof fn law_unclosed_reference(text: Seq<char>, before: Seq<char>, after: Seq<char>)
    requires
        line_breaks(text) == before + "$!"@ + after,
        !contains_text(before, "$!"@),
        !contains_text(after, "!$"@),
    ensures
        formatted(text) == line_breaks(text),
{
    reveal_strlit("$!");
    reveal_strlit("!$");
    let whole = line_breaks(text);
    let n = before.len() as int;
    lemma_opening(whole, before, after);
    lemma_first_from(whole, "!$"@, n + 2);
    assert(whole.skip(n + 2) =~= after);
    lemma_first_from_shift(whole, "!$"@, n + 2, n + 2);
    lemma_first_from(after, "!$"@, 0);
    assert(whole.skip(0) =~= whole);
}

/// Replacing is done apart on both sides of a middle part that no occurrence can straddle:
/// its first character is only the first, and its last only the last, that an occurrence
/// can have.
proof fn lemma_replace_around(
    before: Seq<char>,
    middle: Seq<char>,
    after: Seq<char>,
    needle: Seq<char>,
    to: Seq<char>,
)
    requires
        needle.len() > 0,
        middle.len() > 0,
        forall|k: int| 1 <= k < needle.len() ==> #[trigger] needle[k] != middle[0],
        forall|k: int| 0 <= k < needle.len() - 1 ==> #[trigger] needle[k] != middle.last(),
    ensures
        replace_all(before + middle + after, needle, to) == replace_all(before, needle, to)
            + replace_all(middle, needle, to) + replace_all(after, needle, to),
{
    let n = needle.len() as int;
    let rest = middle + after;
    let whole = before + rest;
    assert(before + middle + after =~= whole);
    assert forall|at: int|
        0 <= at < before.len() && at + n > before.len() implies !#[trigger] occurs_at(
        whole,
        needle,
        at,
    ) by {
        if occurs_at(whole, needle, at) {
            let k = before.len() - at;
            assert(whole.subrange(at, at + n)[k] == whole[before.len() as int]);
            assert(needle[k] == middle[0]);
        }
    }
    lemma_replace_concat(before, rest, needle, to);
    assert forall|at: int|
        0 <= at < middle.len() && at + n > middle.len() implies !#[trigger] occurs_at(
        rest,
        needle,
        at,
    ) by {
        if occurs_at(rest, needle, at) {
            let k = middle.len() - 1 - at;
            assert(rest.subrange(at, at + n)[k] == rest[middle.len() - 1]);
            assert(needle[k] == middle.last());
        }
    }
    lemma_replace_concat(middle, after, needle, to);
    assert(replace_all(before, needle, to) + (replace_all(middle, needle, to) + replace_all(
        after,
        needle,
        to,
    )) =~= replace_all(before, needle, to) + replace_all(middle, needle, to) + replace_all(
        after,
        needle,
        to,
    ));
}

/// One of the three replacements, on a tag or on the gap that stands for one: its own tag
/// becomes the gap, anything else stays.
proof fn lemma_replace_one(
    before: Seq<char>,
    middle: Seq<char>,
    after: Seq<char>,
    needle: Seq<char>,
)
    requires
        needle == "<br />"@ || needle == "<br/>"@ || needle == "<br>"@,
        middle == "<br />"@ || middle == "<br/>"@ || middle == "<br>"@ || middle == "\n\n"@,
    ensures
        replace_all(before + middle + after, needle, "\n\n"@) == replace_all(
            before,
            needle,
            "\n\n"@,
        ) + (if middle == needle {
            "\n\n"@
        } else {
            middle
        }) + replace_all(after, needle, "\n\n"@),
{
    reveal_strlit("<br />");
    reveal_strlit("<br/>");
    reveal_strlit("<br>");
    reveal_strlit("\n\n");
    let gap = "\n\n"@;
    lemma_replace_around(before, middle, after, needle, gap);
    if middle == needle {
        let n = needle.len() as int;
        assert(middle.subrange(0, n) =~= needle);
        assert(middle.skip(n) =~= Seq::empty());
        assert(replace_all(Seq::empty(), needle, gap) =~= Seq::empty());
        assert(replace_all(middle, needle, gap) =~= gap);
    } else {
        if contains_text(middle, needle) {
            let at = choose|at: int| occurs_at(middle, needle, at);
            let part = middle.subrange(at, at + needle.len());
            assert(part[0] == middle[at]);
            assert(part[3] == middle[at + 3]);
            assert(part[needle.len() - 1] == middle[at + needle.len() - 1]);
            assert(false);
        }
        lemma_replace_absent(middle, needle, gap);
    }
}

/// Each spelling of a line break becomes an empty line, wherever it stands, and what
/// stands before it and after it is treated on its own.
pub proof fn law_line_break(before: Seq<char>, tag: Seq<char>, after: Seq<char>)
    requires
        tag == "<br />"@ || tag == "<br/>"@ || tag == "<br>"@,
    ensures
        line_breaks(before + tag + after) == line_breaks(before) + "\n\n"@ + line_breaks(after),
{
    reveal_strlit("<br />");
    reveal_strlit("<br/>");
    reveal_strlit("<br>");
    reveal_strlit("\n\n");
    let gap = "\n\n"@;
    let one = "<br />"@;
    let two = "<br/>"@;
    let three = "<br>"@;
    assert(one.len() == 6 && two.len() == 5 && three.len() == 4 && gap.len() == 2);
    let m1 = if tag == one {
        gap
    } else {
        tag
    };
    let m2 = if m1 == two {
        gap
    } else {
        m1
    };
    let b1 = replace_all(before, one, gap);
    let a1 = replace_all(after, one, gap);
    let b2 = replace_all(b1, two, gap);
    let a2 = replace_all(a1, two, gap);
    lemma_replace_one(before, tag, after, one);
    lemma_replace_one(b1, m1, a1, two);
    lemma_replace_one(b2, m2, a2, three);
}

/// What a cross reference reads like: both file and field, the file alone, the field alone,
/// or nothing. The first `#` parts the two.
pub proof fn law_reference_forms(file: Seq<char>, field: Seq<char>)
    requires
        !file.contains('#'),
    ensures
        file.len() > 0 && field.len() > 0 ==> cross_ref(file + seq!['#'] + field) == seq!['`']
            + field + "` (in *"@ + file + "*)"@,
        file.len() > 0 ==> cross_ref(file + seq!['#']) == seq!['*'] + file + seq!['*'],
        file.len() > 0 ==> cross_ref(file) == seq!['*'] + file + seq!['*'],
        field.len() > 0 ==> cross_ref(seq!['#'] + field) == seq!['`'] + field + seq!['`'],
        cross_ref(seq!['#']).len() == 0,
        cross_ref(Seq::empty()).len() == 0,
{
    reveal_strlit("`");
    reveal_strlit("*");
    assert("`"@ =~= seq!['`']);
    assert("*"@ =~= seq!['*']);
    lemma_parted(file, field);
    lemma_parted(file, Seq::empty());
    lemma_parted(Seq::empty(), field);
    lemma_parted(Seq::empty(), Seq::empty());
    assert(file + seq!['#'] + Seq::<char>::empty() =~= file + seq!['#']);
    assert(Seq::<char>::empty() + seq!['#'] + field =~= seq!['#'] + field);
    assert(Seq::<char>::empty() + seq!['#'] + Seq::<char>::empty() =~= seq!['#']);
    lemma_first_index(file, '#');
}

/// Where the first part holds no `#`, the one behind it is the first.
proof fn lemma_parted(file: Seq<char>, field: Seq<char>)
    requires
        !file.contains('#'),
    ensures
        ({
            let whole = file + seq!['#'] + field;
            &&& first_index(whole, '#') == Some(file.len() as int)
            &&& whole.take(file.len() as int) == file
            &&& whole.skip(file.len() as int + 1) == field
        }),
{
    let whole = file + seq!['#'] + field;
    let n = file.len() as int;
    lemma_first_index(whole, '#');
    assert(whole[n] == '#');
    assert forall|i: int| 0 <= i < n implies whole[i] != '#' by {
        assert(whole[i] == file[i]);
    }
    assert(whole.take(n) =~= file);
    assert(whole.skip(n + 1) =~= field);
}

/// A description that, once its line breaks are treated, opens no reference is displayed as
/// it then stands.
pub proof fn law_text_without_references(text: Seq<char>)
    requires
        !contains_text(line_breaks(text), "$!"@),
    ensures
        formatted(text) == line_breaks(text),
{
    lemma_first_from(line_breaks(text), "$!"@, 0);
    assert(line_breaks(text).skip(0) =~= line_breaks(text));
}

} // verus!

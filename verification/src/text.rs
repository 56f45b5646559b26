//! Text: comparison, search, and the functions of the standard library that
//! depend on the tables of Unicode.

use vstd::prelude::*;
use vstd::string::StrSliceExecFns;

verus! {

/// What `char::to_uppercase` makes of a character that is neither one of ASCII nor an
/// ideograph.
pub uninterp spec fn upper(c: char) -> Seq<char>;

/// What `str::to_lowercase` makes of a text that is not all ASCII.
pub uninterp spec fn lowercase(text: Seq<char>) -> Seq<char>;

/// Whether a character has the property `White_Space` of Unicode.
pub open spec fn white_space(c: char) -> bool {
    let n = c as u32;
    ||| 0x09 <= n <= 0x0d
    ||| n == 0x20
    ||| n == 0x85
    ||| n == 0xa0
    ||| n == 0x1680
    ||| 0x2000 <= n <= 0x200a
    ||| n == 0x2028
    ||| n == 0x2029
    ||| n == 0x202f
    ||| n == 0x205f
    ||| n == 0x3000
}

/// Whether a character is one of ASCII.
pub open spec fn in_ascii(c: char) -> bool {
    (c as u32) < 128
}

/// Whether a character is one of the unified ideographs, which have no case.
pub open spec fn ideograph(c: char) -> bool {
    0x4e00 <= c as u32 <= 0x9fff
}

/// An ASCII letter in lower case; any other character as it is.
pub open spec fn ascii_small(c: char) -> char {
    if 'A' <= c <= 'Z' {
        (c as u32 + 32) as char
    } else {
        c
    }
}

/// Whether a text is all ASCII.
pub open spec fn all_ascii(text: Seq<char>) -> bool {
    forall|i: int| 0 <= i < text.len() ==> in_ascii(#[trigger] text[i])
}

/// A text in lower case.
pub open spec fn small(text: Seq<char>) -> Seq<char> {
    if all_ascii(text) {
        text.map_values(|c: char| ascii_small(c))
    } else {
        lowercase(text)
    }
}

/// An ASCII letter in upper case; any other character as it is.
pub open spec fn ascii_capital(c: char) -> char {
    if 'a' <= c <= 'z' {
        (c as u32 - 32) as char
    } else {
        c
    }
}

/// A character in upper case.
pub open spec fn capital(c: char) -> Seq<char> {
    if in_ascii(c) || ideograph(c) {
        seq![ascii_capital(c)]
    } else {
        upper(c)
    }
}

/// Calls `char::to_uppercase`.  Trusted: the ASCII letters `a` to `z` become `A` to
/// `Z`; the rest of ASCII and the ideographs, which have no upper case, stay as they
/// are; beyond these the result depends on the character alone, and the mapping,
/// which the tables of Unicode define, is only named.
#[verifier::external_body]
fn upper_of(c: char) -> (r: Vec<char>)
    ensures
        in_ascii(c) || ideograph(c) ==> r@ == seq![ascii_capital(c)],
        !in_ascii(c) && !ideograph(c) ==> r@ == upper(c),
{
    c.to_uppercase().collect()
}

/// Calls `str::to_lowercase`.  Trusted: in a text that is all ASCII the letters `A` to
/// `Z` become `a` to `z` and the rest stays as it is; any other result depends on the
/// text alone, and the mapping, which the tables of Unicode define, is only named.
#[verifier::external_body]
pub(crate) fn to_lowercase(text: &str) -> (r: String)
    ensures
        all_ascii(text@) ==> r@ == text@.map_values(|c: char| ascii_small(c)),
        !all_ascii(text@) ==> r@ == lowercase(text@),
{
    text.to_lowercase()
}

/// Calls `char::is_whitespace`.  Trusted: it tells whether the character has the
/// property `White_Space` of Unicode, that is, is one of those listed in
/// [`white_space`].
#[verifier::external_body]
pub(crate) fn is_whitespace(c: char) -> (r: bool)
    ensures
        r == white_space(c),
{
    c.is_whitespace()
}

/// A text without the white space at its start and at its end.
pub open spec fn trimmed(text: Seq<char>) -> Seq<char>
    decreases text.len(),
{
    if text.len() == 0 {
        text
    } else if white_space(text.first()) {
        trimmed(text.drop_first())
    } else if white_space(text.last()) {
        trimmed(text.drop_last())
    } else {
        text
    }
}

/// White space at the start of a part is trimmed.
proof fn lemma_trim_start(text: Seq<char>, i: int, j: int)
    requires
        0 <= i < j <= text.len(),
        white_space(text[i]),
    ensures
        trimmed(text.subrange(i, j)) == trimmed(text.subrange(i + 1, j)),
{
    assert(text.subrange(i, j).drop_first() =~= text.subrange(i + 1, j));
}

/// White space at the end of a part is trimmed once there is none at its start.
proof fn lemma_trim_end(text: Seq<char>, i: int, j: int)
    requires
        0 <= i < j <= text.len(),
        !white_space(text[i]),
        white_space(text[j - 1]),
    ensures
        trimmed(text.subrange(i, j)) == trimmed(text.subrange(i, j - 1)),
{
    assert(text.subrange(i, j).drop_last() =~= text.subrange(i, j - 1));
}

/// A part without white space at its ends is trimmed.
proof fn lemma_trim_done(text: Seq<char>, i: int, j: int)
    requires
        0 <= i <= j <= text.len(),
        i < j ==> !white_space(text[i]) && !white_space(text[j - 1]),
    ensures
        trimmed(text.subrange(i, j)) == text.subrange(i, j),
{
}

/// A text without the white space at its start and at its end.
pub fn trim(text: &str) -> (r: String)
    ensures
        r@ == trimmed(text@),
{
    let chars = characters(text);
    let n: usize = chars.len();
    let mut start: usize = 0;
    assert(text@.subrange(0, n as int) =~= text@);
    while start < n && is_whitespace(chars[start])
        invariant
            chars@ == text@,
            start <= n == chars@.len(),
            trimmed(text@) == trimmed(text@.subrange(start as int, n as int)),
        decreases n - start,
    {
        proof {
            lemma_trim_start(text@, start as int, n as int);
        }
        start += 1;
    }
    let mut end: usize = n;
    while start < end && is_whitespace(chars[end - 1])
        invariant
            chars@ == text@,
            start <= end <= chars@.len(),
            start < end ==> !white_space(text@[start as int]),
            trimmed(text@) == trimmed(text@.subrange(start as int, end as int)),
        decreases end - start,
    {
        proof {
            lemma_trim_end(text@, start as int, end as int);
        }
        end -= 1;
    }
    proof {
        lemma_trim_done(text@, start as int, end as int);
    }
    text.substring_char(start, end).to_owned()
}

/// A text in upper case: each of its characters in upper case.
pub open spec fn uppercase(text: Seq<char>) -> Seq<char>
    decreases text.len(),
{
    if text.len() == 0 {
        Seq::empty()
    } else {
        uppercase(text.drop_last()) + capital(text.last())
    }
}

/// A text in upper case.
pub fn to_uppercase(text: &str) -> (r: Vec<char>)
    ensures
        r@ == uppercase(text@),
{
    let chars = characters(text);
    let mut result: Vec<char> = Vec::new();
    let mut i: usize = 0;
    assert(chars@.take(0) =~= Seq::empty());
    while i < chars.len()
        invariant
            i <= chars@.len(),
            result@ == uppercase(chars@.take(i as int)),
        decreases chars@.len() - i,
    {
        assert(chars@.take(i + 1).drop_last() =~= chars@.take(i as int));
        let mut letters = upper_of(chars[i]);
        result.append(&mut letters);
        i += 1;
    }
    assert(chars@.take(i as int) =~= chars@);
    result
}

/// The parts of a text in upper case make up the whole in upper case.
pub proof fn lemma_uppercase_joins(a: Seq<char>, b: Seq<char>)
    ensures
        uppercase(a + b) == uppercase(a) + uppercase(b),
    decreases b.len(),
{
    if b.len() == 0 {
        assert(a + b =~= a);
        assert(uppercase(a) + uppercase(b) =~= uppercase(a));
    } else {
        lemma_uppercase_joins(a, b.drop_last());
        assert((a + b).drop_last() =~= a + b.drop_last());
        assert(uppercase(a) + (uppercase(b.drop_last()) + capital(b.last())) =~= (uppercase(a)
            + uppercase(b.drop_last())) + capital(b.last()));
    }
}

/// Two texts that differ in the case of ASCII letters alone.
pub open spec fn alike_in_ascii(a: Seq<char>, b: Seq<char>) -> bool {
    &&& a.len() == b.len()
    &&& forall|i: int| 0 <= i < a.len() ==> ascii_capital(#[trigger] a[i]) == ascii_capital(b[i])
}

/// Texts that differ in the case of ASCII letters alone are the same in upper case.
pub proof fn lemma_ascii_case_is_lost(a: Seq<char>, b: Seq<char>)
    requires
        alike_in_ascii(a, b),
    ensures
        uppercase(a) == uppercase(b),
    decreases a.len(),
{
    if a.len() > 0 {
        let last = a.len() - 1;
        assert(ascii_capital(a[last]) == ascii_capital(b[last]));
        assert(capital(a.last()) == capital(b.last()));
        assert forall|i: int| 0 <= i < last implies ascii_capital(#[trigger] a.drop_last()[i])
            == ascii_capital(b.drop_last()[i]) by {
            assert(ascii_capital(a[i]) == ascii_capital(b[i]));
        }
        lemma_ascii_case_is_lost(a.drop_last(), b.drop_last());
    }
}

/// Whether all characters of a text are ASCII or ideographs.
pub open spec fn plain(text: Seq<char>) -> bool {
    forall|i: int|
        0 <= i < text.len() ==> in_ascii(#[trigger] text[i]) || ideograph(text[i])
}

/// A plain text in upper case: its ASCII letters in upper case and the rest as it is.
pub proof fn lemma_plain_uppercase(text: Seq<char>)
    requires
        plain(text),
    ensures
        uppercase(text) == text.map_values(|c: char| ascii_capital(c)),
    decreases text.len(),
{
    let wanted = text.map_values(|c: char| ascii_capital(c));
    if text.len() > 0 {
        let shorter = text.drop_last();
        assert forall|i: int| 0 <= i < shorter.len() implies in_ascii(#[trigger] shorter[i])
            || ideograph(shorter[i]) by {
            assert(shorter[i] == text[i]);
        }
        lemma_plain_uppercase(shorter);
        assert(in_ascii(text[text.len() - 1]) || ideograph(text[text.len() - 1]));
        assert(wanted =~= shorter.map_values(|c: char| ascii_capital(c)) + capital(text.last()));
    } else {
        assert(wanted =~= Seq::empty());
    }
}

/// What stands in a text stands there in upper case too.
pub proof fn lemma_uppercase_occurs(part: Seq<char>, text: Seq<char>)
    requires
        occurs(part, text),
    ensures
        occurs(uppercase(part), uppercase(text)),
{
    let i = choose|i: int| #[trigger] occurs_at(part, text, i);
    let j = i + part.len();
    let before = text.take(i);
    let after = text.skip(j);
    assert(text =~= before + (part + after));
    lemma_uppercase_joins(before, part + after);
    lemma_uppercase_joins(part, after);
    let place = uppercase(before).len() as int;
    let whole = uppercase(text);
    assert(whole.subrange(place, place + uppercase(part).len()) =~= uppercase(part));
    assert(occurs_at(uppercase(part), whole, place));
}

/// Whether `part` stands somewhere in `text`.
pub open spec fn occurs(part: Seq<char>, text: Seq<char>) -> bool {
    exists|i: int| #[trigger] occurs_at(part, text, i)
}

/// Whether `part` stands in `text` at place `i`.
pub open spec fn occurs_at(part: Seq<char>, text: Seq<char>, i: int) -> bool {
    0 <= i && i + part.len() <= text.len() && text.subrange(i, i + part.len()) == part
}

/// The contents of a list of words.
pub open spec fn spelled(words: Seq<Vec<char>>) -> Seq<Seq<char>> {
    words.map_values(|w: Vec<char>| w@)
}

/// The contents of a list of strings.
pub open spec fn texts(strings: Seq<String>) -> Seq<Seq<char>> {
    strings.map_values(|s: String| s@)
}

/// Whether two texts are the same.
pub fn same_text(a: &str, b: &str) -> (r: bool)
    ensures
        r == (a@ == b@),
{
    a.to_owned() == b.to_owned()
}

/// The characters of a text.
pub fn characters(text: &str) -> (r: Vec<char>)
    ensures
        r@ == text@,
{
    let n: usize = text.unicode_len();
    let mut chars: Vec<char> = Vec::new();
    let mut i: usize = 0;
    while i < n
        invariant
            i <= n,
            n == text@.len(),
            chars@ =~= text@.take(i as int),
        decreases n - i,
    {
        chars.push(text.get_char(i));
        i += 1;
    }
    chars
}

/// Whether `part` stands in `text` at place `i`.
fn stands_at(part: &Vec<char>, text: &Vec<char>, i: usize) -> (r: bool)
    requires
        i + part@.len() <= text@.len(),
    ensures
        r == occurs_at(part@, text@, i as int),
{
    let ghost here = text@.subrange(i as int, i + part@.len());
    assert(text.len() <= usize::MAX);
    let mut j: usize = 0;
    while j < part.len()
        invariant
            i + part@.len() <= text@.len(),
            text@.len() <= usize::MAX,
            here == text@.subrange(i as int, i + part@.len()),
            j <= part@.len(),
            forall|l: int| 0 <= l < j ==> here[l] == part@[l],
        decreases part@.len() - j,
    {
        if text[i + j] != part[j] {
            assert(here[j as int] != part@[j as int]);
            return false;
        }
        j += 1;
    }
    assert(here =~= part@);
    true
}

/// Whether `p` stands somewhere in `t`.
pub fn contains_text(t: &Vec<char>, p: &Vec<char>) -> (r: bool)
    ensures
        r == occurs(p@, t@),
{
    if p.len() > t.len() {
        return false;
    }
    let last: usize = t.len() - p.len();
    let mut i: usize = 0;
    loop
        invariant
            p@.len() <= t@.len(),
            last == t@.len() - p@.len(),
            i <= last,
            forall|l: int| 0 <= l < i ==> !occurs_at(p@, t@, l),
        decreases last - i,
    {
        if stands_at(p, t, i) {
            return true;
        }
        if i == last {
            return false;
        }
        i += 1;
    }
}

/// Whether a text is in a list.
pub fn list_contains(list: &Vec<String>, text: &String) -> (r: bool)
    ensures
        r == texts(list@).contains(text@),
{
    let mut i: usize = 0;
    while i < list.len()
        invariant
            i <= list@.len(),
            forall|j: int| 0 <= j < i ==> texts(list@)[j] != text@,
        decreases list@.len() - i,
    {
        if list[i] == *text {
            assert(texts(list@)[i as int] == text@);
            return true;
        }
        i += 1;
    }
    false
}

/// Whether the part of a text from `i` to `j` is what is left when white space is taken off
/// at both ends, all of it and nothing else.
pub open spec fn is_core(text: Seq<char>, i: int, j: int) -> bool {
    &&& 0 <= i <= j <= text.len()
    &&& forall|l: int| 0 <= l < i ==> white_space(#[trigger] text[l])
    &&& forall|l: int| j <= l < text.len() ==> white_space(#[trigger] text[l])
    &&& i < j ==> !white_space(text[i]) && !white_space(text[j - 1])
}

proof fn lemma_core_without_first(text: Seq<char>, i: int, j: int)
    requires
        text.len() > 0,
        white_space(text[0]),
        is_core(text.drop_first(), i, j),
    ensures
        is_core(text, i + 1, j + 1),
        text.subrange(i + 1, j + 1) == text.drop_first().subrange(i, j),
{
    let rest = text.drop_first();
    assert forall|l: int| 0 <= l < i + 1 implies white_space(#[trigger] text[l]) by {
        if l > 0 {
            assert(text[l] == rest[l - 1]);
        }
    }
    assert forall|l: int| j + 1 <= l < text.len() implies white_space(#[trigger] text[l]) by {
        assert(text[l] == rest[l - 1]);
    }
    if i < j {
        assert(text[i + 1] == rest[i] && text[j] == rest[j - 1]);
    }
    assert(text.subrange(i + 1, j + 1) =~= rest.subrange(i, j));
}

proof fn lemma_core_without_last(text: Seq<char>, i: int, j: int)
    requires
        text.len() > 0,
        white_space(text[text.len() - 1]),
        is_core(text.drop_last(), i, j),
    ensures
        is_core(text, i, j),
        text.subrange(i, j) == text.drop_last().subrange(i, j),
{
    let rest = text.drop_last();
    assert forall|l: int| 0 <= l < i implies white_space(#[trigger] text[l]) by {
        assert(text[l] == rest[l]);
    }
    assert forall|l: int| j <= l < text.len() implies white_space(#[trigger] text[l]) by {
        if l < rest.len() {
            assert(text[l] == rest[l]);
        }
    }
    if i < j {
        assert(text[i] == rest[i] && text[j - 1] == rest[j - 1]);
    }
    assert(text.subrange(i, j) =~= rest.subrange(i, j));
}

proof fn lemma_trimmed_is_core(text: Seq<char>) -> (r: (int, int))
    ensures
        is_core(text, r.0, r.1),
        trimmed(text) == text.subrange(r.0, r.1),
    decreases text.len(),
{
    if text.len() == 0 {
        assert(text.subrange(0, 0) =~= text);
        (0, 0)
    } else if white_space(text.first()) {
        let (i, j) = lemma_trimmed_is_core(text.drop_first());
        lemma_core_without_first(text, i, j);
        (i + 1, j + 1)
    } else if white_space(text.last()) {
        let (i, j) = lemma_trimmed_is_core(text.drop_last());
        lemma_core_without_last(text, i, j);
        (i, j)
    } else {
        assert(text.subrange(0, text.len() as int) =~= text);
        (0, text.len() as int)
    }
}

/// Trimming takes off white space at both ends, all of it and nothing else.
pub proof fn law_trimming_takes_off_white_space(text: Seq<char>)
    ensures
        exists|i: int, j: int| #[trigger]
            is_core(text, i, j) && trimmed(text) == text.subrange(i, j),
{
    let (i, j) = lemma_trimmed_is_core(text);
    assert(is_core(text, i, j) && trimmed(text) == text.subrange(i, j));
}

/// A text stands in every text that has it anywhere, and in no other.
pub proof fn law_parts_are_found_anywhere(before: Seq<char>, part: Seq<char>, after: Seq<char>)
    ensures
        occurs(part, before + part + after),
{
    let text = before + part + after;
    let i = before.len() as int;
    assert(text.subrange(i, i + part.len()) =~= part);
    assert(occurs_at(part, text, i));
}

/// Where a text stands in another, that one is made of something, the text and something.
pub proof fn law_found_parts_are_there(part: Seq<char>, text: Seq<char>)
    requires
        occurs(part, text),
    ensures
        exists|i: int|
            0 <= i && i + part.len() <= text.len() && text == #[trigger] text.take(i) + part
                + text.skip(i + part.len()),
{
    let i = choose|i: int| #[trigger] occurs_at(part, text, i);
    assert(text =~= text.take(i) + part + text.skip(i + part.len()));
}

} // verus!

//! Text: the parts of strings that the library's decisions rest on.

use vstd::prelude::*;
use vstd::utf8::*;

verus! {

/// Text that `str::to_lowercase` gives for the given text.
pub uninterp spec fn lowercase(text: Seq<char>) -> Seq<char>;

/// Does `char::is_alphanumeric` hold of the character?
pub uninterp spec fn alphanumeric(c: char) -> bool;

/// `str::to_lowercase`. The contract claims that the text returned depends on the
/// given text alone.
#[verifier::external_body]
pub(crate) fn to_lower(text: &str) -> (r: String)
    ensures
        r@ == lowercase(text@),
{
    text.to_lowercase()
}

/// `char::is_alphanumeric`. The contract claims that the answer depends on the
/// character alone.
#[verifier::external_body]
pub(crate) fn is_alphanumeric(c: char) -> (r: bool)
    ensures
        r == alphanumeric(c),
{
    c.is_alphanumeric()
}

/// `String::push`: one character is added at the end.
pub assume_specification[ String::push ](s: &mut String, c: char)
    ensures
        final(s)@ == old(s)@.push(c),
;

/// The texts of a list of strings.
pub open spec fn texts(list: Seq<String>) -> Seq<Seq<char>> {
    list.map_values(|s: String| s@)
}

/// The text of a string that may be there.
pub open spec fn text_if_any(s: Option<String>) -> Option<Seq<char>> {
    match s {
        Some(t) => Some(t@),
        None => None,
    }
}

/// A copy of a list of strings.
pub fn copy_texts(list: &Vec<String>) -> (r: Vec<String>)
    ensures
        r@ == list@,
{
    let mut r: Vec<String> = Vec::new();
    let mut i: usize = 0;
    while i < list.len()
        invariant
            i <= list@.len(),
            r@ == list@.take(i as int),
        decreases list@.len() - i,
    {
        r.push(list[i].clone());
        assert(r@ =~= list@.take(i + 1));
        i = i + 1;
    }
    assert(list@.take(list@.len() as int) =~= list@);
    r
}

/// The texts of a list with a separator between them.
pub open spec fn joined(list: Seq<Seq<char>>, separator: Seq<char>) -> Seq<char>
    decreases list.len(),
{
    if list.len() == 0 {
        Seq::empty()
    } else if list.len() == 1 {
        list[0]
    } else {
        joined(list.drop_last(), separator) + separator + list.last()
    }
}

/// A hexadecimal digit.
pub open spec fn hex_digit(n: nat) -> char {
    if n < 10 {
        (n + 48) as char
    } else {
        (n + 87) as char
    }
}

/// Writes the texts of a list, with a separator between them, behind `text`.
pub fn push_joined(text: &mut String, list: &Vec<String>, separator: &str)
    ensures
        final(text)@ == old(text)@ + joined(texts(list@), separator@),
{
    let mut i: usize = 0;
    assert(texts(list@).take(0) =~= Seq::empty());
    assert(text@ =~= old(text)@ + joined(texts(list@).take(0), separator@));
    while i < list.len()
        invariant
            i <= list@.len(),
            text@ == old(text)@ + joined(texts(list@).take(i as int), separator@),
        decreases list@.len() - i,
    {
        let ghost done: Seq<Seq<char>> = texts(list@).take(i as int);
        let ghost next: Seq<Seq<char>> = texts(list@).take(i + 1);
        if i > 0 {
            text.append(separator);
        }
        text.append(list[i].as_str());
        proof {
            assert(next.drop_last() =~= done);
            assert(next.last() == list@[i as int]@);
            if i > 0 {
                assert(text@ =~= old(text)@ + (joined(done, separator@) + separator@ + list@[i as int]@));
            } else {
                assert(text@ =~= old(text)@ + joined(next, separator@));
            }
        }
        i = i + 1;
    }
    assert(texts(list@).take(list@.len() as int) =~= texts(list@));
}

/// The length of a text in bytes.
pub open spec fn byte_len(text: Seq<char>) -> nat {
    encode_utf8(text).len() as usize as nat
}

/// Does the character have the Unicode property `White_Space`?
pub open spec fn whitespace(c: char) -> bool {
    let u: u32 = c as u32;
    ||| 0x09 <= u <= 0x0d
    ||| u == 0x20
    ||| u == 0x85
    ||| u == 0xa0
    ||| u == 0x1680
    ||| 0x2000 <= u <= 0x200a
    ||| u == 0x2028
    ||| u == 0x2029
    ||| u == 0x202f
    ||| u == 0x205f
    ||| u == 0x3000
}

/// Does the character have the Unicode property `White_Space`?
pub fn is_whitespace(c: char) -> (r: bool)
    ensures
        r == whitespace(c),
{
    let u: u32 = c as u32;
    (0x09 <= u && u <= 0x0d) || u == 0x20 || u == 0x85 || u == 0xa0 || u == 0x1680 || (0x2000 <= u
        && u <= 0x200a) || u == 0x2028 || u == 0x2029 || u == 0x202f || u == 0x205f || u == 0x3000
}

/// The characters of a text.
pub fn chars_of(text: &str) -> (r: Vec<char>)
    ensures
        r@ == text@,
{
    let mut r: Vec<char> = Vec::new();
    for c in it: text.chars()
        invariant
            r@ == it.seq().take(it.index() as int),
            it.seq() == text@,
    {
        r.push(c);
        assert(r@ == it.seq().take(it.index() + 1));
    }
    r
}

/// The text of the characters from `from` up to `to`.
pub fn text_of(chars: &Vec<char>, from: usize, to: usize) -> (r: String)
    requires
        from <= to <= chars@.len(),
    ensures
        r@ == chars@.subrange(from as int, to as int),
{
    let mut r: String = String::new();
    let mut i: usize = from;
    while i < to
        invariant
            from <= i <= to <= chars@.len(),
            r@ == chars@.subrange(from as int, i as int),
        decreases to - i,
    {
        r.push(chars[i]);
        i = i + 1;
    }
    r
}

/// Are two texts the same?
pub fn same_text(a: &str, b: &str) -> (r: bool)
    ensures
        r == (a@ == b@),
{
    a.to_string() == b.to_string()
}

// ---- Searching ----

/// Does `pattern` stand in `text` at position `i`?
pub open spec fn occurs_at(text: Seq<char>, pattern: Seq<char>, i: int) -> bool {
    &&& 0 <= i
    &&& i + pattern.len() <= text.len()
    &&& text.subrange(i, i + pattern.len()) == pattern
}

/// Is `i` the first position at which `pattern` stands in `text`?
pub open spec fn first_at(text: Seq<char>, pattern: Seq<char>, i: int) -> bool {
    &&& occurs_at(text, pattern, i)
    &&& forall|j: int| 0 <= j < i ==> !#[trigger] occurs_at(text, pattern, j)
}

/// The first position at which `pattern` stands in `text`.
pub open spec fn position(text: Seq<char>, pattern: Seq<char>) -> Option<int> {
    if exists|i: int| #[trigger] occurs_at(text, pattern, i) {
        Some(choose|i: int| first_at(text, pattern, i))
    } else {
        None
    }
}

/// Does `pattern` stand anywhere in `text`?
pub open spec fn contains(text: Seq<char>, pattern: Seq<char>) -> bool {
    exists|i: int| #[trigger] occurs_at(text, pattern, i)
}

proof fn first_is_position(text: Seq<char>, pattern: Seq<char>, i: int)
    requires
        first_at(text, pattern, i),
    ensures
        position(text, pattern) == Some(i),
{
    let j: int = choose|j: int| first_at(text, pattern, j);
    assert(first_at(text, pattern, j));
    assert(occurs_at(text, pattern, i));
    assert(occurs_at(text, pattern, j));
}

/// The first position at which `pattern` stands in `text`.
pub fn find(text: &Vec<char>, pattern: &Vec<char>) -> (r: Option<usize>)
    ensures
        match r {
            Some(i) => position(text@, pattern@) == Some(i as int) && occurs_at(text@, pattern@, i as int),
            None => position(text@, pattern@) is None,
        },
{
    if pattern.len() > text.len() {
        assert forall|i: int| !occurs_at(text@, pattern@, i) by {}
        return None;
    }
    let last: usize = text.len() - pattern.len();
    let mut i: usize = 0;
    while i <= last
        invariant
            i <= last,
            last + pattern@.len() == text@.len(),
            forall|j: int| 0 <= j < i ==> !#[trigger] occurs_at(text@, pattern@, j),
        decreases last - i,
    {
        if stands_at(text, pattern, i) {
            proof {
                first_is_position(text@, pattern@, i as int);
            }
            return Some(i);
        }
        if i == last {
            assert forall|j: int| !occurs_at(text@, pattern@, j) by {}
            return None;
        }
        i = i + 1;
    }
    None
}

/// Does `pattern` stand in `text` at position `i`?
fn stands_at(text: &Vec<char>, pattern: &Vec<char>, i: usize) -> (r: bool)
    requires
        i + pattern@.len() <= text@.len(),
    ensures
        r == occurs_at(text@, pattern@, i as int),
{
    let len: usize = text.len();
    let mut k: usize = 0;
    while k < pattern.len()
        invariant
            k <= pattern@.len(),
            i + pattern@.len() <= text@.len() == len,
            forall|j: int| 0 <= j < k ==> text@[i + j] == pattern@[j],
        decreases pattern@.len() - k,
    {
        if text[i + k] != pattern[k] {
            assert(text@.subrange(i as int, i + pattern@.len())[k as int] != pattern@[k as int]);
            return false;
        }
        k = k + 1;
    }
    assert(text@.subrange(i as int, i + pattern@.len()) =~= pattern@);
    true
}

/// Is `i` the last position at which the character stands in `text`?
pub open spec fn last_at(text: Seq<char>, c: char, i: int) -> bool {
    &&& 0 <= i < text.len()
    &&& text[i] == c
    &&& forall|j: int| i < j < text.len() ==> text[j] != c
}

/// The last position of a character.
pub open spec fn last_position(text: Seq<char>, c: char) -> Option<int> {
    if text.contains(c) {
        Some(choose|i: int| last_at(text, c, i))
    } else {
        None
    }
}

/// The last position of a character.
pub fn find_last(text: &Vec<char>, c: char) -> (r: Option<usize>)
    ensures
        match r {
            Some(i) => last_position(text@, c) == Some(i as int) && i < text@.len() && i < usize::MAX,
            None => last_position(text@, c) is None,
        },
{
    let mut i: usize = text.len();
    while i > 0
        invariant
            i <= text@.len(),
            forall|j: int| i <= j < text@.len() ==> text@[j] != c,
        decreases i,
    {
        i = i - 1;
        if text[i] == c {
            proof {
                assert(last_at(text@, c, i as int));
                assert(text@.contains(c));
                let k: int = choose|k: int| last_at(text@, c, k);
                assert(k == i);
            }
            return Some(i);
        }
    }
    None
}

// ---- Trimming ----

/// The text without the leading characters that `drop` holds of.
pub open spec fn without_prefix(text: Seq<char>, drop: spec_fn(char) -> bool) -> Seq<char>
    decreases text.len(),
{
    if text.len() > 0 && drop(text[0]) {
        without_prefix(text.skip(1), drop)
    } else {
        text
    }
}

/// The text without the trailing characters that `drop` holds of.
pub open spec fn without_suffix(text: Seq<char>, drop: spec_fn(char) -> bool) -> Seq<char>
    decreases text.len(),
{
    if text.len() > 0 && drop(text.last()) {
        without_suffix(text.drop_last(), drop)
    } else {
        text
    }
}

/// The text without the characters at its ends that `drop` holds of.
pub open spec fn stripped(text: Seq<char>, drop: spec_fn(char) -> bool) -> Seq<char> {
    without_suffix(without_prefix(text, drop), drop)
}

/// The text without the white space at its ends.
pub open spec fn trimmed(text: Seq<char>) -> Seq<char> {
    stripped(text, |c: char| whitespace(c))
}

/// The text without what is not alphanumeric at its ends.
pub open spec fn bare_word(text: Seq<char>) -> Seq<char> {
    stripped(text, |c: char| !alphanumeric(c))
}

/// Where a run of dropped characters ends, the rest begins.
proof fn prefix_ends(text: Seq<char>, drop: spec_fn(char) -> bool, a: int)
    requires
        0 <= a <= text.len(),
        forall|j: int| 0 <= j < a ==> drop(#[trigger] text[j]),
        a < text.len() ==> !drop(text[a]),
    ensures
        without_prefix(text, drop) == text.skip(a),
    decreases a,
{
    if a > 0 {
        assert(drop(text[0]));
        assert forall|j: int| 0 <= j < a - 1 implies drop(#[trigger] text.skip(1)[j]) by {
            assert(text.skip(1)[j] == text[j + 1]);
        }
        prefix_ends(text.skip(1), drop, a - 1);
        assert(text.skip(1).skip(a - 1) =~= text.skip(a));
    } else {
        assert(text.skip(0) =~= text);
    }
}

proof fn suffix_ends(text: Seq<char>, drop: spec_fn(char) -> bool, b: int)
    requires
        0 <= b <= text.len(),
        forall|j: int| b <= j < text.len() ==> drop(#[trigger] text[j]),
        b > 0 ==> !drop(text[b - 1]),
    ensures
        without_suffix(text, drop) == text.take(b),
    decreases text.len(),
{
    if b < text.len() {
        assert(drop(text[text.len() - 1]));
        suffix_ends(text.drop_last(), drop, b);
        assert(text.drop_last().take(b) =~= text.take(b));
    } else {
        assert(text.take(b) =~= text);
    }
}

/// The text of the characters from `from` up to `to`, trimmed.
pub fn trim_range(chars: &Vec<char>, from: usize, to: usize) -> (r: String)
    requires
        from <= to <= chars@.len(),
    ensures
        r@ == trimmed(chars@.subrange(from as int, to as int)),
{
    let ghost drop = |c: char| whitespace(c);
    let ghost whole: Seq<char> = chars@.subrange(from as int, to as int);
    let mut a: usize = from;
    while a < to && is_whitespace(chars[a])
        invariant
            from <= a <= to <= chars@.len(),
            forall|j: int| from <= j < a ==> whitespace(#[trigger] chars@[j]),
        decreases to - a,
    {
        a = a + 1;
    }
    proof {
        prefix_ends(whole, drop, a - from);
    }
    let mut b: usize = to;
    while b > a && is_whitespace(chars[b - 1])
        invariant
            a <= b <= to <= chars@.len(),
            forall|j: int| b <= j < to ==> whitespace(#[trigger] chars@[j]),
        decreases b,
    {
        b = b - 1;
    }
    proof {
        let rest: Seq<char> = whole.skip(a - from);
        assert forall|j: int| b - a <= j < rest.len() implies drop(#[trigger] rest[j]) by {
            assert(rest[j] == chars@[a + j]);
        }
        suffix_ends(rest, drop, b - a);
        assert(rest.take(b - a) =~= chars@.subrange(a as int, b as int));
    }
    text_of(chars, a, b)
}

/// The text of some characters without what is not alphanumeric at its ends.
pub fn strip_word(chars: &Vec<char>) -> (r: String)
    ensures
        r@ == bare_word(chars@),
{
    let ghost drop = |c: char| !alphanumeric(c);
    let to: usize = chars.len();
    let mut a: usize = 0;
    while a < to && !is_alphanumeric(chars[a])
        invariant
            a <= to == chars@.len(),
            forall|j: int| 0 <= j < a ==> !alphanumeric(#[trigger] chars@[j]),
        decreases to - a,
    {
        a = a + 1;
    }
    proof {
        prefix_ends(chars@, drop, a as int);
    }
    let mut b: usize = to;
    while b > a && !is_alphanumeric(chars[b - 1])
        invariant
            a <= b <= to == chars@.len(),
            forall|j: int| b <= j < to ==> !alphanumeric(#[trigger] chars@[j]),
        decreases b,
    {
        b = b - 1;
    }
    proof {
        let rest: Seq<char> = chars@.skip(a as int);
        assert forall|j: int| b - a <= j < rest.len() implies drop(#[trigger] rest[j]) by {
            assert(rest[j] == chars@[a + j]);
        }
        suffix_ends(rest, drop, b - a);
        assert(rest.take(b - a) =~= chars@.subrange(a as int, b as int));
    }
    text_of(chars, a, b)
}

// ---- Laws ----

/// Lines written one after the other are the lines in a row.
pub proof fn lines_in_a_row(lines: Seq<Seq<char>>, line: Seq<char>)
    ensures
        lines.push(line).flatten() == lines.flatten() + line,
        Seq::<Seq<char>>::empty().flatten() == Seq::<char>::empty(),
{
    lines.lemma_flatten_push(line);
}

/// Joined texts are the first, and then each other one behind a separator.
pub proof fn joined_texts_are_in_a_row(list: Seq<Seq<char>>, separator: Seq<char>)
    ensures
        list.len() == 0 ==> joined(list, separator) == Seq::<char>::empty(),
        list.len() > 0 ==> joined(list, separator) == list[0] + Seq::new(
            (list.len() - 1) as nat,
            |i: int| separator + list[i + 1],
        ).flatten(),
    decreases list.len(),
{
    if list.len() == 1 {
        let none: Seq<Seq<char>> = Seq::new(0, |i: int| separator + list[i + 1]);
        assert(none =~= Seq::empty());
        lines_in_a_row(none, separator);
        assert(list[0] + Seq::<char>::empty() =~= list[0]);
    } else if list.len() > 1 {
        let rest: Seq<Seq<char>> = list.drop_last();
        let n: nat = (rest.len() - 1) as nat;
        joined_texts_are_in_a_row(rest, separator);
        let few: Seq<Seq<char>> = Seq::new(n, |i: int| separator + rest[i + 1]);
        let all: Seq<Seq<char>> = Seq::new((list.len() - 1) as nat, |i: int| separator + list[i + 1]);
        assert(all =~= few.push(separator + list.last()));
        lines_in_a_row(few, separator + list.last());
        assert(joined(rest, separator) + separator + list.last() =~= list[0] + all.flatten());
    }
}

/// A trimmed text is what lies between two positions of the text: outside there is only
/// white space, and it begins and ends with none.
pub proof fn trimming_takes_white_space_from_the_ends(text: Seq<char>)
    ensures
        exists|i: int, j: int|
            {
                &&& 0 <= i <= j <= text.len()
                &&& trimmed(text) == #[trigger] text.subrange(i, j)
                &&& forall|k: int| 0 <= k < i ==> whitespace(#[trigger] text[k])
                &&& forall|k: int| j <= k < text.len() ==> whitespace(#[trigger] text[k])
                &&& i < j ==> !whitespace(text[i]) && !whitespace(text[j - 1])
            },
{
    let drop = |c: char| whitespace(c);
    let (i, j): (int, int) = stripped_lies_between(text, drop);
    assert(trimmed(text) == text.subrange(i, j));
    assert forall|k: int| 0 <= k < i implies whitespace(#[trigger] text[k]) by {
        assert(drop(text[k]));
    }
    assert forall|k: int| j <= k < text.len() implies whitespace(#[trigger] text[k]) by {
        assert(drop(text[k]));
    }
    assert(i < j ==> !drop(text[i]) && !drop(text[j - 1]));
}

/// A bare word is what lies between two positions of the text: outside there is nothing
/// alphanumeric, and it begins and ends with something that is.
pub proof fn bare_words_are_alphanumeric_at_the_ends(text: Seq<char>)
    ensures
        exists|i: int, j: int|
            {
                &&& 0 <= i <= j <= text.len()
                &&& bare_word(text) == #[trigger] text.subrange(i, j)
                &&& forall|k: int| 0 <= k < i ==> !alphanumeric(#[trigger] text[k])
                &&& forall|k: int| j <= k < text.len() ==> !alphanumeric(#[trigger] text[k])
                &&& i < j ==> alphanumeric(text[i]) && alphanumeric(text[j - 1])
            },
{
    let drop = |c: char| !alphanumeric(c);
    let (i, j): (int, int) = stripped_lies_between(text, drop);
    assert(bare_word(text) == text.subrange(i, j));
    assert forall|k: int| 0 <= k < i implies !alphanumeric(#[trigger] text[k]) by {
        assert(drop(text[k]));
    }
    assert forall|k: int| j <= k < text.len() implies !alphanumeric(#[trigger] text[k]) by {
        assert(drop(text[k]));
    }
    assert(i < j ==> !drop(text[i]) && !drop(text[j - 1]));
}

proof fn stripped_lies_between(text: Seq<char>, drop: spec_fn(char) -> bool) -> (r: (int, int))
    ensures
        0 <= r.0 <= r.1 <= text.len(),
        stripped(text, drop) == text.subrange(r.0, r.1),
        forall|k: int| 0 <= k < r.0 ==> drop(#[trigger] text[k]),
        forall|k: int| r.1 <= k < text.len() ==> drop(#[trigger] text[k]),
        r.0 < r.1 ==> !drop(text[r.0]) && !drop(text[r.1 - 1]),
{
    let a: int = first_kept(text, drop, 0);
    prefix_ends(text, drop, a);
    let rest: Seq<char> = text.skip(a);
    let b: int = last_kept(rest, drop, rest.len() as int);
    suffix_ends(rest, drop, b);
    assert(rest.take(b) =~= text.subrange(a, a + b));
    assert forall|k: int| a + b <= k < text.len() implies drop(#[trigger] text[k]) by {
        assert(rest[k - a] == text[k]);
    }
    if b > 0 {
        assert(rest[b - 1] == text[a + b - 1]);
        assert(rest[0] == text[a]);
    }
    (a, a + b)
}

proof fn first_kept(text: Seq<char>, drop: spec_fn(char) -> bool, from: int) -> (a: int)
    requires
        0 <= from <= text.len(),
        forall|k: int| 0 <= k < from ==> drop(#[trigger] text[k]),
    ensures
        0 <= a <= text.len(),
        forall|k: int| 0 <= k < a ==> drop(#[trigger] text[k]),
        a < text.len() ==> !drop(text[a]),
    decreases text.len() - from,
{
    if from < text.len() && drop(text[from]) {
        first_kept(text, drop, from + 1)
    } else {
        from
    }
}

proof fn last_kept(text: Seq<char>, drop: spec_fn(char) -> bool, to: int) -> (b: int)
    requires
        0 <= to <= text.len(),
        forall|k: int| to <= k < text.len() ==> drop(#[trigger] text[k]),
    ensures
        0 <= b <= text.len(),
        forall|k: int| b <= k < text.len() ==> drop(#[trigger] text[k]),
        b > 0 ==> !drop(text[b - 1]),
    decreases to,
{
    if to > 0 && drop(text[to - 1]) {
        last_kept(text, drop, to - 1)
    } else {
        to
    }
}

/// White space is the tab, the line and page breaks, the space, and the other characters
/// that Unicode counts among it.
pub proof fn white_space_is_that_of_unicode(c: char)
    ensures
        whitespace(c) <==> seq![
            0x09u32, 0x0a, 0x0b, 0x0c, 0x0d, 0x20, 0x85, 0xa0, 0x1680, 0x2000, 0x2001, 0x2002, 0x2003, 0x2004,
            0x2005, 0x2006, 0x2007, 0x2008, 0x2009, 0x200a, 0x2028, 0x2029, 0x202f, 0x205f, 0x3000,
        ].contains(c as u32),
{
    let u: u32 = c as u32;
    let all: Seq<u32> = seq![
        0x09u32, 0x0a, 0x0b, 0x0c, 0x0d, 0x20, 0x85, 0xa0, 0x1680, 0x2000, 0x2001, 0x2002, 0x2003, 0x2004,
        0x2005, 0x2006, 0x2007, 0x2008, 0x2009, 0x200a, 0x2028, 0x2029, 0x202f, 0x205f, 0x3000,
    ];
    assert(all[0] == 0x09 && all[1] == 0x0a && all[2] == 0x0b && all[3] == 0x0c && all[4] == 0x0d);
    assert(all[5] == 0x20 && all[6] == 0x85 && all[7] == 0xa0 && all[8] == 0x1680 && all[9] == 0x2000);
    assert(all[10] == 0x2001 && all[11] == 0x2002 && all[12] == 0x2003 && all[13] == 0x2004);
    assert(all[14] == 0x2005 && all[15] == 0x2006 && all[16] == 0x2007 && all[17] == 0x2008);
    assert(all[18] == 0x2009 && all[19] == 0x200a && all[20] == 0x2028 && all[21] == 0x2029);
    assert(all[22] == 0x202f && all[23] == 0x205f && all[24] == 0x3000);
}

/// A pattern is found at the first position at which its characters stand in the text, and
/// nowhere if they stand nowhere.
pub proof fn a_pattern_is_found_where_it_first_stands(text: Seq<char>, pattern: Seq<char>)
    ensures
        contains(text, pattern) <==> position(text, pattern) is Some,
        match position(text, pattern) {
            Some(i) => {
                &&& 0 <= i <= text.len() - pattern.len()
                &&& text.subrange(i, i + pattern.len()) == pattern
                &&& forall|j: int| 0 <= j < i ==> #[trigger] text.subrange(j, j + pattern.len()) != pattern
            },
            None => forall|j: int|
                0 <= j <= text.len() - pattern.len() ==> #[trigger] text.subrange(j, j + pattern.len())
                    != pattern,
        },
{
    if exists|i: int| #[trigger] occurs_at(text, pattern, i) {
        let i: int = choose|i: int| #[trigger] occurs_at(text, pattern, i);
        let f: int = first_occurrence(text, pattern, i, 0);
        first_is_position(text, pattern, f);
        assert forall|j: int| 0 <= j < f implies #[trigger] text.subrange(j, j + pattern.len()) != pattern by {
            assert(!occurs_at(text, pattern, j));
        }
    } else {
        assert forall|j: int| 0 <= j <= text.len() - pattern.len() implies #[trigger] text.subrange(
            j,
            j + pattern.len(),
        ) != pattern by {
            assert(!occurs_at(text, pattern, j));
        }
    }
}

proof fn first_occurrence(text: Seq<char>, pattern: Seq<char>, i: int, from: int) -> (f: int)
    requires
        0 <= from <= i,
        occurs_at(text, pattern, i),
        forall|j: int| 0 <= j < from ==> !#[trigger] occurs_at(text, pattern, j),
    ensures
        first_at(text, pattern, f),
    decreases i - from,
{
    if occurs_at(text, pattern, from) {
        from
    } else {
        first_occurrence(text, pattern, i, from + 1)
    }
}

/// The last position of a character is one at which it stands, and it stands nowhere after.
pub proof fn the_last_position_is_the_last(text: Seq<char>, c: char)
    ensures
        match last_position(text, c) {
            Some(i) => {
                &&& 0 <= i < text.len()
                &&& text[i] == c
                &&& forall|j: int| i < j < text.len() ==> text[j] != c
            },
            None => forall|j: int| 0 <= j < text.len() ==> text[j] != c,
        },
{
    if text.contains(c) {
        let k: int = choose|k: int| 0 <= k < text.len() && text[k] == c;
        let l: int = last_occurrence(text, c, k, text.len() as int);
        assert(last_at(text, c, l));
    }
}

proof fn last_occurrence(text: Seq<char>, c: char, k: int, to: int) -> (l: int)
    requires
        0 <= k < to <= text.len(),
        text[k] == c,
        forall|j: int| to <= j < text.len() ==> text[j] != c,
    ensures
        last_at(text, c, l),
    decreases to,
{
    if text[to - 1] == c {
        to - 1
    } else {
        last_occurrence(text, c, k, to - 1)
    }
}

/// The texts of a list are those of its strings, one by one.
pub proof fn texts_are_those_of_the_strings(list: Seq<String>, i: int)
    requires
        0 <= i < list.len(),
    ensures
        texts(list).len() == list.len(),
        texts(list)[i] == list[i]@,
        text_if_any(Some(list[i])) == Some(list[i]@),
        text_if_any(None) == None::<Seq<char>>,
{
}

/// The length of a text in bytes is that of its UTF-8, wherever a machine can hold it.
pub proof fn lengths_are_in_bytes(text: Seq<char>)
    requires
        encode_utf8(text).len() <= usize::MAX,
    ensures
        byte_len(text) == encode_utf8(text).len(),
{
}

} // verus!

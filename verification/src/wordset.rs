//! Sets of texts, and how a text is cut into one.

use crate::text::{chars_of, is_whitespace, text_of, texts, to_lower, whitespace};
use crate::text;
use vstd::prelude::*;

verus! {

/// The number of shelves that the texts of a set are spread over.
pub const SHELVES: usize = 64;

/// The shelf of a text.
spec fn shelf(text: Seq<char>) -> nat
    decreases text.len(),
{
    if text.len() == 0 {
        0
    } else {
        (shelf(text.drop_last()) * 31 + text.last() as u32 as nat) % (SHELVES as nat)
    }
}

fn shelf_of(text: &str) -> (r: usize)
    ensures
        r == shelf(text@),
        r < SHELVES,
{
    let mut h: u64 = 0;
    for c in it: text.chars()
        invariant
            it.seq() == text@,
            h == shelf(it.seq().take(it.index() as int)),
            h < SHELVES,
    {
        proof {
            let next: Seq<char> = it.seq().take(it.index() + 1);
            assert(next.drop_last() =~= it.seq().take(it.index() as int));
            assert(next.last() == c);
        }
        h = (h * 31 + (c as u32) as u64) % (SHELVES as u64);
    }
    assert(text@.take(text@.len() as int) =~= text@);
    h as usize
}

fn empty_shelves() -> (r: Vec<Vec<usize>>)
    ensures
        r@.len() == SHELVES,
        forall|h: int| 0 <= h < SHELVES ==> (#[trigger] r@[h])@.len() == 0,
{
    let mut r: Vec<Vec<usize>> = Vec::new();
    let mut i: usize = 0;
    while i < SHELVES
        invariant
            i <= SHELVES,
            r@.len() == i,
            forall|h: int| 0 <= h < i ==> (#[trigger] r@[h])@.len() == 0,
        decreases SHELVES - i,
    {
        r.push(Vec::new());
        i = i + 1;
    }
    r
}

/// A set of texts, spread over shelves by what they hold so that a text is found without
/// looking at all of them.
#[derive(Debug)]
pub struct WordSet {
    items: Vec<String>,
    /// For each shelf the positions of its texts.
    shelves: Vec<Vec<usize>>,
}

impl View for WordSet {
    type V = Set<Seq<char>>;

    closed spec fn view(&self) -> Set<Seq<char>> {
        texts(self.items@).to_set()
    }
}

/// Are the texts where they belong, each once? Shelves are put up for the first text.
spec fn in_order(items: Seq<String>, shelves: Seq<Vec<usize>>) -> bool {
    &&& texts(items).no_duplicates()
    &&& shelves.len() == (if items.len() == 0 {
        0
    } else {
        SHELVES as nat
    })
    &&& forall|i: int| 0 <= i < items.len() ==> #[trigger] shelves[shelf(items[i]@) as int]@.contains(i as usize)
    &&& forall|h: int, k: int|
        0 <= h < shelves.len() && 0 <= k < shelves[h]@.len() ==> (#[trigger] shelves[h]@[k]) < items.len()
    &&& items.len() <= usize::MAX
}

impl WordSet {
    /// The texts of the set in the order in which they came.
    pub closed spec fn list(self) -> Seq<Seq<char>> {
        texts(self.items@)
    }

    /// Nothing occurs twice, and every text is on its shelf.
    #[verifier::type_invariant]
    closed spec fn wf(self) -> bool {
        in_order(self.items@, self.shelves@)
    }

    /// The list holds the members of the set, each once.
    pub proof fn list_is_set(&self)
        requires
            self.list().no_duplicates(),
        ensures
            self.list().to_set() == self@,
            self@.finite(),
            self@.len() == self.list().len(),
    {
        self.list().unique_seq_to_set();
        vstd::seq_lib::seq_to_set_is_finite(self.list());
    }

    /// The empty set.
    pub fn new() -> (r: WordSet)
        ensures
            r@ == Set::<Seq<char>>::empty(),
            r.list().no_duplicates(),
    {
        let r: WordSet = WordSet { items: Vec::new(), shelves: Vec::new() };
        assert(r@ =~= Set::<Seq<char>>::empty());
        r
    }

    /// The number of texts in the set.
    pub fn len(&self) -> (r: usize)
        ensures
            r == self@.len(),
            r == self.list().len(),
            self@.finite(),
            self.list().no_duplicates(),
            self.list().to_set() == self@,
    {
        proof {
            use_type_invariant(self);
            self.list_is_set();
        }
        self.items.len()
    }

    /// A text of the set, by its position.
    pub fn get(&self, i: usize) -> (r: &String)
        requires
            i < self.list().len(),
        ensures
            r@ == self.list()[i as int],
    {
        &self.items[i]
    }

    /// Is the text in the set?
    pub fn contains(&self, text: &String) -> (r: bool)
        ensures
            r == self@.contains(text@),
    {
        proof {
            use_type_invariant(self);
        }
        if self.shelves.len() == 0 {
            return false;
        }
        let h: usize = shelf_of(text.as_str());
        let n: usize = self.shelves[h].len();
        let mut k: usize = 0;
        while k < n
            invariant
                k <= n == self.shelves@[h as int]@.len(),
                h < self.shelves@.len(),
                h == shelf(text@),
                in_order(self.items@, self.shelves@),
                forall|j: int|
                    0 <= j < k ==> self.items@[#[trigger] self.shelves@[h as int]@[j] as int]@ != text@,
            decreases n - k,
        {
            let at: usize = self.shelves[h][k];
            if self.items[at] == *text {
                assert(texts(self.items@)[at as int] == text@);
                return true;
            }
            k = k + 1;
        }
        proof {
            assert forall|i: int| 0 <= i < texts(self.items@).len() implies texts(self.items@)[i] != text@ by {
                if self.items@[i]@ == text@ {
                    assert(self.shelves@[shelf(self.items@[i]@) as int]@.contains(i as usize));
                    let j: int = choose|j: int|
                        0 <= j < self.shelves@[h as int]@.len() && self.shelves@[h as int]@[j] == i as usize;
                    assert(self.items@[self.shelves@[h as int]@[j] as int]@ != text@);
                }
            }
        }
        false
    }

    /// Puts the text into the set.
    pub fn insert(&mut self, text: String)
        ensures
            final(self)@ == old(self)@.insert(text@),
    {
        proof {
            use_type_invariant(&*self);
        }
        if !self.contains(&text) {
            let mut fresh: WordSet = WordSet::new();
            std::mem::swap(&mut fresh, self);
            *self = fresh.with(text);
        } else {
            assert(self@.insert(text@) =~= self@);
        }
    }

    /// The set with one text more.
    fn with(self, text: String) -> (r: WordSet)
        requires
            !self@.contains(text@),
        ensures
            r@ == self@.insert(text@),
    {
        proof {
            use_type_invariant(&self);
        }
        let h: usize = shelf_of(text.as_str());
        let ghost before: Seq<String> = self.items@;
        let ghost word: Seq<char> = text@;
        let WordSet { mut items, mut shelves } = self;
        let at: usize = items.len();
        if shelves.len() == 0 {
            shelves = empty_shelves();
        }
        let ghost old_shelves: Seq<Vec<usize>> = shelves@;
        let mut shelf_items: Vec<usize> = Vec::new();
        std::mem::swap(&mut shelf_items, &mut shelves[h]);
        shelf_items.push(at);
        shelves.set(h, shelf_items);
        items.push(text);
        let total: usize = items.len();
        proof {
            let was: Seq<Seq<char>> = texts(before);
            assert(texts(items@) =~= was.push(word));
            assert(!was.contains(word));
            assert(was.push(word).no_duplicates());
            assert(was.push(word).to_set() =~= was.to_set().insert(word)) by {
                assert forall|w: Seq<char>| was.to_set().insert(word).contains(w) implies was.push(
                    word,
                ).contains(w) by {
                    if w == word {
                        assert(was.push(word)[was.len() as int] == word);
                    } else {
                        let k: int = choose|k: int| 0 <= k < was.len() && was[k] == w;
                        assert(was.push(word)[k] == w);
                    }
                }
            }
            assert forall|i: int| 0 <= i < items@.len() implies #[trigger] shelves@[shelf(
                items@[i]@,
            ) as int]@.contains(i as usize) by {
                let s: int = shelf(items@[i]@) as int;
                if i < before.len() {
                    assert(old_shelves[shelf(before[i]@) as int]@.contains(i as usize));
                    let k: int = choose|k: int|
                        0 <= k < old_shelves[s]@.len() && old_shelves[s]@[k] == i as usize;
                    assert(shelves@[s]@[k] == i as usize);
                } else {
                    assert(shelves@[s]@[old_shelves[s]@.len() as int] == at);
                }
            }
            assert forall|s: int, k: int| 0 <= s < shelves@.len() && 0 <= k < shelves@[s]@.len() implies (
            #[trigger] shelves@[s]@[k]) < items@.len() by {
                if k < old_shelves[s]@.len() {
                    assert(old_shelves[s]@[k] < before.len());
                }
            }
        }
        assert(items@.len() == total);
        WordSet { items, shelves }
    }
}

/// The set of the given texts in lower case.
pub open spec fn lowered(list: Seq<String>) -> Set<Seq<char>> {
    Set::new(|w: Seq<char>| exists|i: int| 0 <= i < list.len() && w == text::lowercase(#[trigger] list[i]@))
}

/// The texts in lower case, as a set.
pub fn lower_set(list: &Vec<String>) -> (r: WordSet)
    ensures
        r@ == lowered(list@),
{
    let mut r: WordSet = WordSet::new();
    let mut i: usize = 0;
    while i < list.len()
        invariant
            i <= list@.len(),
            r@ == lowered(list@.take(i as int)),
        decreases list@.len() - i,
    {
        let w: String = to_lower(list[i].as_str());
        let ghost word: Seq<char> = w@;
        r.insert(w);
        proof {
            let a: Seq<String> = list@.take(i as int);
            let b: Seq<String> = list@.take(i + 1);
            assert(a.push(list@[i as int]) =~= b);
            assert forall|x: Seq<char>| lowered(a).insert(word).contains(x) == lowered(b).contains(x) by {
                if x == word {
                    assert(b[i as int] == list@[i as int]);
                    assert(lowered(b).contains(x));
                } else if lowered(a).contains(x) {
                    let k: int = choose|k: int| 0 <= k < a.len() && x == text::lowercase(#[trigger] a[k]@);
                    assert(b[k] == a[k]);
                } else if lowered(b).contains(x) {
                    let k: int = choose|k: int| 0 <= k < b.len() && x == text::lowercase(#[trigger] b[k]@);
                    assert(k < i ==> a[k] == b[k]);
                }
            }
            assert(lowered(a).insert(word) =~= lowered(b));
        }
        i = i + 1;
    }
    assert(list@.take(list@.len() as int) =~= list@);
    r
}

/// Do the characters from `i` up to `j` make a run between separators?
pub open spec fn is_run(t: Seq<char>, sep: spec_fn(char) -> bool, i: int, j: int) -> bool {
    &&& 0 <= i <= j <= t.len()
    &&& forall|k: int| i <= k < j ==> !sep(#[trigger] t[k])
    &&& i > 0 ==> sep(t[i - 1])
    &&& j < t.len() ==> sep(t[j])
}

/// The pieces that lie between separators, of which some may be empty.
pub open spec fn pieces(t: Seq<char>, sep: spec_fn(char) -> bool) -> Set<Seq<char>> {
    Set::new(|w: Seq<char>| exists|i: int, j: int| #[trigger] is_run(t, sep, i, j) && w == t.subrange(i, j))
}

/// The words of a text: what lies between white space.
pub open spec fn words(t: Seq<char>) -> Set<Seq<char>> {
    pieces(t, |c: char| whitespace(c)).remove(Seq::<char>::empty())
}

/// Does the character separate the parts of a path?
pub open spec fn path_separator(c: char) -> bool {
    c == '/' || c == '\\' || c == '.'
}

/// The parts of a path.
pub open spec fn path_parts(t: Seq<char>) -> Set<Seq<char>> {
    pieces(t, |c: char| path_separator(c))
}

/// The pieces that end before position `n`.
spec fn pieces_before(t: Seq<char>, sep: spec_fn(char) -> bool, n: int) -> Set<Seq<char>> {
    Set::new(
        |w: Seq<char>|
            exists|i: int, j: int| #[trigger] is_run(t, sep, i, j) && j < n && w == t.subrange(i, j),
    )
}

/// At a separator the run that began last ends, and no other does.
proof fn run_ends(t: Seq<char>, sep: spec_fn(char) -> bool, start: int, n: int)
    requires
        is_run(t, sep, start, n),
    ensures
        pieces_before(t, sep, n + 1) == pieces_before(t, sep, n).insert(t.subrange(start, n)),
{
    assert forall|w: Seq<char>|
        pieces_before(t, sep, n + 1).contains(w) == pieces_before(t, sep, n).insert(
            t.subrange(start, n),
        ).contains(w) by {
        if pieces_before(t, sep, n + 1).contains(w) {
            let (i, j): (int, int) = choose|i: int, j: int| #[trigger]
                is_run(t, sep, i, j) && j < n + 1 && w == t.subrange(i, j);
            if j == n {
                if i < start {
                    assert(!sep(t[start - 1]));
                } else if i > start {
                    assert(!sep(t[i - 1]));
                }
            }
        }
    }
    assert(pieces_before(t, sep, n + 1) =~= pieces_before(t, sep, n).insert(t.subrange(start, n)));
}

/// The words of a text.
pub fn word_set(s: &str) -> (r: WordSet)
    ensures
        r@ == words(s@),
{
    let chars: Vec<char> = chars_of(s);
    let ghost sep = |c: char| whitespace(c);
    let n: usize = chars.len();
    let mut r: WordSet = WordSet::new();
    let mut start: usize = 0;
    let mut i: usize = 0;
    let ghost none: Seq<char> = Seq::<char>::empty();
    assert(r@ =~= pieces_before(chars@, sep, 0).remove(none));
    while i < n
        invariant
            start <= i <= n == chars@.len(),
            sep == |c: char| whitespace(c),
            none == Seq::<char>::empty(),
            forall|k: int| start <= k < i ==> !sep(#[trigger] chars@[k]),
            start > 0 ==> sep(chars@[start - 1]),
            r@ == pieces_before(chars@, sep, i as int).remove(none),
        decreases n - i,
    {
        if is_whitespace(chars[i]) {
            proof {
                run_ends(chars@, sep, start as int, i as int);
            }
            let ghost before: Set<Seq<char>> = pieces_before(chars@, sep, i as int);
            let ghost piece: Seq<char> = chars@.subrange(start as int, i as int);
            if start < i {
                r.insert(text_of(&chars, start, i));
                assert(piece.len() > 0);
                assert(before.remove(none).insert(piece) =~= before.insert(piece).remove(none));
            } else {
                assert(piece =~= none);
                assert(before.insert(piece).remove(none) =~= before.remove(none));
            }
            start = i + 1;
        } else {
            assert(pieces_before(chars@, sep, i + 1) =~= pieces_before(chars@, sep, i as int));
        }
        i = i + 1;
    }
    proof {
        run_ends(chars@, sep, start as int, n as int);
        assert(pieces_before(chars@, sep, n + 1) =~= pieces(chars@, sep));
    }
    let ghost before: Set<Seq<char>> = pieces_before(chars@, sep, n as int);
    let ghost piece: Seq<char> = chars@.subrange(start as int, n as int);
    if start < n {
        r.insert(text_of(&chars, start, n));
        assert(piece.len() > 0);
        assert(before.remove(none).insert(piece) =~= before.insert(piece).remove(none));
    } else {
        assert(piece =~= none);
        assert(before.insert(piece).remove(none) =~= before.remove(none));
    }
    r
}

/// The parts of a path.
pub fn path_set(s: &str) -> (r: WordSet)
    ensures
        r@ == path_parts(s@),
{
    let chars: Vec<char> = chars_of(s);
    let ghost sep = |c: char| path_separator(c);
    let n: usize = chars.len();
    let mut r: WordSet = WordSet::new();
    let mut start: usize = 0;
    let mut i: usize = 0;
    assert(r@ =~= pieces_before(chars@, sep, 0));
    while i < n
        invariant
            start <= i <= n == chars@.len(),
            sep == |c: char| path_separator(c),
            forall|k: int| start <= k < i ==> !sep(#[trigger] chars@[k]),
            start > 0 ==> sep(chars@[start - 1]),
            r@ == pieces_before(chars@, sep, i as int),
        decreases n - i,
    {
        let c: char = chars[i];
        if c == '/' || c == '\\' || c == '.' {
            proof {
                run_ends(chars@, sep, start as int, i as int);
            }
            r.insert(text_of(&chars, start, i));
            start = i + 1;
        } else {
            assert(pieces_before(chars@, sep, i + 1) =~= pieces_before(chars@, sep, i as int));
        }
        i = i + 1;
    }
    proof {
        run_ends(chars@, sep, start as int, n as int);
        assert(pieces_before(chars@, sep, n + 1) =~= pieces(chars@, sep));
    }
    r.insert(text_of(&chars, start, n));
    r
}

/// A list has no more texts in lower case than it has texts.
pub proof fn lowered_is_small(list: Seq<String>)
    ensures
        lowered(list).finite(),
        lowered(list).len() <= list.len(),
    decreases list.len(),
{
    if list.len() == 0 {
        assert(lowered(list) =~= Set::empty());
    } else {
        let rest: Seq<String> = list.drop_last();
        let word: Seq<char> = text::lowercase(list.last()@);
        lowered_is_small(rest);
        assert forall|x: Seq<char>| lowered(rest).insert(word).contains(x) == lowered(list).contains(x) by {
            if x == word {
                assert(list[list.len() - 1]@ == list.last()@);
                assert(lowered(list).contains(x));
            } else if lowered(rest).contains(x) {
                let k: int = choose|k: int| 0 <= k < rest.len() && x == text::lowercase(#[trigger] rest[k]@);
                assert(list[k] == rest[k]);
            } else if lowered(list).contains(x) {
                let k: int = choose|k: int| 0 <= k < list.len() && x == text::lowercase(#[trigger] list[k]@);
                assert(k < rest.len() ==> rest[k] == list[k]);
            }
        }
        assert(lowered(rest).insert(word) =~= lowered(list));
    }
}

/// A text is in the set if and only if it is what a text of the list is in lower case.
pub proof fn the_set_holds_the_texts_in_lower_case(list: Seq<String>, w: Seq<char>)
    ensures
        lowered(list).contains(w) <==> exists|i: int|
            0 <= i < list.len() && text::lowercase((#[trigger] list[i])@) == w,
{
}

/// A word of a text is not empty, has no white space in it, and white space or an end of
/// the text on either side; and every such stretch is a word.
pub proof fn words_lie_between_white_space(t: Seq<char>, w: Seq<char>)
    ensures
        words(t).contains(w) <==> w.len() > 0 && exists|i: int, j: int|
            {
                &&& 0 <= i < j <= t.len()
                &&& #[trigger] t.subrange(i, j) == w
                &&& forall|k: int| i <= k < j ==> !whitespace(#[trigger] t[k])
                &&& i == 0 || whitespace(t[i - 1])
                &&& j == t.len() || whitespace(t[j])
            },
{
    let sep = |c: char| whitespace(c);
    if words(t).contains(w) {
        let (i, j): (int, int) = choose|i: int, j: int| #[trigger] is_run(t, sep, i, j) && w == t.subrange(i, j);
        assert(w =~= Seq::<char>::empty() <==> w.len() == 0);
        assert forall|k: int| i <= k < j implies !whitespace(#[trigger] t[k]) by {
            assert(!sep(t[k]));
        }
        assert(t.subrange(i, j) == w);
    }
    if w.len() > 0 && exists|i: int, j: int|
        {
            &&& 0 <= i < j <= t.len()
            &&& #[trigger] t.subrange(i, j) == w
            &&& forall|k: int| i <= k < j ==> !whitespace(#[trigger] t[k])
            &&& i == 0 || whitespace(t[i - 1])
            &&& j == t.len() || whitespace(t[j])
        } {
        let (i, j): (int, int) = choose|i: int, j: int|
            {
                &&& 0 <= i < j <= t.len()
                &&& #[trigger] t.subrange(i, j) == w
                &&& forall|k: int| i <= k < j ==> !whitespace(#[trigger] t[k])
                &&& i == 0 || whitespace(t[i - 1])
                &&& j == t.len() || whitespace(t[j])
            };
        assert(is_run(t, sep, i, j));
    }
}

/// A part of a path has no slash, backslash or point in it, and one of them or an end of
/// the path on either side; and every such stretch, empty or not, is a part.
pub proof fn parts_lie_between_separators(t: Seq<char>, w: Seq<char>)
    ensures
        path_parts(t).contains(w) <==> exists|i: int, j: int|
            {
                &&& 0 <= i <= j <= t.len()
                &&& #[trigger] t.subrange(i, j) == w
                &&& forall|k: int|
                    i <= k < j ==> #[trigger] t[k] != '/' && t[k] != '\\' && t[k] != '.'
                &&& i == 0 || t[i - 1] == '/' || t[i - 1] == '\\' || t[i - 1] == '.'
                &&& j == t.len() || t[j] == '/' || t[j] == '\\' || t[j] == '.'
            },
{
    let sep = |c: char| path_separator(c);
    if path_parts(t).contains(w) {
        let (i, j): (int, int) = choose|i: int, j: int| #[trigger] is_run(t, sep, i, j) && w == t.subrange(i, j);
        assert forall|k: int| i <= k < j implies #[trigger] t[k] != '/' && t[k] != '\\' && t[k] != '.' by {
            assert(!sep(t[k]));
        }
        assert(t.subrange(i, j) == w);
    }
    if exists|i: int, j: int|
        {
            &&& 0 <= i <= j <= t.len()
            &&& #[trigger] t.subrange(i, j) == w
            &&& forall|k: int| i <= k < j ==> #[trigger] t[k] != '/' && t[k] != '\\' && t[k] != '.'
            &&& i == 0 || t[i - 1] == '/' || t[i - 1] == '\\' || t[i - 1] == '.'
            &&& j == t.len() || t[j] == '/' || t[j] == '\\' || t[j] == '.'
        } {
        let (i, j): (int, int) = choose|i: int, j: int|
            {
                &&& 0 <= i <= j <= t.len()
                &&& #[trigger] t.subrange(i, j) == w
                &&& forall|k: int| i <= k < j ==> #[trigger] t[k] != '/' && t[k] != '\\' && t[k] != '.'
                &&& i == 0 || t[i - 1] == '/' || t[i - 1] == '\\' || t[i - 1] == '.'
                &&& j == t.len() || t[j] == '/' || t[j] == '\\' || t[j] == '.'
            };
        assert(is_run(t, sep, i, j));
    }
}

} // verus!

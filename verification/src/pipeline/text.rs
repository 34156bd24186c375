//! Words of a transcription, and the removal of words that two consecutive
//! chunks have in common.

use vstd::prelude::*;
use vstd::string::StringExecFns;

verus! {

/// `String::push` appends the given character to the end of the string.
pub assume_specification[ String::push ](s: &mut String, c: char)
    ensures
        final(s)@ == old(s)@.push(c),
;

// ---------------------------------------------------------------------------
// Words
// ---------------------------------------------------------------------------

/// The characters with the Unicode property `White_Space`.
pub open spec fn is_white_space(c: char) -> bool {
    let n = c as u32;
    ||| 0x09 <= n <= 0x0d
    ||| n == 0x20
    ||| n == 0x85
    ||| n == 0xa0
    ||| n == 0x1680
    ||| 0x2000 <= n <= 0x200a
    ||| n == 0x2028
    ||| n == 0x2029
    ||| n == 0x202f
    ||| n == 0x205f
    ||| n == 0x3000
}

/// The words of `s`: its maximal runs of characters that are not white space,
/// in order.
pub open spec fn words(s: Seq<char>) -> Seq<Seq<char>>
    decreases s.len(),
{
    if s.len() == 0 {
        seq![]
    } else {
        let before = words(s.drop_last());
        if is_white_space(s.last()) {
            before
        } else if ends_in_word(s.drop_last()) {
            before.drop_last().push(before.last().push(s.last()))
        } else {
            before.push(seq![s.last()])
        }
    }
}

/// Whether the last character of `s` belongs to a word.
pub open spec fn ends_in_word(s: Seq<char>) -> bool {
    s.len() > 0 && !is_white_space(s.last())
}

/// A sequence of characters that can stand as one word.
pub open spec fn is_word(w: Seq<char>) -> bool {
    w.len() > 0 && forall|i: int| 0 <= i < w.len() ==> !is_white_space(#[trigger] w[i])
}

/// The words of `ws` with one space between neighbours.
pub open spec fn join(ws: Seq<Seq<char>>) -> Seq<char>
    decreases ws.len(),
{
    if ws.len() == 0 {
        seq![]
    } else if ws.len() == 1 {
        ws[0]
    } else {
        join(ws.drop_last()).push(' ') + ws.last()
    }
}

/// The characters of each string in `ws`.
pub open spec fn texts(ws: Seq<String>) -> Seq<Seq<char>> {
    Seq::new(ws.len(), |i: int| ws[i]@)
}

proof fn lemma_ends_in_word(s: Seq<char>)
    requires
        ends_in_word(s),
    ensures
        words(s).len() > 0,
{
    if ends_in_word(s.drop_last()) {
        assert(words(s).last() == words(s.drop_last()).last().push(s.last()));
    }
}

/// The words of two texts with a space between them are the words of the first
/// followed by the words of the second.
pub proof fn words_of_spaced(a: Seq<char>, b: Seq<char>)
    ensures
        words(a.push(' ') + b) == words(a) + words(b),
{
    white_space_separates_words(a, ' ', b);
}

/// A word is its own only word.
pub proof fn words_of_word(w: Seq<char>)
    requires
        is_word(w),
    ensures
        words(w) == seq![w],
    decreases w.len(),
{
    if w.len() == 1 {
        assert(w.drop_last() == Seq::<char>::empty());
        assert(w == seq![w.last()]);
        assert(words(w.drop_last()) == Seq::<Seq<char>>::empty());
        assert(!is_white_space(w[0]));
    } else {
        let p = w.drop_last();
        assert forall|i: int| 0 <= i < p.len() implies !is_white_space(#[trigger] p[i]) by {
            assert(p[i] == w[i]);
        }
        words_of_word(p);
        assert(!is_white_space(w[w.len() - 1]));
        assert(p.push(w.last()) == w);
        assert(ends_in_word(p));
        assert(words(p).drop_last() == Seq::<Seq<char>>::empty());
    }
}

/// Every word that is found in a text is a word.
pub proof fn words_are_words(s: Seq<char>)
    ensures
        forall|i: int| 0 <= i < words(s).len() ==> is_word(#[trigger] words(s)[i]),
    decreases s.len(),
{
    if s.len() > 0 {
        words_are_words(s.drop_last());
        let before = words(s.drop_last());
        if !is_white_space(s.last()) {
            if ends_in_word(s.drop_last()) {
                lemma_ends_in_word(s.drop_last());
                let w = before.last();
                assert(is_word(before[before.len() - 1]));
                assert(is_word(w.push(s.last())));
            } else {
                assert(is_word(seq![s.last()]));
            }
        }
    }
}

/// The words of a text hold all its characters but the white space, in order.
pub proof fn words_keep_every_character(s: Seq<char>)
    ensures
        words(s).flatten() == s.filter(|c: char| !is_white_space(c)),
    decreases s.len(),
{
    let visible = |c: char| !is_white_space(c);
    reveal(Seq::filter);
    if s.len() > 0 {
        let before = words(s.drop_last());
        let c = s.last();
        words_keep_every_character(s.drop_last());
        if !is_white_space(c) {
            if ends_in_word(s.drop_last()) {
                lemma_ends_in_word(s.drop_last());
                let init = before.drop_last();
                assert(init.push(before.last()) == before);
                init.lemma_flatten_push(before.last());
                init.lemma_flatten_push(before.last().push(c));
                assert(words(s).flatten() == before.flatten().push(c));
            } else {
                before.lemma_flatten_push(seq![c]);
                assert(words(s).flatten() == before.flatten().push(c));
            }
        }
    } else {
        assert(words(s).flatten() == Seq::<char>::empty());
    }
}

/// Joining words and splitting the text again gives the words back.
pub proof fn words_of_join(ws: Seq<Seq<char>>)
    requires
        forall|i: int| 0 <= i < ws.len() ==> is_word(#[trigger] ws[i]),
    ensures
        words(join(ws)) == ws,
    decreases ws.len(),
{
    if ws.len() == 1 {
        words_of_word(ws[0]);
        assert(ws == seq![ws[0]]);
    } else if ws.len() > 1 {
        let p = ws.drop_last();
        assert forall|i: int| 0 <= i < p.len() implies is_word(#[trigger] p[i]) by {
            assert(p[i] == ws[i]);
        }
        words_of_join(p);
        words_of_spaced(join(p), ws.last());
        assert(is_word(ws[ws.len() - 1]));
        words_of_word(ws.last());
        assert(p + seq![ws.last()] == ws);
    }
}

/// White space is exactly the 25 characters that Unicode lists.
pub proof fn white_space_is_the_unicode_list(c: char)
    ensures
        is_white_space(c) <==> seq![
            '\u{9}',
            '\u{a}',
            '\u{b}',
            '\u{c}',
            '\u{d}',
            '\u{20}',
            '\u{85}',
            '\u{a0}',
            '\u{1680}',
            '\u{2000}',
            '\u{2001}',
            '\u{2002}',
            '\u{2003}',
            '\u{2004}',
            '\u{2005}',
            '\u{2006}',
            '\u{2007}',
            '\u{2008}',
            '\u{2009}',
            '\u{200a}',
            '\u{2028}',
            '\u{2029}',
            '\u{202f}',
            '\u{205f}',
            '\u{3000}',
        ].contains(c),
{
    let list = seq![
        '\u{9}',
        '\u{a}',
        '\u{b}',
        '\u{c}',
        '\u{d}',
        '\u{20}',
        '\u{85}',
        '\u{a0}',
        '\u{1680}',
        '\u{2000}',
        '\u{2001}',
        '\u{2002}',
        '\u{2003}',
        '\u{2004}',
        '\u{2005}',
        '\u{2006}',
        '\u{2007}',
        '\u{2008}',
        '\u{2009}',
        '\u{200a}',
        '\u{2028}',
        '\u{2029}',
        '\u{202f}',
        '\u{205f}',
        '\u{3000}',
    ];
    let n = c as u32;
    if is_white_space(c) {
        let i = if n <= 0x0d {
            n - 0x09
        } else if n == 0x20 {
            5
        } else if n == 0x85 {
            6
        } else if n == 0xa0 {
            7
        } else if n == 0x1680 {
            8
        } else if n <= 0x200a {
            n - 0x2000 + 9
        } else if n == 0x2028 {
            20
        } else if n == 0x2029 {
            21
        } else if n == 0x202f {
            22
        } else if n == 0x205f {
            23
        } else {
            24
        };
        assert(list[i] as u32 == n);
    }
}

/// Any white space between two texts separates their words: the words of the
/// whole are those of the first followed by those of the second.
pub proof fn white_space_separates_words(a: Seq<char>, c: char, b: Seq<char>)
    requires
        is_white_space(c),
    ensures
        words(a.push(c) + b) == words(a) + words(b),
    decreases b.len(),
{
    let s = a.push(c) + b;
    if b.len() == 0 {
        assert(s.drop_last() == a);
        assert(words(a) + words(b) == words(a));
    } else {
        assert(s.drop_last() == a.push(c) + b.drop_last());
        assert(s.last() == b.last());
        white_space_separates_words(a, c, b.drop_last());
        if b.len() == 1 {
            assert(s.drop_last().last() == c);
        } else {
            assert(s.drop_last().last() == b.drop_last().last());
            if ends_in_word(b.drop_last()) {
                lemma_ends_in_word(b.drop_last());
            }
        }
        assert(ends_in_word(s.drop_last()) == ends_in_word(b.drop_last()));
        assert(words(s) == words(a) + words(b));
    }
}

/// A text without white space is one word, and an empty text has none.
pub proof fn unbroken_text_is_one_word(w: Seq<char>)
    requires
        forall|i: int| 0 <= i < w.len() ==> !is_white_space(#[trigger] w[i]),
    ensures
        words(w) == if w.len() == 0 {
            Seq::<Seq<char>>::empty()
        } else {
            seq![w]
        },
{
    if w.len() > 0 {
        words_of_word(w);
    }
}

/// Joined texts are all there, in order, each behind one space but the first.
pub proof fn join_puts_a_space_before_all_but_the_first(ws: Seq<Seq<char>>)
    ensures
        ws.len() == 0 ==> join(ws) == Seq::<char>::empty(),
        ws.len() > 0 ==> seq![' '] + join(ws) == ws.map_values(
            |w: Seq<char>| seq![' '] + w,
        ).flatten(),
    decreases ws.len(),
{
    let f = |w: Seq<char>| seq![' '] + w;
    if ws.len() > 0 {
        let init = ws.drop_last();
        join_puts_a_space_before_all_but_the_first(init);
        assert(ws.map_values(f) == init.map_values(f).push(f(ws.last())));
        init.map_values(f).lemma_flatten_push(f(ws.last()));
        if ws.len() == 1 {
            assert(init.map_values(f).flatten() == Seq::<char>::empty());
            assert(ws.last() == ws[0]);
            assert(seq![' '] + join(ws) == ws.map_values(f).flatten());
        } else {
            assert(seq![' '] + join(ws) == (seq![' '] + join(init)) + f(ws.last()));
        }
    }
}

/// Whether `c` is white space.
pub fn white_space(c: char) -> (r: bool)
    ensures
        r == is_white_space(c),
{
    let n: u32 = c as u32;
    (0x09 <= n && n <= 0x0d) || n == 0x20 || n == 0x85 || n == 0xa0 || n == 0x1680 || (0x2000 <= n
        && n <= 0x200a) || n == 0x2028 || n == 0x2029 || n == 0x202f || n == 0x205f || n == 0x3000
}

/// Split `s` into its words.
pub fn split_words(s: &str) -> (r: Vec<String>)
    ensures
        texts(r@) == words(s@),
        r@.len() == words(s@).len(),
        forall|i: int| 0 <= i < r@.len() ==> (#[trigger] r@[i])@ == words(s@)[i],
{
    let mut done: Vec<String> = Vec::new();
    let mut word: String = String::new();
    for c in it: s.chars()
        invariant
            it.seq() == s@,
            ends_in_word(s@.take(it.index() as int)) == (word@.len() > 0),
            words(s@.take(it.index() as int)) == if word@.len() > 0 {
                texts(done@).push(word@)
            } else {
                texts(done@)
            },
    {
        let ghost seen = s@.take(it.index() as int);
        let ghost now = s@.take(it.index() as int + 1);
        assert(now.drop_last() == seen);
        assert(now.last() == c);
        if white_space(c) {
            if !word.as_str().is_empty() {
                let ghost before = texts(done@);
                let ghost w = word@;
                done.push(word);
                assert(texts(done@) == before.push(w));
                word = String::new();
            }
        } else {
            let ghost w = word@;
            word.push(c);
            assert(w.len() > 0 ==> texts(done@).push(w).drop_last() == texts(done@));
            assert(w.len() == 0 ==> word@ == seq![c]);
        }
    }
    assert(s@.take(s@.len() as int) == s@);
    if !word.as_str().is_empty() {
        let ghost before = texts(done@);
        let ghost w = word@;
        done.push(word);
        assert(texts(done@) == before.push(w));
    }
    assert forall|i: int| 0 <= i < done@.len() implies (#[trigger] done@[i])@ == words(s@)[i] by {
        assert(texts(done@)[i] == done@[i]@);
    }
    done
}

// ---------------------------------------------------------------------------
// Overlap deduplication
// ---------------------------------------------------------------------------

/// The last `n` words of `prev` are the first `n` words of `current`.
pub open spec fn overlaps(prev: Seq<Seq<char>>, current: Seq<Seq<char>>, n: int) -> bool {
    &&& 0 <= n <= prev.len()
    &&& n <= current.len()
    &&& prev.skip(prev.len() - n) == current.take(n)
}

/// The largest number up to `limit` by which `prev` and `current` overlap.
pub open spec fn overlap_up_to(
    prev: Seq<Seq<char>>,
    current: Seq<Seq<char>>,
    limit: nat,
) -> nat
    decreases limit,
{
    if limit == 0 || overlaps(prev, current, limit as int) {
        limit
    } else {
        overlap_up_to(prev, current, (limit - 1) as nat)
    }
}

/// The largest number of words by which `prev` and `current` overlap.
pub open spec fn longest_overlap(prev: Seq<Seq<char>>, current: Seq<Seq<char>>) -> nat {
    overlap_up_to(
        prev,
        current,
        if prev.len() <= current.len() {
            prev.len()
        } else {
            current.len()
        },
    )
}

/// What `current` says that `prev` has not said: `current` itself where the two
/// do not overlap, and else its words after the longest overlap, joined by
/// spaces.
pub open spec fn new_part(prev: Seq<char>, current: Seq<char>) -> Seq<char> {
    let n = longest_overlap(words(prev), words(current));
    if n == 0 {
        current
    } else {
        join(words(current).skip(n as int))
    }
}

proof fn lemma_overlap_up_to(prev: Seq<Seq<char>>, current: Seq<Seq<char>>, limit: nat)
    requires
        limit <= prev.len(),
        limit <= current.len(),
    ensures
        overlap_up_to(prev, current, limit) <= limit,
        overlaps(prev, current, overlap_up_to(prev, current, limit) as int),
        forall|n: int| #[trigger]
            overlaps(prev, current, n) && n <= limit ==> n <= overlap_up_to(prev, current, limit),
    decreases limit,
{
    if limit == 0 {
        assert(prev.skip(prev.len() as int) == current.take(0));
    } else if !overlaps(prev, current, limit as int) {
        lemma_overlap_up_to(prev, current, (limit - 1) as nat);
    }
}

/// The longest overlap is an overlap, and no overlap is longer.
pub proof fn longest_overlap_is_longest(prev: Seq<Seq<char>>, current: Seq<Seq<char>>)
    ensures
        overlaps(prev, current, longest_overlap(prev, current) as int),
        forall|n: int| #[trigger]
            overlaps(prev, current, n) ==> n <= longest_overlap(prev, current),
{
    lemma_overlap_up_to(
        prev,
        current,
        if prev.len() <= current.len() {
            prev.len()
        } else {
            current.len()
        },
    );
}

/// Deduplication drops exactly the words of the longest overlap, and they are
/// words with which the previous text ends.
pub proof fn new_part_drops_the_overlap(prev: Seq<char>, current: Seq<char>)
    ensures
        ({
            let n = longest_overlap(words(prev), words(current)) as int;
            &&& words(new_part(prev, current)) == words(current).skip(n)
            &&& words(current).take(n) == words(prev).skip(words(prev).len() - n)
        }),
{
    let c = words(current);
    let n = longest_overlap(words(prev), c) as int;
    longest_overlap_is_longest(words(prev), c);
    words_are_words(current);
    let rest = c.skip(n);
    assert forall|i: int| 0 <= i < rest.len() implies is_word(#[trigger] rest[i]) by {
        assert(rest[i] == c[i + n]);
    }
    words_of_join(rest);
    if n == 0 {
        assert(rest == c);
    }
}

/// No run of words with which `prev` ends and `current` begins is said again: at
/// least its words are dropped, however long it is. What is dropped is such a
/// run, and what is left are the words of `current` after it.
pub proof fn no_shared_run_is_repeated(prev: Seq<char>, current: Seq<char>)
    ensures
        ({
            let p = words(prev);
            let c = words(current);
            let left = words(new_part(prev, current));
            &&& forall|n: int|
                0 <= n <= p.len() && n <= c.len() && p.skip(p.len() - n) == #[trigger] c.take(n)
                    ==> left.len() <= c.len() - n
            &&& left.len() <= c.len()
            &&& c.len() - left.len() <= p.len()
            &&& left == c.skip(c.len() - left.len())
            &&& p.skip(p.len() - (c.len() - left.len())) == c.take(c.len() - left.len())
        }),
{
    let p = words(prev);
    let c = words(current);
    longest_overlap_is_longest(p, c);
    new_part_drops_the_overlap(prev, current);
    assert forall|n: int|
        0 <= n <= p.len() && n <= c.len() && p.skip(p.len() - n) == #[trigger] c.take(n) implies words(
        new_part(prev, current),
    ).len() <= c.len() - n by {
        assert(overlaps(p, c, n));
    }
}

/// Where the previous text ends with the words `shared` and the current one begins
/// with them, nothing of them is said again.
pub proof fn shared_words_are_said_once(
    prev: Seq<char>,
    current: Seq<char>,
    before: Seq<Seq<char>>,
    shared: Seq<Seq<char>>,
    after: Seq<Seq<char>>,
)
    requires
        words(prev) == before + shared,
        words(current) == shared + after,
    ensures
        ({
            let left = words(new_part(prev, current));
            left.len() <= after.len() && left == after.skip(after.len() - left.len())
        }),
{
    let n = shared.len() as int;
    no_shared_run_is_repeated(prev, current);
    assert(words(prev).skip(words(prev).len() - n) == shared);
    assert(words(current).take(n) == shared);
    let left = words(new_part(prev, current));
    assert(left == after.skip(after.len() - left.len()));
}

/// What is left after words were dropped is spaced by single spaces; where none
/// were dropped, the text stays as it is, white space included.
pub proof fn new_part_is_spaced(prev: Seq<char>, current: Seq<char>)
    ensures
        ({
            let part = new_part(prev, current);
            let left = words(part);
            &&& left.len() == words(current).len() ==> part == current
            &&& left.len() < words(current).len() && left.len() > 0 ==> seq![' '] + part
                == left.map_values(|w: Seq<char>| seq![' '] + w).flatten()
            &&& left.len() < words(current).len() && left.len() == 0 ==> part
                == Seq::<char>::empty()
        }),
{
    let c = words(current);
    let n = longest_overlap(words(prev), c) as int;
    longest_overlap_is_longest(words(prev), c);
    new_part_drops_the_overlap(prev, current);
    join_puts_a_space_before_all_but_the_first(c.skip(n));
}

/// A chunk that repeats the previous one adds nothing.
pub proof fn new_part_of_repeat_is_empty(text: Seq<char>)
    requires
        words(text).len() > 0,
    ensures
        new_part(text, text) == Seq::<char>::empty(),
{
    let w = words(text);
    longest_overlap_is_longest(w, w);
    assert(w.skip(0) == w.take(w.len() as int));
    assert(overlaps(w, w, w.len() as int));
}

/// Nothing is dropped where no words are shared.
pub proof fn new_part_without_overlap_is_everything(prev: Seq<char>, current: Seq<char>)
    requires
        forall|n: int| #[trigger] overlaps(words(prev), words(current), n) ==> n == 0,
    ensures
        new_part(prev, current) == current,
{
    longest_overlap_is_longest(words(prev), words(current));
}

/// Whether the last `n` words of `prev` are the first `n` words of `current`.
fn tail_is_head(prev: &Vec<String>, current: &Vec<String>, n: usize) -> (r: bool)
    requires
        n <= prev@.len(),
        n <= current@.len(),
    ensures
        r == overlaps(texts(prev@), texts(current@), n as int),
{
    let start: usize = prev.len() - n;
    let ghost p = texts(prev@).skip(start as int);
    let ghost c = texts(current@).take(n as int);
    let mut i: usize = 0;
    while i < n
        invariant
            i <= n,
            start + n == prev.len(),
            n <= current@.len(),
            p == texts(prev@).skip(start as int),
            c == texts(current@).take(n as int),
            forall|k: int| 0 <= k < i ==> #[trigger] p[k] == c[k],
        decreases n - i,
    {
        assert(p[i as int] == prev@[start + i]@);
        assert(c[i as int] == current@[i as int]@);
        if prev[start + i] != current[i] {
            return false;
        }
        i = i + 1;
    }
    assert(p == c);
    true
}

/// The words of `ws` from index `from` on, with one space between neighbours.
fn join_from(ws: &Vec<String>, from: usize) -> (r: String)
    requires
        from <= ws@.len(),
    ensures
        r@ == join(texts(ws@).skip(from as int)),
{
    let mut text: String = String::new();
    let mut i: usize = from;
    let ghost all = texts(ws@);
    assert(all.subrange(from as int, from as int) == Seq::<Seq<char>>::empty());
    while i < ws.len()
        invariant
            from <= i <= ws@.len(),
            all == texts(ws@),
            text@ == join(all.subrange(from as int, i as int)),
        decreases ws@.len() - i,
    {
        let ghost now = all.subrange(from as int, i + 1);
        assert(now.drop_last() == all.subrange(from as int, i as int));
        assert(now.last() == ws@[i as int]@);
        if i > from {
            text.push(' ');
        }
        text.append(ws[i].as_str());
        assert(i == from ==> text@ == now[0]);
        i = i + 1;
    }
    assert(all.subrange(from as int, ws@.len() as int) == all.skip(from as int));
    text
}

/// Given the full text of the previous chunk and the full text of the current
/// chunk, return only the portion of `current` that is new (i.e. after the
/// overlapping region).
///
/// Works at the word level: finds the longest suffix of `prev` that matches
/// the prefix of `current` and discards that matching prefix from `current`.
pub fn dedup_overlap(prev: &str, current: &str) -> (r: String)
    ensures
        r@ == new_part(prev@, current@),
{
    let prev_words: Vec<String> = split_words(prev);
    let curr_words: Vec<String> = split_words(current);
    let ghost p = words(prev@);
    let ghost c = words(current@);
    assert(p.len() == prev_words@.len());
    assert(c.len() == curr_words@.len());

    // Find the longest suffix of `prev_words` that is a prefix of `curr_words`.
    let mut n: usize = if prev_words.len() <= curr_words.len() {
        prev_words.len()
    } else {
        curr_words.len()
    };
    while n > 0 && !tail_is_head(&prev_words, &curr_words, n)
        invariant
            n <= prev_words@.len(),
            n <= curr_words@.len(),
            texts(prev_words@) == p,
            texts(curr_words@) == c,
            overlap_up_to(p, c, n as nat) == longest_overlap(p, c),
        decreases n,
    {
        n = n - 1;
    }

    if n == 0 {
        // No overlap found, so the whole current transcription is new.
        current.to_owned()
    } else {
        join_from(&curr_words, n)
    }
}

} // verus!

//! Operations on texts as sequences of characters: splitting and joining,
//! searching, comparing and sorting.

use vstd::multiset::Multiset;
use vstd::prelude::*;

use crate::primitives::text_of;
use crate::types::texts;

verus! {

/// The parts of a text between the occurrences of `sep`: there is one more
/// part than there are separators, and a part may be empty.
pub open spec fn split(text: Seq<char>, sep: char) -> Seq<Seq<char>>
    decreases text.len(),
{
    if text.len() == 0 {
        seq![Seq::empty()]
    } else {
        let init = split(text.drop_last(), sep);
        if text.last() == sep {
            init.push(Seq::empty())
        } else {
            init.drop_last().push(init.last().push(text.last()))
        }
    }
}

/// The parts put together with `sep` between each two.
pub open spec fn join(parts: Seq<Seq<char>>, sep: char) -> Seq<char>
    decreases parts.len(),
{
    if parts.len() == 0 {
        Seq::empty()
    } else if parts.len() == 1 {
        parts[0]
    } else {
        join(parts.drop_last(), sep).push(sep) + parts.last()
    }
}

/// Whether `text` ends with `suffix`.
pub open spec fn ends_with(text: Seq<char>, suffix: Seq<char>) -> bool {
    text.len() >= suffix.len() && text.skip(text.len() - suffix.len()) == suffix
}

/// Whether `needle` occurs in `hay` as a run of consecutive characters.
pub open spec fn occurs_in(needle: Seq<char>, hay: Seq<char>) -> bool {
    exists|at: int|
        0 <= at && at + needle.len() <= hay.len() && #[trigger] hay.subrange(
            at,
            at + needle.len(),
        ) == needle
}

/// Whether `a` comes before `b`, or is equal to it, in the order of the
/// dictionary over the code points of the characters.
pub open spec fn lex_le(a: Seq<char>, b: Seq<char>) -> bool
    decreases a.len(),
{
    if a.len() == 0 {
        true
    } else if b.len() == 0 {
        false
    } else if a[0] != b[0] {
        (a[0] as u32) < (b[0] as u32)
    } else {
        lex_le(a.drop_first(), b.drop_first())
    }
}

/// Whether each text comes before the ones after it, or is equal to them.
pub open spec fn sorted(list: Seq<Seq<char>>) -> bool {
    forall|i: int, j: int| 0 <= i < j < list.len() ==> lex_le(#[trigger] list[i], #[trigger] list[j])
}

/// The views of a list of character vectors, in order.
pub open spec fn rows(list: Seq<Vec<char>>) -> Seq<Seq<char>> {
    list.map_values(|row: Vec<char>| row@)
}

/// There is always a part, and the last one holds what follows the last
/// separator.
pub proof fn lemma_split_nonempty(text: Seq<char>, sep: char)
    ensures
        split(text, sep).len() >= 1,
    decreases text.len(),
{
    if text.len() > 0 {
        lemma_split_nonempty(text.drop_last(), sep);
    }
}

/// Putting the parts of a text together again gives the text.
pub proof fn lemma_join_split(text: Seq<char>, sep: char)
    ensures
        join(split(text, sep), sep) == text,
    decreases text.len(),
{
    if text.len() > 0 {
        let init = split(text.drop_last(), sep);
        lemma_split_nonempty(text.drop_last(), sep);
        lemma_join_split(text.drop_last(), sep);
        if text.last() == sep {
            assert(init.push(Seq::empty()).drop_last() =~= init);
            assert(join(init, sep).push(sep) + Seq::<char>::empty() =~= text);
        } else {
            let last = init.last().push(text.last());
            let parts = init.drop_last().push(last);
            assert(parts.drop_last() =~= init.drop_last());
            if init.len() == 1 {
                assert(join(init, sep) == init[0]);
                assert(parts =~= seq![last]);
                assert(last =~= text);
            } else {
                assert(join(init, sep) == join(init.drop_last(), sep).push(sep) + init.last());
                assert(join(parts, sep) == join(init.drop_last(), sep).push(sep) + last);
                assert(join(init.drop_last(), sep).push(sep) + last =~= (join(
                    init.drop_last(),
                    sep,
                ).push(sep) + init.last()).push(text.last()));
                assert(text =~= text.drop_last().push(text.last()));
            }
        }
    } else {
        assert(join(seq![Seq::<char>::empty()], sep) =~= text);
    }
}

/// No part of a text holds the separator that it was split at.
pub proof fn lemma_split_parts(text: Seq<char>, sep: char)
    ensures
        forall|i: int| 0 <= i < split(text, sep).len() ==> !(#[trigger] split(text, sep)[i]).contains(
            sep,
        ),
    decreases text.len(),
{
    let parts = split(text, sep);
    if text.len() > 0 {
        let init = split(text.drop_last(), sep);
        lemma_split_nonempty(text.drop_last(), sep);
        lemma_split_parts(text.drop_last(), sep);
        assert forall|i: int| 0 <= i < parts.len() implies !(#[trigger] parts[i]).contains(sep) by {
            if text.last() == sep {
                if i < init.len() {
                    assert(parts[i] == init[i]);
                }
            } else {
                if i < init.len() - 1 {
                    assert(parts[i] == init[i]);
                } else {
                    let last = init.last().push(text.last());
                    assert(parts[i] == last);
                    if last.contains(sep) {
                        let k = choose|k: int| 0 <= k < last.len() && last[k] == sep;
                        assert(init.last()[k] == sep);
                        assert(init[init.len() - 1].contains(sep));
                    }
                }
            }
        }
    } else {
        assert(!parts[0].contains(sep));
    }
}

/// Splitting parts that hold no separator, put together, gives the parts.
pub proof fn lemma_split_join(parts: Seq<Seq<char>>, sep: char)
    requires
        parts.len() >= 1,
        forall|i: int| 0 <= i < parts.len() ==> !(#[trigger] parts[i]).contains(sep),
    ensures
        split(join(parts, sep), sep) == parts,
    decreases parts.len(), parts.last().len(),
{
    let last = parts.last();
    if last.len() > 0 {
        let shorter = parts.drop_last().push(last.drop_last());
        assert forall|i: int| 0 <= i < shorter.len() implies !(#[trigger] shorter[i]).contains(
            sep,
        ) by {
            if i < parts.len() - 1 {
                assert(shorter[i] == parts[i]);
            } else {
                if shorter[i].contains(sep) {
                    let k = choose|k: int| 0 <= k < shorter[i].len() && shorter[i][k] == sep;
                    assert(last[k] == sep);
                }
            }
        }
        assert(shorter.last().len() < last.len());
        lemma_split_join(shorter, sep);
        assert(shorter.drop_last() =~= parts.drop_last());
        assert(last[last.len() - 1] != sep) by {
            if last[last.len() - 1] == sep {
                assert(last.contains(sep));
            }
        }
        assert(join(parts, sep) =~= join(shorter, sep).push(last.last())) by {
            if parts.len() == 1 {
                assert(last =~= last.drop_last().push(last.last()));
            } else {
                assert(join(parts, sep) == join(parts.drop_last(), sep).push(sep) + last);
                assert(join(shorter, sep) == join(parts.drop_last(), sep).push(sep)
                    + last.drop_last());
                assert(last =~= last.drop_last().push(last.last()));
            }
        }
        assert(join(parts, sep).drop_last() =~= join(shorter, sep));
        assert(shorter.drop_last().push(shorter.last().push(last.last())) =~= parts) by {
            assert(shorter.last().push(last.last()) =~= last);
        }
    } else {
        assert(last =~= Seq::<char>::empty());
        if parts.len() == 1 {
            assert(parts[0] == last);
            assert(parts =~= seq![Seq::<char>::empty()]);
            assert(join(parts, sep) =~= Seq::<char>::empty());
        } else {
            let init = parts.drop_last();
            assert forall|i: int| 0 <= i < init.len() implies !(#[trigger] init[i]).contains(
                sep,
            ) by {
                assert(init[i] == parts[i]);
            }
            lemma_split_join(init, sep);
            assert(join(parts, sep) =~= join(init, sep).push(sep));
            assert(join(parts, sep).drop_last() =~= join(init, sep));
            assert(init.push(Seq::empty()) =~= parts);
        }
    }
}

/// A line without the carriage return at its end, where it has one.
pub open spec fn without_return(line: Seq<char>) -> Seq<char> {
    if line.len() > 0 && line.last() == '\r' {
        line.drop_last()
    } else {
        line
    }
}

/// The lines of a text. Each line that a line feed ends stands without
/// the line feed and without a carriage return before it. What stands
/// behind the last line feed is a line where it is not empty, and stands
/// as it is.
pub open spec fn lines_of(text: Seq<char>) -> Seq<Seq<char>> {
    let parts = split(text, '\n');
    let ended = Seq::new((parts.len() - 1) as nat, |i: int| without_return(parts[i]));
    if parts.last().len() == 0 {
        ended
    } else {
        ended.push(parts.last())
    }
}

/// Whether each text comes strictly before the ones after it.
pub open spec fn ascending(names: Seq<Seq<char>>) -> bool {
    forall|i: int, j: int|
        0 <= i < j < names.len() ==> lex_le(#[trigger] names[i], #[trigger] names[j]) && names[i]
            != names[j]
}

/// Two lists in strict order that hold the same texts are the same list.
pub proof fn lemma_ascending_one(a: Seq<Seq<char>>, b: Seq<Seq<char>>)
    requires
        ascending(a),
        ascending(b),
        forall|text: Seq<char>| a.contains(text) <==> b.contains(text),
    ensures
        a == b,
    decreases a.len(),
{
    if a.len() == 0 {
        if b.len() > 0 {
            assert(b.contains(b[0]));
        }
        assert(a =~= b);
    } else {
        assert(a.contains(a[0]));
        let j = choose|j: int| 0 <= j < b.len() && b[j] == a[0];
        assert(b.contains(b[0]));
        let i = choose|i: int| 0 <= i < a.len() && a[i] == b[0];
        if i > 0 && j > 0 {
            lemma_lex_antisym(a[0], b[0]);
        }
        assert(a[0] == b[0]);
        let x = a.drop_first();
        let y = b.drop_first();
        assert forall|text: Seq<char>| x.contains(text) <==> y.contains(text) by {
            if x.contains(text) {
                let k = choose|k: int| 0 <= k < x.len() && x[k] == text;
                assert(a[k + 1] == text);
                assert(a.contains(text));
                let m = choose|m: int| 0 <= m < b.len() && b[m] == text;
                assert(y[m - 1] == text);
            }
            if y.contains(text) {
                let k = choose|k: int| 0 <= k < y.len() && y[k] == text;
                assert(b[k + 1] == text);
                assert(b.contains(text));
                let m = choose|m: int| 0 <= m < a.len() && a[m] == text;
                assert(x[m - 1] == text);
            }
        }
        assert(ascending(x)) by {
            assert forall|i: int, j: int| 0 <= i < j < x.len() implies lex_le(
                #[trigger] x[i],
                #[trigger] x[j],
            ) && x[i] != x[j] by {
                assert(x[i] == a[i + 1] && x[j] == a[j + 1]);
            }
        }
        assert(ascending(y)) by {
            assert forall|i: int, j: int| 0 <= i < j < y.len() implies lex_le(
                #[trigger] y[i],
                #[trigger] y[j],
            ) && y[i] != y[j] by {
                assert(y[i] == b[i + 1] && y[j] == b[j + 1]);
            }
        }
        lemma_ascending_one(x, y);
        assert(a =~= seq![a[0]] + x);
        assert(b =~= seq![b[0]] + y);
    }
}

/// Two texts with a common beginning compare as what follows it.
pub proof fn lemma_lex_skip(a: Seq<char>, b: Seq<char>, n: int)
    requires
        0 <= n <= a.len(),
        n <= b.len(),
        a.take(n) == b.take(n),
    ensures
        lex_le(a, b) == lex_le(a.skip(n), b.skip(n)),
    decreases n,
{
    if n > 0 {
        assert(a[0] == a.take(n)[0] && b[0] == b.take(n)[0]);
        assert(a.drop_first().take(n - 1) =~= a.take(n).drop_first());
        assert(b.drop_first().take(n - 1) =~= b.take(n).drop_first());
        lemma_lex_skip(a.drop_first(), b.drop_first(), n - 1);
        assert(a.drop_first().skip(n - 1) =~= a.skip(n));
        assert(b.drop_first().skip(n - 1) =~= b.skip(n));
    } else {
        assert(a.skip(0) =~= a);
        assert(b.skip(0) =~= b);
    }
}

/// Of two texts one comes before the other, or they are equal.
pub proof fn lemma_lex_total(a: Seq<char>, b: Seq<char>)
    ensures
        lex_le(a, b) || lex_le(b, a),
    decreases a.len(),
{
    if a.len() > 0 && b.len() > 0 {
        if a[0] == b[0] {
            lemma_lex_total(a.drop_first(), b.drop_first());
        } else {
            vstd::utf8::char_u32_cast(a[0], a[0] as u32);
            vstd::utf8::char_u32_cast(b[0], b[0] as u32);
        }
    }
}

/// The order is transitive.
pub proof fn lemma_lex_trans(a: Seq<char>, b: Seq<char>, c: Seq<char>)
    requires
        lex_le(a, b),
        lex_le(b, c),
    ensures
        lex_le(a, c),
    decreases a.len(),
{
    if a.len() > 0 && b.len() > 0 && c.len() > 0 && a[0] == b[0] && b[0] == c[0] {
        lemma_lex_trans(a.drop_first(), b.drop_first(), c.drop_first());
    }
}

/// Two texts that come before each other are equal.
pub proof fn lemma_lex_antisym(a: Seq<char>, b: Seq<char>)
    requires
        lex_le(a, b),
        lex_le(b, a),
    ensures
        a == b,
    decreases a.len(),
{
    if a.len() > 0 && b.len() > 0 {
        lemma_lex_antisym(a.drop_first(), b.drop_first());
        assert(a =~= seq![a[0]] + a.drop_first());
        assert(b =~= seq![b[0]] + b.drop_first());
    } else {
        assert(a =~= b);
    }
}

/// The characters of a text, in order.
pub fn chars_of(text: &str) -> (r: Vec<char>)
    ensures
        r@ == text@,
{
    let mut out: Vec<char> = Vec::new();
    for c in it: text.chars()
        invariant
            out@ == it.seq().take(it.index()),
            it.seq() == text@,
    {
        out.push(c);
    }
    out
}

/// Appends the characters of a text to a vector.
pub fn append_chars(out: &mut Vec<char>, text: &str)
    ensures
        final(out)@ == old(out)@ + text@,
{
    let ghost before = out@;
    for c in it: text.chars()
        invariant
            out@ == before + it.seq().take(it.index()),
            it.seq() == text@,
    {
        out.push(c);
    }
}

/// Whether two texts hold the same characters.
pub fn chars_equal(a: &str, b: &str) -> (r: bool)
    ensures
        r == (a@ == b@),
{
    let x = chars_of(a);
    let y = chars_of(b);
    if x.len() != y.len() {
        return false;
    }
    let mut i: usize = 0;
    while i < x.len()
        invariant
            i <= x.len(),
            x.len() == y.len(),
            x@ == a@,
            y@ == b@,
            forall|k: int| 0 <= k < i ==> x@[k] == y@[k],
        decreases x.len() - i,
    {
        if x[i] != y[i] {
            return false;
        }
        i += 1;
    }
    assert(x@ =~= y@);
    true
}

/// A text with another one behind it.
pub fn concat(a: &str, b: &str) -> (r: String)
    ensures
        r@ == a@ + b@,
{
    let mut chars = chars_of(a);
    append_chars(&mut chars, b);
    text_of(&chars)
}

/// The parts of a text between the occurrences of `sep`.
pub fn split_text(text: &str, sep: char) -> (parts: Vec<String>)
    ensures
        texts(parts@) == split(text@, sep),
        parts@.len() >= 1,
{
    let chars = chars_of(text);
    let mut parts: Vec<String> = Vec::new();
    let mut current: Vec<char> = Vec::new();
    let mut i: usize = 0;
    assert(chars@.take(0) =~= Seq::empty());
    assert(texts(parts@).push(current@) =~= seq![Seq::<char>::empty()]);
    while i < chars.len()
        invariant
            i <= chars.len(),
            texts(parts@).push(current@) == split(chars@.take(i as int), sep),
        decreases chars.len() - i,
    {
        let c: char = chars[i];
        proof {
            let head = chars@.take(i as int);
            let next = chars@.take(i + 1);
            assert(next.drop_last() =~= head);
            assert(next.last() == c);
            assert(texts(parts@).push(current@).drop_last() =~= texts(parts@));
        }
        if c == sep {
            let part = text_of(&current);
            proof {
                assert(texts(parts@.push(part)) =~= texts(parts@).push(current@));
            }
            parts.push(part);
            current = Vec::new();
        } else {
            current.push(c);
        }
        i += 1;
    }
    let part = text_of(&current);
    proof {
        assert(chars@.take(chars.len() as int) =~= chars@);
        assert(texts(parts@.push(part)) =~= texts(parts@).push(current@));
    }
    parts.push(part);
    parts
}

/// The parts put together with `sep` between each two.
pub fn join_texts(parts: &Vec<String>, sep: char) -> (r: Vec<char>)
    ensures
        r@ == join(texts(parts@), sep),
{
    let mut out: Vec<char> = Vec::new();
    let mut i: usize = 0;
    assert(texts(parts@).take(0) =~= Seq::empty());
    while i < parts.len()
        invariant
            i <= parts.len(),
            out@ == join(texts(parts@).take(i as int), sep),
        decreases parts.len() - i,
    {
        proof {
            let head = texts(parts@).take(i as int);
            let next = texts(parts@).take(i + 1);
            assert(next.drop_last() =~= head);
            assert(next.last() == parts@[i as int]@);
            if i == 0 {
                assert(out@ + parts@[0]@ =~= next[0]);
            }
        }
        if i > 0 {
            out.push(sep);
        }
        append_chars(&mut out, parts[i].as_str());
        i += 1;
    }
    assert(texts(parts@).take(parts.len() as int) =~= texts(parts@));
    out
}

/// Whether `text` ends with `suffix`.
pub fn has_suffix(text: &Vec<char>, suffix: &Vec<char>) -> (r: bool)
    ensures
        r == ends_with(text@, suffix@),
{
    if text.len() < suffix.len() {
        return false;
    }
    let start: usize = text.len() - suffix.len();
    let mut i: usize = 0;
    while i < suffix.len()
        invariant
            i <= suffix.len(),
            start + suffix.len() == text.len(),
            forall|k: int| 0 <= k < i ==> text@[start + k] == suffix@[k],
        decreases suffix.len() - i,
    {
        if text[start + i] != suffix[i] {
            assert(text@.skip(start as int)[i as int] != suffix@[i as int]);
            return false;
        }
        i += 1;
    }
    assert(text@.skip(start as int) =~= suffix@);
    true
}

/// Whether the characters of `hay` from `at` on begin with `needle`.
fn matches_at(hay: &Vec<char>, needle: &Vec<char>, at: usize) -> (r: bool)
    requires
        at + needle.len() <= hay.len(),
    ensures
        r == (hay@.subrange(at as int, at + needle@.len()) == needle@),
{
    let mut i: usize = 0;
    while i < needle.len()
        invariant
            i <= needle.len(),
            at + needle.len() <= hay.len(),
            forall|k: int| 0 <= k < i ==> hay@[at + k] == needle@[k],
        decreases needle.len() - i,
    {
        if hay[at + i] != needle[i] {
            assert(hay@.subrange(at as int, at + needle@.len())[i as int] != needle@[i as int]);
            return false;
        }
        i += 1;
    }
    assert(hay@.subrange(at as int, at + needle@.len()) =~= needle@);
    true
}

/// Whether `needle` occurs in `hay` as a run of consecutive characters.
pub fn contains_text(hay: &Vec<char>, needle: &Vec<char>) -> (r: bool)
    ensures
        r == occurs_in(needle@, hay@),
{
    if needle.len() > hay.len() {
        return false;
    }
    let last: usize = hay.len() - needle.len();
    let mut at: usize = 0;
    while at < last
        invariant
            at <= last,
            last + needle.len() == hay.len(),
            forall|k: int|
                0 <= k < at ==> #[trigger] hay@.subrange(k, k + needle@.len()) != needle@,
        decreases last - at,
    {
        if matches_at(hay, needle, at) {
            return true;
        }
        at += 1;
    }
    matches_at(hay, needle, last)
}

/// Whether `a` comes before `b`, or is equal to it, in the order of the
/// dictionary.
pub fn text_le(a: &Vec<char>, b: &Vec<char>) -> (r: bool)
    ensures
        r == lex_le(a@, b@),
{
    let mut i: usize = 0;
    assert(a@.take(0) =~= b@.take(0));
    while i < a.len() && i < b.len()
        invariant
            i <= a.len(),
            i <= b.len(),
            a@.take(i as int) == b@.take(i as int),
        decreases a.len() - i,
    {
        proof {
            lemma_lex_skip(a@, b@, i as int);
        }
        if a[i] != b[i] {
            let x: char = a[i];
            let y: char = b[i];
            assert(a@.skip(i as int)[0] == x);
            assert(b@.skip(i as int)[0] == y);
            return (x as u32) < (y as u32);
        }
        assert(a@.take(i + 1) =~= a@.take(i as int).push(a@[i as int]));
        assert(b@.take(i + 1) =~= b@.take(i as int).push(b@[i as int]));
        i += 1;
    }
    proof {
        lemma_lex_skip(a@, b@, i as int);
    }
    i == a.len()
}

/// The texts in the order of the dictionary: the same texts, each as often
/// as before.
pub fn sort_texts(list: Vec<Vec<char>>) -> (r: Vec<Vec<char>>)
    ensures
        sorted(rows(r@)),
        rows(r@).to_multiset() == rows(list@).to_multiset(),
{
    let mut out: Vec<Vec<char>> = Vec::new();
    let mut list = list;
    let ghost input = rows(list@);
    let mut rest: Vec<Vec<char>> = Vec::new();
    std::mem::swap(&mut rest, &mut list);
    proof {
        broadcast use vstd::seq_lib::group_to_multiset_ensures;

        assert(rows(out@) =~= Seq::empty());
        assert(rows(out@).to_multiset() =~= Multiset::empty());
        assert(Multiset::empty().add(input.to_multiset()) =~= input.to_multiset());
    }
    while rest.len() > 0
        invariant
            sorted(rows(out@)),
            rows(out@).to_multiset().add(rows(rest@).to_multiset()) == input.to_multiset(),
        decreases rest.len(),
    {
        let ghost before_rest = rows(rest@);
        let ghost before_out = rows(out@);
        let row = rest.pop().unwrap();
        proof {
            assert(rows(rest@) =~= before_rest.drop_last());
            assert(before_rest =~= rows(rest@).push(row@));
            vstd::seq_lib::to_multiset_build(rows(rest@), row@);
        }
        let mut at: usize = 0;
        while at < out.len() && text_le(&out[at], &row)
            invariant
                at <= out.len(),
                sorted(rows(out@)),
                forall|k: int| 0 <= k < at ==> lex_le(#[trigger] rows(out@)[k], row@),
            decreases out.len() - at,
        {
            at += 1;
        }
        proof {
            let old_rows = rows(out@);
            let new_rows = old_rows.insert(at as int, row@);
            assert forall|a: int, b: int| 0 <= a < b < new_rows.len() implies lex_le(
                #[trigger] new_rows[a],
                #[trigger] new_rows[b],
            ) by {
                if b == at {
                    assert(new_rows[a] == old_rows[a]);
                } else if a == at {
                    assert(new_rows[b] == old_rows[b - 1]);
                    lemma_lex_total(old_rows[at as int], row@);
                    if b - 1 > at {
                        lemma_lex_trans(row@, old_rows[at as int], old_rows[b - 1]);
                    }
                } else {
                    let a0 = if a < at { a } else { a - 1 };
                    let b0 = if b < at { b } else { b - 1 };
                    assert(new_rows[a] == old_rows[a0]);
                    assert(new_rows[b] == old_rows[b0]);
                }
            }
            assert(new_rows.remove(at as int) =~= old_rows);
            vstd::seq_lib::to_multiset_remove(new_rows, at as int);
            assert(new_rows[at as int] == row@);
            assert(new_rows.to_multiset().count(row@) > 0) by {
                broadcast use vstd::seq_lib::group_to_multiset_ensures;

            }
            assert(new_rows.to_multiset() =~= old_rows.to_multiset().insert(row@));
            assert(rows(out@.insert(at as int, row)) =~= new_rows);
        }
        out.insert(at, row);
    }
    proof {
        assert(rows(rest@) =~= Seq::empty());
        assert(rows(rest@).to_multiset() =~= Multiset::empty()) by {
            broadcast use vstd::seq_lib::group_to_multiset_ensures;

        }
        assert(rows(out@).to_multiset().add(Multiset::empty()) =~= rows(out@).to_multiset());
    }
    out
}

} // verus!

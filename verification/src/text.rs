//! Text as a sequence of characters: searching, splitting and trimming.

use vstd::prelude::*;

verus! {

/// Where `c` first stands in `s`, or the length of `s` when it does not occur.
pub open spec fn position(s: Seq<char>, c: char) -> nat
    decreases s.len(),
{
    if s.len() == 0 || s[0] == c {
        0
    } else {
        1 + position(s.drop_first(), c)
    }
}

/// `s` cut in two at its first `c`, which belongs to neither half.
pub open spec fn split_once(s: Seq<char>, c: char) -> Option<(Seq<char>, Seq<char>)> {
    let p = position(s, c) as int;
    if p < s.len() {
        Some((s.take(p), s.skip(p + 1)))
    } else {
        None
    }
}

/// `s` cut at every `c`: the pieces between the separators, in order.
pub open spec fn split(s: Seq<char>, c: char) -> Seq<Seq<char>>
    decreases s.len(),
{
    if position(s, c) < s.len() {
        seq![s.take(position(s, c) as int)] + split(s.skip(position(s, c) as int + 1), c)
    } else {
        seq![s]
    }
}

/// The characters with the Unicode property `White_Space`.
pub open spec fn is_white(c: char) -> bool {
    ||| '\u{9}' <= c <= '\u{d}'
    ||| c == '\u{20}'
    ||| c == '\u{85}'
    ||| c == '\u{a0}'
    ||| c == '\u{1680}'
    ||| '\u{2000}' <= c <= '\u{200a}'
    ||| c == '\u{2028}'
    ||| c == '\u{2029}'
    ||| c == '\u{202f}'
    ||| c == '\u{205f}'
    ||| c == '\u{3000}'
}

/// `s` without the white space in front.
pub open spec fn trim_start(s: Seq<char>) -> Seq<char>
    decreases s.len(),
{
    if s.len() > 0 && is_white(s[0]) {
        trim_start(s.drop_first())
    } else {
        s
    }
}

/// `s` without the white space at the end.
pub open spec fn trim_end(s: Seq<char>) -> Seq<char>
    decreases s.len(),
{
    if s.len() > 0 && is_white(s.last()) {
        trim_end(s.drop_last())
    } else {
        s
    }
}

/// `s` without the white space on either side.
pub open spec fn trim(s: Seq<char>) -> Seq<char> {
    trim_end(trim_start(s))
}

/// What each string of a list holds.
pub open spec fn texts(list: Seq<&str>) -> Seq<Seq<char>> {
    Seq::new(list.len(), |i: int| list[i]@)
}

/// `position` names the first occurrence, and only that.
pub proof fn lemma_position(s: Seq<char>, c: char)
    ensures
        position(s, c) <= s.len(),
        position(s, c) < s.len() ==> s[position(s, c) as int] == c,
        forall|j: int| 0 <= j < position(s, c) ==> s[j] != c,
        position(s, c) < s.len() <==> s.contains(c),
    decreases s.len(),
{
    if s.len() > 0 && s[0] != c {
        let tail = s.drop_first();
        lemma_position(tail, c);
        assert forall|j: int| 0 <= j < position(s, c) implies s[j] != c by {
            if j > 0 {
                assert(tail[j - 1] == s[j]);
            }
        }
    }
    if s.contains(c) {
        let j = choose|j: int| 0 <= j < s.len() && s[j] == c;
        assert(!(j < position(s, c)));
    }
}

/// An index with `c` on it (or the end) and none before it is the `position`.
pub proof fn lemma_position_unique(s: Seq<char>, c: char, p: nat)
    requires
        p <= s.len(),
        p < s.len() ==> s[p as int] == c,
        forall|j: int| 0 <= j < p ==> s[j] != c,
    ensures
        position(s, c) == p,
{
    lemma_position(s, c);
}

/// Text without a `c`, a `c` and more text is cut at that `c`.
pub proof fn lemma_split_once_at(a: Seq<char>, c: char, b: Seq<char>)
    requires
        !a.contains(c),
    ensures
        split_once(a.push(c) + b, c) == Some((a, b)),
{
    let s = a.push(c) + b;
    lemma_position_unique(s, c, a.len());
    assert(s.take(a.len() as int) == a);
    assert(s.skip(a.len() as int + 1) == b);
}

/// Text without a `c` cannot be cut at one.
pub proof fn lemma_split_once_none(s: Seq<char>, c: char)
    ensures
        split_once(s, c) is None <==> !s.contains(c),
{
    lemma_position(s, c);
}

/// Whether `s` is white space throughout.
pub open spec fn all_white(s: Seq<char>) -> bool {
    forall|j: int| 0 <= j < s.len() ==> is_white(#[trigger] s[j])
}

/// White space around a text that neither begins nor ends with any is trimmed away.
pub proof fn lemma_trim_padded(before: Seq<char>, t: Seq<char>, after: Seq<char>)
    requires
        all_white(before),
        all_white(after),
        t.len() > 0,
        !is_white(t[0]),
        !is_white(t.last()),
    ensures
        trim(before + t + after) == t,
    decreases before.len() + after.len(),
{
    let s = before + t + after;
    if before.len() > 0 {
        assert(s.drop_first() == before.drop_first() + t + after);
        lemma_trim_padded(before.drop_first(), t, after);
    } else {
        assert(s[0] == t[0]);
        if after.len() > 0 {
            let shorter = before + t + after.drop_last();
            assert(s.drop_last() == shorter);
            assert(shorter[0] == t[0]);
            assert(s.last() == after.last());
            lemma_trim_padded(before, t, after.drop_last());
        } else {
            assert(s == t);
        }
    }
}

/// Nothing is left of white space.
pub proof fn lemma_trim_white(s: Seq<char>)
    requires
        all_white(s),
    ensures
        trim(s).len() == 0,
    decreases s.len(),
{
    if s.len() > 0 {
        lemma_trim_white(s.drop_first());
    }
}

/// Whatever is trimmed off a text is white space, and no more of it is left on either side.
pub proof fn lemma_trim_shape(s: Seq<char>) -> (padding: (Seq<char>, Seq<char>))
    ensures
        all_white(padding.0),
        all_white(padding.1),
        s == padding.0 + trim(s) + padding.1,
        trim(s).len() > 0 ==> !is_white(trim(s)[0]) && !is_white(trim(s).last()),
        trim(s).len() == 0 <==> all_white(s),
{
    let before = lemma_trim_start_shape(s);
    let t = trim_start(s);
    let after = lemma_trim_end_shape(t);
    assert(s == before + trim(s) + after);
    if trim(s).len() > 0 {
        assert(trim(s)[0] == t[0]);
        assert(s[before.len() as int] == t[0]);
    } else {
        assert forall|j: int| 0 <= j < s.len() implies is_white(#[trigger] s[j]) by {
            if j < before.len() {
                assert(s[j] == before[j]);
            } else {
                assert(s[j] == after[j - before.len()]);
            }
        }
    }
    (before, after)
}

proof fn lemma_trim_start_shape(s: Seq<char>) -> (before: Seq<char>)
    ensures
        all_white(before),
        s == before + trim_start(s),
        trim_start(s).len() > 0 ==> !is_white(trim_start(s)[0]),
    decreases s.len(),
{
    if s.len() > 0 && is_white(s[0]) {
        let before = lemma_trim_start_shape(s.drop_first());
        assert(s == seq![s[0]] + s.drop_first());
        assert(s == (seq![s[0]] + before) + trim_start(s));
        seq![s[0]] + before
    } else {
        assert(s == Seq::<char>::empty() + s);
        Seq::empty()
    }
}

proof fn lemma_trim_end_shape(s: Seq<char>) -> (after: Seq<char>)
    ensures
        all_white(after),
        s == trim_end(s) + after,
        trim_end(s).len() > 0 ==> !is_white(trim_end(s).last()),
    decreases s.len(),
{
    if s.len() > 0 && is_white(s.last()) {
        let after = lemma_trim_end_shape(s.drop_last());
        assert(s == s.drop_last().push(s.last()));
        assert(s == trim_end(s) + after.push(s.last()));
        after.push(s.last())
    } else {
        assert(s == s + Seq::<char>::empty());
        Seq::empty()
    }
}

/// The white space is that of Unicode: twenty-five characters, listed here by number.
pub proof fn law_white_space(c: char)
    ensures
        is_white(c) <==> seq![
            0x9int, 0xa, 0xb, 0xc, 0xd, 0x20, 0x85, 0xa0, 0x1680, 0x2000, 0x2001, 0x2002, 0x2003,
            0x2004, 0x2005, 0x2006, 0x2007, 0x2008, 0x2009, 0x200a, 0x2028, 0x2029, 0x202f, 0x205f,
            0x3000,
        ].contains(c as int),
{
    let list = seq![
        0x9int, 0xa, 0xb, 0xc, 0xd, 0x20, 0x85, 0xa0, 0x1680, 0x2000, 0x2001, 0x2002, 0x2003,
        0x2004, 0x2005, 0x2006, 0x2007, 0x2008, 0x2009, 0x200a, 0x2028, 0x2029, 0x202f, 0x205f,
        0x3000,
    ];
    let n = c as int;
    if is_white(c) {
        let i = if n <= 0xd {
            n - 9
        } else if n == 0x20 {
            5
        } else if n == 0x85 {
            6
        } else if n == 0xa0 {
            7
        } else if n == 0x1680 {
            8
        } else if n <= 0x200a {
            n - 0x2000 + 9
        } else if n == 0x2028 {
            20
        } else if n == 0x2029 {
            21
        } else if n == 0x202f {
            22
        } else if n == 0x205f {
            23
        } else {
            24
        };
        assert(list[i] == n);
    }
}

/// `parts` with a `c` between each and the next.
pub open spec fn joined(parts: Seq<Seq<char>>, c: char) -> Seq<char>
    decreases parts.len(),
{
    if parts.len() == 0 {
        Seq::empty()
    } else if parts.len() == 1 {
        parts[0]
    } else {
        parts[0].push(c) + joined(parts.skip(1), c)
    }
}

/// Parts without a `c` in them that were joined with `c` are what splitting at `c` gives back.
pub proof fn law_split_undoes_join(parts: Seq<Seq<char>>, c: char)
    requires
        parts.len() > 0,
        forall|i: int| 0 <= i < parts.len() ==> !(#[trigger] parts[i]).contains(c),
    ensures
        split(joined(parts, c), c) == parts,
    decreases parts.len(),
{
    let s = joined(parts, c);
    if parts.len() == 1 {
        lemma_split_once_none(s, c);
        assert(split(s, c) == parts);
    } else {
        let rest = parts.skip(1);
        assert forall|i: int| 0 <= i < rest.len() implies !(#[trigger] rest[i]).contains(c) by {
            assert(rest[i] == parts[i + 1]);
        }
        law_split_undoes_join(rest, c);
        lemma_split_once_at(parts[0], c, joined(rest, c));
        assert(split(s, c) == seq![parts[0]] + rest);
        assert(parts == seq![parts[0]] + rest);
    }
}

/// Joining what splitting gives makes the text again, and no piece holds the separator.
pub proof fn law_join_undoes_split(s: Seq<char>, c: char)
    ensures
        split(s, c).len() > 0,
        joined(split(s, c), c) == s,
        forall|i: int| 0 <= i < split(s, c).len() ==> !(#[trigger] split(s, c)[i]).contains(c),
    decreases s.len(),
{
    lemma_position(s, c);
    let p = position(s, c) as int;
    let parts = split(s, c);
    if p < s.len() {
        let first = s.take(p);
        let rest = s.skip(p + 1);
        law_join_undoes_split(rest, c);
        assert(parts.skip(1) == split(rest, c));
        assert(s == first.push(c) + rest);
        assert forall|i: int| 0 <= i < parts.len() implies !(#[trigger] parts[i]).contains(c) by {
            if i == 0 {
                assert forall|j: int| 0 <= j < first.len() implies first[j] != c by {
                    assert(first[j] == s[j]);
                }
            } else {
                assert(parts[i] == split(rest, c)[i - 1]);
            }
        }
    }
}

/// The characters of `s`, one by one.
pub(crate) fn chars_of(s: &str) -> (v: Vec<char>)
    ensures
        v@ == s@,
{
    let mut v: Vec<char> = Vec::new();
    for c in it: s.chars()
        invariant
            it.seq() == s@,
            v@ == s@.take(it.index() as int),
    {
        v.push(c);
        assert(s@.take(it.index() + 1) == s@.take(it.index() as int).push(c));
    }
    assert(s@.take(s@.len() as int) == s@);
    v
}

/// Whether `a` and `b` hold the same characters.
pub(crate) fn same_text(a: &str, b: &str) -> (r: bool)
    ensures
        r == (a@ == b@),
{
    a.to_owned() == b.to_owned()
}

/// Cuts `s` in two at its first `c`.
pub(crate) fn cut_once<'a>(s: &'a str, c: char) -> (r: Option<(&'a str, &'a str)>)
    ensures
        match r {
            Some((a, b)) => split_once(s@, c) == Some((a@, b@)),
            None => split_once(s@, c) is None,
        },
{
    let v: Vec<char> = chars_of(s);
    let mut p: usize = 0;
    while p < v.len() && v[p] != c
        invariant
            v@ == s@,
            p <= v.len(),
            forall|j: int| 0 <= j < p ==> v@[j] != c,
        decreases v.len() - p,
    {
        p = p + 1;
    }
    proof {
        lemma_position_unique(s@, c, p as nat);
    }
    if p < v.len() {
        Some((s.substring_char(0, p), s.substring_char(p + 1, v.len())))
    } else {
        None
    }
}

/// Cuts `s` at every `c`.
pub(crate) fn cut<'a>(s: &'a str, c: char) -> (parts: Vec<&'a str>)
    ensures
        texts(parts@) == split(s@, c),
{
    let mut parts: Vec<&'a str> = Vec::new();
    let mut rest: &'a str = s;
    assert(texts(parts@) + split(rest@, c) == split(s@, c));
    loop
        invariant
            texts(parts@) + split(rest@, c) == split(s@, c),
        decreases rest@.len(),
    {
        let ghost before = texts(parts@);
        match cut_once(rest, c) {
            Some((a, b)) => {
                parts.push(a);
                assert(texts(parts@) == before.push(a@));
                assert(before.push(a@) + split(b@, c) == before + split(rest@, c));
                rest = b;
            },
            None => {
                parts.push(rest);
                assert(texts(parts@) == before + split(rest@, c));
                return parts;
            },
        }
    }
}

/// Whether `c` is white space.
pub(crate) fn white(c: char) -> (r: bool)
    ensures
        r == is_white(c),
{
    ('\u{9}' <= c && c <= '\u{d}') || c == '\u{20}' || c == '\u{85}' || c == '\u{a0}' || c
        == '\u{1680}' || ('\u{2000}' <= c && c <= '\u{200a}') || c == '\u{2028}' || c == '\u{2029}'
        || c == '\u{202f}' || c == '\u{205f}' || c == '\u{3000}'
}

/// `s` without the white space on either side.
pub fn trimmed<'a>(s: &'a str) -> (r: &'a str)
    ensures
        r@ == trim(s@),
{
    let v: Vec<char> = chars_of(s);
    let mut from: usize = 0;
    assert(s@.skip(0) == s@);
    while from < v.len() && white(v[from])
        invariant
            v@ == s@,
            from <= v.len(),
            trim_start(s@) == trim_start(s@.skip(from as int)),
        decreases v.len() - from,
    {
        assert(s@.skip(from as int).drop_first() == s@.skip(from + 1));
        from = from + 1;
    }
    let mut to: usize = v.len();
    assert(s@.subrange(from as int, to as int) == s@.skip(from as int));
    while from < to && white(v[to - 1])
        invariant
            v@ == s@,
            from <= to <= v.len(),
            trim(s@) == trim_end(s@.subrange(from as int, to as int)),
        decreases to,
    {
        assert(s@.subrange(from as int, to as int).drop_last() == s@.subrange(
            from as int,
            to - 1,
        ));
        to = to - 1;
    }
    s.substring_char(from, to)
}

} // verus!

//! Text between two delimiters, and quoted strings.

use crate::text;
use crate::text::chars_of;
use vstd::prelude::*;

verus! {

/// Why a quoted string could not be read.
#[derive(Debug, Clone, Copy, PartialEq, Eq, Structural)]
pub enum ParseError {
    /// There is no opening quote, or none that closes it.
    MissingQuotedString,
}

/// The text after the first `left` and before the next `right`.
pub open spec fn between(s: Seq<char>, left: char, right: char) -> Option<Seq<char>> {
    match text::split_once(s, left) {
        Some((_, rest)) => match text::split_once(rest, right) {
            Some((middle, _)) => Some(middle),
            None => None,
        },
        None => None,
    }
}

/// What stands before the quote that closes a string, when `s` begins right after
/// the opening one: `\"` stands for a quote, every other character for itself.
pub open spec fn quoted_body(s: Seq<char>) -> Option<Seq<char>>
    decreases s.len(),
{
    if s.len() == 0 {
        None
    } else if s[0] == '"' {
        Some(Seq::empty())
    } else if s.len() >= 2 && s[0] == '\\' && s[1] == '"' {
        match quoted_body(s.skip(2)) {
            Some(t) => Some(seq!['"'] + t),
            None => None,
        }
    } else {
        match quoted_body(s.skip(1)) {
            Some(t) => Some(seq![s[0]] + t),
            None => None,
        }
    }
}

/// The first quoted string in `s`.
pub open spec fn quoted(s: Seq<char>) -> Option<Seq<char>> {
    match text::split_once(s, '"') {
        Some((_, rest)) => quoted_body(rest),
        None => None,
    }
}

/// `t` with a backslash before each of its quotes.
pub open spec fn escape(t: Seq<char>) -> Seq<char>
    decreases t.len(),
{
    if t.len() == 0 {
        Seq::empty()
    } else if t[0] == '"' {
        seq!['\\', '"'] + escape(t.skip(1))
    } else {
        seq![t[0]] + escape(t.skip(1))
    }
}

/// `t` as a quoted string.
pub open spec fn quote(t: Seq<char>) -> Seq<char> {
    seq!['"'] + escape(t) + seq!['"']
}

/// Whether `t` has a backslash at its end.
pub open spec fn ends_in_backslash(t: Seq<char>) -> bool {
    t.len() > 0 && t.last() == '\\'
}

/// `String::push` of std appends one character to the end of the string.
pub assume_specification[ String::push ](s: &mut String, c: char)
    ensures
        final(s)@ == old(s)@.push(c),
;

/// The text after the first `left` in `s` and before the next `right`, if there are both.
pub fn between_chars<'a>(s: &'a str, left: char, right: char) -> (r: Option<&'a str>)
    ensures
        match r {
            Some(t) => between(s@, left, right) == Some(t@),
            None => between(s@, left, right) is None,
        },
{
    match text::cut_once(s, left) {
        Some((_, rest)) => match text::cut_once(rest, right) {
            Some((middle, _)) => Some(middle),
            None => None,
        },
        None => None,
    }
}

/// Reads the first quoted string in `i`. Inside it `\"` stands for a quote.
pub fn parse_quoted(i: &str) -> (r: Result<String, ParseError>)
    ensures
        match r {
            Ok(t) => quoted(i@) == Some(t@),
            Err(e) => e == ParseError::MissingQuotedString && quoted(i@) is None,
        },
{
    let rest: &str = match text::cut_once(i, '"') {
        Some((_, rest)) => rest,
        None => {
            return Err(ParseError::MissingQuotedString);
        },
    };
    let v: Vec<char> = chars_of(rest);
    let mut t: String = String::new();
    let mut k: usize = 0;
    assert(v@.skip(0) == v@);
    while k < v.len()
        invariant
            k <= v.len(),
            quoted(i@) == quoted_body(v@),
            match quoted_body(v@.skip(k as int)) {
                Some(tail) => quoted_body(v@) == Some(t@ + tail),
                None => quoted_body(v@) is None,
            },
        decreases v.len() - k,
    {
        let ghost here = v@.skip(k as int);
        let ghost so_far = t@;
        if v[k] == '"' {
            assert(t@ + Seq::empty() == t@);
            return Ok(t);
        }
        if v[k] == '\\' && v.len() - k >= 2 && v[k + 1] == '"' {
            t.push('"');
            k = k + 2;
            assert(here.skip(2) == v@.skip(k as int));
        } else {
            t.push(v[k]);
            k = k + 1;
            assert(here.skip(1) == v@.skip(k as int));
        }
        proof {
            if let Some(tail) = quoted_body(v@.skip(k as int)) {
                assert(so_far + (seq![t@.last()] + tail) == t@ + tail);
            }
        }
    }
    Err(ParseError::MissingQuotedString)
}

/// Between `left` and `right` stands exactly what was put there, when no `left` comes
/// earlier and no `right` is part of it.
pub proof fn law_between_gives_back(
    before: Seq<char>,
    left: char,
    middle: Seq<char>,
    right: char,
    after: Seq<char>,
)
    requires
        !before.contains(left),
        !middle.contains(right),
    ensures
        between(before.push(left) + (middle.push(right) + after), left, right) == Some(middle),
{
    text::lemma_split_once_at(before, left, middle.push(right) + after);
    text::lemma_split_once_at(middle, right, after);
}

/// What `between` finds is delimited by the first `left` and by the first `right` after it.
pub proof fn law_between_is_delimited(s: Seq<char>, left: char, right: char)
    requires
        between(s, left, right) is Some,
    ensures
        exists|before: Seq<char>, after: Seq<char>|
            #![trigger before.push(left) + (between(s, left, right)->0.push(right) + after)]
            s == before.push(left) + (between(s, left, right)->0.push(right) + after)
                && !before.contains(left),
        !between(s, left, right)->0.contains(right),
{
    let p = text::position(s, left) as int;
    text::lemma_position(s, left);
    let before = s.take(p);
    let rest = s.skip(p + 1);
    let q = text::position(rest, right) as int;
    text::lemma_position(rest, right);
    let middle = rest.take(q);
    let after = rest.skip(q + 1);
    assert(rest == middle.push(right) + after);
    assert(between(s, left, right) == Some(middle));
    assert(!before.contains(left)) by {
        assert forall|j: int| 0 <= j < before.len() implies before[j] != left by {
            assert(before[j] == s[j]);
        }
    }
    assert(s == before.push(left) + (between(s, left, right)->0.push(right) + after));
}

/// Nothing stands between two delimiters of which one is missing.
pub proof fn law_between_needs_both(
    before: Seq<char>,
    left: char,
    rest: Seq<char>,
    right: char,
)
    requires
        !before.contains(left),
        !rest.contains(right),
    ensures
        between(before, left, right) is None,
        between(before.push(left) + rest, left, right) is None,
{
    text::lemma_split_once_none(before, left);
    text::lemma_split_once_at(before, left, rest);
    text::lemma_split_once_none(rest, right);
}

/// A quoted string reads as the text between its quotes, unless that text ends in a
/// backslash (which makes the quote after it part of the string).
pub proof fn law_quoted_is_between_quotes(s: Seq<char>)
    requires
        between(s, '"', '"') matches Some(t) ==> !ends_in_backslash(t),
    ensures
        quoted(s) == between(s, '"', '"'),
{
    if let Some((_, rest)) = text::split_once(s, '"') {
        lemma_body_up_to_quote(rest);
    }
}

proof fn lemma_body_up_to_quote(s: Seq<char>)
    requires
        text::split_once(s, '"') matches Some((t, _)) ==> !ends_in_backslash(t),
    ensures
        quoted_body(s) == (match text::split_once(s, '"') {
            Some((t, _)) => Some(t),
            None => None,
        }),
    decreases s.len(),
{
    text::lemma_position(s, '"');
    if s.len() > 0 && s[0] != '"' {
        let tail = s.skip(1);
        assert(s.drop_first() == tail);
        text::lemma_position(tail, '"');
        let p = text::position(s, '"') as int;
        if p < s.len() {
            assert(s.take(p) == seq![s[0]] + tail.take(p - 1));
            if p > 1 {
                assert(tail.take(p - 1).last() == s.take(p).last());
            }
        }
        lemma_body_up_to_quote(tail);
        if s.len() >= 2 && s[0] == '\\' && s[1] == '"' {
            assert(s.take(p).last() == '\\');
        }
    } else if s.len() > 0 {
        assert(s.take(0) == Seq::<char>::empty());
    }
}

/// What `escape` adds to a text are backslashes only.
pub proof fn lemma_escape_adds_backslashes(t: Seq<char>, c: char)
    requires
        c != '\\',
    ensures
        escape(t).contains(c) <==> t.contains(c),
    decreases t.len(),
{
    if t.len() > 0 {
        let tail = t.skip(1);
        lemma_escape_adds_backslashes(tail, c);
        let head = if t[0] == '"' {
            seq!['\\', '"']
        } else {
            seq![t[0]]
        };
        assert(head.contains(c) <==> t[0] == c) by {
            assert(head.last() == t[0]);
        }
        assert(escape(t) == head + escape(tail));
        assert(t == seq![t[0]] + tail);
        assert(escape(t).contains(c) <==> head.contains(c) || escape(tail).contains(c)) by {
            broadcast use vstd::seq_lib::group_seq_properties;
        }
        assert(t.contains(c) <==> t[0] == c || tail.contains(c)) by {
            broadcast use vstd::seq_lib::group_seq_properties;
        }
    }
}

/// The first quoted string is read, whatever is before and after it. It may hold anything,
/// as long as it does not end in a backslash.
pub proof fn law_first_quoted_string_is_read(before: Seq<char>, t: Seq<char>, after: Seq<char>)
    requires
        !before.contains('"'),
        !ends_in_backslash(t),
    ensures
        quoted(before + quote(t) + after) == Some(t),
{
    let rest = escape(t) + seq!['"'] + after;
    assert(before + quote(t) + after == before.push('"') + rest);
    text::lemma_split_once_at(before, '"', rest);
    lemma_body_of_escape(t, after);
}

/// Reading back a quoted text gives that text, whatever it holds, as long as it does
/// not end in a backslash.
pub proof fn law_quote_round_trip(t: Seq<char>)
    requires
        !ends_in_backslash(t),
    ensures
        quoted(quote(t)) == Some(t),
{
    let nothing = Seq::<char>::empty();
    law_first_quoted_string_is_read(nothing, t, nothing);
    assert(nothing + quote(t) + nothing == quote(t));
}

/// What is read is a quoted string that stands in the text, with no quote before it.
pub proof fn law_quoted_is_delimited(s: Seq<char>)
    requires
        quoted(s) is Some,
    ensures
        !ends_in_backslash(quoted(s)->0),
        exists|before: Seq<char>, after: Seq<char>|
            #![trigger before + quote(quoted(s)->0) + after]
            s == before + quote(quoted(s)->0) + after && !before.contains('"'),
{
    let p = text::position(s, '"') as int;
    text::lemma_position(s, '"');
    let before = s.take(p);
    let rest = s.skip(p + 1);
    let t = quoted(s)->0;
    assert(quoted_body(rest) == Some(t));
    let after = lemma_body_is_escaped(rest);
    assert(!before.contains('"')) by {
        assert forall|j: int| 0 <= j < before.len() implies before[j] != '"' by {
            assert(before[j] == s[j]);
        }
    }
    assert(s == before.push('"') + rest);
    assert(s == before + quote(quoted(s)->0) + after);
}

proof fn lemma_body_of_escape(t: Seq<char>, after: Seq<char>)
    requires
        !ends_in_backslash(t),
    ensures
        quoted_body(escape(t) + seq!['"'] + after) == Some(t),
    decreases t.len(),
{
    let s = escape(t) + seq!['"'] + after;
    if t.len() == 0 {
        assert(t == Seq::<char>::empty());
    } else {
        let tail = t.skip(1);
        let rest = escape(tail) + seq!['"'] + after;
        if t.len() > 1 {
            assert(tail.last() == t.last());
        }
        lemma_body_of_escape(tail, after);
        if t[0] == '"' {
            assert(s == seq!['\\', '"'] + rest);
            assert(s.skip(2) == rest);
        } else {
            assert(s == seq![t[0]] + rest);
            assert(s.skip(1) == rest);
            if t[0] == '\\' {
                // The next character of the text exists; escaped, it does not begin with a quote.
                assert(tail.len() > 0);
                assert(escape(tail)[0] != '"');
                assert(s[1] == rest[0]);
            }
        }
        assert(seq![t[0]] + tail == t);
    }
}

proof fn lemma_body_is_escaped(s: Seq<char>) -> (after: Seq<char>)
    requires
        quoted_body(s) is Some,
    ensures
        s == escape(quoted_body(s)->0) + seq!['"'] + after,
        !ends_in_backslash(quoted_body(s)->0),
    decreases s.len(),
{
    let t = quoted_body(s)->0;
    if s[0] == '"' {
        assert(s == escape(t) + seq!['"'] + s.skip(1));
        s.skip(1)
    } else if s.len() >= 2 && s[0] == '\\' && s[1] == '"' {
        let after = lemma_body_is_escaped(s.skip(2));
        let tail = quoted_body(s.skip(2))->0;
        assert(t.skip(1) == tail);
        if tail.len() > 0 {
            assert(t.last() == tail.last());
        }
        assert(s == seq!['\\', '"'] + s.skip(2));
        assert(s == escape(t) + seq!['"'] + after);
        after
    } else {
        let after = lemma_body_is_escaped(s.skip(1));
        let tail = quoted_body(s.skip(1))->0;
        assert(t.skip(1) == tail);
        if tail.len() > 0 {
            assert(t.last() == tail.last());
        } else {
            assert(s.skip(1)[0] == '"');
        }
        assert(s == seq![s[0]] + s.skip(1));
        assert(s == escape(t) + seq!['"'] + after);
        after
    }
}

} // verus!

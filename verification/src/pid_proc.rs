//! A process-ID file to look at, and the ways to write one on the command line.

use crate::quoted;
use crate::quoted::{parse_quoted, ParseError};
use crate::text;
use crate::text::chars_of;
use vstd::prelude::*;

verus! {

/// A process-ID file and the process it belongs to.
#[derive(Debug, Clone, PartialEq, Eq)]
pub struct PidProc {
    /// The path of the file.
    pub file: String,
    /// The name its process should have. Empty if none was given.
    pub name: String,
    /// How many supervising processes to look through, at most, on the way to the process.
    pub daemon_recurse_limit: u64,
}

/// The contents of a [`PidProc`].
#[verifier::ext_equal]
pub struct PidProcView {
    pub file: Seq<char>,
    pub name: Seq<char>,
    pub daemon_recurse_limit: u64,
}

impl View for PidProc {
    type V = PidProcView;

    open spec fn view(&self) -> PidProcView {
        PidProcView {
            file: self.file@,
            name: self.name@,
            daemon_recurse_limit: self.daemon_recurse_limit,
        }
    }
}

/// Why a text describes no process-ID file.
#[derive(Debug, Clone, Copy, PartialEq, Eq, Structural)]
pub enum PidProcError {
    /// A part between the braces is not a quoted string.
    Quoted(ParseError),
    /// There is no second part between the braces.
    MissingName,
    /// The first part between the braces holds no path.
    EmptyPathInBraces,
    /// A brace is opened and not closed.
    Unclosed,
    /// A brace is closed and was not opened.
    Unopened,
    /// Nothing stands before the equals sign.
    EmptyPath,
    /// Nothing stands after the equals sign.
    EmptyName,
    /// There is nothing at all.
    NothingFound,
}

impl PidProcError {
    /// The error in words.
    pub fn message(&self) -> (m: &'static str)
        ensures
            m@ == (match *self {
                PidProcError::Quoted(ParseError::MissingQuotedString) => "MissingQuotedString"@,
                PidProcError::MissingName => "name was none"@,
                PidProcError::EmptyPathInBraces =>
                    "PID file path cannot be empty in brace format"@,
                PidProcError::Unclosed => "opening { but no closing"@,
                PidProcError::Unopened => "closing } but no opening"@,
                PidProcError::EmptyPath => "PID file path cannot be empty"@,
                PidProcError::EmptyName => "name was empty"@,
                PidProcError::NothingFound => "name was never found"@,
            }),
    {
        match self {
            PidProcError::Quoted(_) => "MissingQuotedString",
            PidProcError::MissingName => "name was none",
            PidProcError::EmptyPathInBraces => "PID file path cannot be empty in brace format",
            PidProcError::Unclosed => "opening { but no closing",
            PidProcError::Unopened => "closing } but no opening",
            PidProcError::EmptyPath => "PID file path cannot be empty",
            PidProcError::EmptyName => "name was empty",
            PidProcError::NothingFound => "name was never found",
        }
    }
}

/// What a part between braces stands for: the quoted string in it or, where `bare` parts
/// are allowed and there is no quote in it, the part itself.
pub open spec fn field(part: Seq<char>, bare: bool) -> Option<Seq<char>> {
    let t = text::trim(part);
    if bare && t.len() > 0 && !t.contains('"') {
        Some(t)
    } else {
        quoted::quoted(t)
    }
}

/// Path and name in what stands between braces. The parts are separated by commas; they
/// are quoted strings, and where there are just two of them they may do without quotes.
/// Parts after the second one mean nothing.
pub open spec fn in_braces(inner: Seq<char>) -> Result<(Seq<char>, Seq<char>), PidProcError> {
    let parts = text::split(inner, ',');
    let bare = parts.len() == 2;
    if exists|i: int| 0 <= i < parts.len() && field(#[trigger] parts[i], bare) is None {
        Err(PidProcError::Quoted(ParseError::MissingQuotedString))
    } else if parts.len() < 2 {
        Err(PidProcError::MissingName)
    } else if field(parts[0], bare)->0.len() == 0 {
        Err(PidProcError::EmptyPathInBraces)
    } else {
        Ok((field(parts[0], bare)->0, field(parts[1], bare)->0))
    }
}

pub open spec fn opens(s: Seq<char>) -> bool {
    s.len() > 0 && s[0] == '{'
}

pub open spec fn closes(s: Seq<char>) -> bool {
    s.len() > 0 && s.last() == '}'
}

/// Path and name in `path`, `path=name`, `{path,name}` or `{"path","name"}`.
pub open spec fn path_and_name(s: Seq<char>) -> Result<(Seq<char>, Seq<char>), PidProcError> {
    if opens(s) && closes(s) {
        in_braces(s.subrange(1, s.len() - 1))
    } else if opens(s) {
        Err(PidProcError::Unclosed)
    } else if closes(s) {
        Err(PidProcError::Unopened)
    } else {
        match text::split_once(s, '=') {
            Some((path, name)) => if path.len() == 0 {
                Err(PidProcError::EmptyPath)
            } else if name.len() == 0 {
                Err(PidProcError::EmptyName)
            } else {
                Ok((path, name))
            },
            None => if s.len() == 0 {
                Err(PidProcError::NothingFound)
            } else {
                Ok((s, Seq::empty()))
            },
        }
    }
}

/// What `s` describes. A text sets no limit for supervising processes: it is zero.
pub open spec fn described(s: Seq<char>) -> Result<PidProcView, PidProcError> {
    match path_and_name(s) {
        Ok((file, name)) => Ok(PidProcView { file, name, daemon_recurse_limit: 0 }),
        Err(e) => Err(e),
    }
}

/// Reads one part between braces.
fn read_field(part: &str, bare: bool) -> (r: Result<String, ParseError>)
    ensures
        match r {
            Ok(t) => field(part@, bare) == Some(t@),
            Err(e) => field(part@, bare) is None && e == ParseError::MissingQuotedString,
        },
{
    let t: &str = text::trimmed(part);
    proof {
        text::lemma_split_once_none(t@, '"');
    }
    if bare && !t.is_empty() && text::cut_once(t, '"').is_none() {
        Ok(t.to_owned())
    } else {
        parse_quoted(t)
    }
}

/// Reads what stands between braces.
fn read_braces(inner: &str) -> (r: Result<PidProc, PidProcError>)
    ensures
        match r {
            Ok(p) => in_braces(inner@) == Ok::<(Seq<char>, Seq<char>), PidProcError>(
                (p.file@, p.name@),
            ) && p.daemon_recurse_limit == 0,
            Err(e) => in_braces(inner@) == Err::<(Seq<char>, Seq<char>), PidProcError>(e),
        },
{
    let parts: Vec<&str> = text::cut(inner, ',');
    let ghost pieces = text::split(inner@, ',');
    let bare: bool = parts.len() == 2;
    let mut file: String = String::new();
    let mut name: Option<String> = None;
    let mut i: usize = 0;
    while i < parts.len()
        invariant
            i <= parts.len(),
            pieces == text::split(inner@, ','),
            pieces == text::texts(parts@),
            bare == (parts.len() == 2),
            forall|j: int| 0 <= j < i ==> field(#[trigger] pieces[j], bare) is Some,
            i > 0 ==> field(pieces[0], bare) == Some(file@),
            match name {
                Some(n) => i > 1 && field(pieces[1], bare) == Some(n@),
                None => i <= 1,
            },
        decreases parts.len() - i,
    {
        assert(pieces[i as int] == parts@[i as int]@);
        match read_field(parts[i], bare) {
            Ok(t) => {
                if i == 0 {
                    file = t;
                } else if i == 1 {
                    name = Some(t);
                }
            },
            Err(e) => {
                assert(field(pieces[i as int], bare) is None);
                return Err(PidProcError::Quoted(e));
            },
        }
        i = i + 1;
    }
    let name: String = match name {
        Some(name) => name,
        None => {
            return Err(PidProcError::MissingName);
        },
    };
    if file.as_str().is_empty() {
        return Err(PidProcError::EmptyPathInBraces);
    }
    Ok(PidProc { file, name, daemon_recurse_limit: 0 })
}

impl PidProc {
    /// Reads `path`, `path=name`, `{path,name}` or `{"path","name"}`.
    pub fn from_str(s: &str) -> (r: Result<PidProc, PidProcError>)
        ensures
            match r {
                Ok(p) => described(s@) == Ok::<PidProcView, PidProcError>(p@),
                Err(e) => described(s@) == Err::<PidProcView, PidProcError>(e),
            },
    {
        let v: Vec<char> = chars_of(s);
        let opening: bool = v.len() > 0 && v[0] == '{';
        let closing: bool = v.len() > 0 && v[v.len() - 1] == '}';
        if opening && closing {
            return read_braces(s.substring_char(1, v.len() - 1));
        }
        if opening {
            return Err(PidProcError::Unclosed);
        }
        if closing {
            return Err(PidProcError::Unopened);
        }
        match text::cut_once(s, '=') {
            Some((path, name)) => {
                if path.is_empty() {
                    return Err(PidProcError::EmptyPath);
                }
                if name.is_empty() {
                    return Err(PidProcError::EmptyName);
                }
                Ok(PidProc {
                    file: path.to_owned(),
                    name: name.to_owned(),
                    daemon_recurse_limit: 0,
                })
            },
            None => {
                if s.is_empty() {
                    return Err(PidProcError::NothingFound);
                }
                Ok(PidProc { file: s.to_owned(), name: String::new(), daemon_recurse_limit: 0 })
            },
        }
    }
}

impl Default for PidProc {
    fn default() -> (p: PidProc)
        ensures
            p.file@.len() == 0,
            p.name@.len() == 0,
            p.daemon_recurse_limit == 0,
    {
        PidProc { file: String::new(), name: String::new(), daemon_recurse_limit: 0 }
    }
}

/// A description that is accepted names a file, and sets no limit for supervising processes.
pub proof fn law_accepted_names_a_file(s: Seq<char>)
    ensures
        described(s) matches Ok(p) ==> p.file.len() > 0 && p.daemon_recurse_limit == 0,
{
}

/// A text that begins or ends with a brace is accepted only when it does both, and refused
/// for the brace that is missing.
pub proof fn law_braces_come_in_pairs(s: Seq<char>)
    ensures
        described(s) is Ok ==> opens(s) == closes(s),
        s.len() > 0 && described(s) is Ok ==> (s[0] == '{' <==> s.last() == '}'),
        s.len() > 0 && s[0] == '{' && s.last() != '}' <==> described(s) == Err::<PidProcView, PidProcError>(
            PidProcError::Unclosed,
        ),
        s.len() > 0 && s[0] != '{' && s.last() == '}' <==> described(s) == Err::<PidProcView, PidProcError>(
            PidProcError::Unopened,
        ),
{
}

/// A path alone describes the file there, with no name for its process.
pub proof fn law_path_alone(path: Seq<char>)
    requires
        path.len() > 0,
        !path.contains('='),
        path[0] != '{',
        path.last() != '}',
    ensures
        described(path) == Ok::<PidProcView, PidProcError>(
            PidProcView { file: path, name: Seq::empty(), daemon_recurse_limit: 0 },
        ),
{
    text::lemma_split_once_none(path, '=');
}

/// `path=name` describes that path and that name. Only the path must be free of equals signs.
pub proof fn law_path_equals_name(path: Seq<char>, name: Seq<char>)
    requires
        path.len() > 0,
        name.len() > 0,
        !path.contains('='),
        path[0] != '{',
        name.last() != '}',
    ensures
        described(path.push('=') + name) == Ok::<PidProcView, PidProcError>(
            PidProcView { file: path, name, daemon_recurse_limit: 0 },
        ),
{
    text::lemma_split_once_at(path, '=', name);
    assert((path.push('=') + name).last() == name.last());
}

/// A side of the equals sign that is empty is refused, the left one first, and so is no text.
pub proof fn law_empty_sides_are_refused(path: Seq<char>, name: Seq<char>)
    requires
        path.len() > 0,
        !path.contains('='),
        path[0] != '{',
        name.len() == 0 || name.last() != '}',
    ensures
        described(seq!['='] + name) == Err::<PidProcView, PidProcError>(PidProcError::EmptyPath),
        described(path.push('=')) == Err::<PidProcView, PidProcError>(PidProcError::EmptyName),
        described(Seq::empty()) == Err::<PidProcView, PidProcError>(PidProcError::NothingFound),
{
    let nothing = Seq::<char>::empty();
    text::lemma_split_once_at(nothing, '=', name);
    assert(nothing.push('=') + name == seq!['='] + name);
    if name.len() > 0 {
        assert((seq!['='] + name).last() == name.last());
    }
    text::lemma_split_once_at(path, '=', nothing);
    assert(path.push('=') + nothing == path.push('='));
    text::lemma_split_once_none(nothing, '=');
}

/// `first` and `second` between braces, with a comma.
pub open spec fn braced(first: Seq<char>, second: Seq<char>) -> Seq<char> {
    seq!['{'] + (first.push(',') + second) + seq!['}']
}

/// Parts between braces, with commas.
pub open spec fn all_braced(parts: Seq<Seq<char>>) -> Seq<char> {
    seq!['{'] + text::joined(parts, ',') + seq!['}']
}

/// Whether `t` is the first quoted string in `part`.
pub open spec fn is_quoted_in(part: Seq<char>, t: Seq<char>) -> bool {
    !quoted::ends_in_backslash(t) && exists|before: Seq<char>, after: Seq<char>|
        #![trigger before + quoted::quote(t) + after]
        part == before + quoted::quote(t) + after && !before.contains('"')
}

/// Whether `part` is `t`, but for white space around it, and holds no quote.
pub open spec fn is_bare_in(part: Seq<char>, t: Seq<char>) -> bool {
    t.len() > 0 && !t.contains('"') && !text::is_white(t[0]) && !text::is_white(t.last())
        && exists|before: Seq<char>, after: Seq<char>|
        #![trigger before + t + after]
        part == before + t + after && text::all_white(before) && text::all_white(after)
}

/// Whether `part` reads as `t`. Only a part of two may do without quotes.
pub open spec fn reads_as(part: Seq<char>, t: Seq<char>, of_two: bool) -> bool {
    is_quoted_in(part, t) || (of_two && is_bare_in(part, t))
}

/// Between braces, parts that all read as a text describe the first two of those texts, as
/// path and as name, if there are two and the path is not empty.
pub proof fn law_parts_in_braces(parts: Seq<Seq<char>>, texts: Seq<Seq<char>>)
    requires
        parts.len() > 0,
        texts.len() == parts.len(),
        forall|i: int| 0 <= i < parts.len() ==> !(#[trigger] parts[i]).contains(','),
        forall|i: int|
            0 <= i < parts.len() ==> reads_as(#[trigger] parts[i], texts[i], parts.len() == 2),
    ensures
        described(all_braced(parts)) == (if parts.len() == 1 {
            Err::<PidProcView, PidProcError>(PidProcError::MissingName)
        } else if texts[0].len() == 0 {
            Err::<PidProcView, PidProcError>(PidProcError::EmptyPathInBraces)
        } else {
            Ok::<PidProcView, PidProcError>(
                PidProcView { file: texts[0], name: texts[1], daemon_recurse_limit: 0 },
            )
        }),
{
    lemma_all_braced(parts);
    let bare = parts.len() == 2;
    assert forall|i: int| 0 <= i < parts.len() implies field(#[trigger] parts[i], bare) == Some(
        texts[i],
    ) by {
        lemma_field_reads_as(parts[i], texts[i], bare);
    }
    assert(field(parts[0], bare) == Some(texts[0]));
    if parts.len() > 1 {
        assert(field(parts[1], bare) == Some(texts[1]));
    }
}

/// Between braces, a part that reads as no text makes the description refused.
pub proof fn law_unreadable_part_in_braces(parts: Seq<Seq<char>>, i: int)
    requires
        0 <= i < parts.len(),
        forall|j: int| 0 <= j < parts.len() ==> !(#[trigger] parts[j]).contains(','),
        forall|t: Seq<char>| !#[trigger] is_quoted_in(parts[i], t),
        parts.len() == 2 ==> forall|t: Seq<char>| !#[trigger] is_bare_in(parts[i], t),
    ensures
        described(all_braced(parts)) == Err::<PidProcView, PidProcError>(
            PidProcError::Quoted(ParseError::MissingQuotedString),
        ),
{
    lemma_all_braced(parts);
    let bare = parts.len() == 2;
    if let Some(t) = field(parts[i], bare) {
        lemma_reads_as_field(parts[i], bare);
        assert(reads_as(parts[i], t, bare));
    }
    assert(field(parts[i], bare) is None);
}

/// White space around a quoted path and a quoted name between braces does not matter.
pub proof fn law_white_space_in_braces(
    a: Seq<char>,
    path: Seq<char>,
    b: Seq<char>,
    c: Seq<char>,
    name: Seq<char>,
    d: Seq<char>,
)
    requires
        text::all_white(a),
        text::all_white(b),
        text::all_white(c),
        text::all_white(d),
        path.len() > 0,
        !path.contains(','),
        !name.contains(','),
        !quoted::ends_in_backslash(path),
        !quoted::ends_in_backslash(name),
    ensures
        described(braced(a + quoted::quote(path) + b, c + quoted::quote(name) + d)) == Ok::<
            PidProcView,
            PidProcError,
        >(PidProcView { file: path, name, daemon_recurse_limit: 0 }),
{
    let first = a + quoted::quote(path) + b;
    let second = c + quoted::quote(name) + d;
    lemma_padded_quote(a, path, b);
    lemma_padded_quote(c, name, d);
    law_two_parts_in_braces(first, path, second, name);
}

/// White space around a path and a name without quotes between braces does not matter.
pub proof fn law_white_space_around_bare_parts(
    a: Seq<char>,
    path: Seq<char>,
    b: Seq<char>,
    c: Seq<char>,
    name: Seq<char>,
    d: Seq<char>,
)
    requires
        text::all_white(a),
        text::all_white(b),
        text::all_white(c),
        text::all_white(d),
        path.len() > 0,
        name.len() > 0,
        !path.contains(','),
        !name.contains(','),
        !path.contains('"'),
        !name.contains('"'),
        !text::is_white(path[0]),
        !text::is_white(path.last()),
        !text::is_white(name[0]),
        !text::is_white(name.last()),
    ensures
        described(braced(a + path + b, c + name + d)) == Ok::<PidProcView, PidProcError>(
            PidProcView { file: path, name, daemon_recurse_limit: 0 },
        ),
{
    lemma_padded(a, path, b, ',');
    lemma_padded(c, name, d, ',');
    law_two_parts_in_braces(a + path + b, path, c + name + d, name);
}

/// Between braces, two parts describe the texts that they read as.
pub proof fn law_two_parts_in_braces(
    first: Seq<char>,
    path: Seq<char>,
    second: Seq<char>,
    name: Seq<char>,
)
    requires
        !first.contains(','),
        !second.contains(','),
        reads_as(first, path, true),
        reads_as(second, name, true),
    ensures
        described(braced(first, second)) == (if path.len() == 0 {
            Err::<PidProcView, PidProcError>(PidProcError::EmptyPathInBraces)
        } else {
            Ok::<PidProcView, PidProcError>(
                PidProcView { file: path, name, daemon_recurse_limit: 0 },
            )
        }),
{
    let parts = seq![first, second];
    let texts = seq![path, name];
    assert(parts.skip(1) == seq![second]);
    assert(text::joined(seq![second], ',') == second);
    assert(text::joined(parts, ',') == first.push(',') + second);
    assert forall|i: int| 0 <= i < parts.len() implies reads_as(
        #[trigger] parts[i],
        texts[i],
        parts.len() == 2,
    ) by {}
    law_parts_in_braces(parts, texts);
}

/// Between braces, a path and a name in quotes describe that path and that name. They may
/// hold anything but commas, and not end in a backslash.
pub proof fn law_quoted_in_braces(path: Seq<char>, name: Seq<char>)
    requires
        path.len() > 0,
        !path.contains(','),
        !name.contains(','),
        !quoted::ends_in_backslash(path),
        !quoted::ends_in_backslash(name),
    ensures
        described(braced(quoted::quote(path), quoted::quote(name))) == Ok::<
            PidProcView,
            PidProcError,
        >(PidProcView { file: path, name, daemon_recurse_limit: 0 }),
{
    lemma_field_of_quote(path);
    lemma_field_of_quote(name);
    lemma_braced(quoted::quote(path), quoted::quote(name));
}

/// Between braces, a path and a name without quotes describe that path and that name, when
/// neither holds a comma or a quote, and neither begins or ends in white space.
pub proof fn law_bare_in_braces(path: Seq<char>, name: Seq<char>)
    requires
        path.len() > 0,
        name.len() > 0,
        !path.contains(','),
        !name.contains(','),
        !path.contains('"'),
        !name.contains('"'),
        !text::is_white(path[0]),
        !text::is_white(path.last()),
        !text::is_white(name[0]),
        !text::is_white(name.last()),
    ensures
        described(braced(path, name)) == Ok::<PidProcView, PidProcError>(
            PidProcView { file: path, name, daemon_recurse_limit: 0 },
        ),
{
    lemma_braced(path, name);
}

/// A [`PidProc`] is its file, its name and its limit, and nothing of them is lost from view.
pub proof fn law_pid_proc_in_view(p: PidProc)
    ensures
        p@.file == p.file@,
        p@.name == p.name@,
        p@.daemon_recurse_limit == p.daemon_recurse_limit,
{
}

proof fn lemma_braced(first: Seq<char>, second: Seq<char>)
    requires
        !first.contains(','),
        !second.contains(','),
    ensures
        opens(braced(first, second)),
        closes(braced(first, second)),
        text::split(
            braced(first, second).subrange(1, braced(first, second).len() - 1),
            ',',
        ) == seq![first, second],
{
    let s = braced(first, second);
    let inner = first.push(',') + second;
    assert(s.subrange(1, s.len() - 1) == inner);
    text::lemma_split_once_at(first, ',', second);
    text::lemma_split_once_none(second, ',');
    text::lemma_split_once_none(inner, ',');
    assert(text::split(second, ',') == seq![second]);
    assert(text::split(inner, ',') == seq![first] + seq![second]);
}

proof fn lemma_field_of_quote(t: Seq<char>)
    requires
        !t.contains(','),
        !quoted::ends_in_backslash(t),
    ensures
        field(quoted::quote(t), true) == Some(t),
        !quoted::quote(t).contains(','),
{
    let s = quoted::quote(t);
    assert(s[0] == '"' && s.last() == '"');
    assert(text::trim(s) == s);
    assert(s.contains('"'));
    quoted::law_quote_round_trip(t);
    quoted::lemma_escape_adds_backslashes(t, ',');
}

proof fn lemma_all_braced(parts: Seq<Seq<char>>)
    requires
        parts.len() > 0,
        forall|i: int| 0 <= i < parts.len() ==> !(#[trigger] parts[i]).contains(','),
    ensures
        path_and_name(all_braced(parts)) == in_braces(text::joined(parts, ',')),
        text::split(text::joined(parts, ','), ',') == parts,
{
    let s = all_braced(parts);
    assert(s.subrange(1, s.len() - 1) == text::joined(parts, ','));
    text::law_split_undoes_join(parts, ',');
}

/// White space around a text adds no `c` to it, when `c` is no white space.
proof fn lemma_padded(a: Seq<char>, t: Seq<char>, b: Seq<char>, c: char)
    requires
        text::all_white(a),
        text::all_white(b),
        !text::is_white(c),
        !t.contains(c),
    ensures
        !(a + t + b).contains(c),
{
    let s = a + t + b;
    assert forall|j: int| 0 <= j < s.len() implies s[j] != c by {
        if j < a.len() {
            assert(s[j] == a[j]);
        } else if j < a.len() + t.len() {
            assert(s[j] == t[j - a.len()]);
        } else {
            assert(s[j] == b[j - a.len() - t.len()]);
        }
    }
}

proof fn lemma_padded_quote(a: Seq<char>, t: Seq<char>, b: Seq<char>)
    requires
        text::all_white(a),
        text::all_white(b),
        !t.contains(','),
        !quoted::ends_in_backslash(t),
    ensures
        !(a + quoted::quote(t) + b).contains(','),
        reads_as(a + quoted::quote(t) + b, t, true),
{
    let q = quoted::quote(t);
    quoted::lemma_escape_adds_backslashes(t, ',');
    assert(!q.contains(',')) by {
        assert forall|j: int| 0 <= j < q.len() implies q[j] != ',' by {
            if 0 < j < q.len() - 1 {
                assert(q[j] == quoted::escape(t)[j - 1]);
            }
        }
    }
    lemma_padded(a, q, b, ',');
    assert(!a.contains('"'));
    assert(is_quoted_in(a + q + b, t));
}

/// What a part reads as is its field.
proof fn lemma_field_reads_as(part: Seq<char>, t: Seq<char>, bare: bool)
    requires
        reads_as(part, t, bare),
    ensures
        field(part, bare) == Some(t),
{
    let trimmed = text::trim(part);
    if is_quoted_in(part, t) {
        let q = quoted::quote(t);
        let (before, after): (Seq<char>, Seq<char>) = choose|before: Seq<char>, after: Seq<char>|
            #![trigger before + quoted::quote(t) + after]
            part == before + quoted::quote(t) + after && !before.contains('"');
        let (a, b) = text::lemma_trim_shape(part);
        // Both quotes are inside what is left: neither is white space.
        let open = before.len() as int;
        let close = open + q.len() - 1;
        assert(part[open] == q[0] && q[0] == '"');
        assert(part[close] == q[q.len() - 1] && q[q.len() - 1] == '"');
        assert(a.len() <= open) by {
            if open < a.len() {
                assert(part[open] == a[open]);
            }
        }
        assert(close < part.len() - b.len()) by {
            if close >= part.len() - b.len() {
                assert(part[close] == b[close - (part.len() - b.len())]);
            }
        }
        let kept_before = before.skip(a.len() as int);
        let kept_after = after.take(after.len() - b.len());
        assert(trimmed == part.subrange(a.len() as int, part.len() - b.len()));
        assert(trimmed == kept_before + q + kept_after);
        assert(!kept_before.contains('"')) by {
            assert forall|j: int| 0 <= j < kept_before.len() implies kept_before[j] != '"' by {
                assert(kept_before[j] == before[j + a.len()]);
            }
        }
        quoted::law_first_quoted_string_is_read(kept_before, t, kept_after);
        assert(trimmed[open - a.len()] == '"');
        assert(trimmed.contains('"'));
    } else {
        let (before, after): (Seq<char>, Seq<char>) = choose|before: Seq<char>, after: Seq<char>|
            #![trigger before + t + after]
            part == before + t + after && text::all_white(before) && text::all_white(after);
        text::lemma_trim_padded(before, t, after);
    }
}

/// The field of a part is what it reads as.
proof fn lemma_reads_as_field(part: Seq<char>, bare: bool)
    requires
        field(part, bare) is Some,
    ensures
        reads_as(part, field(part, bare)->0, bare),
{
    let t = field(part, bare)->0;
    let trimmed = text::trim(part);
    let (a, b) = text::lemma_trim_shape(part);
    if bare && trimmed.len() > 0 && !trimmed.contains('"') {
        assert(is_bare_in(part, t)) by {
            assert(part == a + t + b);
        }
    } else {
        quoted::law_quoted_is_delimited(trimmed);
        let (before, after): (Seq<char>, Seq<char>) = choose|before: Seq<char>, after: Seq<char>|
            #![trigger before + quoted::quote(t) + after]
            trimmed == before + quoted::quote(t) + after && !before.contains('"');
        lemma_padded(a, before, Seq::empty(), '"');
        assert(a + before + Seq::<char>::empty() == a + before);
        assert(part == (a + before) + quoted::quote(t) + (after + b));
        assert(is_quoted_in(part, t));
    }
}

} // verus!

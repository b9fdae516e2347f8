//! Process numbers, and process names that point to a child process.

use crate::decimal;
use crate::decimal::{read_number, NumberError};
use crate::text;
use crate::text::chars_of;
use vstd::prelude::*;

verus! {

/// The number of a process, as it was given.
#[derive(Debug, Clone, Copy, PartialEq, Eq, Structural)]
pub struct Pid {
    pub number: usize,
}

impl Pid {
    pub fn from_u32(v: u32) -> (pid: Pid)
        ensures
            pid.number == v,
    {
        Pid { number: v as usize }
    }
}

impl From<usize> for Pid {
    fn from(v: usize) -> (pid: Pid) {
        Pid { number: v }
    }
}

impl vstd::std_specs::convert::FromSpecImpl<usize> for Pid {
    open spec fn obeys_from_spec() -> bool {
        true
    }

    open spec fn from_spec(v: usize) -> Pid {
        Pid { number: v }
    }
}

/// What the name of a supervising process says of the process it supervises.
#[derive(Debug, Clone, PartialEq, Eq)]
pub struct DaemonName {
    pub name: String,
    pub pid: Pid,
}

impl View for DaemonName {
    type V = (Seq<char>, usize);

    open spec fn view(&self) -> (Seq<char>, usize) {
        (self.name@, self.pid.number)
    }
}

/// Why a process name names no child.
#[derive(Debug, Clone, Copy, PartialEq, Eq, Structural)]
pub enum DaemonNameError {
    MissingPrefix,
    MissingPidStart,
    MissingPidEnd,
    InvalidPid(NumberError),
}

impl DaemonNameError {
    /// The error in words.
    pub fn message(&self) -> (m: &'static str)
        ensures
            m@ == (match *self {
                DaemonNameError::MissingPrefix => "missing daemon prefix"@,
                DaemonNameError::MissingPidStart => "missing pid start"@,
                DaemonNameError::MissingPidEnd => "missing pid end"@,
                DaemonNameError::InvalidPid(NumberError::Empty) =>
                    "cannot parse integer from empty string"@,
                DaemonNameError::InvalidPid(NumberError::InvalidDigit) =>
                    "invalid digit found in string"@,
                DaemonNameError::InvalidPid(NumberError::TooLarge) =>
                    "number too large to fit in target type"@,
            }),
    {
        match self {
            DaemonNameError::MissingPrefix => "missing daemon prefix",
            DaemonNameError::MissingPidStart => "missing pid start",
            DaemonNameError::MissingPidEnd => "missing pid end",
            DaemonNameError::InvalidPid(e) => match e {
                NumberError::Empty => "cannot parse integer from empty string",
                NumberError::InvalidDigit => "invalid digit found in string",
                NumberError::TooLarge => "number too large to fit in target type",
            },
        }
    }
}

/// What comes before the name in `daemon: name[pid]`.
pub open spec fn prefix() -> Seq<char> {
    "daemon: "@
}

/// Name and number in a text of the form `daemon: name[pid]`, where the name ends at
/// the first bracket.
pub open spec fn daemon(s: Seq<char>) -> Result<(Seq<char>, usize), DaemonNameError> {
    if !prefix().is_prefix_of(s) {
        Err(DaemonNameError::MissingPrefix)
    } else {
        match text::split_once(s.skip(prefix().len() as int), '[') {
            None => Err(DaemonNameError::MissingPidStart),
            Some((name, rest)) => if rest.len() == 0 || rest.last() != ']' {
                Err(DaemonNameError::MissingPidEnd)
            } else {
                match decimal::number(rest.drop_last(), u32::MAX as nat) {
                    Ok(n) => Ok((name, n as usize)),
                    Err(e) => Err(DaemonNameError::InvalidPid(e)),
                }
            },
        }
    }
}

/// The name of a process that supervises the process `pid` with the name `name`.
pub open spec fn daemon_title(name: Seq<char>, pid: u32) -> Seq<char> {
    prefix() + (name.push('[') + decimal::numeral(pid as nat).push(']'))
}

/// What follows `prefix` in `s`, if `s` begins with it.
fn strip_prefix<'a>(s: &'a str, prefix: &str) -> (r: Option<&'a str>)
    ensures
        match r {
            Some(rest) => prefix@.is_prefix_of(s@) && rest@ == s@.skip(prefix@.len() as int),
            None => !prefix@.is_prefix_of(s@),
        },
{
    let v: Vec<char> = chars_of(s);
    let p: Vec<char> = chars_of(prefix);
    if v.len() < p.len() {
        return None;
    }
    let mut k: usize = 0;
    while k < p.len()
        invariant
            v@ == s@,
            p@ == prefix@,
            k <= p.len() <= v.len(),
            forall|j: int| 0 <= j < k ==> v@[j] == p@[j],
        decreases p.len() - k,
    {
        if v[k] != p[k] {
            assert(s@.take(p.len() as int)[k as int] != prefix@[k as int]);
            return None;
        }
        k = k + 1;
    }
    assert(s@.take(p.len() as int) == prefix@);
    Some(s.substring_char(p.len(), v.len()))
}

/// Reads a process name of the form `daemon: name[pid]`.
pub fn match_daemon_name(name: &str) -> (r: Result<DaemonName, DaemonNameError>)
    ensures
        match r {
            Ok(d) => daemon(name@) == Ok::<(Seq<char>, usize), DaemonNameError>(d@),
            Err(e) => daemon(name@) == Err::<(Seq<char>, usize), DaemonNameError>(e),
        },
{
    let s: &str = match strip_prefix(name, "daemon: ") {
        Some(s) => s,
        None => {
            return Err(DaemonNameError::MissingPrefix);
        },
    };
    let (procname, rest): (&str, &str) = match text::cut_once(s, '[') {
        Some(halves) => halves,
        None => {
            return Err(DaemonNameError::MissingPidStart);
        },
    };
    let len: usize = rest.unicode_len();
    if len == 0 || rest.get_char(len - 1) != ']' {
        return Err(DaemonNameError::MissingPidEnd);
    }
    let pid_str: &str = rest.substring_char(0, len - 1);
    assert(pid_str@ == rest@.drop_last());
    match read_number(pid_str, u32::MAX as u64) {
        Ok(n) => Ok(DaemonName { name: procname.to_owned(), pid: Pid::from_u32(n as u32) }),
        Err(e) => Err(DaemonNameError::InvalidPid(e)),
    }
}

/// The title of a supervising process reads back as the name and the number in it, when
/// there is no opening bracket in the name.
pub proof fn law_daemon_title_round_trip(name: Seq<char>, pid: u32)
    requires
        !name.contains('['),
    ensures
        daemon(daemon_title(name, pid)) == Ok::<(Seq<char>, usize), DaemonNameError>(
            (name, pid as usize),
        ),
{
    let numeral = decimal::numeral(pid as nat);
    let s = daemon_title(name, pid);
    let rest = numeral.push(']');
    assert(s.take(prefix().len() as int) == prefix());
    assert(s.skip(prefix().len() as int) == name.push('[') + rest);
    text::lemma_split_once_at(name, '[', rest);
    assert(rest.drop_last() == numeral);
    decimal::law_numeral_round_trip(pid as nat, u32::MAX as nat);
}

/// The text `daemon: ` as a list of characters.
pub open spec fn daemon_word() -> Seq<char> {
    seq!['d', 'a', 'e', 'm', 'o', 'n', ':', ' ']
}

proof fn lemma_prefix()
    ensures
        prefix() == daemon_word(),
{
    reveal_strlit("daemon: ");
    assert(prefix() == daemon_word());
}

proof fn lemma_after_prefix(rest: Seq<char>)
    ensures
        prefix().is_prefix_of(daemon_word() + rest),
        (daemon_word() + rest).skip(prefix().len() as int) == rest,
{
    lemma_prefix();
    assert((daemon_word() + rest).take(8) == daemon_word());
    assert((daemon_word() + rest).skip(8) == rest);
}

/// `daemon: name[pid]` gives the name and the number, however the number is written, when it
/// fits in 32 bits and the name is free of opening brackets.
pub proof fn law_daemon_name_is_read(name: Seq<char>, plus: bool, zeros: nat, n: nat)
    requires
        !name.contains('['),
    ensures
        daemon(
            daemon_word() + (name.push('[') + decimal::signed(
                plus,
                decimal::row_of_digits(zeros, n),
            ).push(']')),
        ) == (if n <= 0xffff_ffff {
            Ok::<(Seq<char>, usize), DaemonNameError>((name, n as usize))
        } else {
            Err::<(Seq<char>, usize), DaemonNameError>(
                DaemonNameError::InvalidPid(NumberError::TooLarge),
            )
        }),
{
    let digits = decimal::signed(plus, decimal::row_of_digits(zeros, n));
    lemma_after_prefix(name.push('[') + digits.push(']'));
    text::lemma_split_once_at(name, '[', digits.push(']'));
    assert(digits.push(']').drop_last() == digits);
    decimal::law_digits_are_read(plus, zeros, n, u32::MAX as nat);
}

/// A process name that does not begin with `daemon: ` names no child.
pub proof fn law_daemon_name_has_prefix(s: Seq<char>)
    ensures
        daemon(s) == Err::<(Seq<char>, usize), DaemonNameError>(DaemonNameError::MissingPrefix)
            <==> !(s.len() >= 8 && s.take(8) == daemon_word()),
{
    lemma_prefix();
    if s.len() >= 8 {
        assert(s.subrange(0, 8) == s.take(8));
    }
}

/// After `daemon: `, each other reason to refuse a name comes with what is missing: the opening
/// bracket, the closing one at the end, or a number between the two.
pub proof fn law_daemon_name_is_refused(name: Seq<char>, rest: Seq<char>)
    requires
        !name.contains('['),
    ensures
        daemon(daemon_word() + name) == Err::<(Seq<char>, usize), DaemonNameError>(
            DaemonNameError::MissingPidStart,
        ),
        rest.len() == 0 || rest.last() != ']' ==> daemon(
            daemon_word() + (name.push('[') + rest),
        ) == Err::<(Seq<char>, usize), DaemonNameError>(DaemonNameError::MissingPidEnd),
        decimal::number(rest, 0xffff_ffff) matches Err(e) ==> daemon(
            daemon_word() + (name.push('[') + rest.push(']')),
        ) == Err::<(Seq<char>, usize), DaemonNameError>(DaemonNameError::InvalidPid(e)),
{
    lemma_after_prefix(name);
    text::lemma_split_once_none(name, '[');
    lemma_after_prefix(name.push('[') + rest);
    text::lemma_split_once_at(name, '[', rest);
    lemma_after_prefix(name.push('[') + rest.push(']'));
    text::lemma_split_once_at(name, '[', rest.push(']'));
    assert(rest.push(']').drop_last() == rest);
}

/// What is read is what the process name says.
pub proof fn law_daemon_name_says_so(s: Seq<char>)
    requires
        daemon(s) is Ok,
    ensures
        !daemon(s)->Ok_0.0.contains('['),
        daemon(s)->Ok_0.1 <= 0xffff_ffff,
        exists|plus: bool, zeros: nat|
            s == daemon_word() + (daemon(s)->Ok_0.0.push('[') + #[trigger] decimal::signed(
                plus,
                decimal::row_of_digits(zeros, daemon(s)->Ok_0.1 as nat),
            ).push(']')),
{
    lemma_prefix();
    let t = s.skip(8);
    assert(s.take(8) == daemon_word());
    assert(s == daemon_word() + t);
    let p = text::position(t, '[') as int;
    text::lemma_position(t, '[');
    let name = t.take(p);
    let rest = t.skip(p + 1);
    let digits = rest.drop_last();
    assert(!name.contains('[')) by {
        assert forall|j: int| 0 <= j < name.len() implies name[j] != '[' by {
            assert(name[j] == t[j]);
        }
    }
    decimal::law_numbers_are_digits(digits, u32::MAX as nat);
    assert(rest == digits.push(']'));
    assert(t == name.push('[') + rest);
    let n = decimal::number(digits, u32::MAX as nat)->Ok_0;
    let (plus, zeros): (bool, nat) = choose|plus: bool, zeros: nat|
        digits == #[trigger] decimal::signed(plus, decimal::row_of_digits(zeros, n));
    assert(daemon(s) == Ok::<(Seq<char>, usize), DaemonNameError>((name, n as usize)));
    assert(s == daemon_word() + (name.push('[') + decimal::signed(
        plus,
        decimal::row_of_digits(zeros, n),
    ).push(']')));
}

/// A process number is the number it was made from.
pub proof fn law_pid_is_its_number(v: usize)
    ensures
        <Pid as vstd::std_specs::convert::FromSpec<usize>>::from_spec(v) == (Pid { number: v }),
{
}

/// A [`DaemonName`] is its name and its number, and nothing of them is lost from view.
pub proof fn law_daemon_name_in_view(d: DaemonName)
    ensures
        d@.0 == d.name@,
        d@.1 == d.pid.number,
{
}

} // verus!

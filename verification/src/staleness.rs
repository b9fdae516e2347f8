//! Whether the process of a process-ID file is gone, and what becomes of the file.

use crate::daemon;
use crate::daemon::{match_daemon_name, DaemonName, Pid};
use crate::decimal;
use crate::decimal::read_number;
use crate::pid_proc::PidProc;
use crate::system;
use crate::text;
use vstd::prelude::*;

verus! {

/// What was found under a process number.
#[derive(Debug, Clone, PartialEq, Eq)]
pub enum PidStatus {
    /// No process has this number.
    NoProcess,
    /// A process has it, with the expected name.
    NameMatches,
    /// A process has it, with another name, which is given.
    NameDiffers(String),
}

/// The contents of a [`PidStatus`].
pub enum PidStatusView {
    NoProcess,
    NameMatches,
    NameDiffers(Seq<char>),
}

impl View for PidStatus {
    type V = PidStatusView;

    open spec fn view(&self) -> PidStatusView {
        match *self {
            PidStatus::NoProcess => PidStatusView::NoProcess,
            PidStatus::NameMatches => PidStatusView::NameMatches,
            PidStatus::NameDiffers(actual) => PidStatusView::NameDiffers(actual@),
        }
    }
}

/// What to do after looking a process number up.
#[derive(Debug, Clone, PartialEq, Eq)]
pub enum Step {
    /// Look up the child that the process supervises.
    Follow(DaemonName),
    /// Stop here.
    Stop(PidStatus),
}

/// The way from a process number through supervising processes to the one that counts.
#[derive(Debug, Clone, PartialEq, Eq)]
pub struct PidTrace {
    /// The children that were followed, in order.
    pub followed: Vec<DaemonName>,
    /// The number that was looked up last.
    pub pid: Pid,
    /// What was found under it.
    pub status: PidStatus,
}

/// What a table of running processes holds under a number.
pub open spec fn lookup(table: Map<usize, Seq<char>>, pid: usize) -> Option<Seq<char>> {
    if table.contains_key(pid) {
        Some(table[pid])
    } else {
        None
    }
}

/// The child to go on with, when `found` is the process and `limit` children are left to follow.
pub open spec fn child(found: Option<Seq<char>>, limit: nat) -> Option<(Seq<char>, usize)> {
    if limit == 0 {
        None
    } else {
        match found {
            Some(actual) => match daemon::daemon(actual) {
                Ok(d) => Some(d),
                Err(_) => None,
            },
            None => None,
        }
    }
}

/// What `found` says of a process that should have the name `name`.
pub open spec fn status(found: Option<Seq<char>>, name: Seq<char>) -> PidStatusView {
    match found {
        None => PidStatusView::NoProcess,
        Some(actual) => if actual == name {
            PidStatusView::NameMatches
        } else {
            PidStatusView::NameDiffers(actual)
        },
    }
}

/// The children followed from `pid` on.
pub open spec fn followed(table: Map<usize, Seq<char>>, pid: usize, limit: nat) -> Seq<
    (Seq<char>, usize),
>
    decreases limit,
{
    if limit == 0 {
        Seq::empty()
    } else {
        match child(lookup(table, pid), limit) {
            Some(d) => seq![d] + followed(table, d.1, (limit - 1) as nat),
            None => Seq::empty(),
        }
    }
}

/// The number of the last of the processes `chain`, or `pid` when there are none.
pub open spec fn last_pid(pid: usize, chain: Seq<(Seq<char>, usize)>) -> usize {
    if chain.len() == 0 {
        pid
    } else {
        chain.last().1
    }
}

/// The number that counts in place of `pid`.
pub open spec fn final_pid(table: Map<usize, Seq<char>>, pid: usize, limit: nat) -> usize {
    last_pid(pid, followed(table, pid, limit))
}

/// Whether the process that `pid` leads to is gone.
pub open spec fn stale(table: Map<usize, Seq<char>>, pid: usize, limit: nat) -> bool {
    !table.contains_key(final_pid(table, pid, limit))
}

/// What each of a list of children says.
pub open spec fn children(list: Seq<DaemonName>) -> Seq<(Seq<char>, usize)> {
    Seq::new(list.len(), |i: int| list[i]@)
}

/// Decides what to do after a look-up that found a process with the name `found`, or none.
pub fn examine(found: Option<&str>, name: &str, limit: u64) -> (step: Step)
    ensures
        match (found, step) {
            (Some(actual), Step::Follow(d)) => child(Some(actual@), limit as nat) == Some(d@),
            (Some(actual), Step::Stop(s)) => child(Some(actual@), limit as nat) is None && s@
                == status(Some(actual@), name@),
            (None, Step::Follow(_)) => false,
            (None, Step::Stop(s)) => s@ == PidStatusView::NoProcess,
        },
{
    let actual: &str = match found {
        Some(actual) => actual,
        None => {
            return Step::Stop(PidStatus::NoProcess);
        },
    };
    if limit > 0 {
        match match_daemon_name(actual) {
            Ok(d) => {
                return Step::Follow(d);
            },
            Err(_) => {},
        }
    }
    if text::same_text(actual, name) {
        Step::Stop(PidStatus::NameMatches)
    } else {
        Step::Stop(PidStatus::NameDiffers(actual.to_owned()))
    }
}

/// Looks `pid` up in the snapshot, and the children of supervising processes, as long as
/// there are any and `daemon_recurse_limit` allows it.
pub fn trace_pid(
    sys: &sysinfo::System,
    pid: &Pid,
    name: &str,
    daemon_recurse_limit: u64,
) -> (trace: PidTrace)
    ensures
        children(trace.followed@) == followed(
            system::process_names(*sys),
            pid.number,
            daemon_recurse_limit as nat,
        ),
        trace.pid.number == final_pid(
            system::process_names(*sys),
            pid.number,
            daemon_recurse_limit as nat,
        ),
        trace.status@ == status(
            lookup(system::process_names(*sys), trace.pid.number),
            name@,
        ),
{
    let ghost table = system::process_names(*sys);
    let mut chain: Vec<DaemonName> = Vec::new();
    let mut here: Pid = *pid;
    let mut limit: u64 = daemon_recurse_limit;
    assert(children(chain@) == Seq::<(Seq<char>, usize)>::empty());
    loop
        invariant
            table == system::process_names(*sys),
            followed(table, pid.number, daemon_recurse_limit as nat) == children(chain@)
                + followed(table, here.number, limit as nat),
            here.number == last_pid(pid.number, children(chain@)),
        decreases limit,
    {
        let found: Option<String> = system::process_name(sys, here.number);
        let step: Step = match &found {
            Some(actual) => examine(Some(actual.as_str()), name, limit),
            None => examine(None, name, limit),
        };
        let ghost before = children(chain@);
        match step {
            Step::Follow(d) => {
                let ghost rest = followed(table, d.pid.number, (limit - 1) as nat);
                here = d.pid;
                limit = limit - 1;
                chain.push(d);
                assert(children(chain@) == before.push(d@));
                assert(before.push(d@) + rest == before + (seq![d@] + rest));
            },
            Step::Stop(status) => {
                assert(followed(table, here.number, limit as nat) == Seq::<
                    (Seq<char>, usize),
                >::empty());
                assert(before + Seq::<(Seq<char>, usize)>::empty() == before);
                return PidTrace { followed: chain, pid: here, status };
            },
        }
    }
}

/// Whether the process with the number `pid`, or the one it supervises, is gone. A process
/// that is there counts as there, whatever its name.
pub fn is_pid_stale(
    sys: &sysinfo::System,
    pid: &Pid,
    name: &str,
    daemon_recurse_limit: u64,
) -> (r: bool)
    ensures
        r == stale(system::process_names(*sys), pid.number, daemon_recurse_limit as nat),
{
    let trace: PidTrace = trace_pid(sys, pid, name, daemon_recurse_limit);
    match trace.status {
        PidStatus::NoProcess => true,
        PidStatus::NameMatches => false,
        PidStatus::NameDiffers(_) => false,
    }
}

/// The text that should be a process number and is not.
#[derive(Debug, Clone, PartialEq, Eq)]
pub struct InvalidPid {
    pub text: String,
}

/// The process number in a process-ID file with these contents: none when there is only
/// white space, and the offending text when it is no number.
pub open spec fn pid_in(content: Seq<char>) -> Result<Option<usize>, Seq<char>> {
    let t = text::trim(content);
    if t.len() == 0 {
        Ok(None)
    } else {
        match decimal::number(t, usize::MAX as nat) {
            Ok(n) => Ok(Some(n as usize)),
            Err(_) => Err(t),
        }
    }
}

/// Whether a process-ID file with these contents is stale. An empty one is.
pub open spec fn content_stale(
    table: Map<usize, Seq<char>>,
    content: Seq<char>,
    limit: nat,
) -> Result<bool, Seq<char>> {
    match pid_in(content) {
        Ok(None) => Ok(true),
        Ok(Some(pid)) => Ok(stale(table, pid, limit)),
        Err(t) => Err(t),
    }
}

/// Reads the process number in a process-ID file.
pub fn read_pid(content: &str) -> (r: Result<Option<Pid>, InvalidPid>)
    ensures
        match r {
            Ok(Some(pid)) => pid_in(content@) == Ok::<Option<usize>, Seq<char>>(Some(pid.number)),
            Ok(None) => pid_in(content@) == Ok::<Option<usize>, Seq<char>>(None),
            Err(e) => pid_in(content@) == Err::<Option<usize>, Seq<char>>(e.text@),
        },
{
    let t: &str = text::trimmed(content);
    if t.is_empty() {
        return Ok(None);
    }
    match read_number(t, usize::MAX as u64) {
        Ok(n) => Ok(Some(Pid::from(n as usize))),
        Err(_) => Err(InvalidPid { text: t.to_owned() }),
    }
}

/// Whether a process-ID file that holds `content` is stale.
pub fn is_pid_path_stale(
    sys: &sysinfo::System,
    content: &str,
    name: &str,
    daemon_recurse_limit: u64,
) -> (r: Result<bool, InvalidPid>)
    ensures
        match r {
            Ok(b) => content_stale(
                system::process_names(*sys),
                content@,
                daemon_recurse_limit as nat,
            ) == Ok::<bool, Seq<char>>(b),
            Err(e) => content_stale(
                system::process_names(*sys),
                content@,
                daemon_recurse_limit as nat,
            ) == Err::<bool, Seq<char>>(e.text@),
        },
{
    match read_pid(content) {
        Ok(Some(pid)) => Ok(is_pid_stale(sys, &pid, name, daemon_recurse_limit)),
        Ok(None) => Ok(true),
        Err(e) => Err(e),
    }
}

/// What becomes of a process-ID file.
#[derive(Debug, Clone, Copy, PartialEq, Eq, Structural)]
pub enum Action {
    Keep,
    Remove,
}

/// Why nothing can be done about a process-ID file.
#[derive(Debug, Clone, PartialEq, Eq)]
pub enum HandleError {
    /// It does not hold a process number.
    InvalidPid(InvalidPid),
    /// It is stale, and not a regular file.
    NotAFile,
}

/// The contents of a [`HandleError`].
pub enum HandleErrorView {
    InvalidPid(Seq<char>),
    NotAFile,
}

impl View for HandleError {
    type V = HandleErrorView;

    open spec fn view(&self) -> HandleErrorView {
        match *self {
            HandleError::InvalidPid(e) => HandleErrorView::InvalidPid(e.text@),
            HandleError::NotAFile => HandleErrorView::NotAFile,
        }
    }
}

/// What becomes of a process-ID file with these contents, when `is_file` says whether it
/// is a regular file.
pub open spec fn handled(
    table: Map<usize, Seq<char>>,
    content: Seq<char>,
    limit: nat,
    is_file: bool,
) -> Result<Action, HandleErrorView> {
    match content_stale(table, content, limit) {
        Err(t) => Err(HandleErrorView::InvalidPid(t)),
        Ok(false) => Ok(Action::Keep),
        Ok(true) => if is_file {
            Ok(Action::Remove)
        } else {
            Err(HandleErrorView::NotAFile)
        },
    }
}

/// Decides what becomes of the file that `pid_proc` describes and that holds `content`.
pub fn handle_pid_file(
    sys: &sysinfo::System,
    pid_proc: &PidProc,
    content: &str,
    is_file: bool,
) -> (r: Result<Action, HandleError>)
    ensures
        match r {
            Ok(action) => handled(
                system::process_names(*sys),
                content@,
                pid_proc.daemon_recurse_limit as nat,
                is_file,
            ) == Ok::<Action, HandleErrorView>(action),
            Err(e) => handled(
                system::process_names(*sys),
                content@,
                pid_proc.daemon_recurse_limit as nat,
                is_file,
            ) == Err::<Action, HandleErrorView>(e@),
        },
{
    match is_pid_path_stale(
        sys,
        content,
        pid_proc.name.as_str(),
        pid_proc.daemon_recurse_limit,
    ) {
        Ok(true) => {
            if !is_file {
                return Err(HandleError::NotAFile);
            }
            Ok(Action::Remove)
        },
        Ok(false) => Ok(Action::Keep),
        Err(e) => Err(HandleError::InvalidPid(e)),
    }
}

/// Without a process under its number, a process-ID file's process is gone, and no child is
/// followed.
pub proof fn law_missing_process_is_stale(table: Map<usize, Seq<char>>, pid: usize, limit: nat)
    requires
        !table.contains_key(pid),
    ensures
        stale(table, pid, limit),
        followed(table, pid, limit) == Seq::<(Seq<char>, usize)>::empty(),
        final_pid(table, pid, limit) == pid,
{
    assert(followed(table, pid, limit) == Seq::<(Seq<char>, usize)>::empty());
}

/// A running process that is no supervisor, or that is not to be looked through, is there, and
/// no child is followed.
pub proof fn law_running_process_is_not_stale(
    table: Map<usize, Seq<char>>,
    pid: usize,
    limit: nat,
)
    requires
        table.contains_key(pid),
        limit == 0 || daemon::daemon(table[pid]) is Err,
    ensures
        !stale(table, pid, limit),
        followed(table, pid, limit) == Seq::<(Seq<char>, usize)>::empty(),
        final_pid(table, pid, limit) == pid,
{
    assert(followed(table, pid, limit) == Seq::<(Seq<char>, usize)>::empty());
}

/// A supervising process is as stale as the child that its name gives.
pub proof fn law_supervisor_stands_for_child(
    table: Map<usize, Seq<char>>,
    pid: usize,
    limit: nat,
    child_name: Seq<char>,
    child_pid: usize,
)
    requires
        limit > 0,
        table.contains_key(pid),
        daemon::daemon(table[pid]) == Ok::<(Seq<char>, usize), daemon::DaemonNameError>(
            (child_name, child_pid),
        ),
    ensures
        stale(table, pid, limit) == stale(table, child_pid, (limit - 1) as nat),
        final_pid(table, pid, limit) == final_pid(table, child_pid, (limit - 1) as nat),
        followed(table, pid, limit) == seq![(child_name, child_pid)] + followed(
            table,
            child_pid,
            (limit - 1) as nat,
        ),
{
    let rest = followed(table, child_pid, (limit - 1) as nat);
    let all = followed(table, pid, limit);
    assert(all == seq![(child_name, child_pid)] + rest);
    if rest.len() > 0 {
        assert(all.last() == rest.last());
    }
}

/// Whether the process before the child `i` of `chain` is running, under a name that gives
/// this child.
pub open spec fn is_link(
    table: Map<usize, Seq<char>>,
    pid: usize,
    chain: Seq<(Seq<char>, usize)>,
    i: int,
) -> bool {
    let at = last_pid(pid, chain.take(i));
    table.contains_key(at) && daemon::daemon(table[at]) == Ok::<
        (Seq<char>, usize),
        daemon::DaemonNameError,
    >(chain[i])
}

/// No more children are followed than the limit allows, each of them is named by the
/// process before it, and every process that was looked through is running.
pub proof fn law_chain_is_sound(table: Map<usize, Seq<char>>, pid: usize, limit: nat)
    ensures
        followed(table, pid, limit).len() <= limit,
        forall|i: int|
            0 <= i < followed(table, pid, limit).len() ==> #[trigger] is_link(
                table,
                pid,
                followed(table, pid, limit),
                i,
            ),
    decreases limit,
{
    if limit > 0 {
        if let Some(d) = child(lookup(table, pid), limit) {
            let all = followed(table, pid, limit);
            let rest = followed(table, d.1, (limit - 1) as nat);
            law_chain_is_sound(table, d.1, (limit - 1) as nat);
            assert forall|i: int| 0 <= i < all.len() implies #[trigger] is_link(
                table,
                pid,
                all,
                i,
            ) by {
                if i > 0 {
                    assert(is_link(table, d.1, rest, i - 1));
                    assert(all.take(i) == seq![d] + rest.take(i - 1));
                    if i > 1 {
                        assert(all.take(i).last() == rest.take(i - 1).last());
                    }
                }
            }
        }
    }
}

/// A chain shorter than its limit ends where there is no process, or one that is no supervisor.
pub proof fn law_chain_goes_on_while_it_can(table: Map<usize, Seq<char>>, pid: usize, limit: nat)
    requires
        followed(table, pid, limit).len() < limit,
    ensures
        ({
            let end = final_pid(table, pid, limit);
            !table.contains_key(end) || daemon::daemon(table[end]) is Err
        }),
    decreases limit,
{
    if let Some(d) = child(lookup(table, pid), limit) {
        let rest = followed(table, d.1, (limit - 1) as nat);
        law_chain_goes_on_while_it_can(table, d.1, (limit - 1) as nat);
        assert(followed(table, pid, limit) == seq![d] + rest);
        if rest.len() > 0 {
            assert(followed(table, pid, limit).last() == rest.last());
        }
    }
}

/// A chain that ends before its limit is reached ends there under any higher limit, too.
pub proof fn law_higher_limit_changes_nothing(
    table: Map<usize, Seq<char>>,
    pid: usize,
    limit: nat,
    higher: nat,
)
    requires
        limit <= higher,
        followed(table, pid, limit).len() < limit,
    ensures
        followed(table, pid, higher) == followed(table, pid, limit),
        stale(table, pid, higher) == stale(table, pid, limit),
    decreases limit,
{
    if let Some(d) = child(lookup(table, pid), limit) {
        law_higher_limit_changes_nothing(
            table,
            d.1,
            (limit - 1) as nat,
            (higher - 1) as nat,
        );
    }
}

/// What is stale under a limit is stale under any higher one, by way of the same children.
pub proof fn law_stale_under_higher_limit(
    table: Map<usize, Seq<char>>,
    pid: usize,
    limit: nat,
    higher: nat,
)
    requires
        limit <= higher,
        stale(table, pid, limit),
    ensures
        stale(table, pid, higher),
        followed(table, pid, higher) == followed(table, pid, limit),
    decreases limit,
{
    if let Some(d) = child(lookup(table, pid), limit) {
        law_supervisor_stands_for_child(table, pid, limit, d.0, d.1);
        law_stale_under_higher_limit(table, d.1, (limit - 1) as nat, (higher - 1) as nat);
    } else {
        assert(followed(table, pid, limit) == Seq::<(Seq<char>, usize)>::empty());
        assert(followed(table, pid, higher) == Seq::<(Seq<char>, usize)>::empty());
    }
}

/// A look-up finds the whole name that the table has under the number, and nothing under a
/// number that the table does not have.
pub proof fn law_look_up_finds_the_name(table: Map<usize, Seq<char>>, pid: usize, name: Seq<char>)
    ensures
        lookup(table.insert(pid, name), pid) == Some(name),
        lookup(table.remove(pid), pid) is None,
        forall|other: usize|
            other != pid ==> #[trigger] lookup(table.insert(pid, name), other) == lookup(
                table,
                other,
            ),
{
}

/// A child is followed when the process is running under a name that gives one, and children
/// are left to follow; and then it is that one.
pub proof fn law_child_to_follow(actual: Seq<char>, limit: nat, d: (Seq<char>, usize))
    ensures
        child(None, limit) is None,
        child(Some(actual), 0) is None,
        limit > 0 ==> (child(Some(actual), limit) == Some(d) <==> daemon::daemon(actual) == Ok::<
            (Seq<char>, usize),
            daemon::DaemonNameError,
        >(d)),
{
}

/// What is found is told apart by there being a process, and by its having the expected name
/// and no other.
pub proof fn law_status_tells_names_apart(actual: Seq<char>, name: Seq<char>)
    ensures
        status(None, name) == PidStatusView::NoProcess,
        status(Some(name), name) == PidStatusView::NameMatches,
        actual != name ==> status(Some(actual), name) == PidStatusView::NameDiffers(actual),
{
}

/// Of what was found, of the children followed and of an error nothing is lost from view.
pub proof fn law_findings_in_view(s: PidStatus, list: Seq<DaemonName>, e: HandleError)
    ensures
        s is NoProcess <==> s@ is NoProcess,
        s is NameMatches <==> s@ is NameMatches,
        s matches PidStatus::NameDiffers(n) ==> s@ == PidStatusView::NameDiffers(n@),
        children(list).len() == list.len(),
        forall|i: int|
            0 <= i < list.len() ==> #[trigger] children(list)[i] == (
                list[i].name@,
                list[i].pid.number,
            ),
        e is NotAFile <==> e@ is NotAFile,
        e matches HandleError::InvalidPid(p) ==> e@ == HandleErrorView::InvalidPid(p.text@),
{
}

/// Contents hold no process number exactly when they are white space throughout.
pub proof fn law_no_pid_in_white_space(content: Seq<char>)
    ensures
        pid_in(content) == Ok::<Option<usize>, Seq<char>>(None) <==> text::all_white(content),
{
    text::lemma_trim_shape(content);
}

/// `text` with `before` and `after` around it.
pub open spec fn around(before: Seq<char>, t: Seq<char>, after: Seq<char>) -> Seq<char> {
    before + t + after
}

proof fn lemma_pid_in_padded(before: Seq<char>, t: Seq<char>, after: Seq<char>)
    requires
        text::all_white(before),
        text::all_white(after),
        t.len() > 0,
        !text::is_white(t[0]),
        !text::is_white(t.last()),
    ensures
        pid_in(around(before, t, after)) == (match decimal::number(t, usize::MAX as nat) {
            Ok(n) => Ok::<Option<usize>, Seq<char>>(Some(n as usize)),
            Err(_) => Err::<Option<usize>, Seq<char>>(t),
        }),
{
    text::lemma_trim_padded(before, t, after);
}

/// Digits in a file are read as the number that they write, with zeros or a plus sign in front
/// or without, whatever white space is around them. A number beyond `usize` is refused.
pub proof fn law_pid_is_read(
    before: Seq<char>,
    plus: bool,
    zeros: nat,
    n: nat,
    after: Seq<char>,
)
    requires
        text::all_white(before),
        text::all_white(after),
    ensures
        pid_in(
            around(before, decimal::signed(plus, decimal::row_of_digits(zeros, n)), after),
        ) == (if n <= usize::MAX {
            Ok::<Option<usize>, Seq<char>>(Some(n as usize))
        } else {
            Err::<Option<usize>, Seq<char>>(
                decimal::signed(plus, decimal::row_of_digits(zeros, n)),
            )
        }),
{
    let d = decimal::row_of_digits(zeros, n);
    let t = decimal::signed(plus, d);
    decimal::lemma_row_of_digits(zeros, n);
    assert(decimal::is_digit(d[0]));
    assert(decimal::is_digit(d[d.len() - 1]));
    assert(t.last() == d.last());
    lemma_pid_in_padded(before, t, after);
    decimal::law_digits_are_read(plus, zeros, n, usize::MAX as nat);
}

/// Whether something in `t` keeps it from being a number: a character that is no digit, but
/// for a plus sign in front, or the want of any digit.
pub open spec fn not_a_number(t: Seq<char>) -> bool {
    ||| t == seq!['+']
    ||| exists|j: int|
        0 <= j < t.len() && (#[trigger] t[j] < '0' || '9' < t[j]) && !(j == 0 && t[j] == '+')
}

/// Contents other than a number are refused, and the error gives them without the white space
/// around them. More lines after a number make it such contents, too.
pub proof fn law_other_contents_are_refused(
    before: Seq<char>,
    t: Seq<char>,
    after: Seq<char>,
)
    requires
        text::all_white(before),
        text::all_white(after),
        t.len() > 0,
        !text::is_white(t[0]),
        !text::is_white(t.last()),
        not_a_number(t),
    ensures
        pid_in(around(before, t, after)) == Err::<Option<usize>, Seq<char>>(t),
{
    lemma_pid_in_padded(before, t, after);
    let max = usize::MAX as nat;
    decimal::law_numbers_are_digits(t, max);
    decimal::law_no_digits_are_refused(max);
    if let Ok(n) = decimal::number(t, max) {
        let (plus, zeros): (bool, nat) = choose|plus: bool, zeros: nat|
            t == #[trigger] decimal::signed(plus, decimal::row_of_digits(zeros, n));
        let d = decimal::row_of_digits(zeros, n);
        decimal::lemma_row_of_digits(zeros, n);
        let j = choose|j: int|
            0 <= j < t.len() && (#[trigger] t[j] < '0' || '9' < t[j]) && !(j == 0 && t[j] == '+');
        if plus {
            assert(j > 0 ==> t[j] == d[j - 1] && decimal::is_digit(d[j - 1]));
        } else {
            assert(decimal::is_digit(d[j]));
        }
        assert(false);
    }
}

/// A process number that was written to a file reads back, whatever white space is around it.
pub proof fn law_written_pid_reads_back(before: Seq<char>, pid: usize, after: Seq<char>)
    requires
        text::all_white(before),
        text::all_white(after),
    ensures
        pid_in(before + decimal::numeral(pid as nat) + after) == Ok::<Option<usize>, Seq<char>>(
            Some(pid),
        ),
{
    law_pid_is_read(before, false, 0, pid as nat, after);
    assert(decimal::row_of_digits(0, pid as nat) == decimal::numeral(pid as nat));
}

/// A file is as stale as the process whose number it holds; it is stale when it holds none, and
/// neither stale nor not when it holds something else.
pub proof fn law_file_is_as_stale_as_its_process(
    table: Map<usize, Seq<char>>,
    content: Seq<char>,
    limit: nat,
)
    ensures
        pid_in(content) matches Ok(Some(pid)) ==> content_stale(table, content, limit) == Ok::<
            bool,
            Seq<char>,
        >(stale(table, pid, limit)),
        text::all_white(content) ==> content_stale(table, content, limit) == Ok::<bool, Seq<char>>(
            true,
        ),
        pid_in(content) matches Err(t) ==> content_stale(table, content, limit) == Err::<
            bool,
            Seq<char>,
        >(t),
{
    law_no_pid_in_white_space(content);
}

/// The file of a process that is gone is stale under every limit; it is removed if it is a
/// regular file, and an error if it is not.
pub proof fn law_file_of_missing_process_is_removed(
    table: Map<usize, Seq<char>>,
    content: Seq<char>,
    pid: usize,
    limit: nat,
)
    requires
        pid_in(content) == Ok::<Option<usize>, Seq<char>>(Some(pid)),
        !table.contains_key(pid),
    ensures
        content_stale(table, content, limit) == Ok::<bool, Seq<char>>(true),
        handled(table, content, limit, true) == Ok::<Action, HandleErrorView>(Action::Remove),
        handled(table, content, limit, false) == Err::<Action, HandleErrorView>(
            HandleErrorView::NotAFile,
        ),
{
    law_missing_process_is_stale(table, pid, limit);
}

/// The file of a running process stays, unless that process is a supervisor to look through.
pub proof fn law_running_process_keeps_its_file(
    table: Map<usize, Seq<char>>,
    content: Seq<char>,
    pid: usize,
    limit: nat,
    is_file: bool,
)
    requires
        pid_in(content) == Ok::<Option<usize>, Seq<char>>(Some(pid)),
        table.contains_key(pid),
        limit == 0 || daemon::daemon(table[pid]) is Err,
    ensures
        content_stale(table, content, limit) == Ok::<bool, Seq<char>>(false),
        handled(table, content, limit, is_file) == Ok::<Action, HandleErrorView>(Action::Keep),
{
    law_running_process_is_not_stale(table, pid, limit);
}

/// The file of a supervisor is treated like a file with the number of the child it supervises
/// would be, with one child less to follow.
pub proof fn law_file_of_supervisor_is_as_that_of_child(
    table: Map<usize, Seq<char>>,
    content: Seq<char>,
    pid: usize,
    child_content: Seq<char>,
    child_name: Seq<char>,
    child_pid: usize,
    limit: nat,
    is_file: bool,
)
    requires
        limit > 0,
        pid_in(content) == Ok::<Option<usize>, Seq<char>>(Some(pid)),
        pid_in(child_content) == Ok::<Option<usize>, Seq<char>>(Some(child_pid)),
        table.contains_key(pid),
        daemon::daemon(table[pid]) == Ok::<(Seq<char>, usize), daemon::DaemonNameError>(
            (child_name, child_pid),
        ),
    ensures
        content_stale(table, content, limit) == content_stale(
            table,
            child_content,
            (limit - 1) as nat,
        ),
        handled(table, content, limit, is_file) == handled(
            table,
            child_content,
            (limit - 1) as nat,
            is_file,
        ),
{
    law_supervisor_stands_for_child(table, pid, limit, child_name, child_pid);
}

/// A file that holds something other than a number is left alone, whatever runs: the error
/// gives what it holds, without the white space around it.
pub proof fn law_file_without_number_is_left_alone(
    table: Map<usize, Seq<char>>,
    before: Seq<char>,
    t: Seq<char>,
    after: Seq<char>,
    limit: nat,
    is_file: bool,
)
    requires
        text::all_white(before),
        text::all_white(after),
        t.len() > 0,
        !text::is_white(t[0]),
        !text::is_white(t.last()),
        not_a_number(t),
    ensures
        content_stale(table, around(before, t, after), limit) == Err::<bool, Seq<char>>(t),
        handled(table, around(before, t, after), limit, is_file) == Err::<Action, HandleErrorView>(
            HandleErrorView::InvalidPid(t),
        ),
{
    law_other_contents_are_refused(before, t, after);
}

/// What becomes of a file with a process number in it is decided by that process being gone or
/// not, and then by the file being a regular one. Contents that are refused are an error.
pub proof fn law_what_becomes_of_a_file(
    table: Map<usize, Seq<char>>,
    content: Seq<char>,
    limit: nat,
    is_file: bool,
)
    ensures
        pid_in(content) matches Ok(Some(pid)) ==> handled(table, content, limit, is_file) == (
        if !stale(table, pid, limit) {
            Ok::<Action, HandleErrorView>(Action::Keep)
        } else if is_file {
            Ok::<Action, HandleErrorView>(Action::Remove)
        } else {
            Err::<Action, HandleErrorView>(HandleErrorView::NotAFile)
        }),
        pid_in(content) matches Err(t) ==> handled(table, content, limit, is_file) == Err::<
            Action,
            HandleErrorView,
        >(HandleErrorView::InvalidPid(t)),
{
}

/// A file is removed only when it is a regular file and its contents are stale.
pub proof fn law_only_stale_files_are_removed(
    table: Map<usize, Seq<char>>,
    content: Seq<char>,
    limit: nat,
    is_file: bool,
)
    ensures
        handled(table, content, limit, is_file) == Ok::<Action, HandleErrorView>(Action::Remove)
            <==> is_file && content_stale(table, content, limit) == Ok::<bool, Seq<char>>(true),
{
}

/// A file that is removed is a regular file, and holds nothing but white space or the number of
/// a process that leads to none that is running.
pub proof fn law_removed_file_has_no_process(
    table: Map<usize, Seq<char>>,
    content: Seq<char>,
    limit: nat,
    is_file: bool,
)
    requires
        handled(table, content, limit, is_file) == Ok::<Action, HandleErrorView>(Action::Remove),
    ensures
        is_file,
        text::all_white(content) || (pid_in(content) matches Ok(Some(pid)) && {
            let end = last_pid(pid, followed(table, pid, limit));
            !table.contains_key(end)
        }),
{
    law_no_pid_in_white_space(content);
}

/// A file with nothing but white space in it is stale, whatever runs. It is removed if it is a
/// regular file, and an error if it is not.
pub proof fn law_empty_file_is_removed(
    table: Map<usize, Seq<char>>,
    content: Seq<char>,
    limit: nat,
)
    requires
        text::all_white(content),
    ensures
        content_stale(table, content, limit) == Ok::<bool, Seq<char>>(true),
        handled(table, content, limit, true) == Ok::<Action, HandleErrorView>(Action::Remove),
        handled(table, content, limit, false) == Err::<Action, HandleErrorView>(
            HandleErrorView::NotAFile,
        ),
{
    text::lemma_trim_white(content);
}

} // verus!

//! What the runtime's native bindings make of their arguments, and what
//! they make of the results of the work they hand out (processes, files,
//! node links, publications).
use vstd::prelude::*;
use vstd::string::*;

use crate::pid::{PidView, ProcessId};
use crate::text::{spec_trim, trim};
use crate::service::{keyword_arg, list2, list3, spec_keyword_arg};
use crate::value::{
    keyword, lemma_vals_view, lemma_vals_view_push, val_view, vals_view, Opaque, Val, ValView,
};

verus! {

/// Arguments that a binding does not take.
#[derive(Debug, Clone, Copy, PartialEq, Eq, Structural)]
pub enum ArgError {
    /// `(shell_expand STRING)`
    ShellExpand,
    /// `(exec PROG ARGS...)` without a program.
    ExecMissingProgram,
    /// `(exec PROG ARGS...)` with a program that is not a string.
    ExecProgramNotString,
    /// `(exec PROG ARGS...)` with an argument that is not a string.
    ExecArgumentNotString,
    /// `(pid N)`
    Pid,
    /// `(kill PID)`
    Kill,
    /// `(sleep SECS)`
    Sleep,
    /// `(ls_msgs)`
    LsMsgs,
    /// `(configure :nodes LIST)` without `:nodes`.
    ConfigureMissingNodes,
    /// `:nodes` not followed by a list.
    ConfigureNodesNotList,
    /// A `:nodes` entry that is not a string.
    ConfigureNodeNotString,
    /// `(subscribe TOPIC)`
    Subscribe,
    /// `(publish TOPIC DATA)`
    Publish,
    /// A topic that is not a keyword.
    TopicNotKeyword,
    /// `(fread PATH)`, `(fdump PATH FORM)`, `(run PATH)`
    Path,
    /// `(send_resp REQ_ID RESP)`
    SendResp,
    /// `(dbg_history)`
    DbgHistory,
}

impl ArgError {
    /// The error's message.
    pub fn message(&self) -> (r: &'static str)
        ensures
            match self {
                ArgError::ShellExpand => r@ == "shell_expand expects one argument"@,
                ArgError::ExecMissingProgram => r@ == " Unexpected arguments to exec = (exec PROG [ARGS...])"@,
                ArgError::ExecProgramNotString => r@ == "Expected string as first argument"@,
                ArgError::ExecArgumentNotString => r@ == "exec can handle string arguments only"@,
                ArgError::Pid => r@ == "pid expects single integer argument"@,
                ArgError::Kill => r@ == "kill should have one integer argument"@,
                ArgError::Sleep => r@ == "sleep expects single integer argument"@,
                ArgError::LsMsgs => r@ == "Unexpected ls_msgs call - No arguments expected"@,
                ArgError::ConfigureMissingNodes => r@ == "configure expects :nodes followed by a list"@,
                ArgError::ConfigureNodesNotList => r@ == ":nodes must be a list of strings"@,
                ArgError::ConfigureNodeNotString => r@ == ":nodes entries must be strings"@,
                ArgError::Subscribe => r@ == "subscribe expects one argument"@,
                ArgError::Publish => r@ == "publish expects two arguments"@,
                ArgError::TopicNotKeyword => r@ == "expected a keyword"@,
                ArgError::Path => r@ == "expects first argument to be string"@,
                ArgError::SendResp => r@ == "send_conn expects two arguments"@,
                ArgError::DbgHistory => r@ == "dbg_history expects no arguments"@,
            },
    {
        match self {
            ArgError::ShellExpand => "shell_expand expects one argument",
            ArgError::ExecMissingProgram => " Unexpected arguments to exec = (exec PROG [ARGS...])",
            ArgError::ExecProgramNotString => "Expected string as first argument",
            ArgError::ExecArgumentNotString => "exec can handle string arguments only",
            ArgError::Pid => "pid expects single integer argument",
            ArgError::Kill => "kill should have one integer argument",
            ArgError::Sleep => "sleep expects single integer argument",
            ArgError::LsMsgs => "Unexpected ls_msgs call - No arguments expected",
            ArgError::ConfigureMissingNodes => "configure expects :nodes followed by a list",
            ArgError::ConfigureNodesNotList => ":nodes must be a list of strings",
            ArgError::ConfigureNodeNotString => ":nodes entries must be strings",
            ArgError::Subscribe => "subscribe expects one argument",
            ArgError::Publish => "publish expects two arguments",
            ArgError::TopicNotKeyword => "expected a keyword",
            ArgError::Path => "expects first argument to be string",
            ArgError::SendResp => "send_conn expects two arguments",
            ArgError::DbgHistory => "dbg_history expects no arguments",
        }
    }
}

/// Whether a path starts with a tilde that stands for the home directory:
/// `~` alone, or `~` followed by `/` (the separator of the Unix targets this
/// library is built for).
pub open spec fn home_relative(s: Seq<char>) -> bool {
    s.len() > 0 && s[0] == '~' && (s.len() == 1 || s[1] == '/')
}

/// `s` with a leading tilde that stands for the home directory replaced by
/// `home`; unchanged where there is no such tilde or no home directory.
pub open spec fn spec_expand_tilde(s: Seq<char>, home: Option<Seq<char>>) -> Seq<char> {
    match home {
        Some(h) => if home_relative(s) {
            h + s.drop_first()
        } else {
            s
        },
        None => s,
    }
}

/// `dirs::home_dir`, as text: the current user's home directory, if the
/// environment names one and it is valid Unicode. It depends on the
/// environment, so nothing is stated of it.
#[verifier::external_body]
fn home_dir() -> (r: Option<String>) {
    dirs::home_dir().and_then(|p| p.into_os_string().into_string().ok())
}

/// `shellexpand::tilde_with_context` with `home` as the home directory:
/// a leading `~` that stands alone or before `/` becomes `home`, where
/// there is one; anything else is returned as it is.
#[verifier::external_body]
fn tilde_with_home(s: &str, home: Option<String>) -> (r: String)
    ensures
        r@ == spec_expand_tilde(s@, opt_text(home)),
{
    shellexpand::tilde_with_context(s, move || home).to_string()
}

/// The view of an optional text.
pub open spec fn opt_text(t: Option<String>) -> Option<Seq<char>> {
    match t {
        Some(h) => Some(h@),
        None => None,
    }
}

/// `(shell_expand STRING)` where the home directory is `home`: the string
/// with a leading tilde expanded.
pub fn shell_expand_with_home(args: &Vec<Val>, home: Option<String>) -> (r: Result<Val, ArgError>)
    ensures
        args.len() == 1 && vals_view(args@)[0] is String ==> (r matches Ok(out) && out@
            == ValView::String(spec_expand_tilde(text_of(vals_view(args@)[0]), opt_text(home)))),
        !(args.len() == 1 && vals_view(args@)[0] is String) ==> r == Err::<Val, ArgError>(
            ArgError::ShellExpand,
        ),
{
    proof {
        lemma_vals_view(args@);
    }
    if args.len() == 1 {
        if let Val::String(s) = &args[0] {
            let t = tilde_with_home(s.as_str(), home);
            return Ok(Val::String(t));
        }
    }
    Err(ArgError::ShellExpand)
}

/// `(shell_expand STRING)`: the string with a leading tilde expanded to the
/// current user's home directory. Which directory that is depends on the
/// environment: the result is that of [shell_expand_with_home] for some
/// home directory or none.
pub fn shell_expand(args: &Vec<Val>) -> (r: Result<Val, ArgError>)
    ensures
        args.len() == 1 && vals_view(args@)[0] is String ==> exists|home: Option<Seq<char>>|
            r matches Ok(out) && out@ == ValView::String(
                #[trigger] spec_expand_tilde(text_of(vals_view(args@)[0]), home),
            ),
        !(args.len() == 1 && vals_view(args@)[0] is String) ==> r == Err::<Val, ArgError>(
            ArgError::ShellExpand,
        ),
{
    let home = home_dir();
    let ghost h = opt_text(home);
    let r = shell_expand_with_home(args, home);
    proof {
        if args.len() == 1 && vals_view(args@)[0] is String {
            assert(r matches Ok(out) && out@ == ValView::String(
                spec_expand_tilde(text_of(vals_view(args@)[0]), h),
            ));
        }
    }
    r
}

/// The text of a string value.
pub open spec fn text_of(v: ValView) -> Seq<char> {
    match v {
        ValView::String(t) => t,
        _ => Seq::empty(),
    }
}

/// The path argument of `fread`, `fdump` and `run` where the home directory
/// is `home`, its tilde expanded.
pub fn path_arg_with_home(args: &Vec<Val>, home: Option<String>) -> (r: Result<String, ArgError>)
    ensures
        args.len() >= 1 && vals_view(args@)[0] is String ==> (r matches Ok(p) && p@
            == spec_expand_tilde(text_of(vals_view(args@)[0]), opt_text(home))),
        !(args.len() >= 1 && vals_view(args@)[0] is String) ==> r == Err::<String, ArgError>(
            ArgError::Path,
        ),
{
    proof {
        lemma_vals_view(args@);
    }
    if args.len() >= 1 {
        if let Val::String(s) = &args[0] {
            return Ok(tilde_with_home(s.as_str(), home));
        }
    }
    Err(ArgError::Path)
}

/// The path argument of `fread`, `fdump` and `run`, its tilde expanded to
/// the current user's home directory: that of [path_arg_with_home] for some
/// home directory or none.
pub fn path_arg(args: &Vec<Val>) -> (r: Result<String, ArgError>)
    ensures
        args.len() >= 1 && vals_view(args@)[0] is String ==> exists|home: Option<Seq<char>>|
            r matches Ok(p) && p@ == #[trigger] spec_expand_tilde(text_of(vals_view(args@)[0]), home),
        !(args.len() >= 1 && vals_view(args@)[0] is String) ==> r == Err::<String, ArgError>(
            ArgError::Path,
        ),
{
    let home = home_dir();
    let ghost h = opt_text(home);
    let r = path_arg_with_home(args, home);
    proof {
        if args.len() >= 1 && vals_view(args@)[0] is String {
            assert(r matches Ok(p) && p@ == spec_expand_tilde(text_of(vals_view(args@)[0]), h));
        }
    }
    r
}

/// Whether every value is a string.
pub open spec fn all_strings(v: Seq<ValView>) -> bool {
    forall|i: int| 0 <= i < v.len() ==> (#[trigger] v[i]) is String
}

/// `(exec PROG ARGS...)`: the program and its arguments, all strings.
pub fn exec_args(args: &Vec<Val>) -> (r: Result<(String, Vec<String>), ArgError>)
    ensures
        args.len() == 0 ==> r == Err::<(String, Vec<String>), ArgError>(
            ArgError::ExecMissingProgram,
        ),
        args.len() > 0 && !(vals_view(args@)[0] is String) ==> r == Err::<
            (String, Vec<String>),
            ArgError,
        >(ArgError::ExecProgramNotString),
        args.len() > 0 && vals_view(args@)[0] is String && !all_strings(vals_view(args@).drop_first())
            ==> r == Err::<(String, Vec<String>), ArgError>(ArgError::ExecArgumentNotString),
        args.len() > 0 && all_strings(vals_view(args@)) ==> (r matches Ok((prog, rest)) && prog@
            == text_of(vals_view(args@)[0]) && rest@.map_values(|s: String| s@) == vals_view(
            args@,
        ).drop_first().map_values(|v: ValView| text_of(v))),
{
    proof {
        lemma_vals_view(args@);
    }
    let ghost v = vals_view(args@);
    if args.len() == 0 {
        return Err(ArgError::ExecMissingProgram);
    }
    let prog = match &args[0] {
        Val::String(s) => s.clone(),
        _ => {
            return Err(ArgError::ExecProgramNotString);
        },
    };
    let mut rest: Vec<String> = Vec::new();
    let mut i: usize = 1;
    while i < args.len()
        invariant
            1 <= i <= args.len(),
            v == vals_view(args@),
            v.len() == args.len(),
            forall|j: int| 0 <= j < args.len() ==> #[trigger] v[j] == val_view(args@[j]),
            v[0] is String,
            forall|j: int| 1 <= j < i ==> (#[trigger] v[j]) is String,
            rest@.map_values(|s: String| s@) =~= v.subrange(1, i as int).map_values(
                |x: ValView| text_of(x),
            ),
        decreases args.len() - i,
    {
        match &args[i] {
            Val::String(s) => {
                let ghost before = rest@;
                let c = s.clone();
                proof {
                    assert(v[i as int] == ValView::String(s@));
                    assert(v.subrange(1, i + 1) =~= v.subrange(1, i as int).push(v[i as int]));
                }
                rest.push(c);
                proof {
                    assert(rest@.map_values(|s: String| s@) =~= before.map_values(|s: String| s@).push(
                        c@,
                    ));
                    assert(v.subrange(1, i + 1).map_values(|x: ValView| text_of(x)) =~= v.subrange(
                        1,
                        i as int,
                    ).map_values(|x: ValView| text_of(x)).push(text_of(v[i as int])));
                }
            },
            _ => {
                proof {
                    assert(!(v.drop_first()[i - 1] is String));
                }
                return Err(ArgError::ExecArgumentNotString);
            },
        }
        i = i + 1;
    }
    proof {
        assert(v.subrange(1, args.len() as int) =~= v.drop_first());
        assert forall|j: int| 0 <= j < v.len() implies (#[trigger] v[j]) is String by {
            if j > 0 {
                assert(v[j] is String);
            }
        }
        assert forall|j: int| 0 <= j < v.drop_first().len() implies (#[trigger] v.drop_first()[j]) is String by {
            assert(v.drop_first()[j] == v[j + 1]);
        }
    }
    Ok((prog, rest))
}

/// The value of a successful `exec`: `(:ok OUTPUT)`, the program's output
/// without leading and trailing whitespace.
pub fn exec_result(output: &str) -> (r: Val)
    ensures
        r@ == ValView::List(seq![ValView::Keyword("ok"@), ValView::String(spec_trim(output@))]),
{
    list2(keyword("ok"), Val::String(String::from_str(trim(output))))
}

/// `(pid N)`: the process numbered `N` on this node.
pub fn pid_arg(node: &str, args: &Vec<Val>) -> (r: Result<Val, ArgError>)
    ensures
        args.len() == 1 && vals_view(args@)[0] is Int ==> (r matches Ok(v) && v@ == ValView::Process(
            PidView { node: node@, id: (vals_view(args@)[0]->Int_0) as usize },
        )),
        !(args.len() == 1 && vals_view(args@)[0] is Int) ==> r == Err::<Val, ArgError>(ArgError::Pid),
{
    proof {
        lemma_vals_view(args@);
    }
    if args.len() == 1 {
        if let Val::Int(n) = &args[0] {
            return Ok(Val::Process(ProcessId::new(node, *n as usize)));
        }
    }
    Err(ArgError::Pid)
}

/// `(kill PID)`: the process to kill, given as a process or by its number
/// on this node.
pub fn kill_target(node: &str, args: &Vec<Val>) -> (r: Result<ProcessId, ArgError>)
    ensures
        args.len() == 1 && vals_view(args@)[0] is Process ==> (r matches Ok(p) && ValView::Process(p@)
            == vals_view(args@)[0]),
        args.len() == 1 && vals_view(args@)[0] is Int ==> (r matches Ok(p) && p@ == (PidView {
            node: node@,
            id: (vals_view(args@)[0]->Int_0) as usize,
        })),
        !(args.len() == 1 && (vals_view(args@)[0] is Process || vals_view(args@)[0] is Int)) ==> r
            == Err::<ProcessId, ArgError>(ArgError::Kill),
{
    proof {
        lemma_vals_view(args@);
    }
    if args.len() == 1 {
        match &args[0] {
            Val::Process(p) => {
                return Ok(p.duplicate());
            },
            Val::Int(n) => {
                return Ok(ProcessId::new(node, *n as usize));
            },
            _ => {},
        }
    }
    Err(ArgError::Kill)
}

/// `(sleep SECS)`: how many seconds to sleep.
pub fn sleep_secs(args: &Vec<Val>) -> (r: Result<u64, ArgError>)
    ensures
        args.len() == 1 && vals_view(args@)[0] is Int ==> r == Ok::<u64, ArgError>(
            (vals_view(args@)[0]->Int_0) as u64,
        ),
        !(args.len() == 1 && vals_view(args@)[0] is Int) ==> r == Err::<u64, ArgError>(
            ArgError::Sleep,
        ),
{
    proof {
        lemma_vals_view(args@);
    }
    if args.len() == 1 {
        if let Val::Int(n) = &args[0] {
            return Ok(*n as u64);
        }
    }
    Err(ArgError::Sleep)
}

/// The value of `(ps)`: the running processes.
pub fn ps_result(pids: &Vec<ProcessId>) -> (r: Val)
    ensures
        r@ == ValView::List(pids@.map_values(|p: ProcessId| ValView::Process(p@))),
{
    let mut items: Vec<Val> = Vec::new();
    let mut i: usize = 0;
    while i < pids.len()
        invariant
            i <= pids.len(),
            vals_view(items@) =~= pids@.take(i as int).map_values(|p: ProcessId| ValView::Process(p@)),
        decreases pids.len() - i,
    {
        let v = Val::Process(pids[i].duplicate());
        proof {
            lemma_vals_view_push(items@, v);
            assert(pids@.take(i + 1) =~= pids@.take(i as int).push(pids@[i as int]));
        }
        items.push(v);
        i = i + 1;
    }
    proof {
        assert(pids@.take(pids.len() as int) =~= pids@);
    }
    Val::List(items)
}

/// `(ls_msgs)` takes no arguments.
pub fn ls_msgs_args(args: &Vec<Val>) -> (r: Result<(), ArgError>)
    ensures
        r is Ok <==> args.len() == 0,
        r is Err ==> r == Err::<(), ArgError>(ArgError::LsMsgs),
{
    if args.len() == 0 {
        Ok(())
    } else {
        Err(ArgError::LsMsgs)
    }
}

/// `(dbg_history)` takes no arguments.
pub fn dbg_history_args(args: &Vec<Val>) -> (r: Result<(), ArgError>)
    ensures
        r is Ok <==> args.len() == 0,
        r is Err ==> r == Err::<(), ArgError>(ArgError::DbgHistory),
{
    if args.len() == 0 {
        Ok(())
    } else {
        Err(ArgError::DbgHistory)
    }
}

/// How `(recv ...)` matches: any message, one pattern, or its arguments
/// taken together as one pattern.
#[derive(Debug, Clone, Copy, PartialEq, Eq, Structural)]
pub enum RecvPattern {
    Any,
    Single,
    Many,
}

/// How `(recv ...)` with `n` arguments matches.
pub fn recv_pattern(n: usize) -> (r: RecvPattern)
    ensures
        n == 0 ==> r == RecvPattern::Any,
        n == 1 ==> r == RecvPattern::Single,
        n > 1 ==> r == RecvPattern::Many,
{
    if n == 0 {
        RecvPattern::Any
    } else if n == 1 {
        RecvPattern::Single
    } else {
        RecvPattern::Many
    }
}

/// The node endpoints of `(configure :nodes '(ENDPOINT ...))`.
pub fn configure_nodes(args: &Vec<Val>) -> (r: Result<Vec<String>, ArgError>)
    ensures
        spec_keyword_arg(vals_view(args@), "nodes"@) is None ==> r == Err::<Vec<String>, ArgError>(
            ArgError::ConfigureMissingNodes,
        ),
        spec_keyword_arg(vals_view(args@), "nodes"@) matches Some(v) && !(v is List) ==> r == Err::<
            Vec<String>,
            ArgError,
        >(ArgError::ConfigureNodesNotList),
        spec_keyword_arg(vals_view(args@), "nodes"@) matches Some(ValView::List(items)) ==> (
        if all_strings(items) {
            r matches Ok(nodes) && nodes@.map_values(|s: String| s@) == items.map_values(
                |v: ValView| text_of(v),
            )
        } else {
            r == Err::<Vec<String>, ArgError>(ArgError::ConfigureNodeNotString)
        }),
{
    proof {
        assert(vals_view(args@).skip(0) =~= vals_view(args@));
    }
    let nodes = match keyword_arg(args, 0, "nodes") {
        None => {
            return Err(ArgError::ConfigureMissingNodes);
        },
        Some(v) => v,
    };
    let items = match nodes {
        Val::List(items) => items,
        _ => {
            return Err(ArgError::ConfigureNodesNotList);
        },
    };
    let ghost iv = vals_view(items@);
    proof {
        lemma_vals_view(items@);
        assert(nodes@ == ValView::List(iv));
    }
    let mut out: Vec<String> = Vec::new();
    let mut i: usize = 0;
    while i < items.len()
        invariant
            i <= items.len(),
            iv == vals_view(items@),
            iv.len() == items.len(),
            forall|j: int| 0 <= j < items.len() ==> #[trigger] iv[j] == val_view(items@[j]),
            spec_keyword_arg(vals_view(args@), "nodes"@) == Some(ValView::List(iv)),
            forall|j: int| 0 <= j < i ==> (#[trigger] iv[j]) is String,
            out@.map_values(|s: String| s@) =~= iv.take(i as int).map_values(|v: ValView| text_of(v)),
        decreases items.len() - i,
    {
        match &items[i] {
            Val::String(s) => {
                let ghost before = out@;
                let c = s.clone();
                proof {
                    assert(iv[i as int] == ValView::String(s@));
                    assert(iv.take(i + 1) =~= iv.take(i as int).push(iv[i as int]));
                }
                out.push(c);
                proof {
                    assert(out@.map_values(|s: String| s@) =~= before.map_values(|s: String| s@).push(
                        c@,
                    ));
                    assert(iv.take(i + 1).map_values(|x: ValView| text_of(x)) =~= iv.take(
                        i as int,
                    ).map_values(|x: ValView| text_of(x)).push(text_of(iv[i as int])));
                }
            },
            _ => {
                proof {
                    assert(!(iv[i as int] is String));
                }
                return Err(ArgError::ConfigureNodeNotString);
            },
        }
        i = i + 1;
    }
    proof {
        assert(iv.take(items.len() as int) =~= iv);
    }
    Ok(out)
}

/// A topic argument: a keyword, by its name.
pub fn topic_arg(v: &Val) -> (r: Result<String, ArgError>)
    ensures
        v@ matches ValView::Keyword(name) ==> (r matches Ok(t) && t@ == name),
        !(v@ is Keyword) ==> r == Err::<String, ArgError>(ArgError::TopicNotKeyword),
{
    match v {
        Val::Keyword(name) => Ok(name.clone()),
        _ => Err(ArgError::TopicNotKeyword),
    }
}

/// `(subscribe TOPIC)`: the topic.
pub fn subscribe_topic(args: &Vec<Val>) -> (r: Result<String, ArgError>)
    ensures
        args.len() != 1 ==> r == Err::<String, ArgError>(ArgError::Subscribe),
        args.len() == 1 && !(vals_view(args@)[0] is Keyword) ==> r == Err::<String, ArgError>(
            ArgError::TopicNotKeyword,
        ),
        args.len() == 1 ==> (vals_view(args@)[0] matches ValView::Keyword(name) ==> (r matches Ok(t)
            && t@ == name)),
{
    proof {
        lemma_vals_view(args@);
    }
    if args.len() != 1 {
        return Err(ArgError::Subscribe);
    }
    topic_arg(&args[0])
}

/// `(publish TOPIC DATA)`: the topic and the data.
pub fn publish_args(args: &Vec<Val>) -> (r: Result<(String, Val), ArgError>)
    ensures
        args.len() != 2 ==> r == Err::<(String, Val), ArgError>(ArgError::Publish),
        args.len() == 2 && !(vals_view(args@)[0] is Keyword) ==> r == Err::<(String, Val), ArgError>(
            ArgError::TopicNotKeyword,
        ),
        args.len() == 2 ==> (vals_view(args@)[0] matches ValView::Keyword(name) ==> (r matches Ok(
            (t, data),
        ) && t@ == name && data@ == vals_view(args@)[1])),
{
    proof {
        lemma_vals_view(args@);
    }
    if args.len() != 2 {
        return Err(ArgError::Publish);
    }
    let t = topic_arg(&args[0])?;
    Ok((t, args[1].duplicate()))
}

/// The message that tells a subscribed process of a publication:
/// `(:topic_updated TOPIC DATA)`.
pub fn topic_update_message(topic: &str, data: Val) -> (r: Val)
    ensures
        r@ == ValView::List(
            seq![ValView::Keyword("topic_updated"@), ValView::Keyword(topic@), data@],
        ),
{
    list3(keyword("topic_updated"), keyword(topic), data)
}

/// How a script's process ended.
#[derive(Debug, Clone, Copy, PartialEq, Eq, Structural)]
pub enum ScriptEnd {
    Done,
    Cancelled,
    Failed,
}

/// Whether `(run PATH)` succeeds: only where the script's process is done.
pub fn script_succeeded(end: ScriptEnd) -> (r: bool)
    ensures
        r == (end == ScriptEnd::Done),
{
    match end {
        ScriptEnd::Done => true,
        _ => false,
    }
}

/// The value of `(recv_req)`: the request's number and its contents.
pub fn recv_req_result(id: u32, contents: Val) -> (r: Val)
    ensures
        r@ == ValView::List(seq![ValView::Opaque(Opaque::RequestId(id)), contents@]),
{
    list2(Val::Opaque(Opaque::RequestId(id)), contents)
}

/// `(send_resp REQ_ID RESP)`: the number of the request answered, and the
/// response.
pub fn send_resp_args(args: &Vec<Val>) -> (r: Result<(u32, Val), ArgError>)
    ensures
        args.len() == 2 ==> (vals_view(args@)[0] matches ValView::Opaque(Opaque::RequestId(id)) ==> (
        r matches Ok((n, resp)) && n == id && resp@ == vals_view(args@)[1])),
        args.len() != 2 ==> r == Err::<(u32, Val), ArgError>(ArgError::SendResp),
        args.len() == 2 && !(vals_view(args@)[0] matches ValView::Opaque(Opaque::RequestId(_))) ==> r
            == Err::<(u32, Val), ArgError>(ArgError::SendResp),
{
    proof {
        lemma_vals_view(args@);
    }
    if args.len() == 2 {
        if let Val::Opaque(Opaque::RequestId(id)) = &args[0] {
            return Ok((*id, args[1].duplicate()));
        }
    }
    Err(ArgError::SendResp)
}

} // verus!

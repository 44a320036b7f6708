use libvrs::bindings::{path_arg_with_home, shell_expand_with_home};
use libvrs::bindings::{
    configure_nodes, dbg_history_args, exec_args, exec_result, kill_target, ls_msgs_args, path_arg, pid_arg,
    ps_result, publish_args, recv_pattern, recv_req_result, script_succeeded, send_resp_args,
    shell_expand, sleep_secs,
    subscribe_topic, topic_update_message, ArgError, RecvPattern, ScriptEnd,
};
use libvrs::pid::ProcessId;
use libvrs::value::{Opaque, Val};

fn s(t: &str) -> Val {
    Val::String(t.to_string())
}

fn kw(t: &str) -> Val {
    Val::Keyword(t.to_string())
}

#[test]
fn shell_expand_leaves_plain_paths() {
    assert_eq!(shell_expand(&vec![s("/tmp/x")]), Ok(s("/tmp/x")));
    assert_eq!(shell_expand(&vec![s("~other/x")]), Ok(s("~other/x")));
    assert_eq!(shell_expand(&vec![]), Err(ArgError::ShellExpand));
    assert_eq!(shell_expand(&vec![Val::Int(1)]), Err(ArgError::ShellExpand));
    match shell_expand(&vec![s("~/notes")]) {
        Ok(Val::String(p)) => {
            assert!(p.ends_with("/notes"));
            if let Some(home) = dirs::home_dir() {
                assert_eq!(p, format!("{}/notes", home.display()));
            }
        }
        other => panic!("unexpected {other:?}"),
    }
}

#[test]
fn path_arguments() {
    assert_eq!(path_arg(&vec![s("/a/b"), Val::Nil]), Ok("/a/b".to_string()));
    assert_eq!(path_arg(&vec![Val::Int(3)]), Err(ArgError::Path));
    assert_eq!(path_arg(&vec![]), Err(ArgError::Path));
}

#[test]
fn exec_takes_string_arguments_only() {
    assert_eq!(
        exec_args(&vec![s("echo"), s("a"), s("b")]),
        Ok(("echo".to_string(), vec!["a".to_string(), "b".to_string()]))
    );
    assert_eq!(exec_args(&vec![s("ls")]), Ok(("ls".to_string(), vec![])));
    assert_eq!(exec_args(&vec![]), Err(ArgError::ExecMissingProgram));
    assert_eq!(exec_args(&vec![Val::Int(1)]), Err(ArgError::ExecProgramNotString));
    assert_eq!(
        exec_args(&vec![s("echo"), Val::Int(1)]),
        Err(ArgError::ExecArgumentNotString)
    );
    assert_eq!(
        exec_result("  done\n"),
        Val::List(vec![kw("ok"), s("done")])
    );
}

#[test]
fn process_arguments() {
    assert_eq!(
        pid_arg("alpha", &vec![Val::Int(7)]),
        Ok(Val::Process(ProcessId::new("alpha", 7)))
    );
    assert_eq!(pid_arg("alpha", &vec![s("7")]), Err(ArgError::Pid));
    assert_eq!(
        kill_target("alpha", &vec![Val::Int(3)]).map(|p| p.same(&ProcessId::new("alpha", 3))),
        Ok(true)
    );
    assert_eq!(
        kill_target("alpha", &vec![Val::Process(ProcessId::new("beta", 9))])
            .map(|p| p.same(&ProcessId::new("beta", 9))),
        Ok(true)
    );
    assert_eq!(kill_target("alpha", &vec![]).map(|_| ()), Err(ArgError::Kill));
    assert_eq!(sleep_secs(&vec![Val::Int(0)]), Ok(0));
    assert_eq!(sleep_secs(&vec![Val::Int(2), Val::Int(3)]), Err(ArgError::Sleep));
    assert_eq!(
        ps_result(&vec![ProcessId::new("a", 1), ProcessId::new("a", 2)]),
        Val::List(vec![
            Val::Process(ProcessId::new("a", 1)),
            Val::Process(ProcessId::new("a", 2))
        ])
    );
}

#[test]
fn mailbox_arguments() {
    assert_eq!(ls_msgs_args(&vec![]), Ok(()));
    assert_eq!(ls_msgs_args(&vec![Val::Nil]), Err(ArgError::LsMsgs));
    assert_eq!(dbg_history_args(&vec![]), Ok(()));
    assert_eq!(dbg_history_args(&vec![Val::Int(1)]), Err(ArgError::DbgHistory));
    assert_eq!(recv_pattern(0), RecvPattern::Any);
    assert_eq!(recv_pattern(1), RecvPattern::Single);
    assert_eq!(recv_pattern(3), RecvPattern::Many);
}

#[test]
fn configure_takes_a_list_of_endpoints() {
    assert_eq!(
        configure_nodes(&vec![kw("nodes"), Val::List(vec![s("tcp://127.0.0.1:1"), s("ssh://h")])]),
        Ok(vec!["tcp://127.0.0.1:1".to_string(), "ssh://h".to_string()])
    );
    assert_eq!(configure_nodes(&vec![]), Err(ArgError::ConfigureMissingNodes));
    assert_eq!(
        configure_nodes(&vec![kw("nodes"), s("x")]),
        Err(ArgError::ConfigureNodesNotList)
    );
    assert_eq!(
        configure_nodes(&vec![kw("nodes"), Val::List(vec![Val::Int(1)])]),
        Err(ArgError::ConfigureNodeNotString)
    );
}

#[test]
fn publication_arguments() {
    assert_eq!(subscribe_topic(&vec![kw("count")]), Ok("count".to_string()));
    assert_eq!(subscribe_topic(&vec![]), Err(ArgError::Subscribe));
    assert_eq!(subscribe_topic(&vec![s("count")]), Err(ArgError::TopicNotKeyword));
    assert_eq!(
        publish_args(&vec![kw("count"), Val::Int(1)]),
        Ok(("count".to_string(), Val::Int(1)))
    );
    assert_eq!(publish_args(&vec![kw("count")]), Err(ArgError::Publish));
    assert_eq!(
        topic_update_message("count", Val::Int(2)),
        Val::List(vec![kw("topic_updated"), kw("count"), Val::Int(2)])
    );
    assert!(script_succeeded(ScriptEnd::Done));
    assert!(!script_succeeded(ScriptEnd::Cancelled));
    assert!(!script_succeeded(ScriptEnd::Failed));
}

#[test]
fn terminal_requests_carry_their_numbers() {
    let req = recv_req_result(10, s("Hello"));
    assert_eq!(
        req,
        Val::List(vec![Val::Opaque(Opaque::RequestId(10)), s("Hello")])
    );
    assert_eq!(
        send_resp_args(&vec![Val::Opaque(Opaque::RequestId(99)), s("Hello")]),
        Ok((99, s("Hello")))
    );
    assert_eq!(
        send_resp_args(&vec![Val::Int(99), s("Hello")]),
        Err(ArgError::SendResp)
    );
    assert_eq!(send_resp_args(&vec![]), Err(ArgError::SendResp));
    assert_eq!(ArgError::SendResp.message(), "send_conn expects two arguments");
}

#[test]
fn tilde_expands_to_the_given_home() {
    let home = Some("/home/user".to_string());
    assert_eq!(shell_expand_with_home(&vec![s("~/some/dir")], home.clone()), Ok(s("/home/user/some/dir")));
    assert_eq!(shell_expand_with_home(&vec![s("~")], home.clone()), Ok(s("/home/user")));
    assert_eq!(shell_expand_with_home(&vec![s("~other/x")], home.clone()), Ok(s("~other/x")));
    assert_eq!(shell_expand_with_home(&vec![s("a/~/b")], home.clone()), Ok(s("a/~/b")));
    assert_eq!(shell_expand_with_home(&vec![s("~/x")], None), Ok(s("~/x")));
    assert_eq!(shell_expand_with_home(&vec![], home.clone()), Err(ArgError::ShellExpand));
    assert_eq!(path_arg_with_home(&vec![s("~/f.txt"), s("data")], home.clone()), Ok("/home/user/f.txt".to_string()));
    assert_eq!(path_arg_with_home(&vec![Val::Int(3)], home), Err(ArgError::Path));
}

use libvrs::pid::ProcessId;
use libvrs::registry::{Registration, Registry};
use libvrs::service::{
    bind_interface_parts, call_reply, call_request, call_response_pattern, entry_val,
    keyword_arg, lambda_call, lambda_interface, register_args, registration_interface,
    route_message, spawn_srv_form, srv_args, srv_form, stub_call_form, Route, ServiceError,
};
use libvrs::service::{info_srv_answer, info_srv_args, InfoSrvError};
use libvrs::service::{
    call_args, call_result, format_pid, send_args, send_result, CallError, CallTimeout,
    DEFAULT_CALL_TIMEOUT_SECS,
};
use libvrs::value::Val;

fn kw(s: &str) -> Val {
    Val::Keyword(s.to_string())
}
fn sym(s: &str) -> Val {
    Val::Symbol(s.to_string())
}
fn st(s: &str) -> Val {
    Val::String(s.to_string())
}
fn l(items: Vec<Val>) -> Val {
    Val::List(items)
}
fn params(ps: &[&str]) -> Vec<String> {
    ps.iter().map(|s| s.to_string()).collect()
}

#[test]
fn service_lambda_interface_empty() {
    assert_eq!(lambda_interface("hello", &params(&[])), l(vec![kw("hello")]));
}

#[test]
fn service_lambda_interface_nonempty() {
    assert_eq!(
        lambda_interface("hello", &params(&["arg1", "arg2"])),
        l(vec![kw("hello"), sym("arg1"), sym("arg2")])
    );
}

#[test]
fn service_lambda_call_empty() {
    assert_eq!(lambda_call("hello", &params(&[])), l(vec![sym("hello")]));
}

#[test]
fn service_lambda_call_nonempty() {
    assert_eq!(
        lambda_call("hello", &params(&["arg1", "arg2"])),
        l(vec![sym("hello"), sym("arg1"), sym("arg2")])
    );
}

#[test]
fn service_stub_for_interface() {
    // (call (find-srv :launcher) (list :get_items))
    assert_eq!(
        stub_call_form("launcher", "get_items", &vec![]),
        l(vec![
            sym("call"),
            l(vec![sym("find-srv"), kw("launcher")]),
            l(vec![sym("list"), kw("get_items")]),
        ])
    );
    // (call (find-srv :launcher) (list :add_item title cmd))
    assert_eq!(
        stub_call_form("launcher", "add_item", &vec![sym("title"), sym("cmd")]),
        l(vec![
            sym("call"),
            l(vec![sym("find-srv"), kw("launcher")]),
            l(vec![sym("list"), kw("add_item"), sym("title"), sym("cmd")]),
        ])
    );
}

#[test]
fn srv_expands_to_a_registered_service_loop() {
    let interface = l(vec![sym("echo")]);
    let args = vec![kw("echo_srv"), kw("interface"), interface.duplicate()];
    let parsed = srv_args(&args).unwrap();
    assert_eq!(parsed.name, kw("echo_srv"));
    assert_eq!(parsed.symbols, ["echo"]);
    let exports = vec![("echo".to_string(), params(&["x"]))];
    let form = srv_form(&parsed.name, &parsed.interface, &exports);
    let expected = l(vec![
        sym("begin"),
        l(vec![
            sym("register"),
            kw("echo_srv"),
            kw("overwrite"),
            kw("interface"),
            l(vec![sym("quote"), interface]),
        ]),
        l(vec![
            sym("loop"),
            l(vec![
                sym("def"),
                l(vec![sym("r"), sym("src"), sym("msg")]),
                l(vec![sym("recv")]),
            ]),
            l(vec![
                sym("def"),
                sym("resp"),
                l(vec![
                    sym("try"),
                    l(vec![
                        sym("match"),
                        sym("msg"),
                        l(vec![l(vec![kw("echo"), sym("x")]), l(vec![sym("echo"), sym("x")])]),
                        l(vec![
                            sym("_"),
                            l(vec![sym("quote"), l(vec![kw("err"), st("Unrecognized message")])]),
                        ]),
                    ]),
                ]),
            ]),
            l(vec![sym("send"), sym("src"), l(vec![sym("list"), sym("r"), sym("resp")])]),
        ]),
    ]);
    assert_eq!(form, expected);
}

#[test]
fn srv_argument_errors() {
    assert_eq!(srv_args(&vec![]).unwrap_err(), ServiceError::MissingName);
    assert_eq!(srv_args(&vec![kw("s")]).unwrap_err(), ServiceError::MissingInterface);
    assert_eq!(
        srv_args(&vec![kw("s"), kw("interface"), sym("x")]).unwrap_err(),
        ServiceError::InterfaceNotList
    );
    assert_eq!(
        srv_args(&vec![kw("s"), kw("interface"), l(vec![Val::Int(1)])]).unwrap_err(),
        ServiceError::InterfaceNotSymbols
    );
    assert_eq!(ServiceError::MissingInterface.message(), "Missing :interface keyword argument");
}

#[test]
fn spawn_srv_replaces_then_serves() {
    let form = spawn_srv_form(&vec![kw("counter"), kw("interface"), l(vec![sym("inc")])]);
    let expected = l(vec![
        sym("spawn"),
        l(vec![
            sym("lambda"),
            l(vec![]),
            l(vec![
                sym("begin"),
                l(vec![sym("try"), l(vec![sym("kill"), l(vec![sym("find-srv"), kw("counter")])])]),
                l(vec![
                    sym("srv"),
                    kw("counter"),
                    kw("interface"),
                    l(vec![sym("quote"), l(vec![sym("inc")])]),
                ]),
            ]),
        ]),
    ]);
    assert_eq!(form, expected);
    let bare = spawn_srv_form(&vec![kw("counter")]);
    match bare {
        Val::List(items) => match &items[1] {
            Val::List(lambda) => match &lambda[2] {
                Val::List(body) => assert_eq!(body[2], l(vec![sym("srv"), kw("counter")])),
                _ => panic!("body"),
            },
            _ => panic!("lambda"),
        },
        _ => panic!("spawn"),
    }
}

#[test]
fn register_arguments() {
    let args = vec![kw("svc"), kw("interface"), l(vec![sym("a"), sym("b")]), kw("overwrite")];
    let ra = register_args(&args).unwrap();
    assert_eq!(ra.keyword, "svc");
    assert_eq!(ra.symbols, Some(params(&["a", "b"])));
    assert!(ra.overwrite);
    let plain = register_args(&vec![kw("svc")]).unwrap();
    assert_eq!(plain.symbols, None);
    assert!(!plain.overwrite);
    assert_eq!(register_args(&vec![sym("svc")]).unwrap_err(), ServiceError::RegisterNeedsKeyword);
    assert_eq!(
        register_args(&vec![kw("svc"), kw("interface"), Val::Int(3)]).unwrap_err(),
        ServiceError::InterfaceNotList
    );
    assert_eq!(keyword_arg(&args, 0, "interface"), Some(&args[2]));
    assert_eq!(keyword_arg(&args, 0, "missing"), None);
    let iface = registration_interface(&vec![("a".to_string(), params(&["x"]))]);
    assert_eq!(iface, vec![l(vec![kw("a"), sym("x")])]);
}

#[test]
fn bind_interface_argument_checks() {
    let parts = bind_interface_parts(&vec![
        kw("launcher"),
        l(vec![kw("add_item"), sym("title"), sym("cmd")]),
    ])
    .unwrap();
    assert_eq!(parts.service, "launcher");
    assert_eq!(parts.message, "add_item");
    assert_eq!(parts.params, params(&["title", "cmd"]));
    assert_eq!(
        bind_interface_parts(&vec![kw("x"), l(vec![])]).unwrap_err(),
        ServiceError::EmptyInterfaceItem
    );
    assert_eq!(
        bind_interface_parts(&vec![kw("x"), l(vec![sym("m")])]).unwrap_err(),
        ServiceError::InterfaceItemKeyword
    );
    assert_eq!(
        bind_interface_parts(&vec![kw("x"), l(vec![kw("m"), Val::Int(1)])]).unwrap_err(),
        ServiceError::InterfaceItemSymbols
    );
    assert_eq!(bind_interface_parts(&vec![kw("x")]).unwrap_err(), ServiceError::BindArguments);
}

#[test]
fn calls_frame_requests_and_read_replies() {
    let me = ProcessId::new("alpha", 1);
    assert_eq!(
        call_request(7, &me, &kw("ping")),
        l(vec![Val::Ref(7), Val::Process(me.duplicate()), kw("ping")])
    );
    assert_eq!(call_response_pattern(7), l(vec![Val::Ref(7), sym("response")]));
    assert_eq!(call_reply(&l(vec![Val::Ref(7), Val::Int(42)])).unwrap(), Val::Int(42));
    assert_eq!(call_reply(&l(vec![Val::Ref(7)])).unwrap_err(), ServiceError::MalformedResponse);
    assert_eq!(call_reply(&Val::Nil).unwrap_err(), ServiceError::MalformedResponse);
}

#[test]
fn messages_route_by_destination() {
    let me = ProcessId::new("alpha", 1);
    assert_eq!(route_message(&me, &ProcessId::new("alpha", 1), "alpha"), Route::OwnMailbox);
    assert_eq!(route_message(&me, &ProcessId::new("alpha", 2), "alpha"), Route::Kernel);
    assert_eq!(route_message(&me, &ProcessId::new("beta", 1), "alpha"), Route::Peer);
}

#[test]
fn entries_show_node_and_interface_when_relevant() {
    let mut registry = Registry::new("here");
    let mut reg = Registration::new("svc");
    reg.interface(vec![l(vec![kw("get")])]);
    registry.register(reg, ProcessId::new("here", 3)).unwrap();
    assert_eq!(
        entry_val(&registry.lookup("svc").unwrap()),
        l(vec![
            kw("name"),
            kw("svc"),
            kw("pid"),
            Val::Process(ProcessId::new("here", 3)),
            kw("interface"),
            l(vec![l(vec![kw("get")])]),
        ])
    );
}

#[test]
fn calls_wait_five_seconds_unless_told_otherwise() {
    let mut t = CallTimeout::new();
    assert_eq!(t.secs, 5);
    assert_eq!(DEFAULT_CALL_TIMEOUT_SECS, 5);
    t.set(0);
    assert_eq!(t.secs, 0);
}

#[test]
fn unanswered_call_times_out_with_its_wait_in_the_message() {
    let callee = ProcessId::new("here", 4);
    let r = call_result(&callee, 0, None);
    match r {
        Err(CallError::TimedOut { callee: c, seconds }) => {
            assert_eq!(c, callee);
            assert_eq!(seconds, 0);
        }
        _ => panic!("a call without reply times out"),
    }
    let e = call_result(&callee, 5, None).unwrap_err();
    assert_eq!(e.message(), "call to <pid 4> timed out after 5 seconds");
    assert!(call_result(&callee, 0, None).unwrap_err().message().contains("timed out after 0 seconds"));
    assert_eq!(format_pid(&ProcessId::new("x", 12)), "<pid 12>");
}

#[test]
fn answered_call_returns_the_reply_result() {
    let callee = ProcessId::new("here", 4);
    let reply = Val::List(vec![Val::Ref(9), Val::Int(42), kw("extra")]);
    assert_eq!(call_result(&callee, 5, Some(reply)).unwrap(), Val::Int(42));
    let bad = Val::List(vec![Val::Ref(9)]);
    assert!(matches!(call_result(&callee, 5, Some(bad)), Err(CallError::MalformedResponse)));
    assert_eq!(CallError::MalformedResponse.message(), "call received a malformed response");
}

#[test]
fn call_and_send_take_a_process_and_a_message() {
    let p = ProcessId::new("here", 2);
    let args = vec![Val::Process(p.clone()), kw("hello")];
    assert_eq!(call_args(&args).unwrap(), (p.clone(), kw("hello")));
    assert_eq!(send_args(&args).unwrap(), (p.clone(), kw("hello")));
    let wrong = vec![kw("hello"), Val::Process(p.clone())];
    assert_eq!(call_args(&wrong).unwrap_err(), ServiceError::CallArguments);
    assert_eq!(send_args(&wrong).unwrap_err(), ServiceError::SendArguments);
    assert_eq!(call_args(&vec![Val::Process(p)]).unwrap_err(), ServiceError::CallArguments);
    assert_eq!(ServiceError::CallArguments.message(), "call expects a process id and message");
    assert_eq!(
        ServiceError::SendArguments.message(),
        "Unexpected send call - (send DEST_PID DATA)"
    );
}

#[test]
fn send_returns_the_message_it_sent() {
    assert_eq!(send_result(&kw("hi"), None).unwrap(), kw("hi"));
    assert_eq!(
        send_result(&kw("hi"), Some("node beta is not connected".to_string())).unwrap_err(),
        "node beta is not connected"
    );
}

#[test]
fn info_srv_reads_a_service_and_a_query() {
    assert_eq!(
        info_srv_args(&vec![kw("echo"), kw("pid")]).unwrap(),
        ("echo".to_string(), "pid".to_string())
    );
    assert_eq!(info_srv_args(&vec![kw("echo")]).unwrap_err(), InfoSrvError::Arguments);
    assert_eq!(info_srv_args(&vec![kw("echo"), sym("pid")]).unwrap_err(), InfoSrvError::Arguments);
    assert_eq!(InfoSrvError::Arguments.message(), "info-srv expects single keyword argument");

    let mut registry = Registry::new("here");
    let mut reg = Registration::new("echo");
    reg.interface(vec![Val::List(vec![kw("ping")])]);
    registry.register(reg, ProcessId::new("here", 3)).unwrap();
    let entry = || registry.lookup("echo");
    assert_eq!(
        info_srv_answer("echo", entry(), "pid").unwrap(),
        Val::Process(ProcessId::new("here", 3))
    );
    assert_eq!(
        info_srv_answer("echo", entry(), "interface").unwrap(),
        Val::List(vec![Val::List(vec![kw("ping")])])
    );
    let e = info_srv_answer("echo", entry(), "name").unwrap_err();
    assert_eq!(e.message(), "info-srv got unexpected query: name");
    let e = info_srv_answer("nope", registry.lookup("nope"), "pid").unwrap_err();
    assert_eq!(e, InfoSrvError::NoService("nope".to_string()));
    assert_eq!(e.message(), "No service found for nope");
}

#[test]
fn bind_errors_name_def_bind_interface() {
    assert_eq!(
        ServiceError::BindArguments.message(),
        "def-bind-interface expects a keyword for service and interface it exposes"
    );
    assert_eq!(
        ServiceError::InterfaceItemSymbols.message(),
        "def-bind-interface expects a symbols after first keyword-argument"
    );
}

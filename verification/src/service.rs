//! Services in Lyric terms: the forms that `srv`, `spawn_srv` and service
//! bindings expand to, the arguments they accept, and how a `call` frames
//! its request and reads its reply.
use vstd::prelude::*;
use vstd::string::*;

use crate::endpoint::strings_view;
use crate::pid::{PidView, ProcessId};
use crate::registry::{Entry, ServiceQuery};
use crate::text::{decimal, format_u128, str_eq};
use crate::value::{
    duplicate_vals, keyword, lemma_vals_view, lemma_vals_view_push, list, string, symbol, val_view, vals_view,
    Val, ValView,
};

verus! {

/// Errors in the arguments of service bindings.
#[derive(Debug, Clone, Copy, PartialEq, Eq, Structural)]
pub enum ServiceError {
    /// `srv` needs a first argument that names the service.
    MissingName,
    /// `srv` needs an `:interface` keyword argument.
    MissingInterface,
    /// `:interface` must be followed by a list.
    InterfaceNotList,
    /// The `:interface` list may hold only symbols.
    InterfaceNotSymbols,
    /// `register` expects a keyword as its first argument.
    RegisterNeedsKeyword,
    /// `def_bind_interface` expects a keyword and an interface list.
    BindArguments,
    /// An interface item needs at least its message name.
    EmptyInterfaceItem,
    /// An interface item starts with a keyword.
    InterfaceItemKeyword,
    /// An interface item continues with symbols.
    InterfaceItemSymbols,
    /// A reply to `call` that is not a list of at least two values.
    MalformedResponse,
    /// `call` takes a process id and a message.
    CallArguments,
    /// `send` takes a process id and a message.
    SendArguments,
}

impl ServiceError {
    /// The error as text.
    pub fn message(&self) -> (r: &'static str)
        ensures
            match self {
                ServiceError::MissingName => r@ == "First argument must be a value used to identify service"@,
                ServiceError::MissingInterface => r@ == "Missing :interface keyword argument"@,
                ServiceError::InterfaceNotList => r@ == ":interface keyword argument must be a list"@,
                ServiceError::InterfaceNotSymbols => r@ == "Forms in :interface list should be symbols"@,
                ServiceError::RegisterNeedsKeyword => r@ == "register expects a keyword argument as first argument"@,
                ServiceError::BindArguments => r@ == "def-bind-interface expects a keyword for service and interface it exposes"@,
                ServiceError::EmptyInterfaceItem => r@ == "interface list must contain at least one item"@,
                ServiceError::InterfaceItemKeyword => r@ == "first element of interface item should be keyword"@,
                ServiceError::InterfaceItemSymbols => r@ == "def-bind-interface expects a symbols after first keyword-argument"@,
                ServiceError::MalformedResponse => r@ == "call received a malformed response"@,
                ServiceError::CallArguments => r@ == "call expects a process id and message"@,
                ServiceError::SendArguments => r@ == "Unexpected send call - (send DEST_PID DATA)"@,
            },
    {
        match self {
            ServiceError::MissingName => "First argument must be a value used to identify service",
            ServiceError::MissingInterface => "Missing :interface keyword argument",
            ServiceError::InterfaceNotList => ":interface keyword argument must be a list",
            ServiceError::InterfaceNotSymbols => "Forms in :interface list should be symbols",
            ServiceError::RegisterNeedsKeyword => "register expects a keyword argument as first argument",
            ServiceError::BindArguments => "def-bind-interface expects a keyword for service and interface it exposes",
            ServiceError::EmptyInterfaceItem => "interface list must contain at least one item",
            ServiceError::InterfaceItemKeyword => "first element of interface item should be keyword",
            ServiceError::InterfaceItemSymbols => "def-bind-interface expects a symbols after first keyword-argument",
            ServiceError::MalformedResponse => "call received a malformed response",
            ServiceError::CallArguments => "call expects a process id and message",
            ServiceError::SendArguments => "Unexpected send call - (send DEST_PID DATA)",
        }
    }
}

/// The values of `s` as symbols.
pub open spec fn syms(s: Seq<Seq<char>>) -> Seq<ValView> {
    s.map_values(|p: Seq<char>| ValView::Symbol(p))
}

/// `(:NAME PARAM ...)`: how a service advertises one exported function.
pub open spec fn spec_lambda_interface(name: Seq<char>, params: Seq<Seq<char>>) -> ValView {
    ValView::List(seq![ValView::Keyword(name)] + syms(params))
}

/// `(NAME PARAM ...)`: the call that answers an advertised message.
pub open spec fn spec_lambda_call(name: Seq<char>, params: Seq<Seq<char>>) -> ValView {
    ValView::List(seq![ValView::Symbol(name)] + syms(params))
}

/// An exported function: its name and its parameters.
pub open spec fn export_view(e: (String, Vec<String>)) -> (Seq<char>, Seq<Seq<char>>) {
    (e.0@, strings_view(e.1@))
}

pub open spec fn exports_view(s: Seq<(String, Vec<String>)>) -> Seq<(Seq<char>, Seq<Seq<char>>)> {
    s.map_values(|e: (String, Vec<String>)| export_view(e))
}

/// One arm of a service loop's `match`.
pub open spec fn match_arm(e: (Seq<char>, Seq<Seq<char>>)) -> ValView {
    ValView::List(seq![spec_lambda_interface(e.0, e.1), spec_lambda_call(e.0, e.1)])
}

/// The arm for messages no export answers.
pub open spec fn catch_all_arm() -> ValView {
    ValView::List(
        seq![
            ValView::Symbol("_"@),
            ValView::List(
                seq![
                    ValView::Symbol("quote"@),
                    ValView::List(
                        seq![ValView::Keyword("err"@), ValView::String("Unrecognized message"@)],
                    ),
                ],
            ),
        ],
    )
}

/// `(match msg ARM ... (_ '(:err "Unrecognized message")))`.
pub open spec fn spec_match_form(exports: Seq<(Seq<char>, Seq<Seq<char>>)>) -> ValView {
    ValView::List(
        seq![ValView::Symbol("match"@), ValView::Symbol("msg"@)] + exports.map_values(
            |e: (Seq<char>, Seq<Seq<char>>)| match_arm(e),
        ) + seq![catch_all_arm()],
    )
}

/// What `(srv NAME :interface '(F ...))` expands to: register as NAME,
/// replacing a local holder, then answer each `(REF SRC MSG)` with
/// `(REF RESULT)` sent to SRC, where RESULT is the exported function's value
/// or the error it raised.
pub open spec fn spec_srv_form(
    name: ValView,
    interface: ValView,
    exports: Seq<(Seq<char>, Seq<Seq<char>>)>,
) -> ValView {
    ValView::List(
        seq![
            ValView::Symbol("begin"@),
            ValView::List(
                seq![
                    ValView::Symbol("register"@),
                    name,
                    ValView::Keyword("overwrite"@),
                    ValView::Keyword("interface"@),
                    ValView::List(seq![ValView::Symbol("quote"@), interface]),
                ],
            ),
            ValView::List(
                seq![
                    ValView::Symbol("loop"@),
                    ValView::List(
                        seq![
                            ValView::Symbol("def"@),
                            ValView::List(
                                seq![
                                    ValView::Symbol("r"@),
                                    ValView::Symbol("src"@),
                                    ValView::Symbol("msg"@),
                                ],
                            ),
                            ValView::List(seq![ValView::Symbol("recv"@)]),
                        ],
                    ),
                    ValView::List(
                        seq![
                            ValView::Symbol("def"@),
                            ValView::Symbol("resp"@),
                            ValView::List(seq![ValView::Symbol("try"@), spec_match_form(exports)]),
                        ],
                    ),
                    ValView::List(
                        seq![
                            ValView::Symbol("send"@),
                            ValView::Symbol("src"@),
                            ValView::List(
                                seq![
                                    ValView::Symbol("list"@),
                                    ValView::Symbol("r"@),
                                    ValView::Symbol("resp"@),
                                ],
                            ),
                        ],
                    ),
                ],
            ),
        ],
    )
}

/// The value that follows the first `:KEY` in `args`, if any.
pub open spec fn spec_keyword_arg(args: Seq<ValView>, key: Seq<char>) -> Option<ValView>
    decreases args.len(),
{
    if args.len() < 2 {
        None
    } else if args[0] == ValView::Keyword(key) {
        Some(args[1])
    } else {
        spec_keyword_arg(args.drop_first(), key)
    }
}

/// `:KEY` occurs in `args`.
pub open spec fn spec_has_flag(args: Seq<ValView>, key: Seq<char>) -> bool {
    exists|i: int| 0 <= i < args.len() && args[i] == ValView::Keyword(key)
}

/// Every value is a symbol.
pub open spec fn all_symbols(s: Seq<ValView>) -> bool {
    forall|i: int| 0 <= i < s.len() ==> (#[trigger] s[i]) is Symbol
}

/// The names of a list of symbols.
pub open spec fn symbol_names(s: Seq<ValView>) -> Seq<Seq<char>> {
    s.map_values(|v: ValView| v->Symbol_0)
}

proof fn lemma_vals_view_map(s: Seq<Val>)
    ensures
        vals_view(s) =~= s.map_values(|v: Val| val_view(v)),
{
    lemma_vals_view(s);
}

/// The symbols named by `params`, after `head`.
fn head_and_symbols(head: Val, params: &Vec<String>) -> (r: Vec<Val>)
    ensures
        vals_view(r@) == seq![head@] + syms(strings_view(params@)),
{
    let ghost h = head@;
    let mut r: Vec<Val> = Vec::new();
    proof {
        lemma_vals_view_push(r@, head);
    }
    r.push(head);
    proof {
        assert(r@ =~= Seq::<Val>::empty().push(r@[0]));
        assert(vals_view(Seq::<Val>::empty()) =~= Seq::<ValView>::empty());
    }
    let mut i: usize = 0;
    while i < params.len()
        invariant
            i <= params.len(),
            vals_view(r@) =~= seq![h] + syms(strings_view(params@.take(i as int))),
        decreases params.len() - i,
    {
        let s = symbol(params[i].as_str());
        proof {
            lemma_vals_view_push(r@, s);
            assert(strings_view(params@.take(i + 1)) =~= strings_view(params@.take(i as int)).push(
                params@[i as int]@,
            ));
        }
        r.push(s);
        i = i + 1;
    }
    proof {
        assert(params@.take(params.len() as int) =~= params@);
    }
    r
}

/// `(:NAME PARAM ...)` for an exported function NAME of parameters PARAM.
pub fn lambda_interface(name: &str, params: &Vec<String>) -> (r: Val)
    ensures
        r@ == spec_lambda_interface(name@, strings_view(params@)),
{
    list(head_and_symbols(keyword(name), params))
}

/// `(NAME PARAM ...)`, the call that answers [lambda_interface]'s message.
pub fn lambda_call(name: &str, params: &Vec<String>) -> (r: Val)
    ensures
        r@ == spec_lambda_call(name@, strings_view(params@)),
{
    list(head_and_symbols(symbol(name), params))
}

/// The advertised interface of a service exporting `exports`.
pub fn registration_interface(exports: &Vec<(String, Vec<String>)>) -> (r: Vec<Val>)
    ensures
        vals_view(r@) == exports_view(exports@).map_values(
            |e: (Seq<char>, Seq<Seq<char>>)| spec_lambda_interface(e.0, e.1),
        ),
{
    let mut r: Vec<Val> = Vec::new();
    let mut i: usize = 0;
    while i < exports.len()
        invariant
            i <= exports.len(),
            vals_view(r@) =~= exports_view(exports@.take(i as int)).map_values(
                |e: (Seq<char>, Seq<Seq<char>>)| spec_lambda_interface(e.0, e.1),
            ),
        decreases exports.len() - i,
    {
        let v = lambda_interface(exports[i].0.as_str(), &exports[i].1);
        proof {
            lemma_vals_view_push(r@, v);
            assert(exports@.take(i + 1) =~= exports@.take(i as int).push(exports@[i as int]));
        }
        r.push(v);
        i = i + 1;
    }
    proof {
        assert(exports@.take(exports.len() as int) =~= exports@);
    }
    r
}

fn match_form(exports: &Vec<(String, Vec<String>)>) -> (r: Val)
    ensures
        r@ == spec_match_form(exports_view(exports@)),
{
    let mut items: Vec<Val> = vec![symbol("match"), symbol("msg")];
    let ghost head = vals_view(items@);
    proof {
        lemma_vals_view_map(items@);
        assert(head =~= seq![ValView::Symbol("match"@), ValView::Symbol("msg"@)]);
    }
    let mut i: usize = 0;
    while i < exports.len()
        invariant
            i <= exports.len(),
            head == seq![ValView::Symbol("match"@), ValView::Symbol("msg"@)],
            vals_view(items@) =~= head + exports_view(exports@.take(i as int)).map_values(
                |e: (Seq<char>, Seq<Seq<char>>)| match_arm(e),
            ),
        decreases exports.len() - i,
    {
        let pattern = lambda_interface(exports[i].0.as_str(), &exports[i].1);
        let call = lambda_call(exports[i].0.as_str(), &exports[i].1);
        let arm = list2(pattern, call);
        proof {
            lemma_vals_view_push(items@, arm);
            assert(exports@.take(i + 1) =~= exports@.take(i as int).push(exports@[i as int]));
            assert(arm@ == match_arm(export_view(exports@[i as int])));
        }
        items.push(arm);
        i = i + 1;
    }
    let catch_all = list2(
        symbol("_"),
        list2(symbol("quote"), list2(keyword("err"), string("Unrecognized message"))),
    );
    let ghost before = vals_view(items@);
    proof {
        lemma_vals_view_push(items@, catch_all);
        assert(exports@.take(exports.len() as int) =~= exports@);
        assert(catch_all@ == catch_all_arm());
    }
    items.push(catch_all);
    proof {
        assert(vals_view(items@) =~= before.push(catch_all_arm()));
        assert(vals_view(items@) =~= seq![ValView::Symbol("match"@), ValView::Symbol("msg"@)]
            + exports_view(exports@).map_values(|e: (Seq<char>, Seq<Seq<char>>)| match_arm(e))
            + seq![catch_all_arm()]);
    }
    list(items)
}

/// `(A B)`.
pub fn list2(a: Val, b: Val) -> (r: Val)
    ensures
        r@ == ValView::List(seq![a@, b@]),
{
    let ghost ga = a@;
    let ghost gb = b@;
    let mut v: Vec<Val> = Vec::new();
    v.push(a);
    v.push(b);
    proof {
        lemma_vals_view(v@);
        assert(vals_view(v@) =~= seq![ga, gb]);
    }
    list(v)
}

/// `(A B C)`.
pub fn list3(a: Val, b: Val, c: Val) -> (r: Val)
    ensures
        r@ == ValView::List(seq![a@, b@, c@]),
{
    let ghost ga = a@;
    let ghost gb = b@;
    let ghost gc = c@;
    let mut v: Vec<Val> = Vec::new();
    v.push(a);
    v.push(b);
    v.push(c);
    proof {
        lemma_vals_view(v@);
        assert(vals_view(v@) =~= seq![ga, gb, gc]);
    }
    list(v)
}

/// `(A B C D E)`.
pub fn list5(a: Val, b: Val, c: Val, d: Val, e: Val) -> (r: Val)
    ensures
        r@ == ValView::List(seq![a@, b@, c@, d@, e@]),
{
    let ghost ga = a@;
    let ghost gb = b@;
    let ghost gc = c@;
    let ghost gd = d@;
    let ghost ge = e@;
    let mut v: Vec<Val> = Vec::new();
    v.push(a);
    v.push(b);
    v.push(c);
    v.push(d);
    v.push(e);
    proof {
        lemma_vals_view(v@);
        assert(vals_view(v@) =~= seq![ga, gb, gc, gd, ge]);
    }
    list(v)
}

/// `(A)`.
pub fn list1(a: Val) -> (r: Val)
    ensures
        r@ == ValView::List(seq![a@]),
{
    let ghost ga = a@;
    let mut v: Vec<Val> = Vec::new();
    v.push(a);
    proof {
        lemma_vals_view(v@);
        assert(vals_view(v@) =~= seq![ga]);
    }
    list(v)
}

/// `(A B C D)`.
pub fn list4(a: Val, b: Val, c: Val, d: Val) -> (r: Val)
    ensures
        r@ == ValView::List(seq![a@, b@, c@, d@]),
{
    let ghost ga = a@;
    let ghost gb = b@;
    let ghost gc = c@;
    let ghost gd = d@;
    let mut v: Vec<Val> = Vec::new();
    v.push(a);
    v.push(b);
    v.push(c);
    v.push(d);
    proof {
        lemma_vals_view(v@);
        assert(vals_view(v@) =~= seq![ga, gb, gc, gd]);
    }
    list(v)
}

/// The form that `(srv NAME :interface INTERFACE)` expands to, for the
/// exported functions `exports` (each name with its parameters) that
/// INTERFACE lists.
pub fn srv_form(name: &Val, interface: &Val, exports: &Vec<(String, Vec<String>)>) -> (r: Val)
    ensures
        r@ == spec_srv_form(name@, interface@, exports_view(exports@)),
{
    let register = list5(
        symbol("register"),
        name.duplicate(),
        keyword("overwrite"),
        keyword("interface"),
        list2(symbol("quote"), interface.duplicate()),
    );
    let recv = list3(
        symbol("def"),
        list3(symbol("r"), symbol("src"), symbol("msg")),
        list1(symbol("recv")),
    );
    let respond = list3(symbol("def"), symbol("resp"), list2(symbol("try"), match_form(exports)));
    let reply = list3(symbol("send"), symbol("src"), list3(symbol("list"), symbol("r"), symbol("resp")));
    list3(symbol("begin"), register, list4(symbol("loop"), recv, respond, reply))
}


/// The value after the first `:KEY` at or after position `start`.
pub fn keyword_arg<'a>(args: &'a Vec<Val>, start: usize, key: &str) -> (r: Option<&'a Val>)
    requires
        start <= args.len(),
    ensures
        match r {
            Some(v) => spec_keyword_arg(vals_view(args@).skip(start as int), key@) == Some(v@),
            None => spec_keyword_arg(vals_view(args@).skip(start as int), key@) is None,
        },
{
    proof {
        lemma_vals_view(args@);
    }
    let ghost all = vals_view(args@);
    if start == args.len() {
        proof {
            assert(all.skip(start as int).len() == 0);
        }
        return None;
    }
    let mut i: usize = start;
    while i + 1 < args.len()
        invariant
            start <= i < args.len(),
            all == vals_view(args@),
            all.len() == args.len(),
            forall|j: int| 0 <= j < args.len() ==> #[trigger] all[j] == val_view(args@[j]),
            spec_keyword_arg(all.skip(start as int), key@) == spec_keyword_arg(
                all.skip(i as int),
                key@,
            ),
        decreases args.len() - i,
    {
        let found = match &args[i] {
            Val::Keyword(k) => str_eq(k.as_str(), key),
            _ => false,
        };
        proof {
            let t = all.skip(i as int);
            assert(t[0] == all[i as int]);
            assert(t[1] == all[i + 1]);
            assert(t.drop_first() =~= all.skip(i + 1));
        }
        if found {
            return Some(&args[i + 1]);
        }
        i = i + 1;
    }
    proof {
        assert(all.skip(i as int).len() < 2);
    }
    None
}

/// Whether `:KEY` occurs at or after position `start`.
pub fn has_flag(args: &Vec<Val>, start: usize, key: &str) -> (r: bool)
    requires
        start <= args.len(),
    ensures
        r == spec_has_flag(vals_view(args@).skip(start as int), key@),
{
    proof {
        lemma_vals_view(args@);
    }
    let ghost all = vals_view(args@);
    let mut i: usize = start;
    while i < args.len()
        invariant
            start <= i <= args.len(),
            all == vals_view(args@),
            all.len() == args.len(),
            forall|j: int| 0 <= j < args.len() ==> #[trigger] all[j] == val_view(args@[j]),
            forall|j: int| start <= j < i ==> all[j] != ValView::Keyword(key@),
        decreases args.len() - i,
    {
        let found = match &args[i] {
            Val::Keyword(k) => str_eq(k.as_str(), key),
            _ => false,
        };
        if found {
            proof {
                assert(all.skip(start as int)[i - start] == all[i as int]);
            }
            return true;
        }
        i = i + 1;
    }
    proof {
        assert forall|j: int| 0 <= j < all.skip(start as int).len() implies all.skip(
            start as int,
        )[j] != ValView::Keyword(key@) by {
            assert(all.skip(start as int)[j] == all[start + j]);
        }
    }
    false
}

/// The names of a list of symbols, or `None` when it holds another value.
pub fn symbols_of(items: &Vec<Val>) -> (r: Option<Vec<String>>)
    ensures
        match r {
            Some(names) => all_symbols(vals_view(items@)) && strings_view(names@) == symbol_names(
                vals_view(items@),
            ),
            None => !all_symbols(vals_view(items@)),
        },
{
    proof {
        lemma_vals_view(items@);
    }
    let ghost all = vals_view(items@);
    let mut names: Vec<String> = Vec::new();
    let mut i: usize = 0;
    while i < items.len()
        invariant
            i <= items.len(),
            all == vals_view(items@),
            all.len() == items.len(),
            forall|j: int| 0 <= j < items.len() ==> #[trigger] all[j] == val_view(items@[j]),
            forall|j: int| 0 <= j < i ==> (#[trigger] all[j]) is Symbol,
            strings_view(names@) =~= symbol_names(all.take(i as int)),
        decreases items.len() - i,
    {
        match &items[i] {
            Val::Symbol(name) => {
                let ghost before = strings_view(names@);
                let n = name.clone();
                names.push(n);
                proof {
                    assert(all[i as int] == ValView::Symbol(name@));
                    assert(strings_view(names@) =~= before.push(name@));
                    assert(all.take(i + 1) =~= all.take(i as int).push(all[i as int]));
                    assert(symbol_names(all.take(i + 1)) =~= symbol_names(all.take(i as int)).push(
                        name@,
                    ));
                }
            },
            _ => {
                proof {
                    assert(!(all[i as int] is Symbol));
                }
                return None;
            },
        }
        i = i + 1;
    }
    proof {
        assert(all.take(items.len() as int) =~= all);
    }
    Some(names)
}

/// What `srv` needs from its arguments: the service name, the interface
/// value, and the names of the functions it exports.
#[derive(Debug)]
pub struct SrvArgs {
    pub name: Val,
    pub interface: Val,
    pub symbols: Vec<String>,
}

/// Reads `(srv NAME :interface '(F ...))`'s arguments.
pub fn srv_args(args: &Vec<Val>) -> (r: Result<SrvArgs, ServiceError>)
    ensures
        ({
            let a = vals_view(args@);
            let iface = spec_keyword_arg(a, "interface"@);
            if a.len() == 0 {
                r == Err::<SrvArgs, ServiceError>(ServiceError::MissingName)
            } else if iface is None {
                r == Err::<SrvArgs, ServiceError>(ServiceError::MissingInterface)
            } else if !(iface->0 is List) {
                r == Err::<SrvArgs, ServiceError>(ServiceError::InterfaceNotList)
            } else if !all_symbols(iface->0->List_0) {
                r == Err::<SrvArgs, ServiceError>(ServiceError::InterfaceNotSymbols)
            } else {
                r matches Ok(s) && s.name@ == a[0] && s.interface@ == iface->0 && strings_view(
                    s.symbols@,
                ) == symbol_names(iface->0->List_0)
            }
        }),
{
    proof {
        lemma_vals_view(args@);
        assert(vals_view(args@).skip(0) =~= vals_view(args@));
    }
    if args.len() == 0 {
        return Err(ServiceError::MissingName);
    }
    let interface = match keyword_arg(args, 0, "interface") {
        None => return Err(ServiceError::MissingInterface),
        Some(i) => i,
    };
    let symbols = match interface {
        Val::List(items) => match symbols_of(items) {
            None => return Err(ServiceError::InterfaceNotSymbols),
            Some(names) => names,
        },
        _ => return Err(ServiceError::InterfaceNotList),
    };
    Ok(SrvArgs { name: args[0].duplicate(), interface: interface.duplicate(), symbols })
}

/// `(try (kill (find-srv NAME)))`.
pub open spec fn spec_kill_form(name: ValView) -> ValView {
    ValView::List(
        seq![
            ValView::Symbol("try"@),
            ValView::List(
                seq![
                    ValView::Symbol("kill"@),
                    ValView::List(seq![ValView::Symbol("find-srv"@), name]),
                ],
            ),
        ],
    )
}

/// What `(spawn_srv NAME [:interface I])` expands to: a child process that
/// ends a service already registered as NAME and then serves as NAME.
pub open spec fn spec_spawn_srv_form(name: ValView, interface: Option<ValView>) -> ValView {
    let srv = match interface {
        None => ValView::List(seq![ValView::Symbol("srv"@), name]),
        Some(i) => ValView::List(
            seq![
                ValView::Symbol("srv"@),
                name,
                ValView::Keyword("interface"@),
                ValView::List(seq![ValView::Symbol("quote"@), i]),
            ],
        ),
    };
    ValView::List(
        seq![
            ValView::Symbol("spawn"@),
            ValView::List(
                seq![
                    ValView::Symbol("lambda"@),
                    ValView::List(Seq::empty()),
                    ValView::List(seq![ValView::Symbol("begin"@), spec_kill_form(name), srv]),
                ],
            ),
        ],
    )
}

/// The form `(spawn_srv NAME [:interface I])` expands to.
pub fn spawn_srv_form(args: &Vec<Val>) -> (r: Val)
    requires
        args.len() > 0,
    ensures
        r@ == spec_spawn_srv_form(
            vals_view(args@)[0],
            spec_keyword_arg(vals_view(args@), "interface"@),
        ),
{
    proof {
        lemma_vals_view(args@);
        assert(vals_view(args@).skip(0) =~= vals_view(args@));
    }
    let name = &args[0];
    let srv = match keyword_arg(args, 0, "interface") {
        None => list2(symbol("srv"), name.duplicate()),
        Some(i) => list4(
            symbol("srv"),
            name.duplicate(),
            keyword("interface"),
            list2(symbol("quote"), i.duplicate()),
        ),
    };
    let kill = list2(symbol("try"), list2(symbol("kill"), list2(symbol("find-srv"), name.duplicate())));
    let empty: Vec<Val> = Vec::new();
    proof {
        assert(vals_view(empty@) =~= Seq::<ValView>::empty());
    }
    list2(
        symbol("spawn"),
        list3(symbol("lambda"), list(empty), list3(symbol("begin"), kill, srv)),
    )
}

/// What `register` reads from its arguments.
#[derive(Debug)]
pub struct RegisterArgs {
    /// The service name.
    pub keyword: String,
    /// The names of the exported functions, when `:interface` is given.
    pub symbols: Option<Vec<String>>,
    /// Whether `:overwrite` is given.
    pub overwrite: bool,
}

/// Reads `(register NAME [:interface '(F ...)] [:overwrite])`'s arguments.
pub fn register_args(args: &Vec<Val>) -> (r: Result<RegisterArgs, ServiceError>)
    ensures
        ({
            let a = vals_view(args@);
            let rest = a.skip(1);
            let iface = spec_keyword_arg(rest, "interface"@);
            if a.len() == 0 || !(a[0] is Keyword) {
                r == Err::<RegisterArgs, ServiceError>(ServiceError::RegisterNeedsKeyword)
            } else if iface is Some && !(iface->0 is List) {
                r == Err::<RegisterArgs, ServiceError>(ServiceError::InterfaceNotList)
            } else if iface is Some && !all_symbols(iface->0->List_0) {
                r == Err::<RegisterArgs, ServiceError>(ServiceError::InterfaceNotSymbols)
            } else {
                &&& r matches Ok(ra)
                &&& ra.keyword@ == a[0]->Keyword_0
                &&& ra.overwrite == spec_has_flag(rest, "overwrite"@)
                &&& match iface {
                    None => ra.symbols is None,
                    Some(i) => ra.symbols matches Some(names) && strings_view(names@)
                        == symbol_names(i->List_0),
                }
            }
        }),
{
    proof {
        lemma_vals_view(args@);
    }
    if args.len() == 0 {
        return Err(ServiceError::RegisterNeedsKeyword);
    }
    let keyword = match &args[0] {
        Val::Keyword(k) => k.clone(),
        _ => return Err(ServiceError::RegisterNeedsKeyword),
    };
    let symbols = match keyword_arg(args, 1, "interface") {
        None => None,
        Some(Val::List(items)) => match symbols_of(items) {
            None => return Err(ServiceError::InterfaceNotSymbols),
            Some(names) => Some(names),
        },
        Some(_) => return Err(ServiceError::InterfaceNotList),
    };
    let overwrite = has_flag(args, 1, "overwrite");
    Ok(RegisterArgs { keyword, symbols, overwrite })
}

/// What a client binding is made from: an interface item `(:MSG ARG ...)`
/// advertised by service SVC.
#[derive(Debug)]
pub struct BindParts {
    pub service: String,
    pub message: String,
    pub params: Vec<String>,
}

/// Reads `(def_bind_interface :SVC (:MSG ARG ...))`'s arguments.
pub fn bind_interface_parts(args: &Vec<Val>) -> (r: Result<BindParts, ServiceError>)
    ensures
        ({
            let a = vals_view(args@);
            if !(a.len() == 2 && a[0] is Keyword && a[1] is List) {
                r == Err::<BindParts, ServiceError>(ServiceError::BindArguments)
            } else {
                let item = a[1]->List_0;
                if item.len() == 0 {
                    r == Err::<BindParts, ServiceError>(ServiceError::EmptyInterfaceItem)
                } else if !(item[0] is Keyword) {
                    r == Err::<BindParts, ServiceError>(ServiceError::InterfaceItemKeyword)
                } else if !all_symbols(item.drop_first()) {
                    r == Err::<BindParts, ServiceError>(ServiceError::InterfaceItemSymbols)
                } else {
                    r matches Ok(p) && p.service@ == a[0]->Keyword_0 && p.message@
                        == item[0]->Keyword_0 && strings_view(p.params@) == symbol_names(
                        item.drop_first(),
                    )
                }
            }
        }),
{
    proof {
        lemma_vals_view(args@);
    }
    if args.len() != 2 {
        return Err(ServiceError::BindArguments);
    }
    let service = match &args[0] {
        Val::Keyword(k) => k.clone(),
        _ => return Err(ServiceError::BindArguments),
    };
    let items = match &args[1] {
        Val::List(items) => items,
        _ => return Err(ServiceError::BindArguments),
    };
    proof {
        lemma_vals_view(items@);
    }
    if items.len() == 0 {
        return Err(ServiceError::EmptyInterfaceItem);
    }
    let message = match &items[0] {
        Val::Keyword(k) => k.clone(),
        _ => return Err(ServiceError::InterfaceItemKeyword),
    };
    let mut params: Vec<String> = Vec::new();
    let ghost all = vals_view(items@);
    proof {
        assert(vals_view(args@)[1] == val_view(args@[1]));
    }
    let mut i: usize = 1;
    while i < items.len()
        invariant
            1 <= i <= items.len(),
            vals_view(args@).len() == 2,
            vals_view(args@)[0] is Keyword,
            vals_view(args@)[1] == ValView::List(all),
            all.len() > 0,
            all[0] is Keyword,
            all == vals_view(items@),
            all.len() == items.len(),
            forall|j: int| 0 <= j < items.len() ==> #[trigger] all[j] == val_view(items@[j]),
            forall|j: int| 1 <= j < i ==> (#[trigger] all[j]) is Symbol,
            strings_view(params@) =~= symbol_names(all.subrange(1, i as int)),
        decreases items.len() - i,
    {
        match &items[i] {
            Val::Symbol(name) => {
                let ghost before = strings_view(params@);
                let n = name.clone();
                params.push(n);
                proof {
                    assert(all[i as int] == ValView::Symbol(name@));
                    assert(strings_view(params@) =~= before.push(name@));
                    assert(all.subrange(1, i + 1) =~= all.subrange(1, i as int).push(all[i as int]));
                    assert(symbol_names(all.subrange(1, i + 1)) =~= symbol_names(
                        all.subrange(1, i as int),
                    ).push(name@));
                }
            },
            _ => {
                proof {
                    assert(all.drop_first()[i - 1] == all[i as int]);
                }
                return Err(ServiceError::InterfaceItemSymbols);
            },
        }
        i = i + 1;
    }
    proof {
        assert(all.subrange(1, items.len() as int) =~= all.drop_first());
        assert forall|j: int| 0 <= j < all.drop_first().len() implies (
        #[trigger] all.drop_first()[j]) is Symbol by {
            assert(all.drop_first()[j] == all[j + 1]);
        }
    }
    Ok(BindParts { service, message, params })
}

/// `(call (find-srv :SVC) (list :MSG ARG ...))`: the body of the client
/// function that a binding defines for one interface item.
pub open spec fn spec_stub_call_form(service: Seq<char>, message: Seq<char>, args: Seq<ValView>) -> ValView {
    ValView::List(
        seq![
            ValView::Symbol("call"@),
            ValView::List(seq![ValView::Symbol("find-srv"@), ValView::Keyword(service)]),
            ValView::List(seq![ValView::Symbol("list"@), ValView::Keyword(message)] + args),
        ],
    )
}

/// The body of the client function for message `message` of `service`.
pub fn stub_call_form(service: &str, message: &str, args: &Vec<Val>) -> (r: Val)
    ensures
        r@ == spec_stub_call_form(service@, message@, vals_view(args@)),
{
    let mut msg: Vec<Val> = Vec::new();
    let s = symbol("list");
    let k = keyword(message);
    let ghost gs = s@;
    let ghost gk = k@;
    msg.push(s);
    msg.push(k);
    proof {
        lemma_vals_view(msg@);
        assert(vals_view(msg@) =~= seq![gs, gk]);
    }
    let mut i: usize = 0;
    while i < args.len()
        invariant
            i <= args.len(),
            vals_view(msg@) =~= seq![gs, gk] + vals_view(args@.take(i as int)),
            gs == ValView::Symbol("list"@),
            gk == ValView::Keyword(message@),
        decreases args.len() - i,
    {
        let v = args[i].duplicate();
        proof {
            lemma_vals_view_push(msg@, v);
            lemma_vals_view_push(args@.take(i as int), args@[i as int]);
            assert(args@.take(i + 1) =~= args@.take(i as int).push(args@[i as int]));
        }
        msg.push(v);
        i = i + 1;
    }
    proof {
        assert(args@.take(args.len() as int) =~= args@);
    }
    list3(symbol("call"), list2(symbol("find-srv"), keyword(service)), list(msg))
}

/// `(REF SELF MSG)`: how `call` frames a request, so that the reply can be
/// told apart by REF.
pub fn call_request(reference: u64, caller: &ProcessId, msg: &Val) -> (r: Val)
    ensures
        r@ == ValView::List(seq![ValView::Ref(reference), ValView::Process(caller@), msg@]),
{
    list3(Val::Ref(reference), Val::Process(caller.duplicate()), msg.duplicate())
}

/// `(REF response)`: the mailbox pattern that selects the reply to REF.
pub fn call_response_pattern(reference: u64) -> (r: Val)
    ensures
        r@ == ValView::List(seq![ValView::Ref(reference), ValView::Symbol("response"@)]),
{
    list2(Val::Ref(reference), symbol("response"))
}

/// What a call returns from its reply `(REF RESULT ...)`: RESULT.
pub fn call_reply(response: &Val) -> (r: Result<Val, ServiceError>)
    ensures
        match response@ {
            ValView::List(items) => if items.len() >= 2 {
                r matches Ok(v) && v@ == items[1]
            } else {
                r == Err::<Val, ServiceError>(ServiceError::MalformedResponse)
            },
            _ => r == Err::<Val, ServiceError>(ServiceError::MalformedResponse),
        },
{
    match response {
        Val::List(items) => {
            proof {
                lemma_vals_view(items@);
            }
            if items.len() >= 2 {
                Ok(items[1].duplicate())
            } else {
                Err(ServiceError::MalformedResponse)
            }
        },
        _ => Err(ServiceError::MalformedResponse),
    }
}

/// How long `call` waits for its reply unless the process chose otherwise,
/// in seconds.
pub const DEFAULT_CALL_TIMEOUT_SECS: u64 = 5;

/// How long the calls of a process wait for their reply, in seconds.
pub struct CallTimeout {
    pub secs: u64,
}

impl CallTimeout {
    /// The default: five seconds.
    pub fn new() -> (r: CallTimeout)
        ensures
            r.secs == DEFAULT_CALL_TIMEOUT_SECS,
    {
        CallTimeout { secs: DEFAULT_CALL_TIMEOUT_SECS }
    }

    /// `(call_timeout SECS)`: later calls wait `secs` seconds.
    pub fn set(&mut self, secs: u64)
        ensures
            final(self).secs == secs,
    {
        self.secs = secs;
    }
}

/// The callee and message of `(call PID MSG)`.
pub fn call_args(args: &Vec<Val>) -> (r: Result<(ProcessId, Val), ServiceError>)
    ensures
        match vals_view(args@) {
            s => if s.len() == 2 && s[0] is Process {
                r matches Ok((p, m)) && ValView::Process(p@) == s[0] && m@ == s[1]
            } else {
                r == Err::<(ProcessId, Val), ServiceError>(ServiceError::CallArguments)
            },
        },
{
    proof {
        lemma_vals_view(args@);
    }
    if args.len() == 2 {
        match &args[0] {
            Val::Process(p) => Ok((p.duplicate(), args[1].duplicate())),
            _ => Err(ServiceError::CallArguments),
        }
    } else {
        Err(ServiceError::CallArguments)
    }
}

/// The destination and message of `(send PID MSG)`.
pub fn send_args(args: &Vec<Val>) -> (r: Result<(ProcessId, Val), ServiceError>)
    ensures
        match vals_view(args@) {
            s => if s.len() == 2 && s[0] is Process {
                r matches Ok((p, m)) && ValView::Process(p@) == s[0] && m@ == s[1]
            } else {
                r == Err::<(ProcessId, Val), ServiceError>(ServiceError::SendArguments)
            },
        },
{
    proof {
        lemma_vals_view(args@);
    }
    if args.len() == 2 {
        match &args[0] {
            Val::Process(p) => Ok((p.duplicate(), args[1].duplicate())),
            _ => Err(ServiceError::SendArguments),
        }
    } else {
        Err(ServiceError::SendArguments)
    }
}

/// What `send` returns once the message was handed on: the message itself,
/// or the text of the error that handing it on met.
pub fn send_result(msg: &Val, failure: Option<String>) -> (r: Result<Val, String>)
    ensures
        match failure {
            None => r matches Ok(v) && v@ == msg@,
            Some(e) => r == Err::<Val, String>(e),
        },
{
    match failure {
        None => Ok(msg.duplicate()),
        Some(e) => Err(e),
    }
}

/// `<pid ID>`: how a process id reads in messages.
pub open spec fn pid_text(p: PidView) -> Seq<char> {
    "<pid "@ + decimal(p.id as nat) + ">"@
}

/// The text of a process id.
pub fn format_pid(p: &ProcessId) -> (r: String)
    ensures
        r@ == pid_text(p@),
{
    let mut s = String::from_str("<pid ");
    let n = format_u128(*p.inner() as u128);
    s.append(n.as_str());
    s.append(">");
    s
}

/// Why a call returned no result.
#[derive(Debug)]
pub enum CallError {
    /// No reply came from `callee` within `seconds`; the request is not sent
    /// again.
    TimedOut { callee: ProcessId, seconds: u64 },
    /// The reply was not a list of at least two values.
    MalformedResponse,
}

impl CallError {
    /// The error as text.
    pub fn message(&self) -> (r: String)
        ensures
            match self {
                CallError::TimedOut { callee, seconds } => r@ == "call to "@ + pid_text(callee@)
                    + " timed out after "@ + decimal(*seconds as nat) + " seconds"@,
                CallError::MalformedResponse => r@ == "call received a malformed response"@,
            },
    {
        match self {
            CallError::TimedOut { callee, seconds } => {
                let mut s = String::from_str("call to ");
                let p = format_pid(callee);
                s.append(p.as_str());
                s.append(" timed out after ");
                let n = format_u128(*seconds as u128);
                s.append(n.as_str());
                s.append(" seconds");
                s
            },
            CallError::MalformedResponse => String::from_str("call received a malformed response"),
        }
    }
}

/// What a call to `callee` returns once its wait of `timeout_secs` seconds
/// is over: with no reply, the call fails as timed out (it is never
/// retried); with a reply `(REF RESULT ...)`, RESULT.
pub fn call_result(callee: &ProcessId, timeout_secs: u64, reply: Option<Val>) -> (r: Result<
    Val,
    CallError,
>)
    ensures
        match reply {
            None => r matches Err(CallError::TimedOut { callee: c, seconds }) && c@ == callee@
                && seconds == timeout_secs,
            Some(resp) => match resp@ {
                ValView::List(items) => if items.len() >= 2 {
                    r matches Ok(v) && v@ == items[1]
                } else {
                    r matches Err(CallError::MalformedResponse)
                },
                _ => r matches Err(CallError::MalformedResponse),
            },
        },
{
    match reply {
        None => Err(CallError::TimedOut { callee: callee.duplicate(), seconds: timeout_secs }),
        Some(resp) => match call_reply(&resp) {
            Ok(v) => Ok(v),
            Err(_) => Err(CallError::MalformedResponse),
        },
    }
}

/// Why `info-srv` answered with an error.
#[derive(Debug, PartialEq, Eq)]
pub enum InfoSrvError {
    /// `info-srv` takes a service keyword and a query keyword.
    Arguments,
    /// Nothing is registered under the keyword.
    NoService(String),
    /// The query is neither `pid` nor `interface`.
    UnexpectedQuery(String),
}

impl InfoSrvError {
    /// The error as text.
    pub fn message(&self) -> (r: String)
        ensures
            match self {
                InfoSrvError::Arguments => r@ == "info-srv expects single keyword argument"@,
                InfoSrvError::NoService(k) => r@ == "No service found for "@ + k@,
                InfoSrvError::UnexpectedQuery(q) => r@ == "info-srv got unexpected query: "@ + q@,
            },
    {
        match self {
            InfoSrvError::Arguments => String::from_str("info-srv expects single keyword argument"),
            InfoSrvError::NoService(k) => {
                let mut s = String::from_str("No service found for ");
                s.append(k.as_str());
                s
            },
            InfoSrvError::UnexpectedQuery(q) => {
                let mut s = String::from_str("info-srv got unexpected query: ");
                s.append(q.as_str());
                s
            },
        }
    }
}

/// The service keyword and the query keyword of `(info-srv SVC_NAME ATTR)`.
pub fn info_srv_args(args: &Vec<Val>) -> (r: Result<(String, String), InfoSrvError>)
    ensures
        match vals_view(args@) {
            s => if s.len() == 2 && s[0] is Keyword && s[1] is Keyword {
                r matches Ok((k, q)) && ValView::Keyword(k@) == s[0] && ValView::Keyword(q@) == s[1]
            } else {
                r == Err::<(String, String), InfoSrvError>(InfoSrvError::Arguments)
            },
        },
{
    proof {
        lemma_vals_view(args@);
    }
    if args.len() == 2 {
        match (&args[0], &args[1]) {
            (Val::Keyword(k), Val::Keyword(q)) => Ok((k.clone(), q.clone())),
            _ => Err(InfoSrvError::Arguments),
        }
    } else {
        Err(InfoSrvError::Arguments)
    }
}

/// What `info-srv` answers once the lookup of `name` found `entry`:
/// without an entry, that no service is found; otherwise its process for
/// `pid`, its interface for `interface`, and an error for any other query.
pub fn info_srv_answer(name: &str, entry: Option<Entry>, query: &str) -> (r: Result<
    Val,
    InfoSrvError,
>)
    ensures
        entry is None ==> (r matches Err(InfoSrvError::NoService(k)) && k@ == name@),
        entry is Some ==> if query@ == "pid"@ {
            r matches Ok(v) && v@ == ValView::Process(entry->Some_0@.desc.pid)
        } else if query@ == "interface"@ {
            r matches Ok(v) && v@ == ValView::List(entry->Some_0@.desc.details.interface)
        } else {
            r matches Err(InfoSrvError::UnexpectedQuery(q)) && q@ == query@
        },
{
    proof {
        reveal_strlit("pid");
        reveal_strlit("interface");
        assert("pid"@ =~= seq!['p', 'i', 'd']);
        assert("interface"@ =~= seq!['i', 'n', 't', 'e', 'r', 'f', 'a', 'c', 'e']);
    }
    match entry {
        None => Err(InfoSrvError::NoService(String::from_str(name))),
        Some(e) => match ServiceQuery::parse(query) {
            Some(ServiceQuery::Pid) => Ok(Val::Process(e.pid())),
            Some(ServiceQuery::Interface) => Ok(list(duplicate_vals(e.interface()))),
            None => Err(InfoSrvError::UnexpectedQuery(String::from_str(query))),
        },
    }
}

/// Where a message to `dst` goes.
#[derive(Debug, Clone, Copy, PartialEq, Eq, Structural)]
pub enum Route {
    /// To the sender's own mailbox.
    OwnMailbox,
    /// To another process of this node, through the kernel.
    Kernel,
    /// To another node, over its link.
    Peer,
}

/// Routes a message from `src` to `dst` on node `local_node`.
pub fn route_message(src: &ProcessId, dst: &ProcessId, local_node: &str) -> (r: Route)
    ensures
        r == (if dst@ == src@ {
            Route::OwnMailbox
        } else if dst@.node == local_node@ {
            Route::Kernel
        } else {
            Route::Peer
        }),
{
    if dst.same(src) {
        Route::OwnMailbox
    } else if str_eq(dst.node(), local_node) {
        Route::Kernel
    } else {
        Route::Peer
    }
}

/// How `ls_srv` shows an entry: `(:name NAME :pid PID [:node NODE]
/// [:interface (ITEM ...)])`, the node only for services of other nodes
/// and the interface only when there is one.
pub open spec fn spec_entry_val(
    name: Seq<char>,
    pid: PidView,
    local: bool,
    interface: Seq<ValView>,
) -> ValView {
    let base = seq![
        ValView::Keyword("name"@),
        ValView::Keyword(name),
        ValView::Keyword("pid"@),
        ValView::Process(pid),
    ];
    let with_node = if local {
        base
    } else {
        base + seq![ValView::Keyword("node"@), ValView::String(pid.node)]
    };
    ValView::List(
        if interface.len() == 0 {
            with_node
        } else {
            with_node + seq![ValView::Keyword("interface"@), ValView::List(interface)]
        },
    )
}

/// An entry as a value.
pub fn entry_val(entry: &Entry) -> (r: Val)
    ensures
        r@ == spec_entry_val(
            entry@.desc.name,
            entry@.desc.pid,
            entry@.local,
            entry@.desc.details.interface,
        ),
{
    let mut items: Vec<Val> = Vec::new();
    let a = keyword("name");
    let b = Val::Keyword(String::from_str(entry.keyword()));
    let c = keyword("pid");
    let d = Val::Process(entry.pid());
    let ghost base = seq![a@, b@, c@, d@];
    items.push(a);
    items.push(b);
    items.push(c);
    items.push(d);
    proof {
        lemma_vals_view(items@);
        assert(vals_view(items@) =~= base);
    }
    let ghost with_node = vals_view(items@);
    if !entry.is_local() {
        let e = keyword("node");
        let f = string(entry.node());
        proof {
            lemma_vals_view_push(items@, e);
        }
        items.push(e);
        proof {
            lemma_vals_view_push(items@, f);
        }
        items.push(f);
        proof {
            assert(vals_view(items@) =~= base + seq![
                ValView::Keyword("node"@),
                ValView::String(entry@.desc.pid.node),
            ]);
        }
    }
    let ghost mid = vals_view(items@);
    let iface = entry.interface();
    proof {
        lemma_vals_view(iface@);
    }
    if iface.len() > 0 {
        let g = keyword("interface");
        let h = Val::List(crate::value::duplicate_vals(iface));
        proof {
            lemma_vals_view_push(items@, g);
        }
        items.push(g);
        proof {
            lemma_vals_view_push(items@, h);
        }
        items.push(h);
        proof {
            assert(vals_view(items@) =~= mid + seq![
                ValView::Keyword("interface"@),
                ValView::List(entry@.desc.details.interface),
            ]);
        }
    }
    list(items)
}

} // verus!

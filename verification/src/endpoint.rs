//! Node endpoints: the `tcp://HOST[:PORT]` and `ssh://HOST[:PORT]` grammar,
//! node names, and which side of a doubled link a node keeps.
use vstd::prelude::*;
use vstd::string::*;

use crate::text::{
    decimal, format_u16, has_prefix, is_ascii_alnum, is_digit, lemma_decimal, lemma_rfind_bounds, parse_u16, rfind_char, seq_lt,
    spec_parse_u16, spec_rfind, str_lt,
};

verus! {

/// VRS port of release builds; a node endpoint without `:PORT` uses it.
pub const DEFAULT_NODE_PORT: u16 = 8773;

/// VRS port of debug builds, which keeps a development daemon apart.
pub const DEBUG_NODE_PORT: u16 = 8774;

/// The listener port of a build.
pub fn default_node_port(debug_build: bool) -> (r: u16)
    ensures
        r == (if debug_build { DEBUG_NODE_PORT } else { DEFAULT_NODE_PORT }),
{
    if debug_build {
        DEBUG_NODE_PORT
    } else {
        DEFAULT_NODE_PORT
    }
}

/// Which side opened a node link.
#[derive(Debug, Clone, Copy, PartialEq, Eq, Structural)]
pub enum Direction {
    Incoming,
    Outgoing,
}

/// A node link target with an explicit transport.
#[derive(Debug, Clone, PartialEq, Eq)]
pub enum NodeEndpoint {
    /// `host:port` to connect to over TCP.
    Tcp(String),
    /// SSH destination (an alias or `user@host`) and the remote VRS port.
    Ssh { host: String, port: u16 },
}

/// The abstract value of a [NodeEndpoint].
pub enum EndpointView {
    Tcp(Seq<char>),
    Ssh(Seq<char>, u16),
}

impl View for NodeEndpoint {
    type V = EndpointView;

    open spec fn view(&self) -> EndpointView {
        match self {
            NodeEndpoint::Tcp(a) => EndpointView::Tcp(a@),
            NodeEndpoint::Ssh { host, port } => EndpointView::Ssh(host@, *port),
        }
    }
}

/// Characters allowed in a node name.
pub open spec fn is_node_char(c: char) -> bool {
    is_ascii_alnum(c) || c == '.' || c == '-' || c == '_'
}

/// A node name: non-empty, of ASCII letters, digits, `.`, `-` and `_`.
pub open spec fn spec_valid_node_name(s: Seq<char>) -> bool {
    s.len() > 0 && forall|i: int| 0 <= i < s.len() ==> is_node_char(#[trigger] s[i])
}

/// An SSH destination: non-empty, not an option (no leading `-`), of node
/// name characters and `@`.
pub open spec fn spec_valid_ssh_host(s: Seq<char>) -> bool {
    &&& s.len() > 0
    &&& s[0] != '-'
    &&& forall|i: int| 0 <= i < s.len() ==> (is_node_char(#[trigger] s[i]) || s[i] == '@')
}

/// The text before the last `:` of `s` (meaningful when there is one).
pub open spec fn before_last_colon(s: Seq<char>) -> Seq<char> {
    s.subrange(0, spec_rfind(s, ':'))
}

/// The text after the last `:` of `s` (meaningful when there is one).
pub open spec fn after_last_colon(s: Seq<char>) -> Seq<char> {
    s.subrange(spec_rfind(s, ':') + 1, s.len() as int)
}

/// The TCP address that a `tcp://` endpoint names: a bare node name gets the
/// default port; otherwise the text must be `NAME:PORT`.
pub open spec fn spec_tcp_address(a: Seq<char>) -> Option<Seq<char>> {
    if spec_valid_node_name(a) {
        Some(a + seq![':'] + decimal(DEFAULT_NODE_PORT as nat))
    } else if spec_rfind(a, ':') >= 0 && spec_valid_node_name(before_last_colon(a))
        && spec_parse_u16(after_last_colon(a)) is Some {
        Some(a)
    } else {
        None
    }
}

/// The SSH destination and port that an `ssh://` endpoint names.
pub open spec fn spec_ssh_target(t: Seq<char>) -> Option<(Seq<char>, u16)> {
    if spec_valid_ssh_host(t) {
        Some((t, DEFAULT_NODE_PORT))
    } else if spec_rfind(t, ':') >= 0 && spec_parse_u16(after_last_colon(t)) is Some
        && spec_valid_ssh_host(before_last_colon(t)) {
        Some((before_last_colon(t), spec_parse_u16(after_last_colon(t))->0))
    } else {
        None
    }
}

pub open spec fn tcp_scheme() -> Seq<char> {
    seq!['t', 'c', 'p', ':', '/', '/']
}

pub open spec fn ssh_scheme() -> Seq<char> {
    seq!['s', 's', 'h', ':', '/', '/']
}

/// What an endpoint string denotes, if anything.
pub open spec fn spec_parse_endpoint(e: Seq<char>) -> Option<EndpointView> {
    if has_prefix(e, tcp_scheme()) {
        match spec_tcp_address(e.skip(6)) {
            Some(a) => Some(EndpointView::Tcp(a)),
            None => None,
        }
    } else if has_prefix(e, ssh_scheme()) {
        match spec_ssh_target(e.skip(6)) {
            Some((h, p)) => Some(EndpointView::Ssh(h, p)),
            None => None,
        }
    } else {
        None
    }
}

/// The canonical text of an endpoint; the default SSH port is left implicit.
pub open spec fn spec_label(e: EndpointView) -> Seq<char> {
    match e {
        EndpointView::Tcp(a) => tcp_scheme() + a,
        EndpointView::Ssh(h, p) => if p == DEFAULT_NODE_PORT {
            ssh_scheme() + h
        } else {
            ssh_scheme() + h + seq![':'] + decimal(p as nat)
        },
    }
}

fn is_node_char_exec(c: char) -> (r: bool)
    ensures
        r == is_node_char(c),
{
    ('a' <= c && c <= 'z') || ('A' <= c && c <= 'Z') || ('0' <= c && c <= '9') || c == '.' || c
        == '-' || c == '_'
}

/// Whether `node` is a valid node name.
pub fn valid_node_name(node: &str) -> (r: bool)
    ensures
        r == spec_valid_node_name(node@),
{
    let n = node.unicode_len();
    if n == 0 {
        return false;
    }
    let mut i: usize = 0;
    while i < n
        invariant
            n == node@.len(),
            i <= n,
            forall|j: int| 0 <= j < i ==> is_node_char(#[trigger] node@[j]),
        decreases n - i,
    {
        if !is_node_char_exec(node.get_char(i)) {
            return false;
        }
        i = i + 1;
    }
    true
}

/// Whether `host` may be handed to `ssh` as its destination argument.
pub fn valid_ssh_host(host: &str) -> (r: bool)
    ensures
        r == spec_valid_ssh_host(host@),
{
    let n = host.unicode_len();
    if n == 0 || host.get_char(0) == '-' {
        return false;
    }
    let mut i: usize = 0;
    while i < n
        invariant
            n == host@.len(),
            i <= n,
            forall|j: int| 0 <= j < i ==> (is_node_char(#[trigger] host@[j]) || host@[j] == '@'),
        decreases n - i,
    {
        let c = host.get_char(i);
        if !(is_node_char_exec(c) || c == '@') {
            return false;
        }
        i = i + 1;
    }
    true
}

/// Splits `s` at its last `:`.
fn split_last_colon(s: &str) -> (r: Option<(&str, &str)>)
    ensures
        match r {
            Some((a, b)) => spec_rfind(s@, ':') >= 0 && a@ == before_last_colon(s@) && b@
                == after_last_colon(s@),
            None => spec_rfind(s@, ':') < 0,
        },
{
    match rfind_char(s, ':') {
        None => None,
        Some(i) => {
            proof {
                lemma_rfind_bounds(s@, ':');
            }
            let n = s.unicode_len();
            Some((s.substring_char(0, i), s.substring_char(i + 1, n)))
        },
    }
}

/// The TCP address named by the text after `tcp://`.
pub fn tcp_address(address: &str) -> (r: Option<String>)
    ensures
        match r {
            Some(a) => spec_tcp_address(address@) == Some(a@),
            None => spec_tcp_address(address@) is None,
        },
{
    if valid_node_name(address) {
        let mut a = String::from_str(address);
        proof {
            reveal_strlit(":");
        }
        a.append(":");
        let port = format_u16(DEFAULT_NODE_PORT);
        a.append(port.as_str());
        return Some(a);
    }
    match split_last_colon(address) {
        None => None,
        Some((host, port)) => {
            if !valid_node_name(host) || parse_u16(port).is_none() {
                None
            } else {
                Some(String::from_str(address))
            }
        },
    }
}

/// The SSH destination and port named by the text after `ssh://`.
pub fn ssh_target(target: &str) -> (r: Option<(String, u16)>)
    ensures
        match r {
            Some((h, p)) => spec_ssh_target(target@) == Some((h@, p)),
            None => spec_ssh_target(target@) is None,
        },
{
    if valid_ssh_host(target) {
        return Some((String::from_str(target), DEFAULT_NODE_PORT));
    }
    match split_last_colon(target) {
        None => None,
        Some((host, port)) => match parse_u16(port) {
            None => None,
            Some(p) => {
                if valid_ssh_host(host) {
                    Some((String::from_str(host), p))
                } else {
                    None
                }
            },
        },
    }
}

/// Whether `s` starts with `p`; if so, the rest of `s`.
fn strip_prefix<'a>(s: &'a str, p: &str) -> (r: Option<&'a str>)
    ensures
        match r {
            Some(rest) => has_prefix(s@, p@) && rest@ == s@.skip(p@.len() as int),
            None => !has_prefix(s@, p@),
        },
{
    let n = s.unicode_len();
    let m = p.unicode_len();
    if m > n {
        return None;
    }
    let mut i: usize = 0;
    while i < m
        invariant
            n == s@.len(),
            m == p@.len(),
            m <= n,
            i <= m,
            s@.subrange(0, i as int) =~= p@.subrange(0, i as int),
        decreases m - i,
    {
        if s.get_char(i) != p.get_char(i) {
            proof {
                assert(s@.subrange(0, m as int)[i as int] == s@[i as int]);
            }
            return None;
        }
        proof {
            assert(s@.subrange(0, i + 1) =~= s@.subrange(0, i as int).push(s@[i as int]));
            assert(p@.subrange(0, i + 1) =~= p@.subrange(0, i as int).push(p@[i as int]));
        }
        i = i + 1;
    }
    proof {
        assert(p@.subrange(0, m as int) =~= p@);
    }
    Some(s.substring_char(m, n))
}

impl NodeEndpoint {
    /// Reads an endpoint string; `None` when the transport is missing or the
    /// host or port is invalid.
    pub fn parse(endpoint: &str) -> (r: Option<NodeEndpoint>)
        ensures
            match r {
                Some(e) => spec_parse_endpoint(endpoint@) == Some(e@),
                None => spec_parse_endpoint(endpoint@) is None,
            },
    {
        proof {
            reveal_strlit("tcp://");
            reveal_strlit("ssh://");
            assert("tcp://"@ =~= tcp_scheme());
            assert("ssh://"@ =~= ssh_scheme());
        }
        if let Some(address) = strip_prefix(endpoint, "tcp://") {
            return match tcp_address(address) {
                Some(a) => Some(NodeEndpoint::Tcp(a)),
                None => None,
            };
        }
        if let Some(host) = strip_prefix(endpoint, "ssh://") {
            return match ssh_target(host) {
                Some((host, port)) => Some(NodeEndpoint::Ssh { host, port }),
                None => None,
            };
        }
        None
    }

    /// The endpoint written back as text.
    pub fn label(&self) -> (r: String)
        ensures
            r@ == spec_label(self@),
    {
        proof {
            reveal_strlit("tcp://");
            reveal_strlit("ssh://");
            reveal_strlit(":");
            assert("tcp://"@ =~= tcp_scheme());
            assert("ssh://"@ =~= ssh_scheme());
        }
        match self {
            NodeEndpoint::Tcp(address) => {
                let mut s = String::from_str("tcp://");
                s.append(address.as_str());
                s
            },
            NodeEndpoint::Ssh { host, port } => {
                let mut s = String::from_str("ssh://");
                s.append(host.as_str());
                if *port != DEFAULT_NODE_PORT {
                    s.append(":");
                    let p = format_u16(*port);
                    s.append(p.as_str());
                }
                s
            },
        }
    }
}

/// Which direction of a doubled link between two nodes survives: the node
/// whose name sorts first keeps its outgoing link, the other its incoming one.
pub fn preferred_direction(local_node: &str, remote_node: &str) -> (d: Direction)
    ensures
        d == spec_preferred(local_node@, remote_node@),
{
    if str_lt(local_node, remote_node) {
        Direction::Outgoing
    } else {
        Direction::Incoming
    }
}

/// The direction that `local` keeps of a doubled link with `remote`.
pub open spec fn spec_preferred(local: Seq<char>, remote: Seq<char>) -> Direction {
    if seq_lt(local, remote) {
        Direction::Outgoing
    } else {
        Direction::Incoming
    }
}

/// Of two different names, exactly one sorts first.
pub proof fn lemma_seq_lt_trichotomy(a: Seq<char>, b: Seq<char>)
    requires
        a != b,
    ensures
        seq_lt(a, b) != seq_lt(b, a),
    decreases a.len(),
{
    if a.len() > 0 && b.len() > 0 && a[0] == b[0] {
        assert(a.drop_first() != b.drop_first()) by {
            if a.drop_first() == b.drop_first() {
                assert(a =~= seq![a[0]] + a.drop_first());
                assert(b =~= seq![b[0]] + b.drop_first());
            }
        }
        lemma_seq_lt_trichotomy(a.drop_first(), b.drop_first());
    } else if a.len() == 0 && b.len() == 0 {
        assert(a =~= b);
    } else if a.len() > 0 && b.len() > 0 {
        assert(a[0] as int != b[0] as int);
    }
}

/// Law: both ends of a doubled link keep the same link. Where two nodes
/// each hold two links to the other, the node whose name sorts first keeps
/// its outgoing one and the other node its incoming one, which is the same
/// connection.
pub proof fn law_both_sides_keep_the_same_link(a: Seq<char>, b: Seq<char>)
    requires
        a != b,
    ensures
        spec_preferred(a, b) == Direction::Outgoing <==> spec_preferred(b, a) == Direction::Incoming,
{
    lemma_seq_lt_trichotomy(a, b);
}

/// In `x:d`, where `d` holds no `:`, the last `:` is the one after `x`.
proof fn lemma_rfind_separator(x: Seq<char>, d: Seq<char>)
    requires
        forall|j: int| 0 <= j < d.len() ==> d[j] != ':',
    ensures
        spec_rfind(x + seq![':'] + d, ':') == x.len(),
        before_last_colon(x + seq![':'] + d) == x,
        after_last_colon(x + seq![':'] + d) == d,
    decreases d.len(),
{
    let s = x + seq![':'] + d;
    if d.len() == 0 {
        assert(s.last() == ':');
    } else {
        assert(s.drop_last() =~= x + seq![':'] + d.drop_last());
        assert(s.last() == d.last());
        lemma_rfind_separator(x, d.drop_last());
    }
    assert(s.subrange(0, x.len() as int) =~= x);
    assert(s.subrange(x.len() as int + 1, s.len() as int) =~= d);
}

/// The decimal notation of a port reads back as that port, and holds no `:`.
proof fn lemma_port_text(p: u16)
    ensures
        spec_parse_u16(decimal(p as nat)) == Some(p),
        forall|j: int| 0 <= j < decimal(p as nat).len() ==> decimal(p as nat)[j] != ':',
{
    lemma_decimal(p as nat);
    let d = decimal(p as nat);
    assert(is_digit(d[0]));
    assert forall|j: int| 0 <= j < d.len() implies d[j] != ':' by {
        assert(is_digit(d[j]));
    }
}

/// Text with a `:` in it is neither a node name nor an SSH destination.
proof fn lemma_colon_not_name(s: Seq<char>, i: int)
    requires
        0 <= i < s.len(),
        s[i] == ':',
    ensures
        !spec_valid_node_name(s),
        !spec_valid_ssh_host(s),
{
    assert(!is_node_char(s[i]));
}

/// Law: an endpoint's label is an endpoint string for the same endpoint:
/// whatever string parses, its parsed endpoint's label parses back to it.
pub proof fn law_label_parses_back(s: Seq<char>)
    requires
        spec_parse_endpoint(s) is Some,
    ensures
        spec_parse_endpoint(spec_label(spec_parse_endpoint(s)->0)) == spec_parse_endpoint(s),
{
    let e = spec_parse_endpoint(s)->0;
    let l = spec_label(e);
    match e {
        EndpointView::Tcp(a) => {
            assert(has_prefix(s, tcp_scheme()));
            let t = s.skip(6);
            assert(l.subrange(0, 6) =~= tcp_scheme());
            assert(l.skip(6) =~= a);
            if spec_valid_node_name(t) {
                let d = decimal(DEFAULT_NODE_PORT as nat);
                lemma_port_text(DEFAULT_NODE_PORT);
                assert(a == t + seq![':'] + d);
                lemma_rfind_separator(t, d);
                lemma_colon_not_name(a, t.len() as int);
            } else {
                assert(a == t);
                lemma_rfind_bounds(a, ':');
                lemma_colon_not_name(a, spec_rfind(a, ':'));
            }
        },
        EndpointView::Ssh(h, p) => {
            assert(!has_prefix(s, tcp_scheme()) && has_prefix(s, ssh_scheme()));
            let t = s.skip(6);
            assert(l.subrange(0, 6) =~= ssh_scheme());
            assert(!has_prefix(l, tcp_scheme())) by {
                assert(l[0] == 's');
                assert(tcp_scheme()[0] == 't');
                assert(l.subrange(0, 6)[0] == l[0]);
            }
            assert(spec_valid_ssh_host(h));
            if p == DEFAULT_NODE_PORT {
                assert(l.skip(6) =~= h);
            } else {
                let d = decimal(p as nat);
                lemma_port_text(p);
                assert(l.skip(6) =~= h + seq![':'] + d);
                lemma_rfind_separator(h, d);
                lemma_colon_not_name(h + seq![':'] + d, h.len() as int);
            }
        },
    }
}

/// Program that carries an SSH node link.
pub fn ssh_program() -> (r: &'static str)
    ensures
        r@ == seq!['s', 's', 'h'],
{
    proof {
        reveal_strlit("ssh");
    }
    "ssh"
}

/// `-W 127.0.0.1:PORT`'s forwarding target.
pub open spec fn forward_target(port: u16) -> Seq<char> {
    seq!['1', '2', '7', '.', '0', '.', '0', '.', '1', ':'] + decimal(port as nat)
}

/// Arguments of the `ssh` command that forwards stdio to the remote node's
/// VRS port on its localhost, non-interactively.
pub open spec fn spec_ssh_args(host: Seq<char>, port: u16) -> Seq<Seq<char>> {
    seq![
        seq!['-', 'T'],
        seq!['-', 'o'],
        seq!['B', 'a', 't', 'c', 'h', 'M', 'o', 'd', 'e', '=', 'y', 'e', 's'],
        seq!['-', 'W'],
        forward_target(port),
        host
    ]
}

/// The view of a list of strings.
pub open spec fn strings_view(v: Seq<String>) -> Seq<Seq<char>> {
    v.map_values(|s: String| s@)
}

/// Arguments of the `ssh` command for a link to `host`'s port `port`.
pub fn ssh_args(host: &str, port: u16) -> (r: Vec<String>)
    ensures
        strings_view(r@) == spec_ssh_args(host@, port),
{
    proof {
        reveal_strlit("-T");
        reveal_strlit("-o");
        reveal_strlit("BatchMode=yes");
        reveal_strlit("-W");
        reveal_strlit("127.0.0.1:");
        assert("-T"@ =~= seq!['-', 'T']);
        assert("-o"@ =~= seq!['-', 'o']);
        assert("BatchMode=yes"@ =~= seq!['B', 'a', 't', 'c', 'h', 'M', 'o', 'd', 'e', '=', 'y', 'e', 's']);
        assert("-W"@ =~= seq!['-', 'W']);
        assert("127.0.0.1:"@ =~= seq!['1', '2', '7', '.', '0', '.', '0', '.', '1', ':']);
    }
    let mut target = String::from_str("127.0.0.1:");
    let p = format_u16(port);
    target.append(p.as_str());
    let mut r: Vec<String> = Vec::new();
    r.push(String::from_str("-T"));
    r.push(String::from_str("-o"));
    r.push(String::from_str("BatchMode=yes"));
    r.push(String::from_str("-W"));
    r.push(target);
    r.push(String::from_str(host));
    proof {
        let v = strings_view(r@);
        let w = spec_ssh_args(host@, port);
        assert(v.len() == w.len());
        assert forall|i: int| 0 <= i < v.len() implies v[i] == w[i] by {
            assert(v[i] == r@[i]@);
        }
        assert(v =~= w);
    }
    r
}

} // verus!

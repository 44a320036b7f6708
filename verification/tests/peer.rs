use libvrs::endpoint::{
    default_node_port, preferred_direction, ssh_args, ssh_program, ssh_target, tcp_address,
    valid_node_name, valid_ssh_host, Direction, NodeEndpoint, DEFAULT_NODE_PORT,
};

#[test]
fn node_endpoints_have_explicit_transports_and_optional_ports() {
    assert_eq!(
        NodeEndpoint::parse("tcp://node"),
        Some(NodeEndpoint::Tcp("node:8773".to_string()))
    );
    assert_eq!(
        NodeEndpoint::parse("tcp://127.0.0.1:4567"),
        Some(NodeEndpoint::Tcp("127.0.0.1:4567".to_string()))
    );
    assert_eq!(
        NodeEndpoint::parse("ssh://node"),
        Some(NodeEndpoint::Ssh {
            host: "node".to_string(),
            port: 8773,
        })
    );
    assert_eq!(
        NodeEndpoint::parse("ssh://user@node:4567"),
        Some(NodeEndpoint::Ssh {
            host: "user@node".to_string(),
            port: 4567,
        })
    );
    assert_eq!(NodeEndpoint::parse("node"), None);
    assert_eq!(NodeEndpoint::parse("ssh://-oProxyCommand=bad"), None);
    assert_eq!(NodeEndpoint::parse("tcp://node:not-a-port"), None);
}

#[test]
fn ssh_links_forward_stdio_to_the_remote_vrs_port() {
    assert_eq!(ssh_program(), "ssh");
    assert_eq!(
        ssh_args("node", 4567),
        ["-T", "-o", "BatchMode=yes", "-W", "127.0.0.1:4567", "node"]
    );
}

#[test]
fn endpoint_labels_round_trip() {
    for text in ["tcp://node:8773", "tcp://127.0.0.1:4567", "ssh://node", "ssh://user@node:4567"] {
        assert_eq!(NodeEndpoint::parse(text).unwrap().label(), text);
    }
    assert_eq!(NodeEndpoint::parse("tcp://node").unwrap().label(), "tcp://node:8773");
    assert_eq!(NodeEndpoint::parse("ssh://node:8773").unwrap().label(), "ssh://node");
    assert_eq!(
        NodeEndpoint::Ssh { host: "h".to_string(), port: 9 }.label(),
        "ssh://h:9"
    );
}

#[test]
fn endpoint_ports_follow_u16_syntax() {
    assert_eq!(tcp_address("node:+80"), Some("node:+80".to_string()));
    assert_eq!(tcp_address("node:65535"), Some("node:65535".to_string()));
    assert_eq!(tcp_address("node:65536"), None);
    assert_eq!(tcp_address("node:"), None);
    assert_eq!(tcp_address("node:+"), None);
    assert_eq!(tcp_address("node:-1"), None);
    assert_eq!(tcp_address("no de:80"), None);
    assert_eq!(tcp_address(""), None);
    assert_eq!(ssh_target("a@b:007"), Some(("a@b".to_string(), 7)));
    assert_eq!(ssh_target("-x:22"), None);
    assert_eq!(ssh_target("a:b:22"), None);
    assert_eq!(ssh_target(""), None);
    assert_eq!(NodeEndpoint::parse("udp://node"), None);
    assert_eq!(NodeEndpoint::parse("tcp:/node"), None);
}

#[test]
fn node_names_and_ssh_hosts() {
    assert!(valid_node_name("alpha-1.local_x"));
    assert!(!valid_node_name(""));
    assert!(!valid_node_name("a@b"));
    assert!(!valid_node_name("é"));
    assert!(valid_ssh_host("user@host"));
    assert!(!valid_ssh_host("-oProxyCommand"));
    assert!(!valid_ssh_host(""));
    assert!(!valid_ssh_host("a b"));
}

#[test]
fn doubled_links_keep_one_direction_per_pair() {
    assert_eq!(preferred_direction("alpha", "beta"), Direction::Outgoing);
    assert_eq!(preferred_direction("beta", "alpha"), Direction::Incoming);
    assert_eq!(preferred_direction("a", "ab"), Direction::Outgoing);
    assert_eq!(preferred_direction("ab", "a"), Direction::Incoming);
    assert_eq!(preferred_direction("same", "same"), Direction::Incoming);
    assert_eq!(DEFAULT_NODE_PORT, 8773);
    assert_eq!(default_node_port(true), 8774);
    assert_eq!(default_node_port(false), 8773);
}

#[test]
fn labels_parse_back_to_their_endpoint() {
    for s in ["tcp://alpha", "tcp://alpha:9000", "ssh://me@host", "ssh://host:8773", "ssh://host:22"] {
        let e = NodeEndpoint::parse(s).unwrap();
        assert_eq!(NodeEndpoint::parse(&e.label()), Some(e));
    }
    assert_eq!(NodeEndpoint::parse("tcp://alpha").unwrap().label(), "tcp://alpha:8773");
    assert_eq!(NodeEndpoint::parse("ssh://host:8773").unwrap().label(), "ssh://host");
}

use raftfwk::kit::{check_addr, decimal_string, get_peer_host, no_port};
use raftfwk::meta::ServerMeta;
use raftfwk::msg::{Command, CommandType, RaftError};
use raftfwk::service::RaftContext;

#[test]
fn check_addr_accepts_host_and_port() {
    assert!(check_addr(&String::from("127.0.0.1:8010")));
    assert!(check_addr(&String::from(":")));
}

#[test]
fn check_addr_rejects_other_shapes() {
    assert!(!check_addr(&String::from("localhost")));
    assert!(!check_addr(&String::from("")));
    assert!(!check_addr(&String::from("a:b:c")));
}

#[test]
fn no_port_keeps_the_host() {
    assert_eq!(no_port(&String::from("192.168.1.2:8010")), "192.168.1.2");
    assert_eq!(no_port(&String::from("plainhost")), "plainhost");
    assert_eq!(no_port(&String::from(":80")), "");
}

#[test]
fn get_peer_host_takes_the_second_piece() {
    assert_eq!(get_peer_host(&String::from("ipv4:127.0.0.1:50312")), "127.0.0.1");
    assert_eq!(get_peer_host(&String::from("a:b")), "b");
    assert_eq!(get_peer_host(&String::from("x:")), "");
}

#[test]
fn server_meta_default_knows_no_leader() {
    assert_eq!(ServerMeta::default().leader_id, 0);
}

#[test]
fn new_join_builds_a_join_command() {
    let c = Command::new_join(7, 8070);
    assert_eq!(c.command, CommandType::Join);
    assert_eq!(c.id, 7);
    assert_eq!(c.port, 8070);
    assert!(c.host.is_none());
}

#[test]
fn raft_error_reads_with_prefix() {
    let e = RaftError::new(1020, String::from("The node is not a leader"));
    assert_eq!(e.what, 1020);
    assert_eq!(e.to_string(), "RaftError: The node is not a leader");
}

#[test]
fn raft_context_leadership() {
    let mut ctx = RaftContext::new(3);
    assert_eq!(ctx.id, 3);
    assert_eq!(ctx.leader_id, 0);
    assert!(ctx.peers.is_empty());
    assert!(!ctx.is_leader());
    ctx.leader_id = 3;
    assert!(ctx.is_leader());
}

#[test]
fn decimal_string_writes_digits() {
    assert_eq!(decimal_string(0), "0");
    assert_eq!(decimal_string(7), "7");
    assert_eq!(decimal_string(10), "10");
    assert_eq!(decimal_string(8060), "8060");
    assert_eq!(decimal_string(u64::MAX), u64::MAX.to_string());
}

use chat_relay::command::parse_private_message;
use chat_relay::registry::Registry;
use chat_relay::router::{broadcast_line, evict_failed, plan_route, private_line, route_line, Dispatch};
use chat_relay::supervisor::{handshake_line, IdAllocator, ReadEvent, Session, Step};
use chat_relay::text::decimal_string;

/// Each registered handle is an index into `inboxes`; a dead peer's writes fail.
fn deliver(
    reg: &Registry<usize>,
    d: &Dispatch,
    inboxes: &mut Vec<Vec<String>>,
    dead: &[usize],
) -> Vec<usize> {
    let mut failed = Vec::new();
    for &id in d.targets.iter() {
        let h = *reg.get(id).unwrap();
        if dead.contains(&id) {
            failed.push(id);
        } else {
            inboxes[h].push(d.message.clone());
        }
    }
    failed
}

#[test]
fn test_parse_private_message() {
    let input = "/msg 2 Hello, Client 2!";
    let result = parse_private_message(input);
    assert_eq!(result, Some((2, "Hello, Client 2!".to_string())));

    let invalid_input = "/msg Hello, Client!";
    let invalid_result = parse_private_message(invalid_input);
    assert_eq!(invalid_result, None);

    let invalid_input = "msg 2 Hello!";
    let invalid_result = parse_private_message(invalid_input);
    assert_eq!(invalid_result, None);
}

#[test]
fn test_send_private_message() {
    let mut reg: Registry<usize> = Registry::new();
    reg.insert(1, 0);
    let mut inboxes = vec![Vec::new()];
    let message = "[Private] Client 1: Hello!";
    let d = plan_route(&reg, 1, "/msg 1 Hello!");
    assert_eq!(d.targets, vec![1]);
    let failed = deliver(&reg, &d, &mut inboxes, &[]);
    assert!(failed.is_empty());
    assert_eq!(inboxes[0].len(), 1);
    assert_eq!(inboxes[0][0].trim(), message);
}

#[test]
fn test_broadcast_message() {
    let mut reg: Registry<usize> = Registry::new();
    reg.insert(1, 0);
    reg.insert(2, 1);
    let mut inboxes = vec![Vec::new(), Vec::new()];
    let message = "Hello, everyone!";
    let d = plan_route(&reg, 1, message);
    assert_eq!(d.targets, vec![1, 2]);
    deliver(&reg, &d, &mut inboxes, &[]);
    let expected = format!("Client 1: {}", message);
    assert_eq!(inboxes[0][0].trim(), expected);
    assert_eq!(inboxes[1][0].trim(), expected);
}

#[test]
fn test_broadcast_and_private_message() {
    let mut alloc = IdAllocator::new();
    let mut reg: Registry<usize> = Registry::new();
    let mut inboxes: Vec<Vec<String>> = Vec::new();
    let mut sessions = Vec::new();
    for _ in 0..2 {
        let id = alloc.next_id();
        inboxes.push(vec![handshake_line(id)]);
        reg.insert(id, inboxes.len() - 1);
        sessions.push(Session::new(id));
    }
    assert_eq!(inboxes[0][0].trim(), "Your ID: 1");
    assert_eq!(inboxes[1][0].trim(), "Your ID: 2");

    let event = ReadEvent::Line("Hello from Client 1\n".to_string());
    match sessions[0].on_read(&reg, &event) {
        Step::Deliver(d) => {
            deliver(&reg, &d, &mut inboxes, &[]);
        }
        _ => panic!("a line is routed"),
    }
    assert_eq!(inboxes[1][1].trim(), "Client 1: Hello from Client 1");

    let event = ReadEvent::Line("/msg 2 Hello, Client 2!\n".to_string());
    match sessions[0].on_read(&reg, &event) {
        Step::Deliver(d) => {
            deliver(&reg, &d, &mut inboxes, &[]);
        }
        _ => panic!("a line is routed"),
    }
    assert_eq!(inboxes[1][2].trim(), "[Private] Client 1: Hello, Client 2!");
    // the private line reached nobody else
    assert_eq!(inboxes[0].len(), 2);
}

#[test]
fn identities_are_one_to_n() {
    let mut alloc = IdAllocator::new();
    let ids: Vec<usize> = (0..5).map(|_| alloc.next_id()).collect();
    assert_eq!(ids, vec![1, 2, 3, 4, 5]);
    assert_eq!(alloc.issued_count(), 5);
}

#[test]
fn handshake_formats_identity() {
    assert_eq!(handshake_line(1), "Your ID: 1\n");
    assert_eq!(handshake_line(407), "Your ID: 407\n");
}

#[test]
fn decimal_rendering() {
    assert_eq!(decimal_string(0), "0");
    assert_eq!(decimal_string(10), "10");
    assert_eq!(decimal_string(usize::MAX), usize::MAX.to_string());
}

#[test]
fn outbound_formats() {
    assert_eq!(broadcast_line(12, "hi there"), "Client 12: hi there\n");
    assert_eq!(private_line(3, "psst"), "[Private] Client 3: psst\n");
}

#[test]
fn parse_edge_cases() {
    assert_eq!(parse_private_message("/msg 2"), None);
    assert_eq!(parse_private_message("/msg 2 "), Some((2, String::new())));
    assert_eq!(parse_private_message("/msg  2 x"), None);
    assert_eq!(parse_private_message("/msg 2x y"), None);
    assert_eq!(parse_private_message("/msg +2 y"), None);
    assert_eq!(parse_private_message("/msg"), None);
    assert_eq!(parse_private_message(""), None);
    assert_eq!(
        parse_private_message("/msg 7 a  b c"),
        Some((7, "a  b c".to_string()))
    );
    let max = format!("/msg {} z", usize::MAX);
    assert_eq!(parse_private_message(&max), Some((usize::MAX, "z".to_string())));
    let over = format!("/msg {}0 z", usize::MAX);
    assert_eq!(parse_private_message(&over), None);
}

#[test]
fn malformed_command_is_broadcast_whole() {
    let mut reg: Registry<usize> = Registry::new();
    reg.insert(1, 0);
    reg.insert(2, 1);
    let d = plan_route(&reg, 2, "/msg x hello");
    assert_eq!(d.targets, vec![1, 2]);
    assert_eq!(d.message, "Client 2: /msg x hello\n");
}

#[test]
fn unknown_target_reaches_nobody() {
    let mut reg: Registry<usize> = Registry::new();
    reg.insert(1, 0);
    reg.insert(2, 1);
    let d = plan_route(&reg, 1, "/msg 9 anyone?");
    assert!(d.targets.is_empty());
    assert_eq!(d.message, "[Private] Client 1: anyone?\n");
    assert_eq!(reg.ids_vec(), vec![1, 2]);
}

#[test]
fn route_line_trims_terminator_and_whitespace() {
    let mut reg: Registry<usize> = Registry::new();
    reg.insert(3, 0);
    let d = route_line(&reg, 3, "  hi \r\n");
    assert_eq!(d.message, "Client 3: hi\n");
    let d = route_line(&reg, 3, "/msg 3 to me\n");
    assert_eq!(d.targets, vec![3]);
    assert_eq!(d.message, "[Private] Client 3: to me\n");
}

#[test]
fn removing_absent_identity_is_noop() {
    let mut reg: Registry<usize> = Registry::new();
    reg.insert(1, 10);
    reg.insert(2, 20);
    reg.remove(2);
    reg.remove(2);
    reg.remove(7);
    assert_eq!(reg.ids_vec(), vec![1]);
    assert_eq!(reg.get(1), Some(&10));
    assert_eq!(reg.get(2), None);
}

#[test]
fn insert_existing_identity_replaces_in_place() {
    let mut reg: Registry<usize> = Registry::new();
    reg.insert(1, 10);
    reg.insert(2, 20);
    reg.insert(1, 11);
    assert_eq!(reg.ids_vec(), vec![1, 2]);
    assert_eq!(reg.get(1), Some(&11));
    assert_eq!(reg.len(), 2);
}

#[test]
fn dead_peer_is_evicted_once() {
    let mut reg: Registry<usize> = Registry::new();
    for id in 1..=3 {
        reg.insert(id, id - 1);
    }
    let mut inboxes = vec![Vec::new(), Vec::new(), Vec::new()];
    let d = plan_route(&reg, 1, "ping");
    let failed = deliver(&reg, &d, &mut inboxes, &[2]);
    assert_eq!(failed, vec![2]);
    assert_eq!(inboxes[0], vec!["Client 1: ping\n".to_string()]);
    assert_eq!(inboxes[2], vec!["Client 1: ping\n".to_string()]);
    evict_failed(&mut reg, &failed);
    assert_eq!(reg.ids_vec(), vec![1, 3]);
    // the owning connection's own cleanup finds it already gone
    reg.remove(2);
    assert_eq!(reg.ids_vec(), vec![1, 3]);
    // a private attempt at the dead peer now reaches nobody
    let d = plan_route(&reg, 1, "/msg 2 still there?");
    assert!(d.targets.is_empty());
}

#[test]
fn private_write_failure_evicts_target() {
    let mut reg: Registry<usize> = Registry::new();
    reg.insert(1, 0);
    reg.insert(2, 1);
    let mut inboxes = vec![Vec::new(), Vec::new()];
    let d = plan_route(&reg, 1, "/msg 2 hello");
    let failed = deliver(&reg, &d, &mut inboxes, &[2]);
    evict_failed(&mut reg, &failed);
    assert_eq!(reg.ids_vec(), vec![1]);
    assert!(inboxes[0].is_empty());
}

#[test]
fn concurrent_broadcasts_reach_each_once() {
    let mut reg: Registry<usize> = Registry::new();
    for id in 1..=4 {
        reg.insert(id, id - 1);
    }
    let mut inboxes = vec![Vec::new(); 4];
    let plans: Vec<Dispatch> = (1..=4).map(|s| plan_route(&reg, s, "x")).collect();
    for d in plans.iter() {
        deliver(&reg, d, &mut inboxes, &[]);
    }
    for inbox in inboxes.iter() {
        assert_eq!(inbox.len(), 4);
        for s in 1..=4 {
            let line = format!("Client {}: x\n", s);
            assert_eq!(inbox.iter().filter(|m| **m == line).count(), 1);
        }
    }
}

#[test]
fn session_terminates_once() {
    let reg: Registry<usize> = Registry::new();
    let mut s = Session::new(4);
    assert!(s.is_active());
    assert!(matches!(s.on_read(&reg, &ReadEvent::Closed), Step::Leave(4)));
    assert!(!s.is_active());
    assert!(matches!(s.on_read(&reg, &ReadEvent::Failed), Step::Done));
    let mut t = Session::new(5);
    assert!(matches!(t.on_read(&reg, &ReadEvent::Failed), Step::Leave(5)));
    assert_eq!(t.id(), 5);
}

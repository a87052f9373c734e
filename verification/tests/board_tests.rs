use taskini::board::{add, PeerAddr, ServerState, Task};
use taskini::client::{ClientAction, CommandKind, InputEvent, KeyInput, State, visible_task_count};

#[test]
fn it_works() {
    let result = add(2, 2);
    assert_eq!(result, 4);
}

fn peer(port: u16) -> PeerAddr {
    PeerAddr { ip: 0x7f00_0001, v6: false, port, flowinfo: 0, scope_id: 0 }
}

#[test]
fn server_message_becomes_task_and_bumps_version() {
    let mut s: ServerState<u8> = ServerState::new();
    s.add_peer(peer(1), 10);
    s.handle_message(peer(1), "write docs".to_string());
    s.handle_message(peer(2), "fix bug".to_string());
    assert_eq!(s.version, 2);
    assert_eq!(s.tasks.len(), 2);
    assert_eq!(s.tasks[0].title, "write docs");
    assert!(s.tasks[0].created_by == peer(1));
    assert_eq!(s.tasks[1].title, "fix bug");
    assert!(s.tasks[1].created_by == peer(2));
}

#[test]
fn server_add_peer_replaces_sender_of_same_address() {
    let mut s: ServerState<u8> = ServerState::new();
    s.add_peer(peer(1), 10);
    s.add_peer(peer(2), 20);
    s.add_peer(peer(1), 30);
    assert_eq!(s.peers.len(), 2);
    let senders: Vec<u8> = s.peers.iter().filter(|(a, _)| *a == peer(1)).map(|(_, t)| *t).collect();
    assert_eq!(senders, vec![30]);
}

#[test]
fn server_remove_peer_forgets_only_that_peer() {
    let mut s: ServerState<u8> = ServerState::new();
    s.add_peer(peer(1), 10);
    s.add_peer(peer(2), 20);
    s.remove_peer(&peer(1));
    assert_eq!(s.peers.len(), 1);
    assert!(s.peers[0].0 == peer(2));
    s.remove_peer(&peer(7));
    assert_eq!(s.peers.len(), 1);
}

#[test]
fn client_typing_and_enter_sends_command() {
    let mut st = State::new();
    for c in "hi".chars() {
        let a = st.on_event(InputEvent::Key { code: KeyInput::Char(c), control_only: false });
        assert!(matches!(a, ClientAction::Continue));
    }
    assert_eq!(st.command.string, "hi");
    assert_eq!(st.cursor_x, 2);
    let a = st.on_event(InputEvent::Key { code: KeyInput::Backspace, control_only: false });
    assert!(matches!(a, ClientAction::Continue));
    assert_eq!(st.cursor_x, 1);
    assert_eq!(st.command.string, "hi");
    match st.on_event(InputEvent::Key { code: KeyInput::Enter, control_only: false }) {
        ClientAction::Send(s) => assert_eq!(s, "hi"),
        _ => panic!("expected a message to send"),
    }
    assert_eq!(st.command.string, "");
    assert_eq!(st.cursor_x, 0);
}

#[test]
fn client_backspace_at_start_stays() {
    let mut st = State::new();
    st.on_event(InputEvent::Key { code: KeyInput::Backspace, control_only: false });
    assert_eq!(st.cursor_x, 0);
}

#[test]
fn client_stops_on_escape_and_control_char() {
    let mut st = State::new();
    assert!(matches!(st.on_event(InputEvent::Esc), ClientAction::Stop));
    assert!(matches!(
        st.on_event(InputEvent::Key { code: KeyInput::Char('c'), control_only: true }),
        ClientAction::Stop
    ));
    assert_eq!(st.command.string, "");
    assert!(matches!(
        st.on_event(InputEvent::Resize { width: 80, height: 24 }),
        ClientAction::ResetScreen { width: 80, height: 24 }
    ));
    assert!(matches!(st.on_event(InputEvent::Other), ClientAction::Continue));
}

#[test]
fn client_tick_counts() {
    let mut st = State::new();
    st.tick();
    st.tick();
    assert_eq!(st.c, 2);
}

#[test]
fn client_command_line_layout() {
    let mut st = State::new();
    st.on_event(InputEvent::Key { code: KeyInput::Char('x'), control_only: false });
    assert_eq!(st.command_line(), format!("AddTask: x {}", " ".repeat(20)));
    st.command.kind = CommandKind::Find;
    assert_eq!(st.command_line(), format!("Find: x {}", " ".repeat(20)));
}

#[test]
fn client_visible_tasks_limited_by_height() {
    assert_eq!(visible_task_count(3, 24), 3);
    assert_eq!(visible_task_count(30, 24), 15);
    assert_eq!(visible_task_count(5, 9), 0);
}

#[test]
fn client_cursor_position_and_character() {
    let mut st = State::new();
    assert_eq!(st.cursor_column(), 9);
    assert_eq!(st.cursor_char(), " ");
    for c in "ab".chars() {
        st.on_event(InputEvent::Key { code: KeyInput::Char(c), control_only: false });
    }
    assert_eq!(st.cursor_column(), 11);
    assert_eq!(st.cursor_char(), " ");
    st.on_event(InputEvent::Key { code: KeyInput::Backspace, control_only: false });
    assert_eq!(st.cursor_column(), 10);
    assert_eq!(st.cursor_char(), "b");
    st.command.kind = CommandKind::Find;
    assert_eq!(st.cursor_column(), 7);
}

#[test]
fn client_cursor_character_is_taken_at_a_byte_position() {
    let mut st = State::new();
    for c in "éa".chars() {
        st.on_event(InputEvent::Key { code: KeyInput::Char(c), control_only: false });
    }
    assert_eq!(st.cursor_x, 2);
    assert_eq!(st.cursor_char(), "a");
    st.on_event(InputEvent::Key { code: KeyInput::Char('b'), control_only: false });
    assert_eq!(st.cursor_x, 3);
    assert_eq!(st.cursor_char(), "b");
}

#[test]
fn client_events_leave_the_board_alone() {
    let mut st = State::new();
    st.tasks.push(Task { created_by: peer(1), title: "kept".to_string() });
    st.on_event(InputEvent::Key { code: KeyInput::Char('x'), control_only: false });
    let a = st.on_event(InputEvent::Key { code: KeyInput::Enter, control_only: false });
    assert!(matches!(a, ClientAction::Send(ref t) if t == "x"));
    st.tick();
    assert_eq!(st.tasks.len(), 1);
    assert_eq!(st.tasks[0].title, "kept");
}

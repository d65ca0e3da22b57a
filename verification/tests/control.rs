use buran::control::{
    check_command, config_length, config_message, encode_command, recv_command, Children, Command,
    ControlError, CMD_KILL, CMD_SPAWN, MAX_APP_CONFIG,
};

#[test]
fn recv_command_parses_kill_with_token() {
    let mut msg = vec![CMD_KILL];
    msg.extend_from_slice(&0x1122_3344_5566_7788u64.to_le_bytes());
    match recv_command(Some(msg[0]), false, msg[1..].try_into().unwrap()).unwrap() {
        Some(Command::Kill(token)) => assert_eq!(token, 0x1122_3344_5566_7788),
        _ => panic!("expected a Kill command"),
    }
}

#[test]
fn recv_command_reports_eof() {
    // supervisor closed the channel
    assert!(recv_command(None, false, &[0; 8]).unwrap().is_none());
}

#[test]
fn commands_read_back_as_sent() {
    for c in [Command::Spawn(1), Command::Kill(u64::MAX), Command::Spawn(0x0102_0304_0506_0708)] {
        let b = encode_command(c);
        assert_eq!(b.len(), 9);
        assert_eq!(recv_command(Some(b[0]), true, b[1..].try_into().unwrap()), Ok(Some(c)));
    }
}

#[test]
fn bad_commands_are_refused() {
    assert_eq!(check_command(CMD_SPAWN, false), Err(ControlError::NoChannel));
    assert_eq!(check_command(7, true), Err(ControlError::Unknown(7)));
    assert_eq!(ControlError::NoChannel.message(), "spawn command without an fd");
    assert_eq!(ControlError::Unknown(7).message(), "unknown control command 7");
}

#[test]
fn settings_are_framed_by_their_length() {
    let m = config_message("{\"a\":1}").unwrap();
    assert_eq!(config_length(m[..4].try_into().unwrap()), Ok(7));
    assert_eq!(&m[4..], b"{\"a\":1}");
    assert!(config_message(&"x".repeat(MAX_APP_CONFIG + 1)).is_none());
    assert_eq!(
        config_length(&[0, 0, 0, 1]),
        Err("app config length 16777216 exceeds 1048576".to_string())
    );
}

#[test]
fn an_exited_worker_is_forgotten() {
    let mut c = Children::new();
    c.forked(1, 100);
    c.forked(2, 200);
    assert_eq!(c.pid_of(1), Some(100));
    c.reaped(100);
    assert_eq!((c.pid_of(1), c.pid_of(2)), (None, Some(200)));
    c.reaped(999);
    assert_eq!(c.pid_of(2), Some(200));
}

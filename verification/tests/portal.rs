use xinlan_clip::portal::{
    failure_state, paste_keys, response_error, signal_step, starting_state, KeyState,
    PortalState, SignalStep, KEYSYM_CONTROL_L, KEYSYM_LOWER_V,
};

#[test]
fn key_states_number_as_the_portal_expects() {
    assert_eq!(KeyState::Released.as_u32(), 0);
    assert_eq!(KeyState::Pressed.as_u32(), 1);
}

#[test]
fn paste_is_control_v_pressed_then_released_in_reverse() {
    assert_eq!(
        paste_keys(),
        vec![
            (KEYSYM_CONTROL_L, KeyState::Pressed),
            (KEYSYM_LOWER_V, KeyState::Pressed),
            (KEYSYM_LOWER_V, KeyState::Released),
            (KEYSYM_CONTROL_L, KeyState::Released),
        ]
    );
    assert_eq!(KEYSYM_CONTROL_L, 0xFFE3);
    assert_eq!(KEYSYM_LOWER_V, 0x76);
}

#[test]
fn response_codes_read_as_documented() {
    assert_eq!(response_error(0), None);
    assert_eq!(
        response_error(1).unwrap(),
        "cancelled: the input session request was dismissed"
    );
    assert_eq!(
        response_error(2).unwrap(),
        "denied: this desktop does not allow remote input"
    );
    assert_eq!(
        response_error(37).unwrap(),
        "portal refused the request (code 37)"
    );
    assert_eq!(
        response_error(u32::MAX).unwrap(),
        "portal refused the request (code 4294967295)"
    );
}

#[test]
fn refusals_are_told_apart_from_failures() {
    match failure_state("cancelled: x".to_string()) {
        PortalState::Denied { reason } => assert_eq!(reason, "cancelled: x"),
        other => panic!("unexpected {other:?}"),
    }
    match failure_state("denied: y".to_string()) {
        PortalState::Denied { reason } => assert_eq!(reason, "denied: y"),
        other => panic!("unexpected {other:?}"),
    }
    match failure_state("D-Bus session bus unavailable".to_string()) {
        PortalState::Unavailable { reason } => assert_eq!(reason, "D-Bus session bus unavailable"),
        other => panic!("unexpected {other:?}"),
    }
    match starting_state() {
        PortalState::Unavailable { reason } => assert_eq!(reason, "starting"),
        other => panic!("unexpected {other:?}"),
    }
}

#[test]
fn only_the_awaited_request_is_read() {
    let req = "/org/freedesktop/portal/desktop/request/1_2/xinlan_start";
    assert_eq!(signal_step(false, Some(req), req), SignalStep::Read);
    assert_eq!(
        signal_step(false, Some("/org/freedesktop/portal/desktop/request/1_2/other"), req),
        SignalStep::Ignore
    );
    assert_eq!(signal_step(false, None, req), SignalStep::Ignore);
    assert_eq!(signal_step(true, Some(req), req), SignalStep::TimedOut);
}

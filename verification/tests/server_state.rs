use tgbot::server::runner::ServerState;
use tgbot::server::{MpcRequest, MpcResponse, Error};
use tokio::sync::{oneshot, watch};

fn online_state() -> (ServerState, watch::Receiver<bool>) {
    let (tx, rx) = watch::channel(false);
    let mut state = ServerState::new(tx);
    // one status frame heard at t=0 brings the device online
    state.ack_from_remote(0, 0);
    (state, rx)
}

fn submit(state: &mut ServerState, words: Vec<u32>, now: u64) -> (bool, oneshot::Receiver<MpcResponse>) {
    let (tx, rx) = oneshot::channel();
    let accepted = state.new_command(MpcRequest::SendRcRequest(words), tx, now);
    (accepted, rx)
}

#[test]
fn happy_path_ack_resolves_ok() {
    let (mut state, _online) = online_state();
    let (accepted, mut rx) = submit(&mut state, vec![0xA, 0xB], 10);
    assert!(accepted);
    assert_eq!(state.next_seq, 2);
    // the device echoes the assigned sequence
    state.ack_from_remote(1, 20);
    assert!(matches!(rx.try_recv(), Ok(MpcResponse::SendRcResponse(Ok(())))));
    // no retransmit after the ack
    assert!(state.command_to_send_now(5_000).is_none());
    assert!(state.current_cmd.is_none());
}

#[test]
fn retry_until_timeout_then_give_up() {
    let (mut state, _online) = online_state();
    let (accepted, mut rx) = submit(&mut state, vec![7], 0);
    assert!(accepted);

    // transmissions are due at 0s, 1s, 2s, 3s
    for due in [0u64, 1_000, 2_000, 3_000] {
        assert!(state.command_to_send_now(due).is_some(), "send due at {due}");
        let frame = state.frame_to_send(due).unwrap();
        assert_eq!(frame.sequence, 1);
        assert_eq!(frame.data, vec![7]);
        state.successful_send();
    }
    assert!(state.command_to_send_now(3_999).is_none());

    // never acknowledged: the attempt window closes at 4s
    state.timeout(4_000);
    assert!(matches!(
        rx.try_recv(),
        Ok(MpcResponse::SendRcResponse(Err(Error::IRAckTimeout)))
    ));
    assert!(state.current_cmd.is_none());
    assert!(state.next_send_attempt_at.is_none());
    assert!(state.attempt_sending_cmd_until.is_none());
}

#[test]
fn supersession_later_ack_resolves_both() {
    let (mut state, _online) = online_state();
    let (_, mut rx_a) = submit(&mut state, vec![1], 0);
    let (_, mut rx_b) = submit(&mut state, vec![2], 500);
    assert_eq!(state.next_seq, 3);
    // B superseded A in the transmit slot
    assert_eq!(state.current_cmd, Some(vec![2]));

    // acknowledging B's sequence satisfies A's waiter too
    state.ack_from_remote(2, 600);
    assert!(matches!(rx_a.try_recv(), Ok(MpcResponse::SendRcResponse(Ok(())))));
    assert!(matches!(rx_b.try_recv(), Ok(MpcResponse::SendRcResponse(Ok(())))));
    assert!(state.current_cmd.is_none());
}

#[test]
fn offline_rejection_leaves_state_unchanged() {
    let (tx, _rx) = watch::channel(false);
    let mut state = ServerState::new(tx);
    let (accepted, mut rx) = submit(&mut state, vec![9], 0);
    assert!(!accepted);
    assert!(matches!(
        rx.try_recv(),
        Ok(MpcResponse::SendRcResponse(Err(Error::CanNotSendWhenOffline)))
    ));
    assert_eq!(state.next_seq, 1);
    assert!(state.clients.is_empty());
}

#[test]
fn online_ttl_expires_after_forty_seconds() {
    let (mut state, online) = online_state();
    assert!(*online.borrow());
    assert_eq!(state.online_until, Some(40_000));

    state.timeout(39_999);
    assert!(*online.borrow());

    state.timeout(40_000);
    assert!(!*online.borrow());
    assert!(state.online_until.is_none());

    let (accepted, mut rx) = submit(&mut state, vec![3], 40_001);
    assert!(!accepted);
    assert!(matches!(
        rx.try_recv(),
        Ok(MpcResponse::SendRcResponse(Err(Error::CanNotSendWhenOffline)))
    ));
}

#[test]
fn ack_records_last_ack_and_online_until() {
    // for any status frame carrying s, the state afterwards has
    // last_ack == s and the online clock armed
    for s in [0u32, 3, 17, u32::MAX - 1] {
        let (tx, _rx) = watch::channel(false);
        let mut state = ServerState::new(tx);
        state.ack_from_remote(s, 5);
        assert_eq!(state.last_ack, s);
        assert_eq!(state.online_until, Some(5 + 40_000));
        assert!(state.last_ack < state.next_seq);
    }
}

#[test]
fn remote_ahead_fast_forwards_sequence_space() {
    let (tx, _rx) = watch::channel(false);
    let mut state = ServerState::new(tx);
    state.ack_from_remote(5, 0);
    assert_eq!(state.last_ack, 5);
    assert_eq!(state.next_seq, 6);
}

#[test]
fn next_timeout_is_earliest_armed_clock() {
    let (mut state, _online) = online_state();
    // online_until = 40_000 is the only armed clock
    assert_eq!(state.next_timeout(0), Some(40_000));
    assert_eq!(state.next_timeout(39_500), Some(500));
    assert_eq!(state.next_timeout(41_000), Some(0));

    // a submission arms the send clock (due now) and the give-up clock
    let (_, _rx) = submit(&mut state, vec![1], 1_000);
    assert_eq!(state.next_timeout(1_000), Some(0));
    state.successful_send();
    // next send at 2_000, give-up and waiter deadline at 5_000
    assert_eq!(state.next_timeout(1_000), Some(1_000));
}

#[test]
fn no_clock_armed_when_fresh() {
    let (tx, _rx) = watch::channel(false);
    let state = ServerState::new(tx);
    assert_eq!(state.next_timeout(0), None);
    assert!(state.command_to_send_now(0).is_none());
}

#[test]
fn waiter_past_deadline_fails_even_with_others_pending() {
    let (mut state, _online) = online_state();
    let (_, mut rx_a) = submit(&mut state, vec![1], 0);
    // a later submission pushes a waiter with a later deadline
    let (_, mut rx_b) = submit(&mut state, vec![2], 2_000);

    // at 4s the first waiter's deadline has passed, the second's has not
    state.timeout(4_000);
    assert!(matches!(
        rx_a.try_recv(),
        Ok(MpcResponse::SendRcResponse(Err(Error::IRAckTimeout)))
    ));
    assert!(rx_b.try_recv().is_err(), "second waiter must still be pending");

    state.timeout(6_000);
    assert!(matches!(
        rx_b.try_recv(),
        Ok(MpcResponse::SendRcResponse(Err(Error::IRAckTimeout)))
    ));
}

#[test]
fn sequence_space_stays_ahead_of_acknowledgements() {
    // last_ack < next_seq at every observable point of a mixed trace
    let (mut state, _online) = online_state();
    assert!(state.last_ack < state.next_seq);
    let (_, _rx1) = submit(&mut state, vec![1], 100);
    assert!(state.last_ack < state.next_seq);
    state.ack_from_remote(1, 200);
    assert!(state.last_ack < state.next_seq);
    // a device restart echoing a higher number fast-forwards, never inverts
    state.ack_from_remote(50, 300);
    assert!(state.last_ack < state.next_seq);
    state.timeout(10_000);
    assert!(state.last_ack < state.next_seq);
    let (_, _rx2) = submit(&mut state, vec![2], 11_000);
    assert_eq!(state.next_seq, 52);
    assert!(state.last_ack < state.next_seq);
}

#[test]
fn retransmissions_keep_retry_spacing() {
    let (mut state, _online) = online_state();
    let (_, _rx) = submit(&mut state, vec![4], 0);
    assert!(state.command_to_send_now(0).is_some());
    state.successful_send();
    // nothing is due again before a full spacing has passed
    assert!(state.command_to_send_now(999).is_none());
    assert!(state.command_to_send_now(1_000).is_some());
}

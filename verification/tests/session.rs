use rts_client::client::{Client, ReplyEvent};
use rts_client::error::{ClientError, DecodeError};
use rts_client::frame::Frame;
use rts_client::state::{ServerState, parse_deaths};

const UNIT: &str = "5 1 2 3 4 5 6 7 8 9 10 1 0 11 12 13 14 15 16 17 18 19 20 21 22 23 24 \
                    1 100 2 3 4 5 0.5 -1.25 7 50";

fn envelope_with_frame() -> Vec<u8> {
    format!(
        "{{frame={{1 7 1 {} 1 7 1 55 66 2 9 8 1 7 111 222 333 444 2 1 10 20 2 30 40 99 1}}}}",
        UNIT
    )
    .into_bytes()
}

#[test]
fn deaths_value_defaults_malformed_ids_to_zero() {
    assert_eq!(parse_deaths(b"{1,,2,x,3}"), vec![1, 2, 0, 3]);
    assert_eq!(parse_deaths(b"{}"), vec![]);
    assert_eq!(parse_deaths(b"{,}"), vec![]);
    assert_eq!(parse_deaths(b"{-4}"), vec![-4]);
}

#[test]
fn parse_folds_frame_and_ignores_unknown_keys() {
    let mut st = ServerState::new();
    let msg = b"{mystery=1,frame={0 0 0 0 42 0},other=zzz}";
    assert_eq!(st.parse(msg), Ok(()));
    assert_eq!(st.frame.reward, 42);
    assert_eq!(st.deaths, vec![]);
}

#[test]
fn parse_failure_leaves_state_untouched() {
    let mut st = ServerState::new();
    assert_eq!(st.parse(&envelope_with_frame()), Ok(()));
    assert_eq!(st.frame.reward, 99);
    assert_eq!(st.frame.units.len(), 1);

    // a frame that dies at unit 1 of player 7: the published frame stays
    let bad = b"{frame={1 7 1 5 1 2}}";
    assert_eq!(st.parse(bad), Err(DecodeError::UnexpectedEof));
    assert_eq!(st.frame.reward, 99);
    assert_eq!(st.frame.units.len(), 1);

    // a negative count partway through must not mutate the state either
    let neg = b"{frame={1 7 -1}}";
    assert_eq!(st.parse(neg), Err(DecodeError::NegativeLength));
    assert_eq!(st.frame.reward, 99);
}

#[test]
fn update_derives_alive_units_from_frame_and_deaths() {
    let mut st = ServerState::new();
    assert_eq!(st.parse(&envelope_with_frame()), Ok(()));
    assert_eq!(st.update(), Ok(()));
    assert_eq!(st.alive_units, vec![(5, 7)]);

    // a death of a unit absent from the frame removes it; the frame's own
    // units always count as alive
    st.frame = Frame::default();
    st.alive_units = vec![(1, 0), (2, 0), (5, 7)];
    st.deaths = vec![1, 5];
    assert_eq!(st.update(), Ok(()));
    assert_eq!(st.alive_units, vec![(2, 0)]);
}

#[test]
fn update_is_idempotent_for_one_frame() {
    let mut st = ServerState::new();
    st.alive_units = vec![(1, 0), (2, 0)];
    st.deaths = vec![1];
    assert_eq!(st.parse(&envelope_with_frame()), Ok(()));
    assert_eq!(st.update(), Ok(()));
    let alive_once = st.alive_units.clone();
    let ended_once = st.game_ended;
    let battle_once = st.battle_just_ended;
    assert_eq!(st.update(), Ok(()));
    assert_eq!(st.alive_units, alive_once);
    assert_eq!(st.game_ended, ended_once);
    assert_eq!(st.battle_just_ended, battle_once);
}

#[test]
fn update_flags_battle_end_only_under_a_filter() {
    let mut st = ServerState::new();
    assert_eq!(st.update(), Ok(()));
    assert!(!st.battle_just_ended);

    st.only_consider_units = vec![42];
    assert_eq!(st.update(), Ok(()));
    assert!(st.battle_just_ended);

    // a live unit of a considered type keeps the battle open
    let mut st2 = ServerState::new();
    st2.only_consider_units = vec![11];
    assert_eq!(st2.parse(&envelope_with_frame()), Ok(()));
    assert_eq!(st2.update(), Ok(()));
    assert_eq!(st2.alive_units_considered, vec![(5, 7)]);
    assert!(!st2.battle_just_ended);
}

#[test]
fn update_absorbs_the_terminal_flag() {
    let mut st = ServerState::new();
    assert_eq!(st.parse(&envelope_with_frame()), Ok(()));
    assert_eq!(st.update(), Ok(()));
    assert!(st.game_ended);
}

#[test]
fn receive_without_send_fails_and_changes_nothing() {
    let mut c = Client::new();
    c.mark_connected();
    let before_reward = c.state.frame.reward;
    let r = c.receive(ReplyEvent::Payload(b"{frame={0 0 0 0 1 0}}".to_vec()));
    assert_eq!(r, Err(ClientError::ReceiveWithoutSend));
    assert_eq!(c.state.frame.reward, before_reward);
    assert!(!c.message_sent);
}

#[test]
fn receive_before_connect_fails() {
    let mut c = Client::new();
    c.note_sent();
    assert_eq!(c.receive(ReplyEvent::TimedOut), Err(ClientError::NotConnected));
}

#[test]
fn receive_reports_timeout_and_bad_text() {
    let mut c = Client::new();
    c.mark_connected();
    c.note_sent();
    assert_eq!(c.receive(ReplyEvent::TimedOut), Err(ClientError::Timeout));
    assert_eq!(c.receive(ReplyEvent::BadText), Err(ClientError::MalformedEncoding));
    // the request is still outstanding after a failed attempt
    assert!(c.message_sent);
}

#[test]
fn receive_decodes_and_clears_the_outstanding_request() {
    let mut c = Client::new();
    c.mark_connected();
    c.note_sent();
    let msg = envelope_with_frame();
    let r = c.receive(ReplyEvent::Payload(msg.clone()));
    assert_eq!(r, Ok(msg));
    assert!(!c.message_sent);
    assert_eq!(c.state.frame.reward, 99);
    assert_eq!(c.state.alive_units, vec![(5, 7)]);

    // strict alternation: a second receive without a send fails
    assert_eq!(c.receive(ReplyEvent::TimedOut), Err(ClientError::ReceiveWithoutSend));
}

#[test]
fn receive_decode_failure_keeps_the_session_as_it_was() {
    let mut c = Client::new();
    c.mark_connected();
    c.note_sent();
    assert_eq!(c.receive(ReplyEvent::Payload(envelope_with_frame())), Ok(envelope_with_frame()));
    c.note_sent();
    let r = c.receive(ReplyEvent::Payload(b"{frame={2 7 0 7 0}}".to_vec()));
    assert_eq!(r, Err(ClientError::Decode(DecodeError::DuplicatePlayer)));
    assert_eq!(c.state.frame.reward, 99);
    assert!(c.message_sent);
}

use rts_client::error::DecodeError;
use rts_client::frame::{Frame, Order};

const UNIT: &str = "5 1 2 3 4 5 6 7 8 9 10 1 0 11 12 13 14 15 16 17 18 19 20 21 22 23 24 \
                    1 100 2 3 4 5 0.5 -1.25 7 50";

fn wire(body: &str) -> Vec<u8> {
    format!("{{{}}}", body).into_bytes()
}

fn one_unit_frame() -> String {
    format!("1 7 1 {} 1 7 1 55 66 2 9 8 1 7 111 222 333 444 2 1 10 20 2 30 40 99 1", UNIT)
}

#[test]
fn frame_decodes_field_by_field() {
    let f = Frame::parse_from(&wire(&one_unit_frame())).unwrap();

    assert_eq!(f.units.len(), 1);
    assert_eq!(f.units[0].0, 7);
    assert_eq!(f.units[0].1.len(), 1);
    let u = &f.units[0].1[0];
    assert_eq!(u.id, 5);
    assert_eq!(u.coords, (1, 2));
    assert_eq!(u.health, 3);
    assert_eq!(u.max_health, 4);
    assert_eq!(u.shield, 5);
    assert_eq!(u.max_shield, 6);
    assert_eq!(u.energy, 7);
    assert_eq!(u.max_cd, 8);
    assert_eq!(u.ground_cd, 9);
    assert_eq!(u.air_cd, 10);
    assert!(u.idle);
    assert!(!u.visible);
    assert!(!u.detected);
    assert!(!u.lifted);
    assert_eq!(u.type_, 11);
    assert_eq!(u.armor, 12);
    assert_eq!(u.shield_armor, 13);
    assert_eq!(u.size, 14);
    assert_eq!(u.pixel_coords, (15, 16));
    assert_eq!(u.pixel_size, (17, 18));
    assert_eq!(u.ground_atk, 19);
    assert_eq!(u.air_atk, 20);
    assert_eq!(u.ground_dmg_type, 21);
    assert_eq!(u.air_dmg_type, 22);
    assert_eq!(u.ground_range, 23);
    assert_eq!(u.air_range, 24);
    assert_eq!(u.orders.len(), 1);
    assert_eq!(u.orders[0].first_frame, 100);
    assert_eq!(u.orders[0].type_, 2);
    assert_eq!(u.orders[0].target_id, 3);
    assert_eq!(u.orders[0].target_coords, (4, 5));
    assert_eq!(u.velocity.0, b"0.5".to_vec());
    assert_eq!(u.velocity.1, b"-1.25".to_vec());
    assert_eq!(u.player_id, 7);
    assert_eq!(u.resources, 50);

    assert_eq!(f.actions.len(), 1);
    assert_eq!(f.actions[0].0, 7);
    let a = &f.actions[0].1[0];
    assert_eq!(a.uid, 55);
    assert_eq!(a.aid, 66);
    assert_eq!(a.action, vec![9, 8]);

    assert_eq!(f.resources.len(), 1);
    assert_eq!(f.resources[0].0, 7);
    assert_eq!(f.resources[0].1.ore, 111);
    assert_eq!(f.resources[0].1.gas, 222);
    assert_eq!(f.resources[0].1.used_psi, 333);
    assert_eq!(f.resources[0].1.total_psi, 444);

    assert_eq!(f.bullets.len(), 2);
    assert_eq!(f.bullets[0].type_, 1);
    assert_eq!(f.bullets[0].coords, (10, 20));
    assert_eq!(f.bullets[1].type_, 2);
    assert_eq!(f.bullets[1].coords, (30, 40));

    assert_eq!(f.reward, 99);
    assert!(f.is_terminal);
}

#[test]
fn empty_frame_decodes() {
    let f = Frame::parse_from(&wire("0 0 0 0 -3 0")).unwrap();
    assert_eq!(f.units.len(), 0);
    assert_eq!(f.actions.len(), 0);
    assert_eq!(f.resources.len(), 0);
    assert_eq!(f.bullets.len(), 0);
    assert_eq!(f.reward, -3);
    assert!(!f.is_terminal);
}

#[test]
fn negative_counts_fail_at_every_level() {
    let cases: Vec<String> = vec![
        // n_players of the unit section
        "-1".to_string(),
        // n_units
        "1 7 -1".to_string(),
        // n_orders
        "1 7 1 5 1 2 3 4 5 6 7 8 9 10 1 0 11 12 13 14 15 16 17 18 19 20 21 22 23 24 -1"
            .to_string(),
        // n_players of the action section
        "0 -1".to_string(),
        // n_actions
        "0 1 7 -2".to_string(),
        // action size
        "0 1 7 1 55 66 -3".to_string(),
        // n_players of the resource section
        "0 0 -1".to_string(),
        // n_bullets
        "0 0 0 -5".to_string(),
    ];
    for body in cases {
        assert_eq!(Frame::parse_from(&wire(&body)).unwrap_err(), DecodeError::NegativeLength);
    }
}

#[test]
fn boolean_fields_use_the_greater_than_zero_rule() {
    // terminal flag: 0 -> false, 1 -> true, -1 -> false
    let f0 = Frame::parse_from(&wire("0 0 0 0 0 0")).unwrap();
    assert!(!f0.is_terminal);
    let f1 = Frame::parse_from(&wire("0 0 0 0 0 1")).unwrap();
    assert!(f1.is_terminal);
    let fm = Frame::parse_from(&wire("0 0 0 0 0 -1")).unwrap();
    assert!(!fm.is_terminal);

    // idle and visible on a unit: -1 reads as false, 2 reads as true
    let body = format!(
        "1 7 1 5 1 2 3 4 5 6 7 8 9 10 -1 2 11 12 13 14 15 16 17 18 19 20 21 22 23 24 0 0.5 \
         -1.25 7 50 0 0 0 0 0"
    );
    let f = Frame::parse_from(&wire(&body)).unwrap();
    let u = &f.units[0].1[0];
    assert!(!u.idle);
    assert!(u.visible);
}

#[test]
fn truncated_frame_reports_eof() {
    assert_eq!(Frame::parse_from(&wire("1 7 1 5 1 2")).unwrap_err(), DecodeError::UnexpectedEof);
    assert_eq!(Frame::parse_from(b"{").unwrap_err(), DecodeError::UnexpectedEof);
    assert_eq!(Frame::parse_from(b"").unwrap_err(), DecodeError::UnexpectedEof);
}

#[test]
fn bad_token_reports_not_an_integer() {
    assert_eq!(Frame::parse_from(&wire("x")).unwrap_err(), DecodeError::NotAnInteger);
}

#[test]
fn bad_velocity_reports_not_a_float() {
    let body = "1 7 1 5 1 2 3 4 5 6 7 8 9 10 1 0 11 12 13 14 15 16 17 18 19 20 21 22 23 24 \
                0 oops 0.5 7 50 0 0 0 0 0";
    assert_eq!(Frame::parse_from(&wire(body)).unwrap_err(), DecodeError::NotAFloat);
}

#[test]
fn duplicate_player_id_is_rejected() {
    assert_eq!(Frame::parse_from(&wire("2 7 0 7 0")).unwrap_err(), DecodeError::DuplicatePlayer);
    assert_eq!(
        Frame::parse_from(&wire("0 2 7 0 7 0")).unwrap_err(),
        DecodeError::DuplicatePlayer,
    );
    assert_eq!(
        Frame::parse_from(&wire("0 0 2 7 1 2 3 4 7 1 2 3 4")).unwrap_err(),
        DecodeError::DuplicatePlayer,
    );
}

#[test]
fn trailing_tokens_are_ignored() {
    let f = Frame::parse_from(&wire("0 0 0 0 5 0 42 extra")).unwrap();
    assert_eq!(f.reward, 5);
}

#[test]
fn order_equality_ignores_first_frame() {
    let a = Order { first_frame: 1, type_: 2, target_id: 3, target_coords: (4, 5) };
    let b = Order { first_frame: 9, type_: 2, target_id: 3, target_coords: (4, 5) };
    let c = Order { first_frame: 1, type_: 2, target_id: 3, target_coords: (4, 6) };
    assert!(a == b);
    assert!(a != c);
}

use arena_core::client::{
    generate_random_string, identity_of, network_update, work_enemy, Inbound, Link, RemoteUpdate,
    IDENTITY_LEN, READ_BUFFER,
};
use arena_core::player::{HealthBarUpdate, Player, PlayerHealthBar};
use arena_core::server::Relay;
use arena_core::wire::{decode, encode, DecodeError, ReadEvent};

fn remote(id: &str, x: f32, y: f32, angle: f32, just_shot: bool, health: i32) -> Vec<u8> {
    encode(&Player {
        id: String::from(id),
        position: (x.to_bits(), y.to_bits()),
        angle: angle.to_bits(),
        just_shot,
        current_health: health,
    })
}

fn applied(outcome: Inbound) -> RemoteUpdate {
    match outcome {
        Inbound::Apply(update) => update,
        other => panic!("{:?}", other),
    }
}

#[test]
fn an_identity_is_six_lower_case_letters() {
    assert_eq!(IDENTITY_LEN, 6);
    for _ in 0..200 {
        let id = generate_random_string();
        assert_eq!(id.chars().count(), 6);
        assert_eq!(id.len(), 6);
        assert!(id.chars().all(|c| ('a'..='z').contains(&c)));
    }
}

#[test]
fn identities_differ_from_one_another() {
    let all: Vec<String> = (0..200).map(|_| generate_random_string()).collect();
    assert!(all.iter().any(|id| *id != all[0]));
    let letters: String = all.concat();
    assert!(letters.chars().any(|c| c != 'a'));
    assert!(letters.chars().any(|c| c != letters.chars().next().unwrap()));
}

#[test]
fn the_relay_reads_a_generated_identity_as_it_was_sent() {
    let id = generate_random_string();
    let mut relay = Relay::new();
    assert_eq!(relay.connect(id.as_bytes(), 1), id);
}

#[test]
fn a_frame_holds_the_state_of_the_tick() {
    let link = Link::new();
    let mut local = Player::spawn(String::from("abcde1"), ((-1000.0f32).to_bits(), 0));
    local.current_health = 600;
    let at = ((-880.0f32).to_bits(), 42.5f32.to_bits());
    let frame = network_update(&link, &local, at, Some(1.25f32.to_bits()), true).unwrap();
    let sent = decode(&frame).unwrap();
    assert_eq!(sent.id, "abcde1");
    assert_eq!(sent.position, at);
    assert_eq!(sent.angle, 1.25f32.to_bits());
    assert!(sent.just_shot);
    assert_eq!(sent.current_health, 600);
    let quiet = network_update(&link, &local, at, Some(0), false).unwrap();
    assert!(!decode(&quiet).unwrap().just_shot);
}

#[test]
fn no_frame_without_an_aim() {
    let link = Link::new();
    let local = Player::new(String::from("abcde1"));
    assert!(network_update(&link, &local, (0, 0), None, true).is_none());
}

#[test]
fn a_failed_write_ends_sending_for_good() {
    let mut link = Link::new();
    let local = Player::new(String::from("abcde1"));
    assert!(link.is_connected());
    link.written(true);
    assert!(link.is_connected());
    assert!(network_update(&link, &local, (0, 0), Some(0), false).is_some());
    link.written(false);
    assert!(!link.is_connected());
    assert!(network_update(&link, &local, (0, 0), Some(0), false).is_none());
    link.written(true);
    assert!(!link.is_connected());
    assert!(network_update(&link, &local, (0, 0), Some(0), true).is_none());
}

#[test]
fn a_remote_shot_spawns_one_projectile_along_the_decoded_angle() {
    let local = String::from("abcde1");
    let bytes = remote("qwerty", 1000.0, 0.0, 2.5, true, 1000);
    let update = applied(work_enemy(Some(&local), ReadEvent::Data(bytes)));
    assert!(update.fired);
    assert_eq!(update.angle, 2.5f32.to_bits());
    assert_eq!(update.position, Some((1000.0f32.to_bits(), 0.0f32.to_bits())));
    let silent = remote("qwerty", 1000.0, 0.0, 2.5, false, 1000);
    assert!(!applied(work_enemy(Some(&local), ReadEvent::Data(silent))).fired);
}

#[test]
fn a_remote_record_moves_the_remote_at_once() {
    let local = String::from("abcde1");
    let bytes = remote("qwerty", -12.25, 7.0, 0.0, false, 800);
    let update = applied(work_enemy(Some(&local), ReadEvent::Data(bytes)));
    assert_eq!(update.position, Some(((-12.25f32).to_bits(), 7.0f32.to_bits())));
}

#[test]
fn a_record_with_the_local_identity_moves_nothing() {
    let local = String::from("abcde1");
    let bytes = remote("abcde1", 5.0, 6.0, 1.0, true, 400);
    let update = applied(work_enemy(Some(&local), ReadEvent::Data(bytes)));
    assert_eq!(update.position, None);
    assert!(update.fired);
    assert_eq!(update.angle, 1.0f32.to_bits());
    assert_eq!(
        update.health_bar,
        HealthBarUpdate::Replace(PlayerHealthBar { current_health: 400, width: 52 })
    );
}

#[test]
fn the_remote_health_selects_the_indicator() {
    let local = String::from("abcde1");
    let bar = |health: i32| {
        applied(work_enemy(
            Some(&local),
            ReadEvent::Data(remote("qwerty", 0.0, 0.0, 0.0, false, health)),
        ))
        .health_bar
    };
    assert_eq!(
        bar(800),
        HealthBarUpdate::Replace(PlayerHealthBar { current_health: 800, width: 104 })
    );
    assert_eq!(
        bar(200),
        HealthBarUpdate::Replace(PlayerHealthBar { current_health: 200, width: 26 })
    );
    assert_eq!(bar(0), HealthBarUpdate::Remove);
    assert_eq!(bar(1000), HealthBarUpdate::Unhandled);
    assert_eq!(bar(-200), HealthBarUpdate::Unhandled);
}

#[test]
fn a_read_of_nothing_means_nothing_has_arrived() {
    let local = String::from("abcde1");
    assert_eq!(work_enemy(Some(&local), ReadEvent::Data(Vec::new())), Inbound::Nothing);
    assert_eq!(work_enemy(None, ReadEvent::Data(Vec::new())), Inbound::Nothing);
}

#[test]
fn a_failed_read_is_only_reported() {
    let local = String::from("abcde1");
    assert_eq!(work_enemy(Some(&local), ReadEvent::Failed), Inbound::ReadFailed);
    assert_eq!(work_enemy(None, ReadEvent::Failed), Inbound::ReadFailed);
}

#[test]
fn bytes_that_are_no_record_are_dropped() {
    let local = String::from("abcde1");
    let whole = remote("qwerty", 1.0, 2.0, 3.0, true, 800);
    let half = whole[..whole.len() / 2].to_vec();
    assert_eq!(
        work_enemy(Some(&local), ReadEvent::Data(half)),
        Inbound::Discarded(DecodeError::UnexpectedEnd)
    );
    let rest = whole[whole.len() / 2..].to_vec();
    assert!(matches!(work_enemy(Some(&local), ReadEvent::Data(rest)), Inbound::Discarded(_)));
    assert_eq!(
        work_enemy(None, ReadEvent::Data(vec![0xff; 3])),
        Inbound::Discarded(DecodeError::UnexpectedEnd)
    );
}

#[test]
fn without_a_local_participant_the_tick_is_skipped() {
    let bytes = remote("qwerty", 1.0, 2.0, 3.0, true, 800);
    assert_eq!(work_enemy(None, ReadEvent::Data(bytes)), Inbound::NoLocalPlayer);
}

#[test]
fn the_client_reads_more_at_once_than_the_relay() {
    assert_eq!(READ_BUFFER, 1024);
}

#[test]
fn six_lower_case_letters_spell_an_identity() {
    assert_eq!(identity_of(b"abcdef".to_vec()), Some(String::from("abcdef")));
    assert_eq!(identity_of(b"zzzzzz".to_vec()), Some(String::from("zzzzzz")));
    assert_eq!(identity_of(vec![97, 122, 109, 110, 98, 121]), Some(String::from("azmnby")));
}

#[test]
fn other_letters_spell_no_identity() {
    assert_eq!(identity_of(Vec::new()), None);
    assert_eq!(identity_of(b"abcde".to_vec()), None);
    assert_eq!(identity_of(b"abcdefg".to_vec()), None);
    assert_eq!(identity_of(b"abcde1".to_vec()), None);
    assert_eq!(identity_of(b"Abcdef".to_vec()), None);
    assert_eq!(identity_of(b"abcde`".to_vec()), None);
    assert_eq!(identity_of(b"{bcdef".to_vec()), None);
    assert_eq!(identity_of(vec![97, 98, 99, 0xc3, 0xab, 100]), None);
    assert_eq!(identity_of(vec![0xff; 6]), None);
}

use arena_core::player::{
    player_movement, update_player_health, Directions, HealthBarUpdate, Player, PlayerHealthBar,
    HIT_DAMAGE, INITIAL_HEALTH,
};

#[test]
fn a_new_record_stands_at_the_origin_in_full_health() {
    let p = Player::new(String::from("abcde1"));
    assert_eq!(p.id, "abcde1");
    assert_eq!(p.position, (0.0f32.to_bits(), 0.0f32.to_bits()));
    assert_eq!(p.angle, 0.0f32.to_bits());
    assert!(!p.just_shot);
    assert_eq!(p.current_health, 1000);
    assert_eq!(INITIAL_HEALTH, 1000);
}

#[test]
fn a_spawned_record_stands_where_it_was_put() {
    let at = ((-1000.0f32).to_bits(), 0.0f32.to_bits());
    let p = Player::spawn(String::from("qwerty"), at);
    assert_eq!(p.id, "qwerty");
    assert_eq!(p.position, at);
    assert_eq!(p.angle, 0);
    assert!(!p.just_shot);
    assert_eq!(p.current_health, 1000);
}

#[test]
fn a_clone_is_the_same_record() {
    let mut p = Player::spawn(String::from("qwerty"), (7, 9));
    p.angle = 11;
    p.just_shot = true;
    p.current_health = 400;
    let q = p.clone();
    assert_eq!(q.id, p.id);
    assert_eq!(q.position, (7, 9));
    assert_eq!(q.angle, 11);
    assert!(q.just_shot);
    assert_eq!(q.current_health, 400);
}

#[test]
fn a_hit_takes_two_hundred() {
    let mut defender = Player::new(String::from("abcde1"));
    assert!(defender.take_hit());
    assert_eq!(defender.current_health, 800);
    assert_eq!(HIT_DAMAGE, 200);
}

#[test]
fn health_goes_down_the_ladder_and_stops_at_zero() {
    let mut defender = Player::new(String::from("abcde1"));
    let mut seen = vec![defender.current_health];
    for _ in 0..8 {
        let before = defender.current_health;
        let damaged = defender.take_hit();
        assert_eq!(damaged, before > 0);
        assert!(defender.current_health <= before);
        assert!(defender.current_health >= 0);
        seen.push(defender.current_health);
    }
    assert_eq!(seen, vec![1000, 800, 600, 400, 200, 0, 0, 0, 0]);
    assert!(defender.is_dead());
}

#[test]
fn a_hit_changes_nothing_but_health() {
    let mut defender = Player::spawn(String::from("abcde1"), (3, 4));
    defender.angle = 5;
    defender.just_shot = true;
    defender.take_hit();
    assert_eq!(defender.id, "abcde1");
    assert_eq!(defender.position, (3, 4));
    assert_eq!(defender.angle, 5);
    assert!(defender.just_shot);
}

#[test]
fn a_dead_participant_takes_no_damage() {
    let mut defender = Player::new(String::from("abcde1"));
    defender.current_health = 0;
    assert!(!defender.take_hit());
    assert_eq!(defender.current_health, 0);
    defender.current_health = -200;
    assert!(!defender.take_hit());
    assert_eq!(defender.current_health, -200);
}

#[test]
fn off_the_ladder_a_hit_still_takes_two_hundred() {
    let mut defender = Player::new(String::from("abcde1"));
    defender.current_health = 100;
    assert!(defender.take_hit());
    assert_eq!(defender.current_health, -100);
    defender.current_health = 1;
    assert!(defender.take_hit());
    assert_eq!(defender.current_health, -199);
}

#[test]
fn the_ladder_selects_the_widths() {
    let bar = |health: i32, width: u32| {
        HealthBarUpdate::Replace(PlayerHealthBar { current_health: health, width })
    };
    assert_eq!(update_player_health(800), bar(800, 104));
    assert_eq!(update_player_health(600), bar(600, 78));
    assert_eq!(update_player_health(400), bar(400, 52));
    assert_eq!(update_player_health(200), bar(200, 26));
    assert_eq!(update_player_health(0), HealthBarUpdate::Remove);
}

#[test]
fn values_off_the_ladder_are_unhandled() {
    for health in [1000, 900, 801, 799, 100, 1, -1, -200, i32::MAX, i32::MIN] {
        assert_eq!(update_player_health(health), HealthBarUpdate::Unhandled);
    }
}

#[test]
fn widths_are_thirteen_for_every_hundred() {
    for health in [800, 600, 400, 200] {
        match update_player_health(health) {
            HealthBarUpdate::Replace(bar) => {
                assert_eq!(bar.current_health, health);
                assert_eq!(bar.width as i32, health * 13 / 100);
            }
            other => panic!("{:?}", other),
        }
    }
}

fn directions(up: bool, down: bool, left: bool, right: bool) -> Directions {
    Directions { up, down, left, right }
}

#[test]
fn keys_move_the_participant_where_there_is_room() {
    let room = directions(true, true, true, true);
    assert_eq!(player_movement(directions(false, false, false, false), room), (0, 0));
    assert_eq!(player_movement(directions(true, false, false, false), room), (0, 1));
    assert_eq!(player_movement(directions(false, true, false, false), room), (0, -1));
    assert_eq!(player_movement(directions(false, false, true, false), room), (-1, 0));
    assert_eq!(player_movement(directions(false, false, false, true), room), (1, 0));
    assert_eq!(player_movement(directions(true, false, false, true), room), (1, 1));
    assert_eq!(player_movement(directions(false, true, true, false), room), (-1, -1));
}

#[test]
fn opposite_keys_cancel() {
    let room = directions(true, true, true, true);
    assert_eq!(player_movement(directions(true, true, false, false), room), (0, 0));
    assert_eq!(player_movement(directions(false, false, true, true), room), (0, 0));
    assert_eq!(player_movement(directions(true, true, true, true), room), (0, 0));
}

#[test]
fn a_key_does_nothing_at_the_edge_it_points_to() {
    let all = directions(true, true, true, true);
    assert_eq!(player_movement(all, directions(false, true, true, true)), (0, -1));
    assert_eq!(player_movement(all, directions(true, false, true, true)), (0, 1));
    assert_eq!(player_movement(all, directions(true, true, false, true)), (1, 0));
    assert_eq!(player_movement(all, directions(true, true, true, false)), (-1, 0));
    assert_eq!(player_movement(all, directions(false, false, false, false)), (0, 0));
}

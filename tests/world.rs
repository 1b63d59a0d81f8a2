use playground::bridge::{pace_remaining, tick_signal, wander_position, Event, Response};
use playground::coord::Coord;
use playground::world::{parse_entities, GameState};

fn demo_state() -> GameState {
    let mut s = GameState::new();
    s.spawn("tree".to_string(), Coord::whole(10), Coord::whole(20));
    s.spawn("rock".to_string(), Coord::whole(15), Coord::whole(25));
    s
}

#[test]
fn spawn_ids_start_at_one_and_increase() {
    let mut s = GameState::new();
    assert_eq!(s.next_id(), 1);
    let a = s.spawn("a".to_string(), Coord::whole(0), Coord::whole(0));
    let b = s.spawn("b".to_string(), Coord::whole(0), Coord::whole(0));
    let c = s.spawn("c".to_string(), Coord::whole(0), Coord::whole(0));
    assert_eq!((a, b, c), (1, 2, 3));
    assert_eq!(s.next_id(), 4);
}

#[test]
fn spawn_npc_after_two_entities() {
    let mut s = demo_state();
    let id = s.spawn("npc".to_string(), Coord::from_milli(1000), Coord::from_milli(2000));
    assert_eq!(id, 3);
    let text = s.serialize();
    assert!(text.ends_with(":npc:1,2"));
    assert!(text.split(';').any(|r| r == "3:npc:1,2"));
}

#[test]
fn serialize_exact_text() {
    let s = demo_state();
    assert_eq!(s.serialize(), "1:tree:10,20;2:rock:15,25");
}

#[test]
fn serialize_empty_state_is_empty_string() {
    let s = GameState::new();
    assert_eq!(s.serialize(), "");
    let parsed = parse_entities("").unwrap();
    assert!(parsed.is_empty());
}

#[test]
fn parse_of_serialize_gives_entities_back() {
    let mut s = demo_state();
    s.spawn("walker".to_string(), Coord::from_milli(-1500), Coord::from_milli(12125));
    let parsed = parse_entities(&s.serialize()).unwrap();
    assert_eq!(parsed.len(), s.entities.len());
    for (p, e) in parsed.iter().zip(s.entities.iter()) {
        assert_eq!(p.id, e.id);
        assert_eq!(p.name, e.name);
        assert_eq!(p.x, e.x);
        assert_eq!(p.y, e.y);
    }
}

#[test]
fn parse_rejects_malformed_text() {
    assert!(parse_entities("1:tree").is_none());
    assert!(parse_entities("1:tree:10").is_none());
    assert!(parse_entities("x:tree:1,2").is_none());
    assert!(parse_entities("1:tree:1,2;").is_none());
    assert!(parse_entities("1:tree:1.2345,2").is_none());
    assert!(parse_entities("1:a:b:1,2").is_none());
}

#[test]
fn parse_reads_fractions_and_signs() {
    let es = parse_entities("7:n:-0.5,3.25").unwrap();
    assert_eq!(es.len(), 1);
    assert_eq!(es[0].id, 7);
    assert_eq!(es[0].name, "n");
    assert_eq!(es[0].x.milli, -500);
    assert_eq!(es[0].y.milli, 3250);
}

#[test]
fn coordinate_text_forms() {
    let mut s = GameState::new();
    s.spawn("p".to_string(), Coord::from_milli(-500), Coord::from_milli(100));
    s.spawn("q".to_string(), Coord::from_milli(0), Coord::from_milli(-2147483648));
    assert_eq!(s.serialize(), "1:p:-0.5,0.1;2:q:0,-2147483.648");
}

#[test]
fn place_moves_only_existing_entities() {
    let mut s = demo_state();
    assert!(s.place(2, Coord::whole(1), Coord::whole(2)));
    assert!(!s.place(0, Coord::whole(1), Coord::whole(2)));
    assert!(!s.place(3, Coord::whole(1), Coord::whole(2)));
    assert_eq!(s.serialize(), "1:tree:10,20;2:rock:1,2");
}

#[test]
fn handle_answers_each_event() {
    let mut s = demo_state();
    match s.handle(Event::GetEntities) {
        Some(Response::Entities(t)) => assert_eq!(t, "1:tree:10,20;2:rock:15,25"),
        other => panic!("unexpected {:?}", other),
    }
    let ev = Event::SpawnEntity { name: "player1".to_string(), x: Coord::whole(5), y: Coord::whole(6) };
    match s.handle(ev) {
        Some(Response::Spawned(id)) => assert_eq!(id, 3),
        other => panic!("unexpected {:?}", other),
    }
    assert!(s.handle(Event::TickDone).is_none());
    assert_eq!(s.serialize(), "1:tree:10,20;2:rock:15,25;3:player1:5,6");
}

#[test]
fn tick_signal_text() {
    assert_eq!(tick_signal(1), "tick:1");
    assert_eq!(tick_signal(0), "tick:0");
    assert_eq!(tick_signal(18446744073709551615), "tick:18446744073709551615");
}

#[test]
fn wander_positions() {
    let (x, y) = wander_position(1);
    assert_eq!((x.milli, y.milli), (10000, 15000));
    let (x, y) = wander_position(14);
    assert_eq!((x.milli, y.milli), (140000, 10000));
    let (x, y) = wander_position(20);
    assert_eq!((x.milli, y.milli), (0, 100000));
}

#[test]
fn names_with_commas_survive_the_round_trip() {
    let mut s = GameState::new();
    s.spawn("a,b".to_string(), Coord::from_milli(7), Coord::from_milli(-2147483648));
    let text = s.serialize();
    assert_eq!(text, "1:a,b:0.007,-2147483.648");
    let parsed = parse_entities(&text).unwrap();
    assert_eq!(parsed.len(), 1);
    assert_eq!(parsed[0].name, "a,b");
    assert_eq!(parsed[0].x.milli, 7);
    assert_eq!(parsed[0].y.milli, -2147483648);
}

#[test]
fn parse_rejects_out_of_range_numbers() {
    assert!(parse_entities("18446744073709551616:a:1,2").is_none());
    assert!(parse_entities("18446744073709551615:a:1,2").is_some());
    assert!(parse_entities("1:a:2147483.648,0").is_none());
    assert!(parse_entities("1:a:-2147483.649,0").is_none());
}

#[test]
fn pacing_waits_for_the_rest_of_the_period() {
    assert_eq!(pace_remaining(300, 1000), 700);
    assert_eq!(pace_remaining(0, 1000), 1000);
    assert_eq!(pace_remaining(1000, 1000), 0);
    assert_eq!(pace_remaining(1500, 1000), 0);
}

use ferris_chat::animation::DisappearingSystem;
use ferris_chat::carry::{CarrySystem, PickUpSystem};
use ferris_chat::codec::{
    decode_world, deserialize_player_input, serialize_ecs, serialize_player_input, text_to_tokens,
    tokens_to_text, PlayerInput,
};
use ferris_chat::components::{
    CarriedBy, ChatRenderable, Disappearing, Location, PlayerInfo, Renderable, WantsToBePickedUp,
    WantsToMoveTo, WantsToStab,
};
use ferris_chat::entities::{delete_player_with_id, get_player_with_id};
use ferris_chat::movement::MovementSystem;
use ferris_chat::rng::Pcg32;
use ferris_chat::session::{SendKind, Session};
use ferris_chat::state::{handle_chat_input, handle_click, initialize_ecs};
use ferris_chat::terrain::{
    blank_isometric_map, get_random_location_of_tile, valid_walking_location,
    within_pickup_distance, TileMap, TileType,
};
use ferris_chat::weapons::StabSystem;
use ferris_chat::world::{EntityRecord, World};

fn flat_map(width: i32, height: i32, tile: TileType) -> TileMap {
    let mut tiles = Vec::new();
    for _ in 0..width {
        let mut row = Vec::new();
        for _ in 0..height {
            row.push(tile);
        }
        tiles.push(row);
    }
    TileMap { width, height, tiles }
}

fn player_at(ecs: &mut World, id: &str, x: i32, y: i32) -> u64 {
    let mut rec = EntityRecord::empty();
    rec.player_info = Some(PlayerInfo { id: String::from(id) });
    rec.location = Some(Location { x, y });
    ecs.create_from(rec)
}

#[test]
fn terrain_deterministic_small_grid() {
    let mut rng1 = Pcg32::new(1);
    let mut rng2 = Pcg32::new(1);
    let m1 = TileMap::new(&mut rng1, 10, 10);
    let m2 = TileMap::new(&mut rng2, 10, 10);
    assert_eq!(m1.tiles, m2.tiles);
}

#[test]
fn terrain_different_seeds_differ() {
    let mut rng1 = Pcg32::new(1);
    let mut rng2 = Pcg32::new(2);
    let m1 = TileMap::new(&mut rng1, 24, 24);
    let m2 = TileMap::new(&mut rng2, 24, 24);
    assert_ne!(m1.tiles, m2.tiles);
}

#[test]
fn terrain_border_is_water() {
    let mut rng = Pcg32::new(7);
    let m = TileMap::new(&mut rng, 16, 16);
    for i in 0..16usize {
        assert_eq!(m.tiles[i][0], TileType::Water);
        assert_eq!(m.tiles[i][15], TileType::Water);
        assert_eq!(m.tiles[0][i], TileType::Water);
        assert_eq!(m.tiles[15][i], TileType::Water);
    }
}

#[test]
fn blank_isometric_map_shape() {
    let g = blank_isometric_map(8, 8);
    assert_eq!(g.len(), 8);
    assert_eq!(g[0].len(), 8);
    assert_eq!(g[0][0], TileType::Water);
    assert_eq!(g[7][7], TileType::Void);
}

#[test]
fn pickup_distance_examples() {
    let a = Location { x: 0, y: 0 };
    let b = Location { x: 3, y: 3 };
    let c = Location { x: 4, y: 3 };
    assert!(within_pickup_distance(&a, &b));
    assert!(!within_pickup_distance(&a, &c));
}

#[test]
fn walkability_rejects_water_and_out_of_bounds() {
    let m = flat_map(5, 5, TileType::Sand);
    assert!(valid_walking_location(&m, &WantsToMoveTo { x: 2, y: 2, speed: 1 }));
    assert!(!valid_walking_location(&m, &WantsToMoveTo { x: -1, y: 2, speed: 1 }));
    assert!(!valid_walking_location(&m, &WantsToMoveTo { x: 2, y: 5, speed: 1 }));
    let w = flat_map(5, 5, TileType::Water);
    assert!(!valid_walking_location(&w, &WantsToMoveTo { x: 2, y: 2, speed: 1 }));
}

#[test]
fn random_location_matches_requested_tile() {
    let m = flat_map(20, 20, TileType::Grass);
    let mut rng = Pcg32::new(3);
    let loc = get_random_location_of_tile(&m, &mut rng, Some(TileType::Grass)).unwrap();
    assert_eq!(m.tiles[loc.x as usize][loc.y as usize], TileType::Grass);
    let none = get_random_location_of_tile(&m, &mut rng, Some(TileType::Sand));
    assert!(none.is_none());
}

#[test]
fn movement_converges_and_stops() {
    let mut ecs = World::new();
    let mut rec = EntityRecord::empty();
    rec.location = Some(Location { x: 0, y: 0 });
    rec.wants_to_move_to = Some(WantsToMoveTo { x: 5, y: 0, speed: 2 });
    let e = ecs.create_from(rec);
    for _ in 0..3 {
        MovementSystem::run(&mut ecs);
    }
    let i = ecs.index_of(e).unwrap();
    assert_eq!(ecs.ents[i].location, Some(Location { x: 5, y: 0 }));
    MovementSystem::run(&mut ecs);
    let i = ecs.index_of(e).unwrap();
    assert_eq!(ecs.ents[i].location, Some(Location { x: 5, y: 0 }));
}

#[test]
fn decay_deletes_after_countdown() {
    let mut ecs = World::new();
    let mut rec = EntityRecord::empty();
    rec.disappearing = Some(Disappearing { total_ticks: 3, ticks_left: 3 });
    let e = ecs.create_from(rec);
    for _ in 0..3 {
        DisappearingSystem::run(&mut ecs);
    }
    ecs.maintain();
    assert!(!ecs.contains_id(e));
}

#[test]
fn decay_spares_items_waiting_for_pickup() {
    let mut ecs = World::new();
    let mut rec = EntityRecord::empty();
    rec.disappearing = Some(Disappearing { total_ticks: 1, ticks_left: 1 });
    rec.wants_to_be_picked_up = Some(WantsToBePickedUp {});
    let e = ecs.create_from(rec);
    for _ in 0..5 {
        DisappearingSystem::run(&mut ecs);
        ecs.maintain();
    }
    assert!(ecs.contains_id(e));
    let i = ecs.index_of(e).unwrap();
    assert_eq!(
        ecs.ents[i].disappearing,
        Some(Disappearing { total_ticks: 1, ticks_left: 1 })
    );
}

#[test]
fn pickup_attaches_carry_and_carry_follows() {
    let mut ecs = World::new();
    let p = player_at(&mut ecs, "A", 0, 0);
    let mut knife = EntityRecord::empty();
    knife.location = Some(Location { x: 1, y: 1 });
    knife.wants_to_be_picked_up = Some(WantsToBePickedUp {});
    let k = ecs.create_from(knife);
    PickUpSystem::run(&mut ecs);
    let ki = ecs.index_of(k).unwrap();
    assert_eq!(ecs.ents[ki].carried_by, Some(CarriedBy { owner: p }));
    assert!(ecs.ents[ki].wants_to_be_picked_up.is_none());
    // move the player, the item follows verbatim
    let pi = ecs.index_of(p).unwrap();
    ecs.ents[pi].location = Some(Location { x: 7, y: 9 });
    CarrySystem::run(&mut ecs);
    let ki = ecs.index_of(k).unwrap();
    assert_eq!(ecs.ents[ki].location, Some(Location { x: 7, y: 9 }));
}

#[test]
fn stab_eliminates_nearby_player() {
    let mut ecs = World::new();
    let killer = player_at(&mut ecs, "K", 0, 0);
    let victim = player_at(&mut ecs, "V", 1, 1);
    let mut knife = EntityRecord::empty();
    knife.location = Some(Location { x: 0, y: 0 });
    knife.carried_by = Some(CarriedBy { owner: killer });
    knife.wants_to_stab = Some(WantsToStab {});
    ecs.create_from(knife);
    let before = ecs.ents.len();
    StabSystem::run_now_manually(&mut ecs);
    ecs.maintain();
    assert!(!ecs.contains_id(victim));
    assert!(ecs.contains_id(killer));
    // a blood splatter was left behind
    assert_eq!(ecs.ents.len(), before);
}

#[test]
fn cascade_deletion_removes_player_and_cargo() {
    let mut ecs = World::new();
    let p = player_at(&mut ecs, "A", 2, 2);
    let mut shadow = EntityRecord::empty();
    shadow.carried_by = Some(CarriedBy { owner: p });
    let s1 = ecs.create_from(shadow);
    let mut trail = EntityRecord::empty();
    trail.carried_by = Some(CarriedBy { owner: p });
    let s2 = ecs.create_from(trail);
    let mut bubble = EntityRecord::empty();
    bubble.carried_by = Some(CarriedBy { owner: p });
    bubble.chat_renderable = Some(ChatRenderable {
        text: String::from("hi"),
        offset_x: 0,
        offset_y: 0,
    });
    let s3 = ecs.create_from(bubble);
    let other = player_at(&mut ecs, "B", 9, 9);
    delete_player_with_id(&mut ecs, &String::from("A"));
    ecs.maintain();
    assert!(!ecs.contains_id(p));
    assert!(!ecs.contains_id(s1));
    assert!(!ecs.contains_id(s2));
    assert!(!ecs.contains_id(s3));
    assert!(ecs.contains_id(other));
    for r in &ecs.ents {
        if let Some(c) = &r.carried_by {
            assert_ne!(c.owner, p);
        }
    }
}

#[test]
fn click_rejected_on_water_accepted_on_grass() {
    let mut map = flat_map(8, 8, TileType::Grass);
    map.tiles[3][3] = TileType::Water;
    let mut ecs = World::new();
    let p = player_at(&mut ecs, "A", 1, 1);
    let pid = String::from("A");
    handle_click(&mut ecs, &map, 3, 3, &pid);
    let i = ecs.index_of(p).unwrap();
    assert!(ecs.ents[i].wants_to_move_to.is_none());
    handle_click(&mut ecs, &map, 5, 6, &pid);
    let i = ecs.index_of(p).unwrap();
    assert_eq!(
        ecs.ents[i].wants_to_move_to,
        Some(WantsToMoveTo { x: 5, y: 6, speed: 2 })
    );
}

#[test]
fn second_chat_replaces_first_bubble() {
    let mut ecs = World::new();
    let p = player_at(&mut ecs, "A", 1, 1);
    let pid = String::from("A");
    handle_chat_input(&mut ecs, "hello there", &pid);
    handle_chat_input(&mut ecs, "newer words", &pid);
    ecs.maintain();
    let mut bubbles = 0;
    for r in &ecs.ents {
        if r.chat_renderable.is_some() {
            if let Some(c) = &r.carried_by {
                if c.owner == p {
                    bubbles += 1;
                    assert_eq!(r.chat_renderable.as_ref().unwrap().text, "newer words");
                }
            }
        }
    }
    assert_eq!(bubbles, 1);
}

#[test]
fn snapshot_round_trip_preserves_components() {
    let mut ecs = World::new();
    let p = player_at(&mut ecs, "crab-1", 4, 5);
    let mut bubble = EntityRecord::empty();
    bubble.carried_by = Some(CarriedBy { owner: p });
    bubble.chat_renderable = Some(ChatRenderable {
        text: String::from("hi there"),
        offset_x: -20,
        offset_y: -100,
    });
    bubble.disappearing = Some(Disappearing { total_ticks: 100, ticks_left: 42 });
    bubble.renderable = Some(Renderable { render_order: 0 });
    ecs.create_from(bubble);
    let text = serialize_ecs(&ecs);
    let tokens = text_to_tokens(&text).expect("snapshot text parses");
    let decoded = decode_world(&tokens).expect("snapshot decodes");
    assert_eq!(decoded.ents.len(), ecs.ents.len());
    for (orig, new) in ecs.ents.iter().zip(decoded.ents.iter()) {
        assert_eq!(orig.marker, new.marker);
        assert_eq!(orig.player_info, new.player_info);
        assert_eq!(orig.location, new.location);
        assert_eq!(orig.chat_renderable, new.chat_renderable);
        assert_eq!(orig.disappearing, new.disappearing);
        assert_eq!(orig.renderable, new.renderable);
    }
    // identity is remapped through markers: the owner of the decoded
    // bubble is the decoded record with the original owner's marker
    let owner_marker = ecs.ents[0].marker;
    let decoded_owner = decoded.ents[1].carried_by.as_ref().unwrap().owner;
    let owner_rec = decoded
        .ents
        .iter()
        .find(|r| r.id == decoded_owner)
        .unwrap();
    assert_eq!(owner_rec.marker, owner_marker);
}

#[test]
fn token_text_round_trip() {
    let ts: Vec<u64> = vec![0, 1, 42, u64::MAX, 1234567890123456789];
    let text = tokens_to_text(&ts);
    let back = text_to_tokens(&text).unwrap();
    assert_eq!(ts, back);
    assert!(text_to_tokens("not a snapshot").is_none());
    assert!(text_to_tokens("999999999999999999999999999;").is_none());
}

#[test]
fn player_input_round_trip() {
    let cmd = PlayerInput::Click {
        id: String::from("abc"),
        x: -7,
        y: 11,
    };
    let text = serialize_player_input(&cmd);
    match deserialize_player_input(&text) {
        Some(PlayerInput::Click { id, x, y }) => {
            assert_eq!(id, "abc");
            assert_eq!(x, -7);
            assert_eq!(y, 11);
        }
        _ => panic!("command did not round trip"),
    }
    let chat = PlayerInput::Chat {
        id: String::from("p"),
        message: String::from("hello world"),
    };
    match deserialize_player_input(&serialize_player_input(&chat)) {
        Some(PlayerInput::Chat { id, message }) => {
            assert_eq!(id, "p");
            assert_eq!(message, "hello world");
        }
        _ => panic!("chat did not round trip"),
    }
}

#[test]
fn session_sends_full_then_incremental() {
    let mut s = Session::new();
    for _ in 0..5 {
        assert_eq!(s.on_timer(), SendKind::Full);
    }
    assert_eq!(s.on_timer(), SendKind::Incremental);
    assert_eq!(s.on_timer(), SendKind::Incremental);
    let create = serialize_player_input(&PlayerInput::CreatePlayer {
        id: String::from("me"),
        name: String::from("Crab"),
    });
    s.on_message(&create);
    assert_eq!(s.player_id.as_deref(), Some("me"));
    let bye = s.on_disconnect().unwrap();
    match deserialize_player_input(&bye) {
        Some(PlayerInput::DeletePlayer { id }) => assert_eq!(id, "me"),
        _ => panic!("disconnect should queue a deletion"),
    }
}

#[test]
fn initialize_ecs_builds_wellformed_world() {
    let state = initialize_ecs(24, 24, 1);
    assert_eq!(state.map.width, 24);
    assert_eq!(state.map.height, 24);
    // resident crabs were spawned when grass exists
    let chris = get_player_with_id(&state.ecs, &String::from("Chris"));
    let tammy = get_player_with_id(&state.ecs, &String::from("Tammy"));
    // on a tiny island grass can be missing; when present, both live
    if chris.is_some() {
        assert!(tammy.is_some());
    }
}

#[test]
fn tick_runs_pipeline_including_animation() {
    let mut ecs = World::new();
    let p = player_at(&mut ecs, "A", 1, 1);
    let mut knife = EntityRecord::empty();
    knife.location = Some(Location { x: 2, y: 2 });
    knife.wants_to_be_picked_up = Some(WantsToBePickedUp {});
    let k = ecs.create_from(knife);
    let mut spinner = EntityRecord::empty();
    spinner.graphic_renderable = Some(ferris_chat::components::GraphicRenderable {
        image_name: String::from("a"),
        offset_x: 0,
        offset_y: 0,
    });
    spinner.graphic_animatable = Some(ferris_chat::components::GraphicAnimatable {
        image_names: vec![String::from("a"), String::from("b")],
        tick_interval: 0,
        ticks: 0,
    });
    let sp = ecs.create_from(spinner);
    let mut state = ferris_chat::state::State {
        ecs,
        map: flat_map(8, 8, TileType::Grass),
        rng: Pcg32::new(1),
    };
    state.tick();
    // the pick-up step ran
    let ki = state.ecs.index_of(k).unwrap();
    assert_eq!(
        state.ecs.ents[ki].carried_by,
        Some(CarriedBy { owner: p })
    );
    // the animation step ran: the frame advanced
    let si = state.ecs.index_of(sp).unwrap();
    assert_eq!(
        state.ecs.ents[si].graphic_renderable.as_ref().unwrap().image_name,
        "b"
    );
}

#[test]
fn pickup_skips_player_queued_for_deletion() {
    let mut ecs = World::new();
    let p = player_at(&mut ecs, "A", 0, 0);
    let mut knife = EntityRecord::empty();
    knife.location = Some(Location { x: 1, y: 1 });
    knife.wants_to_be_picked_up = Some(WantsToBePickedUp {});
    let k = ecs.create_from(knife);
    ecs.delete_entity(p);
    PickUpSystem::run(&mut ecs);
    let ki = ecs.index_of(k).unwrap();
    assert!(ecs.ents[ki].carried_by.is_none());
    assert!(ecs.ents[ki].wants_to_be_picked_up.is_some());
}

#[test]
fn load_game_replaces_world_and_map() {
    let mut w = World::new();
    let p = player_at(&mut w, "crab-9", 3, 4);
    let mut bubble = EntityRecord::empty();
    bubble.carried_by = Some(CarriedBy { owner: p });
    bubble.chat_renderable = Some(ChatRenderable {
        text: String::from("carried words"),
        offset_x: -20,
        offset_y: -100,
    });
    w.create_from(bubble);
    let mut src_map = flat_map(6, 6, TileType::Sand);
    src_map.tiles[2][3] = TileType::Grass;
    let pkg = ferris_chat::codec::package_save_state(
        serialize_ecs(&w),
        Some(ferris_chat::codec::serialize_map(&src_map)),
    );
    let mut dst = World::new();
    player_at(&mut dst, "stale", 9, 9);
    let mut dst_map = flat_map(12, 12, TileType::Water);
    assert!(ferris_chat::codec::load_game(&mut dst, &mut dst_map, &pkg));
    // the destination world was replaced wholesale
    assert_eq!(dst.ents.len(), w.ents.len());
    for (orig, new) in w.ents.iter().zip(dst.ents.iter()) {
        assert_eq!(orig.marker, new.marker);
        assert_eq!(orig.player_info, new.player_info);
        assert_eq!(orig.location, new.location);
        assert_eq!(orig.chat_renderable, new.chat_renderable);
    }
    // the terrain came along because the package carried it
    assert_eq!(dst_map.tiles, src_map.tiles);
    // a package without terrain leaves the map alone
    let pkg2 = ferris_chat::codec::package_save_state(serialize_ecs(&w), None);
    let before = dst_map.tiles.clone();
    assert!(ferris_chat::codec::load_game(&mut dst, &mut dst_map, &pkg2));
    assert_eq!(dst_map.tiles, before);
}

#[test]
fn chat_ignored_for_player_queued_for_deletion() {
    let mut ecs = World::new();
    let p = player_at(&mut ecs, "A", 1, 1);
    ecs.delete_entity(p);
    handle_chat_input(&mut ecs, "too late", &String::from("A"));
    for r in &ecs.ents {
        assert!(r.chat_renderable.is_none());
    }
}

#[test]
fn fps_label_shows_previous_count() {
    let mut ecs = World::new();
    ferris_chat::entities::add_fps_tracker(
        &mut ecs,
        &ferris_chat::components::FPSTracker {
            for_time: 10,
            seen_frames: 3,
            prev_fps: 42,
        },
    );
    let label = &ecs.ents[0].text_renderable.as_ref().unwrap().text;
    assert_eq!(label, "FPS: 42");
}

#[test]
fn string_writer_round_trips_ascii() {
    let mut w = ferris_chat::string_writer::StringWriter::new();
    assert_eq!(w.write(b"abc"), 3);
    assert_eq!(w.write(b" def"), 4);
    assert_eq!(w.to_string(), "abc def");
}

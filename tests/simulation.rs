use bomberman::arena::{build_arena, classify, Cell, CellKind};
use bomberman::geometry::{rects_overlap, Point, Rect, WallLocation, COLS, ROWS};
use bomberman::movement::{resolve_move, Direction};
use bomberman::policy::{intent_for_draw, Input, Intent};
use bomberman::world::{snap_coord, World, FUSE_TICKS};

fn empty_world_with_actor(x: i64, y: i64, controlled: bool) -> (World, u64) {
    let mut w = World::empty();
    let id = w.add_actor(Point { x, y }, controlled).expect("actor fits");
    (w, id)
}

fn step(w: &mut World, id: u64, d: Direction, n: usize) {
    for _ in 0..n {
        w.move_actor(id, d);
    }
}

fn idle(w: &mut World, dt: u64) {
    w.tick_with(&vec![], &vec![], dt);
}

// Runs a freshly placed device's fuse out, one tick at a time at the end.
fn run_fuse(w: &mut World) {
    idle(w, FUSE_TICKS - 1);
    idle(w, 1);
}

#[test]
fn classification_follows_layout_rule() {
    assert_eq!(classify(1, 1), CellKind::Brick);
    assert_eq!(classify(9, 11), CellKind::Brick);
    assert_eq!(classify(0, 0), CellKind::Empty);
    assert_eq!(classify(10, 12), CellKind::Empty);
    assert_eq!(classify(9, 0), CellKind::Empty);
    assert_eq!(classify(2, 0), CellKind::Wall);
    assert_eq!(classify(0, 2), CellKind::Wall);
    assert_eq!(classify(8, 12), CellKind::Wall);
    assert_eq!(classify(1, 12), CellKind::Empty);
}

#[test]
fn arena_builder_is_exact_and_deterministic() {
    let cells = build_arena();
    let mut expected: Vec<Cell> = Vec::new();
    for row in 0..ROWS {
        for col in 0..COLS {
            let odd = row % 2 == 1 && col % 2 == 1;
            let inner = (2..ROWS - 2).contains(&row) || (2..COLS - 2).contains(&col);
            if odd {
                expected.push(Cell { row, col, breakable: true });
            } else if inner {
                expected.push(Cell { row, col, breakable: false });
            }
        }
    }
    assert_eq!(cells, expected);
    assert_eq!(build_arena(), cells);
    assert_eq!(cells.iter().filter(|c| c.breakable).count(), 30);
}

#[test]
fn boundary_walls_enclose_the_grid() {
    let l = WallLocation::Left.rect();
    assert_eq!(l, Rect { x: -330, y: 0, w: 10, h: 560 });
    let r = WallLocation::Right.rect();
    assert_eq!(r, Rect { x: 330, y: 0, w: 10, h: 560 });
    let t = WallLocation::Top.rect();
    assert_eq!(t, Rect { x: 0, y: 280, w: 660, h: 10 });
    let b = WallLocation::Bottom.rect();
    assert_eq!(b, Rect { x: 0, y: -280, w: 660, h: 10 });
}

#[test]
fn touching_boxes_do_not_overlap() {
    let a = Rect { x: 0, y: 0, w: 50, h: 50 };
    let b = Rect { x: 50, y: 0, w: 50, h: 50 };
    let c = Rect { x: 49, y: 49, w: 50, h: 50 };
    assert!(!rects_overlap(&a, &b));
    assert!(rects_overlap(&a, &c));
}

#[test]
fn standard_world_starts_in_the_corners() {
    let w = World::new();
    assert_eq!(w.actors.len(), 4);
    assert_eq!(w.actors.iter().filter(|a| a.controlled).count(), 1);
    assert_eq!(w.actors[0].pos, Point { x: -300, y: 250 });
    assert!(w.actors[0].controlled);
    assert_eq!(w.actors[2].pos, Point { x: 300, y: -250 });
    assert_eq!(w.cells, build_arena());
    assert_eq!(w.score, 0);
    assert!(!w.game_over);
}

#[test]
fn movement_clamps_and_stops_at_terrain() {
    let cells = build_arena();
    let start = Point { x: -300, y: 250 };
    assert_eq!(resolve_move(&cells, start, Direction::Up), start);
    assert_eq!(resolve_move(&cells, start, Direction::Left), start);
    assert_eq!(resolve_move(&cells, start, Direction::Right), Point { x: -295, y: 250 });
    let mut w = World::new();
    step(&mut w, 0, Direction::Down, 30);
    assert_eq!(w.actors[0].pos, Point { x: -300, y: 195 });
}

#[test]
fn movement_never_enters_terrain() {
    let mut w = World::new();
    let dirs = [Direction::Down, Direction::Right, Direction::Up, Direction::Left];
    for i in 0..400usize {
        let d = dirs[(i * 7 + i / 13) % 4];
        w.move_actor(0, d);
        let p = w.actors[0].pos;
        let b = Rect { x: p.x, y: p.y, w: 40, h: 40 };
        assert!(p.x >= -300 && p.x <= 300 && p.y >= -250 && p.y <= 250);
        for c in w.cells.iter() {
            assert!(!rects_overlap(&c.rect(), &b));
        }
    }
}

#[test]
fn snapping_rounds_half_away_from_zero() {
    assert_eq!(snap_coord(25), 50);
    assert_eq!(snap_coord(24), 0);
    assert_eq!(snap_coord(-25), -50);
    assert_eq!(snap_coord(-24), 0);
    assert_eq!(snap_coord(-275), -300);
    assert_eq!(snap_coord(250), 250);
}

#[test]
fn placement_at_allowance_is_rejected() {
    let (mut w, id) = empty_world_with_actor(-300, 250, true);
    assert!(w.place_device(id));
    assert_eq!(w.devices.len(), 1);
    assert_eq!(w.devices[0].pos, Point { x: -300, y: 250 });
    assert_eq!(w.devices[0].power, 1);
    assert_eq!(w.actors[0].active_devices, 1);
    assert!(!w.place_device(id));
    assert_eq!(w.devices.len(), 1);
    assert_eq!(w.actors[0].active_devices, 1);
    assert!(!w.place_device(id + 7));
}

#[test]
fn detonation_frees_the_owner_slot() {
    let (mut w, id) = empty_world_with_actor(0, 0, true);
    assert!(w.place_device(id));
    step(&mut w, id, Direction::Up, 20);
    step(&mut w, id, Direction::Right, 20);
    run_fuse(&mut w);
    assert!(w.devices.is_empty());
    assert_eq!(w.actors.len(), 1);
    assert_eq!(w.actors[0].active_devices, 0);
    assert!(w.place_device(id));
}

#[test]
fn brick_in_horizontal_bar_is_destroyed() {
    let (mut w, id) = empty_world_with_actor(0, 0, true);
    assert!(w.place_device(id));
    step(&mut w, id, Direction::Up, 10);
    step(&mut w, id, Direction::Right, 10);
    assert_eq!(w.actors[0].pos, Point { x: 50, y: 50 });
    assert!(w.add_cell(5, 7, true));
    assert_eq!(w.cells[0].rect(), Rect { x: 50, y: 0, w: 50, h: 50 });
    run_fuse(&mut w);
    assert!(w.cells.is_empty());
    assert_eq!(w.score, 1);
    assert_eq!(w.blasts.len(), 2);
    assert!(w.blasts.iter().all(|b| b.pos == Point { x: 0, y: 0 }));
    assert!(w.blasts[0].horizontal && !w.blasts[1].horizontal);
    assert!(w.devices.is_empty());
    assert_eq!(w.actors.len(), 1);
    assert!(!w.game_over);
}

#[test]
fn walls_survive_blasts() {
    let (mut w, id) = empty_world_with_actor(0, 0, true);
    assert!(w.place_device(id));
    step(&mut w, id, Direction::Up, 10);
    step(&mut w, id, Direction::Right, 10);
    assert!(w.add_cell(5, 7, false));
    run_fuse(&mut w);
    assert_eq!(w.cells.len(), 1);
    assert_eq!(w.score, 0);
}

#[test]
fn controlled_actor_in_vertical_bar_ends_the_game() {
    let (mut w, id) = empty_world_with_actor(0, 0, true);
    assert!(w.place_device(id));
    step(&mut w, id, Direction::Up, 10);
    assert_eq!(w.actors[0].pos, Point { x: 0, y: 50 });
    run_fuse(&mut w);
    assert!(w.actors.is_empty());
    assert_eq!(w.find_actor(id), None);
    assert!(w.game_over);
    assert_eq!(w.score, 0);
}

#[test]
fn autonomous_actor_in_blast_scores_a_hundred() {
    let (mut w, id) = empty_world_with_actor(0, 0, false);
    assert!(w.place_device(id));
    run_fuse(&mut w);
    assert!(w.actors.is_empty());
    assert_eq!(w.score, 100);
    assert!(!w.game_over);
}

#[test]
fn game_over_latch_stays_set() {
    let (mut w, id) = empty_world_with_actor(0, 0, true);
    let other = w.add_actor(Point { x: 200, y: 200 }, false).unwrap();
    assert!(w.place_device(id));
    run_fuse(&mut w);
    assert!(w.game_over);
    assert!(w.place_device(other));
    run_fuse(&mut w);
    assert!(w.game_over);
    assert_eq!(w.score, 100);
}

#[test]
fn chain_of_devices_detonates_in_one_tick() {
    let (mut w, id) = empty_world_with_actor(0, 0, true);
    w.actors[0].max_devices = 3;
    assert!(w.place_device(id));
    idle(&mut w, 30);
    step(&mut w, id, Direction::Right, 10);
    assert!(w.place_device(id));
    step(&mut w, id, Direction::Right, 10);
    assert!(w.place_device(id));
    step(&mut w, id, Direction::Up, 20);
    assert_eq!(w.devices.len(), 3);
    idle(&mut w, 30);
    assert!(w.devices.is_empty());
    assert_eq!(w.blasts.len(), 6);
    assert_eq!(w.actors.len(), 1);
    assert_eq!(w.actors[0].active_devices, 0);
}

#[test]
fn devices_out_of_reach_are_not_chained() {
    let (mut w, id) = empty_world_with_actor(-300, 0, true);
    w.actors[0].max_devices = 2;
    assert!(w.place_device(id));
    idle(&mut w, 30);
    step(&mut w, id, Direction::Right, 40);
    assert!(w.place_device(id));
    step(&mut w, id, Direction::Up, 20);
    idle(&mut w, 30);
    assert_eq!(w.devices.len(), 1);
    assert_eq!(w.devices[0].pos, Point { x: -100, y: 0 });
    assert_eq!(w.devices[0].elapsed, 30);
    assert_eq!(w.blasts.len(), 2);
}

#[test]
fn timers_expire_exactly_at_their_duration() {
    let (mut w, id) = empty_world_with_actor(0, 0, false);
    let far = w.add_actor(Point { x: 300, y: 250 }, false).unwrap();
    assert!(w.place_device(far));
    idle(&mut w, FUSE_TICKS - 1);
    assert_eq!(w.devices.len(), 1);
    assert_eq!(w.devices[0].elapsed, FUSE_TICKS - 1);
    idle(&mut w, 1);
    assert!(w.devices.is_empty());
    assert_eq!(w.blasts.len(), 2);
    assert_eq!(w.blasts[0].elapsed, 1);
    idle(&mut w, 58);
    assert_eq!(w.blasts.len(), 2);
    assert_eq!(w.blasts[0].elapsed, 59);
    idle(&mut w, 1);
    assert!(w.blasts.is_empty());
    assert!(w.find_actor(id).is_some());
}

#[test]
fn intents_come_from_inputs_and_draws() {
    let w = World::new();
    let r = w.gather_intents(&vec![Input::Up, Input::Place], &vec![9, 0, 4, 3]);
    assert_eq!(
        r,
        vec![
            Intent::Move { actor: 0, dir: Direction::Up },
            Intent::Place { actor: 0 },
            Intent::Move { actor: 1, dir: Direction::Down },
            Intent::Place { actor: 2 },
            Intent::Move { actor: 3, dir: Direction::Up },
        ]
    );
    assert_eq!(intent_for_draw(5, 1), Intent::Move { actor: 5, dir: Direction::Left });
    assert_eq!(intent_for_draw(5, 2), Intent::Move { actor: 5, dir: Direction::Right });
}

#[test]
fn no_controlled_actor_means_no_input_intents() {
    let (w, _) = empty_world_with_actor(0, 0, false);
    let r = w.gather_intents(&vec![Input::Up], &vec![]);
    assert!(r.is_empty());
}

#[test]
fn second_controlled_actor_is_refused() {
    let (mut w, _) = empty_world_with_actor(0, 0, true);
    assert_eq!(w.add_actor(Point { x: 100, y: 100 }, true), None);
    assert_eq!(w.add_actor(Point { x: 400, y: 0 }, false), None);
    assert!(!w.add_cell(5, 6, true));
    assert!(!w.add_cell(11, 0, true));
    let mut a = World::new();
    assert_eq!(a.add_actor(Point { x: -250, y: 200 }, false), None);
}

#[test]
fn random_ticks_keep_the_world_consistent() {
    let mut w = World::new();
    let mut last = 0;
    for _ in 0..600 {
        w.tick(&vec![Input::Right], 1);
        assert!(w.score >= last);
        last = w.score;
        for a in w.actors.iter() {
            assert!(a.active_devices <= a.max_devices);
            assert!(a.pos.x >= -300 && a.pos.x <= 300 && a.pos.y >= -250 && a.pos.y <= 250);
        }
        assert!(w.devices.iter().all(|d| d.elapsed < FUSE_TICKS));
    }
}

#[test]
fn intents_apply_in_order() {
    let mut w = World::new();
    let intents = vec![
        Intent::Place { actor: 0 },
        Intent::Move { actor: 0, dir: Direction::Right },
        Intent::Place { actor: 0 },
        Intent::Move { actor: 42, dir: Direction::Down },
        Intent::Move { actor: 1, dir: Direction::Left },
    ];
    w.apply_intents(&intents);
    assert_eq!(w.devices.len(), 1);
    assert_eq!(w.devices[0].pos, Point { x: -300, y: 250 });
    assert_eq!(w.actors[0].pos, Point { x: -295, y: 250 });
    assert_eq!(w.actors[0].active_devices, 1);
    assert_eq!(w.actors[1].pos, Point { x: 295, y: 250 });
}

#[test]
fn blast_regions_cover_their_bars() {
    let (mut w, id) = empty_world_with_actor(0, 0, false);
    assert!(w.place_device(id));
    run_fuse(&mut w);
    assert_eq!(w.blasts[0].rect(), Rect { x: 0, y: 0, w: 150, h: 50 });
    assert_eq!(w.blasts[1].rect(), Rect { x: 0, y: 0, w: 50, h: 150 });
}

#[test]
fn device_in_vertical_bar_is_chained() {
    let (mut w, id) = empty_world_with_actor(0, 0, true);
    w.actors[0].max_devices = 2;
    assert!(w.place_device(id));
    idle(&mut w, 30);
    step(&mut w, id, Direction::Up, 10);
    assert!(w.place_device(id));
    step(&mut w, id, Direction::Right, 20);
    step(&mut w, id, Direction::Up, 10);
    idle(&mut w, 30);
    assert!(w.devices.is_empty());
    assert_eq!(w.blasts.len(), 4);
    assert_eq!(w.actors.len(), 1);
}

#[test]
fn cascade_of_unknown_identity_changes_nothing() {
    let (mut w, id) = empty_world_with_actor(0, 0, false);
    assert!(w.add_cell(5, 7, true));
    assert!(w.place_device(id));
    w.run_cascade(vec![999]);
    assert_eq!(w.devices.len(), 1);
    assert_eq!(w.cells.len(), 1);
    assert_eq!(w.actors.len(), 1);
    assert_eq!(w.actors[0].active_devices, 1);
    assert_eq!(w.score, 0);
    assert!(w.blasts.is_empty());
}

#[test]
fn unreached_devices_stay_armed() {
    let (mut w, id) = empty_world_with_actor(0, 0, true);
    w.actors[0].max_devices = 2;
    assert!(w.place_device(id));
    step(&mut w, id, Direction::Right, 10);
    assert!(w.place_device(id));
    w.run_cascade(vec![]);
    assert_eq!(w.devices.len(), 2);
    let first = w.devices[0].id;
    w.run_cascade(vec![first]);
    assert!(w.devices.is_empty());
    assert_eq!(w.blasts.len(), 4);
    assert_eq!(w.blasts[2].pos, Point { x: 50, y: 0 });
    assert!(w.actors.is_empty());
    assert!(w.game_over);
}

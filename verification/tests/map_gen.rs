use dungeon_explorer::map_gen::{Direction, InvalidTemplate, MapGenerator, Room, RoomPlacement, Tile};
use dungeon_explorer::rect::{Point, Rect};
use rand::SeedableRng;

fn seeded(seed: u64) -> rand::rngs::StdRng {
    rand::rngs::StdRng::seed_from_u64(seed)
}

fn bounding_rect(p: &RoomPlacement) -> Rect {
    Rect {
        min: p.pos,
        max: Point {
            x: p.pos.x + p.room.width as i32,
            y: p.pos.y + p.room.height as i32,
        },
    }
}

#[test]
fn tile_is_empty() {
    assert!(Tile::Empty.is_empty());
    assert!(!Tile::Dirt.is_empty());
}

#[test]
fn direction_flip() {
    assert_eq!(Direction::North.flip(), Direction::South);
    assert_eq!(Direction::South.flip(), Direction::North);
    assert_eq!(Direction::East.flip(), Direction::West);
    assert_eq!(Direction::West.flip(), Direction::East);
}

#[test]
fn room_rejects_malformed_grids() {
    assert_eq!(Room::new(vec![]), Err(InvalidTemplate));
    assert_eq!(Room::new(vec![vec![]]), Err(InvalidTemplate));
    assert_eq!(
        Room::new(vec![vec![Tile::Empty, Tile::Dirt], vec![Tile::Empty]]),
        Err(InvalidTemplate)
    );
}

#[test]
fn room_entrances_follow_grid() {
    let e = Tile::Empty;
    let d = Tile::Dirt;
    let room = Room::new(vec![
        vec![d, e, d],
        vec![e, e, e],
        vec![d, e, d],
    ])
    .unwrap();
    assert_eq!(room.width, 3);
    assert_eq!(room.height, 3);
    assert_eq!(room.north, vec![1]);
    assert_eq!(room.south, vec![1]);
    assert_eq!(room.east, vec![1]);
    assert_eq!(room.west, vec![1]);
}

#[test]
fn room_entrances_on_asymmetric_grid() {
    let e = Tile::Empty;
    let d = Tile::Dirt;
    let room = Room::new(vec![
        vec![e, e, d, e],
        vec![d, e, e, e],
        vec![e, d, d, d],
    ])
    .unwrap();
    assert_eq!(room.north, vec![0, 1, 3]);
    assert_eq!(room.south, vec![0]);
    assert_eq!(room.east, vec![0, 1]);
    assert_eq!(room.west, vec![0, 2]);
}

#[test]
fn first_yield_is_centered_start_room() {
    let mut gen = MapGenerator::new(100, 80, seeded(1));
    let p = gen.next().unwrap();
    assert_eq!(p.pos, Point { x: 45, y: 35 });
    assert_eq!(p.room.width, 10);
    assert_eq!(p.room.height, 10);
}

#[test]
fn same_seed_same_sequence() {
    let collect = |seed: u64| {
        let mut gen = MapGenerator::new(120, 90, seeded(seed));
        let mut v = Vec::new();
        while let Some(p) = gen.next() {
            v.push(p);
        }
        v
    };
    let a = collect(42);
    let b = collect(42);
    assert!(!a.is_empty());
    assert_eq!(a, b);
}

#[test]
fn run_terminates_with_disjoint_in_bound_rects() {
    let width = 60u32;
    let height = 60u32;
    let mut gen = MapGenerator::new(width, height, seeded(7));
    let mut rects: Vec<Rect> = Vec::new();
    let mut steps = 0usize;
    while let Some(p) = gen.next() {
        assert!(p.pos.x >= 0);
        assert!(p.pos.x + p.room.width as i32 <= width as i32 + 20);
        assert!(p.pos.y >= 0);
        assert!(p.pos.y + p.room.height as i32 <= height as i32 + 20);
        rects.push(bounding_rect(&p));
        steps += 1;
        assert!(steps < 100000, "generation did not reach end of sequence");
    }
    assert!(rects.len() >= 2);
    for i in 0..rects.len() {
        for j in 0..i {
            assert!(!rects[i].overlaps(&rects[j]));
        }
    }
}

#[test]
fn exhausted_generator_stays_exhausted() {
    let mut gen = MapGenerator::new(40, 40, seeded(3));
    let mut steps = 0usize;
    while gen.next().is_some() {
        steps += 1;
        assert!(steps < 100000);
    }
    assert!(gen.next().is_none());
    assert!(gen.next().is_none());
}

use polyrhythm::animation::MyGame;
use polyrhythm::vectors::{Vector, UNIT};

fn v(x: i64, y: i64) -> Vector<i64> {
    Vector { x, y }
}

fn triangle() -> Vec<Vector<i64>> {
    vec![v(0, 0), v(4 * UNIT, 0), v(0, 3 * UNIT)]
}

fn square() -> Vec<Vector<i64>> {
    vec![v(0, 0), v(2 * UNIT, 0), v(2 * UNIT, 2 * UNIT), v(0, 2 * UNIT)]
}

#[test]
fn one_extra_shape_gives_triangle_and_square() {
    let game = MyGame::new(vec![triangle(), square()], false, UNIT);
    assert_eq!(game.shape_count(), 2);
    assert_eq!(game.vertices(0).len(), 3);
    assert_eq!(game.vertices(1).len(), 4);
    for i in 0..2 {
        assert_eq!(game.position(i), game.vertices(i)[0]);
        assert_eq!(game.target_index(i), 0);
    }
    assert_eq!(game.frequency(0), 2_000_000);
    assert_eq!(game.frequency(1), 3_600_000);
}

#[test]
fn tones_spread_over_extra_shapes() {
    let pentagon = vec![v(0, 0), v(UNIT, 0), v(UNIT, UNIT), v(0, 2 * UNIT), v(-UNIT, UNIT)];
    let game = MyGame::new(vec![triangle(), square(), pentagon], true, UNIT);
    assert_eq!(game.frequency(0), 1_200_000);
    assert_eq!(game.frequency(1), 2_000_000);
    assert_eq!(game.frequency(2), 2_800_000);
}

#[test]
fn overshoot_carries_into_next_edge() {
    let mut game = MyGame::new(vec![triangle(), square()], true, UNIT);
    game.update(0);
    assert_eq!(game.target_index(0), 1);
    assert_eq!(game.position(0), v(0, 0));
    // The triangle covers six units in this tick: its four-unit edge and
    // two of the five units toward the third vertex.
    let events = game.update(2 * UNIT);
    assert!(events.is_empty());
    assert_eq!(game.target_index(0), 2);
    assert_eq!(game.position(0), v(2_400_000, 1_200_000));
    assert_eq!(game.target_index(1), 2);
    assert_eq!(game.position(1), v(2 * UNIT, 2 * UNIT));
}

#[test]
fn tone_sounds_once_per_circuit() {
    let mut game = MyGame::new(vec![triangle(), square()], true, UNIT);
    let mut rang: Vec<usize> = Vec::new();
    let mut indices: Vec<usize> = Vec::new();
    for tick in 0..12 {
        let events = game.update(UNIT / 2);
        let count = events.iter().filter(|&&f| f == 2_000_000).count();
        assert!(count <= 1);
        if count == 1 {
            rang.push(tick);
        }
        indices.push(game.target_index(0));
    }
    assert_eq!(rang, vec![0, 7]);
    assert_eq!(indices, vec![1, 1, 2, 2, 2, 0, 0, 1, 1, 1, 2, 2]);
    assert_eq!(game.position(0), v(2_400_000, 1_200_000));
}

#[test]
fn small_ticks_move_along_first_edge() {
    let mut game = MyGame::new(vec![triangle(), square()], true, UNIT);
    let first = game.update(UNIT / 2);
    assert_eq!(first, vec![2_000_000, 3_600_000]);
    assert_eq!(game.position(0), v(1_500_000, 0));
    assert_eq!(game.position(1), v(UNIT, 0));
    assert!(game.update(0).is_empty());
    assert_eq!(game.position(0), v(1_500_000, 0));
}

#[test]
fn single_triangle_sounds_base_tone() {
    let mut game = MyGame::new(vec![triangle()], false, UNIT);
    assert_eq!(game.shape_count(), 1);
    assert_eq!(game.frequency(0), 400_000);
    assert_eq!(game.update(0), vec![400_000]);
    assert_eq!(game.target_index(0), 1);
}

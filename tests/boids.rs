use boids::boid::{Boid, BoidKind, Population, UUID};
use boids::geometry::Position;
use boids::rule::{Attract, Avoid, BoidRule, Effect, REPULSION_SCALE};
use boids::world::{chunk_cuts, ActiveRule, Rules, World};

fn boid_at(x: i32, y: i32, id: u128) -> Boid {
    let mut b = Boid::new();
    b.position = Position { x, y };
    b.id = UUID::from_u128(id);
    b
}

fn population_of(points: &[(i32, i32)]) -> Population {
    let boids: Vec<Boid> = points
        .iter()
        .enumerate()
        .map(|(i, &(x, y))| boid_at(x, y, 100 + i as u128))
        .collect();
    Population::from_boids(boids)
}

fn scattered(n: usize) -> Population {
    let mut seed: u64 = 12345;
    let mut points = Vec::new();
    for _ in 0..n {
        seed = seed.wrapping_mul(6364136223846793005).wrapping_add(1442695040888963407);
        let x = ((seed >> 33) % 2001) as i32 - 1000;
        seed = seed.wrapping_mul(6364136223846793005).wrapping_add(1442695040888963407);
        let y = ((seed >> 33) % 2001) as i32 - 1000;
        points.push((x, y));
    }
    population_of(&points)
}

#[test]
fn distance_to_self_is_zero() {
    for p in [Position { x: 0, y: 0 }, Position { x: -7, y: 12 }, Position { x: i32::MAX, y: i32::MIN }] {
        assert_eq!(p.distance_to(&p), 0);
        assert_eq!(p.squared_distance_to(&p), 0);
    }
}

#[test]
fn distance_is_symmetric() {
    let p = Position { x: -3, y: 8 };
    let q = Position { x: 40, y: -2 };
    assert_eq!(p.distance_to(&q), q.distance_to(&p));
    assert_eq!(p.squared_distance_to(&q), q.squared_distance_to(&p));
}

#[test]
fn distance_three_four_five() {
    let p = Position { x: 0, y: 0 };
    let q = Position { x: 3, y: 4 };
    assert_eq!(p.squared_distance_to(&q), 25);
    assert_eq!(p.distance_to(&q), 5);
}

#[test]
fn distance_rounds_down() {
    let p = Position { x: 0, y: 0 };
    assert_eq!(p.distance_to(&Position { x: 1, y: 1 }), 1);
    assert_eq!(p.distance_to(&Position { x: 5, y: 5 }), 7);
}

#[test]
fn distance_across_the_whole_grid() {
    let p = Position { x: i32::MIN, y: i32::MIN };
    let q = Position { x: i32::MAX, y: i32::MAX };
    assert_eq!(p.squared_distance_to(&q), 36893488130239234050);
    assert_eq!(p.distance_to(&q), 6074000998);
}

#[test]
fn default_position_is_origin() {
    assert_eq!(Position::default(), Position { x: 0, y: 0 });
}

#[test]
fn boid_distance_uses_positions() {
    let a = boid_at(1, 1, 1);
    let b = boid_at(4, 5, 2);
    assert_eq!(a.distance_to(&b), 5);
}

#[test]
fn new_boid_defaults() {
    let b = Boid::new();
    assert_eq!(b.kind, BoidKind::Dumb);
    assert_eq!(b.position, Position { x: 0, y: 0 });
    assert_eq!(b.speed, 0);
}

#[test]
fn fresh_identifiers_differ() {
    let a = Boid::new();
    let b = Boid::new();
    assert_ne!(a.id, b.id);
}

#[test]
fn fresh_identifier_is_version_four() {
    let id = Boid::new().id;
    assert_eq!((id.as_u128() >> 76) & 0xf, 4);
    assert_eq!((id.as_u128() >> 62) & 0x3, 2);
    let text = id.to_string();
    assert_eq!(text.len(), 36);
    assert_eq!(text.chars().nth(14), Some('4'));
}

#[test]
fn identifier_text_is_hyphenated() {
    let id = UUID::from_u128(0x67e5504410b1426f9247bb680e5fe0c8);
    assert_eq!(id.as_u128(), 0x67e5504410b1426f9247bb680e5fe0c8);
    assert_eq!(id.to_string(), "67e55044-10b1-426f-9247-bb680e5fe0c8");
    assert_eq!(UUID::from_u128(0).to_string(), "00000000-0000-0000-0000-000000000000");
}

#[test]
fn react_to_leaves_boid_unchanged() {
    let pop = population_of(&[(1, 2), (3, 4)]);
    let mut b = boid_at(9, 9, 5);
    let before = b;
    b.react_to(&pop);
    assert_eq!(b, before);
}

#[test]
fn create_builds_n_default_boids() {
    let pop = Population::create(17);
    assert_eq!(pop.size(), 17);
    for i in 0..17 {
        let b = pop.get(i);
        assert_eq!(b.kind, BoidKind::Dumb);
        assert_eq!(b.position, Position { x: 0, y: 0 });
        assert_eq!(b.speed, 0);
    }
}

#[test]
fn create_empty_population() {
    let mut pop = Population::create(0);
    assert_eq!(pop.size(), 0);
    assert_eq!(pop.next(), None);
}

#[test]
fn traversal_yields_creation_order_once() {
    let mut pop = population_of(&[(1, 0), (2, 0), (3, 0)]);
    let expected: Vec<Boid> = (0..3).map(|i| *pop.get(i)).collect();
    assert_eq!(pop.next(), Some(expected[0]));
    assert_eq!(pop.next(), Some(expected[1]));
    assert_eq!(pop.next(), Some(expected[2]));
    assert_eq!(pop.next(), None);
    assert_eq!(pop.next(), None);
    assert_eq!(pop.size(), 3);
}

#[test]
fn traverse_collects_rest_then_nothing() {
    let mut pop = Population::create(5);
    let all: Vec<Boid> = (0..5).map(|i| *pop.get(i)).collect();
    let first = pop.next().unwrap();
    assert_eq!(first, all[0]);
    let rest = pop.traverse();
    assert_eq!(rest, all[1..].to_vec());
    assert!(pop.traverse().is_empty());
    assert_eq!(pop.next(), None);
}

#[test]
fn avoid_default_considers_three() {
    let pop = population_of(&[(0, 0), (1, 0), (2, 0), (3, 0), (4, 0), (5, 0)]);
    assert_eq!(Avoid::new().nearest(0, &pop), vec![1, 2, 3]);
}

#[test]
fn avoid_selects_nearest_with_identifier_ties() {
    let mut boids = vec![
        boid_at(0, 0, 100),
        boid_at(3, 4, 101),
        boid_at(1, 0, 50),
        boid_at(0, 2, 103),
        boid_at(-1, 0, 40),
        boid_at(10, 10, 105),
    ];
    let pop = Population::from_boids(boids.clone());
    assert_eq!(Avoid::with_n_nearest(3).nearest(0, &pop), vec![4, 2, 3]);
    boids[4].id = UUID::from_u128(60);
    let pop = Population::from_boids(boids);
    assert_eq!(Avoid::with_n_nearest(3).nearest(0, &pop), vec![2, 4, 3]);
}

#[test]
fn avoid_nearest_k_is_correct() {
    let pop = scattered(200);
    let k: usize = 7;
    let rule = Avoid::with_n_nearest(k as u64);
    for t in [0usize, 57, 199] {
        let sel = rule.nearest(t, &pop);
        assert_eq!(sel.len(), k);
        let me = pop.get(t).position;
        for (x, &a) in sel.iter().enumerate() {
            assert!(a != t && a < 200);
            assert!(!sel[..x].contains(&a));
            let da = me.distance_to(&pop.get(a).position);
            for j in 0..200 {
                if j != t && !sel.contains(&j) {
                    assert!(da <= me.distance_to(&pop.get(j).position));
                }
            }
        }
    }
}

#[test]
fn avoid_with_fewer_agents_than_wanted_takes_all_others() {
    let pop = population_of(&[(5, 5), (0, 0), (9, 9)]);
    assert_eq!(Avoid::with_n_nearest(10).nearest(0, &pop), vec![2, 1]);
    assert_eq!(Avoid::with_n_nearest(0).nearest(0, &pop), Vec::<usize>::new());
}

#[test]
fn avoid_single_agent_has_no_effect() {
    let pop = population_of(&[(4, -4)]);
    assert!(Avoid::new().nearest(0, &pop).is_empty());
    assert_eq!(Avoid::new().use_on(0, &pop), Effect { dx: 0, dy: 0 });
    assert_eq!(Attract::new().use_on(0, &pop), Effect { dx: 0, dy: 0 });
}

#[test]
fn avoid_effect_pushes_away_from_nearest() {
    let boids = vec![
        boid_at(0, 0, 100),
        boid_at(3, 4, 101),
        boid_at(1, 0, 50),
        boid_at(0, 2, 103),
        boid_at(-1, 0, 40),
        boid_at(10, 10, 105),
    ];
    let pop = Population::from_boids(boids);
    assert_eq!(Avoid::with_n_nearest(3).use_on(0, &pop), Effect { dx: 0, dy: -524288 });
    assert_eq!(Avoid::with_n_nearest(1).use_on(1, &pop), Effect { dx: 241980, dy: 161320 });
}

#[test]
fn avoid_push_weakens_with_distance_and_rounds_toward_zero() {
    let pop = population_of(&[(0, 0), (3, 4)]);
    let rule = Avoid::with_n_nearest(1);
    assert_eq!(rule.use_on(0, &pop), Effect { dx: -125830, dy: -167773 });
    assert_eq!(rule.use_on(1, &pop), Effect { dx: 125830, dy: 167773 });
    let near = population_of(&[(0, 0), (1, 0)]);
    assert_eq!(rule.use_on(0, &near), Effect { dx: -(REPULSION_SCALE as i128), dy: 0 });
}

#[test]
fn attract_effect_points_to_centroid_of_others() {
    let pop = population_of(&[(0, 0), (3, 4), (1, 0), (0, 2), (-1, 0), (10, 10)]);
    assert_eq!(Attract::new().use_on(0, &pop), Effect { dx: 13, dy: 16 });
    assert_eq!(Attract::new().use_on(5, &pop), Effect { dx: 3 - 50, dy: 6 - 50 });
}

#[test]
fn attract_gathered_population_is_zero() {
    let pop = population_of(&[(7, -3), (7, -3), (7, -3), (7, -3)]);
    for i in 0..4 {
        assert_eq!(Attract::new().use_on(i, &pop), Effect { dx: 0, dy: 0 });
    }
}

#[test]
fn avoid_end_to_end_picks_the_coincident_agent() {
    let pop = population_of(&[(0, 0), (3, 4), (0, 0)]);
    let rule = Avoid::with_n_nearest(1);
    assert_eq!(rule.nearest(0, &pop), vec![2]);
    assert_eq!(pop.get(0).distance_to(pop.get(2)), 0);
    assert_eq!(pop.get(0).distance_to(pop.get(1)), 5);
    assert_eq!(rule.use_on(0, &pop), Effect { dx: 0, dy: 0 });
}

#[test]
fn world_turn_covers_every_agent() {
    let world = World::a_whole_new_world(Rules::Avoid, 6);
    assert_eq!(world.size(), 6);
    let effects = world.turn();
    assert_eq!(effects, vec![Effect { dx: 0, dy: 0 }; 6]);
    let world = World::a_whole_new_world(Rules::Attract, 4);
    assert_eq!(world.turn(), vec![Effect { dx: 0, dy: 0 }; 4]);
}

#[test]
fn world_turn_matches_rule_per_agent() {
    let pop = population_of(&[(0, 0), (3, 4), (1, 0), (0, 2)]);
    let world = World::with_population(ActiveRule::Attract(Attract::new()), pop.clone());
    let effects = world.turn();
    for i in 0..4 {
        assert_eq!(effects[i], Attract::new().use_on(i, &pop));
    }
}

#[test]
fn chunked_tick_matches_sequential() {
    let pop = scattered(1000);
    let world = World::with_population(ActiveRule::Avoid(Avoid::new()), pop.clone());
    let mut joined = Vec::new();
    for (start, end) in [(0, 7), (7, 7), (7, 400), (400, 1000)] {
        joined.extend(world.evaluate_chunk(start, end));
    }
    let sequential = World::with_population(ActiveRule::Avoid(Avoid::new()), pop).turn();
    assert_eq!(joined.len(), 1000);
    assert_eq!(joined, sequential);
}

#[test]
fn avoid_ties_on_reported_distance_go_to_smaller_identifier() {
    let pop = Population::from_boids(vec![boid_at(0, 0, 1), boid_at(2, 0, 9), boid_at(2, 1, 5)]);
    assert_eq!(pop.get(0).distance_to(pop.get(1)), 2);
    assert_eq!(pop.get(0).distance_to(pop.get(2)), 2);
    assert_eq!(Avoid::with_n_nearest(1).nearest(0, &pop), vec![2]);
}

#[test]
fn avoid_far_neighbour_still_pushes() {
    let pop = population_of(&[(0, 0), (2000000, 0)]);
    let rule = Avoid::with_n_nearest(1);
    assert_eq!(rule.use_on(0, &pop), Effect { dx: -1, dy: 0 });
    assert_eq!(rule.use_on(1, &pop), Effect { dx: 1, dy: 0 });
    let corners = population_of(&[(i32::MIN, i32::MIN), (i32::MAX, i32::MAX - 1)]);
    let e = rule.use_on(0, &corners);
    assert!(e.dx < 0 && e.dy < 0);
}

#[test]
fn chunk_cuts_cover_all_agents() {
    assert_eq!(chunk_cuts(10, 3), vec![0, 3, 6, 10]);
    assert_eq!(chunk_cuts(0, 4), vec![0, 0, 0, 0, 0]);
    assert_eq!(chunk_cuts(2, 5), vec![0, 0, 0, 1, 1, 2]);
    assert_eq!(chunk_cuts(7, 1), vec![0, 7]);
}

#[test]
fn chunked_tick_by_cuts_matches_sequential() {
    let pop = scattered(333);
    let world = World::with_population(ActiveRule::Attract(Attract::new()), pop.clone());
    let cuts = chunk_cuts(333, 10);
    let mut joined = Vec::new();
    for c in 0..10 {
        joined.extend(world.evaluate_chunk(cuts[c], cuts[c + 1]));
    }
    assert_eq!(joined, World::with_population(ActiveRule::Attract(Attract::new()), pop).turn());
}

//! End-to-end tests of the diffusion engine on concrete decks.

use starship::block::{Block, BlockKind, BlockResource, Resource};
use starship::deck::Deck;
use starship::ship::Ship;

fn block_with(
    x: usize,
    y: usize,
    kind: BlockKind,
    pools: &[(Resource, u64, u64)],
) -> Block {
    let mut b = Block::new(x, y, kind);
    for &(r, amount, capacity) in pools {
        b.insert(r, BlockResource { amount, capacity });
    }
    b
}

fn amount_of(d: &Deck, i: usize, r: Resource) -> u64 {
    d.blocks[i].get(r).unwrap().amount
}

#[test]
fn two_tanks_converge_in_one_tick() {
    // Pressure 1.0 against 0.0: the damped factor is 0.5, the movable
    // quantity min(100, 100), so exactly 50 units move.
    let mut d = Deck {
        name: String::from("main"),
        blocks: vec![
            block_with(0, 0, BlockKind::Tank, &[(Resource::Air, 100, 100)]),
            block_with(1, 0, BlockKind::Tank, &[(Resource::Air, 0, 100)]),
        ],
    };
    let redraw = d.update();
    assert!(redraw);
    assert_eq!(amount_of(&d, 0, Resource::Air), 50);
    assert_eq!(amount_of(&d, 1, Resource::Air), 50);
    // At equal pressure the next tick records nothing and changes nothing.
    let redraw2 = d.update();
    assert!(!redraw2);
    assert_eq!(amount_of(&d, 0, Resource::Air), 50);
    assert_eq!(amount_of(&d, 1, Resource::Air), 50);
}

#[test]
fn convergence_is_monotone_without_overshoot() {
    // Unequal capacities: the pressure gap shrinks every tick and the
    // order of pressures never flips.
    let mut d = Deck {
        name: String::from("main"),
        blocks: vec![
            block_with(0, 0, BlockKind::Tank, &[(Resource::Water, 100, 100)]),
            block_with(0, 1, BlockKind::Tank, &[(Resource::Water, 0, 50)]),
        ],
    };
    let mut last_gap = u128::MAX;
    for _ in 0..12 {
        d.update();
        let a = amount_of(&d, 0, Resource::Water) as u128;
        let b = amount_of(&d, 1, Resource::Water) as u128;
        assert!(a <= 100 && b <= 50);
        // pressure(a) >= pressure(b), compared exactly: a/100 >= b/50
        assert!(a * 50 >= b * 100);
        let gap = a * 50 - b * 100;
        assert!(gap <= last_gap);
        last_gap = gap;
    }
}

#[test]
fn vent_transfers_air_into_room_air() {
    // A vent holding 10 stored air and an empty 5-capacity room-air pool
    // moves exactly 5 units before any flow. The eight neighbouring cells
    // are sealed so no vacuum decay follows.
    let mut blocks = vec![block_with(
        1,
        1,
        BlockKind::Vent,
        &[(Resource::Air, 10, 10), (Resource::FreeAir, 0, 5)],
    )];
    for (x, y) in [
        (0, 0),
        (1, 0),
        (2, 0),
        (0, 1),
        (2, 1),
        (0, 2),
        (1, 2),
        (2, 2),
    ] {
        blocks.push(block_with(x, y, BlockKind::Hull, &[]));
    }
    let mut d = Deck { name: String::from("main"), blocks };
    let redraw = d.update();
    // The vent's internal transfer records no flow change.
    assert!(!redraw);
    assert_eq!(amount_of(&d, 0, Resource::Air), 5);
    assert_eq!(amount_of(&d, 0, Resource::FreeAir), 5);
}

#[test]
fn vent_missing_a_pool_is_skipped() {
    let mut d = Deck {
        name: String::from("main"),
        blocks: vec![block_with(0, 0, BlockKind::Vent, &[(Resource::Air, 7, 10)])],
    };
    let redraw = d.update();
    assert!(!redraw);
    assert_eq!(amount_of(&d, 0, Resource::Air), 7);
}

#[test]
fn fully_exposed_room_air_decays_by_the_exact_factor() {
    // All eight neighbours empty: weight 4 + 4 / sqrt(2), scaled to
    // 6_828_428 millionths. Ten units at a scale of a millionth per step
    // decay to 10_000_000 * (100_000_000 - 6_828_428) / 100_000_000.
    let mut d = Deck {
        name: String::from("main"),
        blocks: vec![block_with(
            5,
            5,
            BlockKind::Floor,
            &[(Resource::FreeAir, 10_000_000, 10_000_000)],
        )],
    };
    let redraw = d.update();
    // Decay alone records no flow change.
    assert!(!redraw);
    assert_eq!(amount_of(&d, 0, Resource::FreeAir), 9_317_157);
}

#[test]
fn sealed_room_air_does_not_decay() {
    let mut blocks = vec![block_with(
        1,
        1,
        BlockKind::Floor,
        &[(Resource::FreeAir, 1_000_000, 1_000_000)],
    )];
    for (x, y) in [
        (0, 0),
        (1, 0),
        (2, 0),
        (0, 1),
        (2, 1),
        (0, 2),
        (1, 2),
        (2, 2),
    ] {
        blocks.push(block_with(x, y, BlockKind::Hull, &[]));
    }
    let mut d = Deck { name: String::from("main"), blocks };
    d.update();
    assert_eq!(amount_of(&d, 0, Resource::FreeAir), 1_000_000);
}

#[test]
fn nodes_two_cells_apart_never_interact() {
    let mut d = Deck {
        name: String::from("main"),
        blocks: vec![
            block_with(0, 0, BlockKind::Tank, &[(Resource::Fuel, 100, 100)]),
            block_with(2, 0, BlockKind::Tank, &[(Resource::Fuel, 0, 100)]),
        ],
    };
    let redraw = d.update();
    assert!(!redraw);
    assert_eq!(amount_of(&d, 0, Resource::Fuel), 100);
    assert_eq!(amount_of(&d, 1, Resource::Fuel), 0);
}

#[test]
fn diagonal_neighbours_are_not_connected() {
    let mut d = Deck {
        name: String::from("main"),
        blocks: vec![
            block_with(0, 0, BlockKind::Tank, &[(Resource::Fuel, 100, 100)]),
            block_with(1, 1, BlockKind::Tank, &[(Resource::Fuel, 0, 100)]),
        ],
    };
    assert!(!d.update());
    assert_eq!(amount_of(&d, 0, Resource::Fuel), 100);
}

#[test]
fn different_resources_do_not_mix() {
    let mut d = Deck {
        name: String::from("main"),
        blocks: vec![
            block_with(0, 0, BlockKind::Tank, &[(Resource::Fuel, 100, 100)]),
            block_with(1, 0, BlockKind::Tank, &[(Resource::Water, 0, 100)]),
        ],
    };
    assert!(!d.update());
    assert_eq!(amount_of(&d, 0, Resource::Fuel), 100);
    assert_eq!(amount_of(&d, 1, Resource::Water), 0);
}

#[test]
fn equal_pressures_are_a_fixed_point() {
    // 50/100 and 25/50 both sit at pressure one half.
    let mut d = Deck {
        name: String::from("main"),
        blocks: vec![
            block_with(0, 0, BlockKind::Tank, &[(Resource::Electricity, 50, 100)]),
            block_with(1, 0, BlockKind::Tank, &[(Resource::Electricity, 25, 50)]),
        ],
    };
    let redraw = d.update();
    assert!(!redraw);
    assert_eq!(amount_of(&d, 0, Resource::Electricity), 50);
    assert_eq!(amount_of(&d, 1, Resource::Electricity), 25);
}

#[test]
fn zero_capacity_pools_never_flow() {
    let mut d = Deck {
        name: String::from("main"),
        blocks: vec![
            block_with(0, 0, BlockKind::Tank, &[(Resource::Air, 10, 0)]),
            block_with(1, 0, BlockKind::Tank, &[(Resource::Air, 0, 10)]),
        ],
    };
    let redraw = d.update();
    assert!(!redraw);
    assert_eq!(amount_of(&d, 0, Resource::Air), 10);
    assert_eq!(amount_of(&d, 1, Resource::Air), 0);
}

#[test]
fn receipt_is_clamped_by_destination_capacity() {
    // factor 0.5, movable min(100, room 10) = 10, so 5 units move and the
    // destination stays within its capacity.
    let mut d = Deck {
        name: String::from("main"),
        blocks: vec![
            block_with(0, 0, BlockKind::Tank, &[(Resource::Air, 100, 100)]),
            block_with(1, 0, BlockKind::Tank, &[(Resource::Air, 0, 10)]),
        ],
    };
    assert!(d.update());
    assert_eq!(amount_of(&d, 0, Resource::Air), 95);
    assert_eq!(amount_of(&d, 1, Resource::Air), 5);
}

#[test]
fn factor_is_clamped_at_one_and_fills_exactly() {
    // An over-seeded source at pressure 3: the damped factor 1.5 clamps to
    // 1, the destination fills to exactly its capacity.
    let mut d = Deck {
        name: String::from("main"),
        blocks: vec![
            block_with(0, 0, BlockKind::Tank, &[(Resource::Air, 300, 100)]),
            block_with(1, 0, BlockKind::Tank, &[(Resource::Air, 0, 100)]),
        ],
    };
    assert!(d.update());
    assert_eq!(amount_of(&d, 0, Resource::Air), 200);
    assert_eq!(amount_of(&d, 1, Resource::Air), 100);
}

#[test]
fn tiny_differences_truncate_to_no_movement() {
    // factor 1/8 of 1 unit truncates to zero, yet the change was recorded,
    // so the tick still reports a redraw.
    let mut d = Deck {
        name: String::from("main"),
        blocks: vec![
            block_with(0, 0, BlockKind::Tank, &[(Resource::Air, 1, 2)]),
            block_with(1, 0, BlockKind::Tank, &[(Resource::Air, 0, 2)]),
        ],
    };
    let redraw = d.update();
    assert!(redraw);
    assert_eq!(amount_of(&d, 0, Resource::Air), 1);
    assert_eq!(amount_of(&d, 1, Resource::Air), 0);
}

#[test]
fn over_full_destination_accepts_nothing() {
    // The lower-pressure side is already above its capacity: the clamp
    // leaves both sides untouched though a change was recorded.
    let mut d = Deck {
        name: String::from("main"),
        blocks: vec![
            block_with(0, 0, BlockKind::Tank, &[(Resource::Air, 10, 10)]),
            block_with(1, 0, BlockKind::Tank, &[(Resource::Air, 20, 10)]),
        ],
    };
    let redraw = d.update();
    assert!(redraw);
    assert_eq!(amount_of(&d, 0, Resource::Air), 10);
    assert_eq!(amount_of(&d, 1, Resource::Air), 20);
}

#[test]
fn same_cell_blocks_are_connected() {
    let mut d = Deck {
        name: String::from("main"),
        blocks: vec![
            block_with(3, 3, BlockKind::Tank, &[(Resource::Water, 80, 80)]),
            block_with(3, 3, BlockKind::Tank, &[(Resource::Water, 0, 80)]),
        ],
    };
    assert!(d.update());
    assert_eq!(amount_of(&d, 0, Resource::Water), 40);
    assert_eq!(amount_of(&d, 1, Resource::Water), 40);
}

#[test]
fn changes_apply_in_discovery_order_against_live_amounts() {
    // A row A(100/100), B(50/100), C(0/100). Both changes are computed
    // from the frozen snapshot (factors 1/4 and 1/4), but apply in order
    // against live amounts: A gives B floor(0.25 * 50) = 12, then B gives
    // C floor(0.25 * 62) = 15.
    let mut d = Deck {
        name: String::from("main"),
        blocks: vec![
            block_with(0, 0, BlockKind::Conduit, &[(Resource::Air, 100, 100)]),
            block_with(1, 0, BlockKind::Conduit, &[(Resource::Air, 50, 100)]),
            block_with(2, 0, BlockKind::Conduit, &[(Resource::Air, 0, 100)]),
        ],
    };
    assert!(d.update());
    assert_eq!(amount_of(&d, 0, Resource::Air), 88);
    assert_eq!(amount_of(&d, 1, Resource::Air), 47);
    assert_eq!(amount_of(&d, 2, Resource::Air), 15);
}

#[test]
fn totals_are_conserved_across_many_ticks() {
    // No vents, no room air: every tick conserves each resource exactly.
    let mut d = Deck {
        name: String::from("main"),
        blocks: vec![
            block_with(0, 0, BlockKind::Tank, &[(Resource::Fuel, 90, 90)]),
            block_with(1, 0, BlockKind::Conduit, &[(Resource::Fuel, 0, 30)]),
            block_with(2, 0, BlockKind::Tank, &[(Resource::Fuel, 0, 90), (Resource::Water, 11, 40)]),
            block_with(2, 1, BlockKind::Tank, &[(Resource::Water, 29, 40)]),
        ],
    };
    for _ in 0..25 {
        d.update();
        let fuel: u64 = (0..d.blocks.len())
            .map(|i| d.blocks[i].get(Resource::Fuel).map_or(0, |p| p.amount))
            .sum();
        let water: u64 = (0..d.blocks.len())
            .map(|i| d.blocks[i].get(Resource::Water).map_or(0, |p| p.amount))
            .sum();
        assert_eq!(fuel, 90);
        assert_eq!(water, 40);
        for i in 0..d.blocks.len() {
            for r in [Resource::Fuel, Resource::Water] {
                if let Some(p) = d.blocks[i].get(r) {
                    assert!(p.amount <= p.capacity);
                }
            }
        }
    }
}

#[test]
fn largest_quantities_flow_exactly() {
    // Amounts at the engine's bound of a million million steps still
    // compute exactly: half of the full tank moves.
    let mut d = Deck {
        name: String::from("main"),
        blocks: vec![
            block_with(
                0,
                0,
                BlockKind::Tank,
                &[(Resource::Air, 1_000_000_000_000, 1_000_000_000_000)],
            ),
            block_with(1, 0, BlockKind::Tank, &[(Resource::Air, 0, 1_000_000_000_000)]),
        ],
    };
    assert!(d.update());
    assert_eq!(amount_of(&d, 0, Resource::Air), 500_000_000_000);
    assert_eq!(amount_of(&d, 1, Resource::Air), 500_000_000_000);
}

#[test]
fn vent_output_flows_and_decays_within_one_tick() {
    // The vent first converts 5 stored air into room air; the freshly
    // updated room-air node (pressure 1) then flows toward the neighbouring
    // floor (pressure 0): factor 0.5 of min(5, 5) truncates to 2. Both
    // cells then decay: each has one occupied orthogonal neighbour, so the
    // weight is 3 + 4 / sqrt(2) in millionths (5_828_428), and
    // 3 -> floor(3 * 0.94171572) = 2, 2 -> floor(2 * 0.94171572) = 1.
    let mut d = Deck {
        name: String::from("main"),
        blocks: vec![
            block_with(
                0,
                0,
                BlockKind::Vent,
                &[(Resource::Air, 10, 10), (Resource::FreeAir, 0, 5)],
            ),
            block_with(1, 0, BlockKind::Floor, &[(Resource::FreeAir, 0, 5)]),
        ],
    };
    let redraw = d.update();
    assert!(redraw);
    assert_eq!(amount_of(&d, 0, Resource::Air), 5);
    assert_eq!(amount_of(&d, 0, Resource::FreeAir), 2);
    assert_eq!(amount_of(&d, 1, Resource::FreeAir), 1);
}

#[test]
fn empty_deck_ticks_quietly() {
    let mut d = Deck { name: String::from("void"), blocks: vec![] };
    assert!(!d.update());
    assert_eq!(d.blocks.len(), 0);
}

#[test]
fn ship_update_reports_any_decks_redraw() {
    let active = Deck {
        name: String::from("a"),
        blocks: vec![
            block_with(0, 0, BlockKind::Tank, &[(Resource::Air, 100, 100)]),
            block_with(1, 0, BlockKind::Tank, &[(Resource::Air, 0, 100)]),
        ],
    };
    let quiet = Deck {
        name: String::from("b"),
        blocks: vec![block_with(0, 0, BlockKind::Hull, &[])],
    };
    let mut ship = Ship {
        name: String::from("ship"),
        current_deck: 0,
        decks: vec![quiet, active],
    };
    assert!(ship.update());
    assert_eq!(ship.decks[1].blocks[0].get(Resource::Air).unwrap().amount, 50);
    // Once everything is balanced nothing reports.
    ship.update();
    assert!(!ship.update());
}

#[test]
fn block_insert_and_get_behave_like_a_map() {
    let mut b = Block::new(2, 7, BlockKind::Conduit);
    assert!(b.get(Resource::Air).is_none());
    b.insert(Resource::Water, BlockResource { amount: 1, capacity: 9 });
    b.insert(Resource::Air, BlockResource { amount: 2, capacity: 8 });
    b.insert(Resource::Fuel, BlockResource { amount: 3, capacity: 7 });
    assert_eq!(b.get(Resource::Air).unwrap().amount, 2);
    assert_eq!(b.get(Resource::Water).unwrap().capacity, 9);
    assert_eq!(b.get(Resource::Fuel).unwrap().amount, 3);
    assert!(b.get(Resource::FreeAir).is_none());
    // Inserting an existing name replaces its pool.
    b.insert(Resource::Air, BlockResource { amount: 4, capacity: 6 });
    assert_eq!(b.get(Resource::Air).unwrap().amount, 4);
    assert_eq!(b.get(Resource::Air).unwrap().capacity, 6);
    assert_eq!(b.x, 2);
    assert_eq!(b.y, 7);
    assert_eq!(b.resources.len(), 3);
}

#[test]
fn pools_are_kept_in_name_order() {
    let mut b = Block::new(0, 0, BlockKind::Conduit);
    b.insert(Resource::Water, BlockResource { amount: 0, capacity: 5 });
    b.insert(Resource::Air, BlockResource { amount: 0, capacity: 5 });
    b.insert(Resource::FreeAir, BlockResource { amount: 0, capacity: 5 });
    assert_eq!(b.resources[0].0, Resource::Air);
    assert_eq!(b.resources[1].0, Resource::FreeAir);
    assert_eq!(b.resources[2].0, Resource::Water);
}

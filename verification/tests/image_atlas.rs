use shared_board::image_atlas::{BoundingBox, ImageAtlas, Placement, SingleAtlas, ATLAS_SIZE};

#[test]
fn fresh_allocator_has_no_images() {
    let atlas = ImageAtlas::new();
    assert!(atlas.get_image_bounds(&1).is_none());
}

#[test]
fn first_image_creates_atlas_with_smallest_row_size() {
    let mut atlas = ImageAtlas::new();
    let placed = atlas.add_image(1, 40, 60).unwrap();
    assert_eq!(
        placed,
        Placement {
            bounds: BoundingBox { atlas_id: 0, x: 0, y: 0, width: 40, height: 60, rotated: false },
            new_atlas: true,
        }
    );
    assert_eq!(atlas.get_image_bounds(&1), Some(&placed.bounds));
}

#[test]
fn wide_image_is_stored_rotated() {
    let mut atlas = ImageAtlas::new();
    let placed = atlas.add_image(7, 100, 30).unwrap();
    assert!(placed.bounds.rotated);
    assert_eq!(placed.bounds.width, 30);
    assert_eq!(placed.bounds.height, 100);
    assert!(placed.bounds.x + placed.bounds.width <= ATLAS_SIZE);
    assert!(placed.bounds.y + placed.bounds.height <= ATLAS_SIZE);
}

#[test]
fn rejection_cascade_creates_second_atlas() {
    let mut atlas = ImageAtlas::new();
    for id in 0..4u64 {
        let placed = atlas.add_image(id, 64, 64).unwrap();
        assert_eq!(placed.bounds.atlas_id, 0);
        assert_eq!(placed.new_atlas, id == 0);
        assert_eq!(placed.bounds.y, 0);
        assert_eq!(placed.bounds.x, 64 * id as u32);
    }
    let fifth = atlas.add_image(4, 1500, 2000).unwrap();
    assert_eq!(
        fifth,
        Placement {
            bounds: BoundingBox { atlas_id: 1, x: 0, y: 0, width: 1500, height: 2000, rotated: false },
            new_atlas: true,
        }
    );
}

#[test]
fn single_atlas_rejects_what_wastes_a_row() {
    let mut atlas = SingleAtlas::new(0, 128);
    assert_eq!(atlas.add_image(10, 200), None);
    assert_eq!(atlas.add_image(10, 64), None);
    assert_eq!(atlas.add_image(10, 17), None);
    assert_eq!(
        atlas.add_image(10, 16),
        Some(BoundingBox { atlas_id: 0, x: 0, y: 0, width: 10, height: 16, rotated: false })
    );
    assert_eq!(
        atlas.add_image(65, 10),
        Some(BoundingBox { atlas_id: 0, x: 10, y: 0, width: 10, height: 65, rotated: true })
    );
}

#[test]
fn full_row_sends_image_to_next_row() {
    let mut atlas = SingleAtlas::new(3, 1024);
    assert_eq!(
        atlas.add_image(1024, 1024),
        Some(BoundingBox { atlas_id: 3, x: 0, y: 0, width: 1024, height: 1024, rotated: false })
    );
    assert_eq!(
        atlas.add_image(1000, 1024),
        Some(BoundingBox { atlas_id: 3, x: 1024, y: 0, width: 1000, height: 1024, rotated: false })
    );
    assert_eq!(
        atlas.add_image(600, 25),
        Some(BoundingBox { atlas_id: 3, x: 0, y: 1024, width: 25, height: 600, rotated: true })
    );
    assert_eq!(atlas.add_image(1024, 1024), Some(BoundingBox {
        atlas_id: 3, x: 25, y: 1024, width: 1024, height: 1024, rotated: false,
    }));
    assert_eq!(atlas.add_image(1024, 1024), None);
}

#[test]
fn image_larger_than_an_atlas_is_not_placed() {
    let mut atlas = ImageAtlas::new();
    assert_eq!(atlas.add_image(1, 10, 2049), None);
    assert_eq!(atlas.add_image(1, 4000, 10), None);
    assert!(atlas.get_image_bounds(&1).is_none());
    assert!(atlas.add_image(1, 2048, 2048).is_some());
}

#[test]
fn placements_in_one_atlas_do_not_overlap() {
    let mut atlas = ImageAtlas::new();
    let mut placed: Vec<BoundingBox> = Vec::new();
    let mut seed: u32 = 12345;
    for id in 0..400u64 {
        seed = seed.wrapping_mul(1664525).wrapping_add(1013904223);
        let width = 1 + (seed >> 8) % 300;
        seed = seed.wrapping_mul(1664525).wrapping_add(1013904223);
        let height = 1 + (seed >> 8) % 300;
        let placement = atlas.add_image(id, width, height).unwrap();
        let bounds = placement.bounds;
        assert_eq!(bounds.rotated, width > height);
        assert_eq!(bounds.width, width.min(height));
        assert_eq!(bounds.height, width.max(height));
        assert!(bounds.x + bounds.width <= ATLAS_SIZE);
        assert!(bounds.y + bounds.height <= ATLAS_SIZE);
        assert_eq!(atlas.get_image_bounds(&id), Some(&bounds));
        for other in placed.iter().filter(|other| other.atlas_id == bounds.atlas_id) {
            let apart = bounds.x + bounds.width <= other.x
                || other.x + other.width <= bounds.x
                || bounds.y + bounds.height <= other.y
                || other.y + other.height <= bounds.y;
            assert!(apart, "{bounds:?} meets {other:?}");
        }
        placed.push(bounds);
    }
    assert!(placed.iter().any(|bounds| bounds.atlas_id > 0));
}

#[test]
fn row_size_is_the_smallest_power_of_two_that_holds_the_image() {
    for (side, row_size) in [(1u32, 32u32), (32, 32), (33, 64), (64, 64), (65, 128), (1025, 2048)] {
        let mut atlas = ImageAtlas::new();
        atlas.add_image(0, side, side).unwrap();
        // the second image starts the second row, one row size below the first
        let filler = atlas.add_image(1, side, side);
        let mut last = filler.unwrap().bounds;
        let mut id = 2;
        while last.y == 0 && last.atlas_id == 0 {
            last = atlas.add_image(id, side, side).unwrap().bounds;
            id += 1;
        }
        if row_size < ATLAS_SIZE {
            assert_eq!((last.atlas_id, last.y), (0, row_size));
        } else {
            assert_eq!((last.atlas_id, last.y), (1, 0));
        }
    }
}

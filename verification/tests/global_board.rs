use shared_board::board::common::{
    Board, BoardAction, BoardEvent, BoardObject, Image, ObjectIdentifier, Texture,
};
use shared_board::board::global_board::{Client, Delivery, GlobalBoard, Outcome, PlacedImage};
use std::collections::HashMap;

const A: u64 = 100;
const B: u64 = 200;

fn bits(value: f64) -> u64 {
    value.to_bits()
}

fn new_image(x: f64, y: f64, local_id: u64, texture: Texture<ObjectIdentifier>) -> BoardAction {
    BoardAction::NewImage { x: bits(x), y: bits(y), local_id, texture }
}

fn board_with_history() -> GlobalBoard {
    let mut board = GlobalBoard::new();
    board.new_client(A);
    board.new_client(B);
    board.apply(
        A,
        new_image(1.0, 2.0, 7, Texture::New { id: ObjectIdentifier::Local(3), data: vec![0xAB, 0xCD] }),
    );
    board.apply(
        B,
        new_image(5.0, 6.0, 4, Texture::New { id: ObjectIdentifier::Local(9), data: vec![0xAB, 0xCD] }),
    );
    board.apply(A, new_image(9.0, 0.0, 8, Texture::Existing { id: ObjectIdentifier::Local(3) }));
    board
}

#[test]
fn dedup_across_clients() {
    let mut board = GlobalBoard::new();
    board.new_client(A);
    board.new_client(B);

    let first = board.apply(
        A,
        new_image(1.0, 2.0, 7, Texture::New { id: ObjectIdentifier::Local(3), data: vec![0xAB, 0xCD] }),
    );
    assert_eq!(
        first.placed,
        Some(PlacedImage {
            id: 1,
            x: bits(1.0),
            y: bits(2.0),
            texture: Texture::New { id: 2, data: vec![0xAB, 0xCD] },
        })
    );
    assert_eq!(
        first.deliveries[0],
        Delivery {
            client_id: A,
            event: BoardEvent::ConfirmImage { local_id: 7, global_id: 1, texture_id: 2 },
        }
    );
    assert_eq!(
        first.deliveries[1],
        Delivery {
            client_id: B,
            event: BoardEvent::NewImage {
                id: 1,
                x: bits(1.0),
                y: bits(2.0),
                texture: Texture::New { id: 2, data: vec![0xAB, 0xCD] },
            },
        }
    );
    assert_eq!(first.deliveries.len(), 2);

    let second = board.apply(
        B,
        new_image(5.0, 6.0, 4, Texture::New { id: ObjectIdentifier::Local(9), data: vec![0xAB, 0xCD] }),
    );
    assert_eq!(
        second,
        Outcome {
            placed: Some(PlacedImage {
                id: 3,
                x: bits(5.0),
                y: bits(6.0),
                texture: Texture::Existing { id: 2 },
            }),
            deliveries: vec![
                Delivery {
                    client_id: B,
                    event: BoardEvent::ConfirmImage { local_id: 4, global_id: 3, texture_id: 2 },
                },
                Delivery {
                    client_id: A,
                    event: BoardEvent::NewImage {
                        id: 3,
                        x: bits(5.0),
                        y: bits(6.0),
                        texture: Texture::Existing { id: 2 },
                    },
                },
            ],
        }
    );
    let state = board.get_state();
    assert_eq!(state.textures.len(), 1);
    assert_eq!(state.textures.get(&2), Some(&vec![0xAB, 0xCD]));
    assert_eq!(state.objects.len(), 2);
}

#[test]
fn reuse_on_same_client() {
    let mut board = GlobalBoard::new();
    board.new_client(A);
    board.new_client(B);
    board.apply(
        A,
        new_image(1.0, 2.0, 7, Texture::New { id: ObjectIdentifier::Local(3), data: vec![0xAB, 0xCD] }),
    );
    board.apply(
        B,
        new_image(5.0, 6.0, 4, Texture::New { id: ObjectIdentifier::Local(9), data: vec![0xAB, 0xCD] }),
    );
    let third =
        board.apply(A, new_image(9.0, 0.0, 8, Texture::Existing { id: ObjectIdentifier::Local(3) }));
    assert_eq!(
        third,
        Outcome {
            placed: Some(PlacedImage {
                id: 4,
                x: bits(9.0),
                y: bits(0.0),
                texture: Texture::Existing { id: 2 },
            }),
            deliveries: vec![
                Delivery {
                    client_id: A,
                    event: BoardEvent::ConfirmImage { local_id: 8, global_id: 4, texture_id: 2 },
                },
                Delivery {
                    client_id: B,
                    event: BoardEvent::NewImage {
                        id: 4,
                        x: bits(9.0),
                        y: bits(0.0),
                        texture: Texture::Existing { id: 2 },
                    },
                },
            ],
        }
    );
}

#[test]
fn snapshot_restore() {
    let board = board_with_history();
    let snapshot = board.get_state();
    let mut restored = GlobalBoard::from_board(snapshot);
    let state = restored.get_state();
    let mut images: Vec<u64> = state.objects.keys().copied().collect();
    images.sort();
    assert_eq!(images, vec![1, 3, 4]);
    assert_eq!(state.textures.len(), 1);
    assert_eq!(state.textures.get(&2), Some(&vec![0xAB, 0xCD]));
    assert_eq!(
        state.objects.get(&3),
        Some(&BoardObject::Image(Image { id: 3, x: bits(5.0), y: bits(6.0), texture: 2 }))
    );

    restored.new_client(A);
    let next = restored
        .apply(A, new_image(0.0, 0.0, 1, Texture::New { id: ObjectIdentifier::Local(2), data: vec![1] }));
    assert_eq!(
        next.placed,
        Some(PlacedImage { id: 5, x: bits(0.0), y: bits(0.0), texture: Texture::New { id: 6, data: vec![1] } })
    );
}

#[test]
fn unknown_existing_texture_is_dropped() {
    let mut board = GlobalBoard::new();
    board.new_client(A);
    let outcome =
        board.apply(A, new_image(0.0, 0.0, 1, Texture::Existing { id: ObjectIdentifier::Local(999) }));
    assert_eq!(outcome, Outcome { placed: None, deliveries: vec![] });
    let state = board.get_state();
    assert!(state.objects.is_empty());
    assert!(state.textures.is_empty());
}

#[test]
fn dropped_action_uses_up_one_name() {
    let mut board = GlobalBoard::new();
    board.new_client(A);
    board.apply(A, new_image(0.0, 0.0, 1, Texture::Existing { id: ObjectIdentifier::Local(999) }));
    let outcome =
        board.apply(A, new_image(0.0, 0.0, 1, Texture::New { id: ObjectIdentifier::Local(2), data: vec![7] }));
    assert_eq!(outcome.placed.unwrap().id, 2);
}

#[test]
fn action_of_unregistered_client_is_announced_but_not_confirmed() {
    let mut board = GlobalBoard::new();
    board.new_client(B);
    let outcome =
        board.apply(A, new_image(3.0, 4.0, 1, Texture::New { id: ObjectIdentifier::Local(2), data: vec![9] }));
    assert_eq!(
        outcome.deliveries,
        vec![Delivery {
            client_id: B,
            event: BoardEvent::NewImage {
                id: 1,
                x: bits(3.0),
                y: bits(4.0),
                texture: Texture::New { id: 2, data: vec![9] },
            },
        }]
    );
    let by_name = board.apply(A, new_image(3.0, 4.0, 5, Texture::Existing { id: ObjectIdentifier::Global(2) }));
    assert_eq!(by_name, Outcome { placed: None, deliveries: vec![] });
}

#[test]
fn global_name_passes_through_for_registered_client() {
    let mut board = GlobalBoard::new();
    board.new_client(A);
    board.apply(A, new_image(0.0, 0.0, 1, Texture::New { id: ObjectIdentifier::Local(2), data: vec![9] }));
    let outcome =
        board.apply(A, new_image(1.0, 1.0, 3, Texture::Existing { id: ObjectIdentifier::Global(2) }));
    assert_eq!(
        outcome.deliveries,
        vec![Delivery {
            client_id: A,
            event: BoardEvent::ConfirmImage { local_id: 3, global_id: 3, texture_id: 2 },
        }]
    );
}

#[test]
fn fan_out_reaches_every_other_client_once() {
    let mut board = GlobalBoard::new();
    for client in [1u64, 2, 3, 4, 5] {
        board.new_client(client);
    }
    let outcome =
        board.apply(3, new_image(0.0, 0.0, 1, Texture::New { id: ObjectIdentifier::Local(2), data: vec![5] }));
    assert_eq!(outcome.deliveries.len(), 5);
    assert_eq!(outcome.deliveries[0].client_id, 3);
    assert!(matches!(outcome.deliveries[0].event, BoardEvent::ConfirmImage { .. }));
    let rest = outcome.deliveries[1..].to_vec();
    let receivers: Vec<u64> = rest.iter().map(|delivery| delivery.client_id).collect();
    assert_eq!(receivers, vec![1, 2, 4, 5]);
    for delivery in rest {
        assert_eq!(
            delivery.event,
            BoardEvent::NewImage {
                id: 1,
                x: bits(0.0),
                y: bits(0.0),
                texture: Texture::New { id: 2, data: vec![5] },
            }
        );
    }
}

#[test]
fn board_stays_consistent_over_a_history() {
    let board = board_with_history();
    let state = board.get_state();
    for (id, object) in state.objects.iter() {
        assert!(!state.textures.contains_key(id));
        match object {
            BoardObject::Image(image) => {
                assert_eq!(image.id, *id);
                assert!(state.textures.contains_key(&image.texture));
            }
            BoardObject::Line => unreachable!(),
        }
    }
    let contents: Vec<&Vec<u8>> = state.textures.values().collect();
    for (i, a) in contents.iter().enumerate() {
        for b in contents.iter().skip(i + 1) {
            assert_ne!(a, b);
        }
    }
}

#[test]
fn counter_after_loading_is_largest_name() {
    let mut objects = HashMap::new();
    objects.insert(40, BoardObject::Image(Image { id: 40, x: 0, y: 0, texture: 17 }));
    objects.insert(5, BoardObject::Line);
    let mut textures = HashMap::new();
    textures.insert(17, vec![1, 2, 3]);
    let mut board = GlobalBoard::from_board(Board { objects, textures });
    board.new_client(A);
    let outcome =
        board.apply(A, new_image(0.0, 0.0, 1, Texture::New { id: ObjectIdentifier::Local(2), data: vec![4] }));
    assert_eq!(
        outcome.placed,
        Some(PlacedImage { id: 41, x: bits(0.0), y: bits(0.0), texture: Texture::New { id: 42, data: vec![4] } })
    );
}

#[test]
fn loaded_textures_are_found_by_content() {
    let mut textures = HashMap::new();
    textures.insert(17, vec![1, 2, 3]);
    let mut board = GlobalBoard::from_board(Board { objects: HashMap::new(), textures });
    board.new_client(A);
    let outcome = board
        .apply(A, new_image(0.0, 0.0, 1, Texture::New { id: ObjectIdentifier::Local(2), data: vec![1, 2, 3] }));
    assert_eq!(outcome.placed.unwrap().texture, Texture::Existing { id: 17 });
    assert_eq!(board.get_state().textures.len(), 1);
}

#[test]
fn exhausted_names_drop_the_action() {
    let mut textures = HashMap::new();
    textures.insert(u64::MAX - 1, vec![1]);
    let mut board = GlobalBoard::from_board(Board { objects: HashMap::new(), textures });
    board.new_client(A);
    let outcome =
        board.apply(A, new_image(0.0, 0.0, 1, Texture::New { id: ObjectIdentifier::Local(2), data: vec![2] }));
    assert_eq!(outcome, Outcome { placed: None, deliveries: vec![] });
    assert_eq!(board.get_state().textures.len(), 1);
    assert!(board.get_state().objects.is_empty());
}

#[test]
fn registering_again_empties_the_remap_table() {
    let mut board = GlobalBoard::new();
    board.new_client(A);
    board.apply(A, new_image(0.0, 0.0, 1, Texture::New { id: ObjectIdentifier::Local(2), data: vec![9] }));
    board.new_client(A);
    let outcome =
        board.apply(A, new_image(0.0, 0.0, 3, Texture::Existing { id: ObjectIdentifier::Local(2) }));
    assert_eq!(outcome.placed, None);
}

#[test]
fn removed_client_receives_nothing() {
    let mut board = GlobalBoard::new();
    board.new_client(A);
    board.new_client(B);
    assert!(board.has_client(B));
    board.remove_client(B);
    assert!(!board.has_client(B));
    let outcome =
        board.apply(A, new_image(0.0, 0.0, 1, Texture::New { id: ObjectIdentifier::Local(2), data: vec![9] }));
    assert_eq!(outcome.deliveries.len(), 1);
    assert_eq!(outcome.deliveries[0].client_id, A);
}

#[test]
fn image_and_texture_sharing_a_local_name_resolve_to_the_texture() {
    let mut board = GlobalBoard::new();
    board.new_client(A);
    board.apply(A, new_image(0.0, 0.0, 5, Texture::New { id: ObjectIdentifier::Local(5), data: vec![9] }));
    let outcome =
        board.apply(A, new_image(0.0, 0.0, 6, Texture::Existing { id: ObjectIdentifier::Local(5) }));
    assert_eq!(outcome.placed.unwrap().texture, Texture::Existing { id: 2 });
}

#[test]
fn client_remap_table() {
    let mut client = Client::new(A);
    assert_eq!(client.get_global_id(ObjectIdentifier::Local(1)), None);
    assert_eq!(client.get_global_id(ObjectIdentifier::Global(1)), Some(1));
    client.set_global_id(1, 10);
    client.set_global_id(2, 20);
    client.set_global_id(1, 11);
    assert_eq!(client.get_global_id(ObjectIdentifier::Local(1)), Some(11));
    assert_eq!(client.get_global_id(ObjectIdentifier::Local(2)), Some(20));
}

#[test]
fn texture_name() {
    let by_bytes = Texture::New { id: ObjectIdentifier::Local(3), data: vec![1] };
    let by_name: Texture<u64> = Texture::Existing { id: 8 };
    assert_eq!(by_bytes.get_id(), ObjectIdentifier::Local(3));
    assert_eq!(by_name.get_id(), 8);
    assert_ne!(ObjectIdentifier::Local(3), ObjectIdentifier::Global(3));
}

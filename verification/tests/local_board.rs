use shared_board::board::common::{
    Board, BoardAction, BoardEvent, BoardObject, Image, ObjectIdentifier, Texture,
};
use shared_board::board::global_board::GlobalBoard;
use shared_board::board::local_board::{BoardObserver, EventError, LocalBoard};
use std::collections::HashMap;

/// A graphics side that gives equal bytes the same handle, refuses empty
/// bytes, and writes down what it is asked to show.
struct Graphics {
    textures: Vec<Vec<u8>>,
    shown: Vec<(u64, u64, u64)>,
}

impl Graphics {
    fn new() -> Self {
        Graphics { textures: Vec::new(), shown: Vec::new() }
    }
}

impl BoardObserver for Graphics {
    fn create_texture(&mut self, data: Vec<u8>) -> Option<u64> {
        if data.is_empty() {
            return None;
        }
        if let Some(found) = self.textures.iter().position(|known| *known == data) {
            return Some(1000 + found as u64);
        }
        self.textures.push(data);
        Some(1000 + self.textures.len() as u64 - 1)
    }

    fn new_image(&mut self, x: u64, y: u64, texture_id: u64) -> u64 {
        self.shown.push((x, y, texture_id));
        2000 + self.shown.len() as u64 - 1
    }
}

#[test]
fn pasted_image_gets_local_names() {
    let mut board = LocalBoard::new();
    let mut graphics = Graphics::new();
    let action = board.new_image(10, 20, vec![1, 2], &mut graphics);
    assert_eq!(
        action,
        Some(BoardAction::NewImage {
            x: 10,
            y: 20,
            local_id: 1,
            texture: Texture::New { id: ObjectIdentifier::Local(2), data: vec![1, 2] },
        })
    );
    assert_eq!(graphics.shown, vec![(10, 20, 1000)]);
}

#[test]
fn pasting_the_same_bytes_again_refers_to_the_texture_by_name() {
    let mut board = LocalBoard::new();
    let mut graphics = Graphics::new();
    board.new_image(10, 20, vec![1, 2], &mut graphics);
    let action = board.new_image(30, 40, vec![1, 2], &mut graphics);
    assert_eq!(
        action,
        Some(BoardAction::NewImage {
            x: 30,
            y: 40,
            local_id: 3,
            texture: Texture::Existing { id: ObjectIdentifier::Local(2) },
        })
    );
    let third = board.new_image(0, 0, vec![3], &mut graphics);
    assert_eq!(
        third,
        Some(BoardAction::NewImage {
            x: 0,
            y: 0,
            local_id: 4,
            texture: Texture::New { id: ObjectIdentifier::Local(5), data: vec![3] },
        })
    );
}

#[test]
fn refused_bytes_paste_nothing() {
    let mut board = LocalBoard::new();
    let mut graphics = Graphics::new();
    assert_eq!(board.new_image(1, 1, vec![], &mut graphics), None);
    assert!(graphics.shown.is_empty());
    let action = board.new_image(1, 1, vec![7], &mut graphics);
    assert_eq!(
        action,
        Some(BoardAction::NewImage {
            x: 1,
            y: 1,
            local_id: 2,
            texture: Texture::New { id: ObjectIdentifier::Local(3), data: vec![7] },
        })
    );
}

#[test]
fn recorded_paste_uses_the_given_handles() {
    let mut board = LocalBoard::new();
    let first = board.record_new_image(1, 2, vec![9], Some(50), 60);
    assert_eq!(
        first,
        Some(BoardAction::NewImage {
            x: 1,
            y: 2,
            local_id: 1,
            texture: Texture::New { id: ObjectIdentifier::Local(2), data: vec![9] },
        })
    );
    let second = board.record_new_image(3, 4, vec![9, 9], Some(50), 61);
    assert_eq!(
        second,
        Some(BoardAction::NewImage {
            x: 3,
            y: 4,
            local_id: 3,
            texture: Texture::Existing { id: ObjectIdentifier::Local(2) },
        })
    );
}

#[test]
fn recorded_refusal_uses_up_one_name_only() {
    let mut board = LocalBoard::new();
    assert_eq!(board.record_new_image(1, 2, vec![9], None, 60), None);
    let next = board.record_new_image(1, 2, vec![9], Some(50), 60);
    assert_eq!(
        next,
        Some(BoardAction::NewImage {
            x: 1,
            y: 2,
            local_id: 2,
            texture: Texture::New { id: ObjectIdentifier::Local(3), data: vec![9] },
        })
    );
}

#[test]
fn confirmation_leaves_the_graphics_side_alone() {
    let mut board = LocalBoard::new();
    let mut graphics = Graphics::new();
    board.new_image(10, 20, vec![1, 2], &mut graphics);
    let textures = graphics.textures.clone();
    let shown = graphics.shown.clone();
    board
        .apply_event(BoardEvent::ConfirmImage { local_id: 1, global_id: 11, texture_id: 12 }, &mut graphics)
        .unwrap();
    assert_eq!(graphics.textures, textures);
    assert_eq!(graphics.shown, shown);
}

#[test]
fn confirmation_renames_image_and_texture() {
    let mut board = LocalBoard::new();
    let mut graphics = Graphics::new();
    board.new_image(10, 20, vec![1, 2], &mut graphics);
    let result = board.apply_event(
        BoardEvent::ConfirmImage { local_id: 1, global_id: 11, texture_id: 12 },
        &mut graphics,
    );
    assert_eq!(result, Ok(()));
    // the texture is now known under its global name
    let again = board.new_image(0, 0, vec![1, 2], &mut graphics);
    assert_eq!(
        again,
        Some(BoardAction::NewImage {
            x: 0,
            y: 0,
            local_id: 3,
            texture: Texture::Existing { id: ObjectIdentifier::Global(12) },
        })
    );
    // and an announced image may refer to it by that name
    let announced = board.apply_event(
        BoardEvent::NewImage { id: 30, x: 5, y: 6, texture: Texture::Existing { id: 12 } },
        &mut graphics,
    );
    assert_eq!(announced, Ok(()));
    assert_eq!(graphics.shown.last(), Some(&(5, 6, 1000)));
}

#[test]
fn two_images_of_one_texture_are_both_confirmed() {
    let mut board = LocalBoard::new();
    let mut graphics = Graphics::new();
    board.new_image(10, 20, vec![1, 2], &mut graphics);
    board.new_image(30, 40, vec![1, 2], &mut graphics);
    assert_eq!(
        board.apply_event(
            BoardEvent::ConfirmImage { local_id: 1, global_id: 11, texture_id: 12 },
            &mut graphics
        ),
        Ok(())
    );
    assert_eq!(
        board.apply_event(
            BoardEvent::ConfirmImage { local_id: 3, global_id: 13, texture_id: 12 },
            &mut graphics
        ),
        Ok(())
    );
}

#[test]
fn confirmation_of_unknown_image_is_an_error() {
    let mut board = LocalBoard::new();
    let mut graphics = Graphics::new();
    assert_eq!(
        board.apply_event(
            BoardEvent::ConfirmImage { local_id: 1, global_id: 11, texture_id: 12 },
            &mut graphics
        ),
        Err(EventError::UnknownImage)
    );
}

#[test]
fn confirmation_renames_a_texture_from_whatever_name_it_had() {
    let mut board = LocalBoard::new();
    let mut graphics = Graphics::new();
    board.new_image(10, 20, vec![1, 2], &mut graphics);
    board
        .apply_event(BoardEvent::ConfirmImage { local_id: 1, global_id: 11, texture_id: 12 }, &mut graphics)
        .unwrap();
    // the second image refers to the texture by its global name 12
    board.new_image(30, 40, vec![1, 2], &mut graphics);
    assert_eq!(
        board.apply_event(
            BoardEvent::ConfirmImage { local_id: 3, global_id: 13, texture_id: 99 },
            &mut graphics
        ),
        Ok(())
    );
    // the handle has moved from 12 to 99
    assert_eq!(
        board.apply_event(
            BoardEvent::NewImage { id: 30, x: 5, y: 6, texture: Texture::Existing { id: 12 } },
            &mut graphics
        ),
        Err(EventError::UnknownTexture)
    );
    assert_eq!(
        board.apply_event(
            BoardEvent::NewImage { id: 30, x: 5, y: 6, texture: Texture::Existing { id: 99 } },
            &mut graphics
        ),
        Ok(())
    );
    assert_eq!(graphics.shown.last(), Some(&(5, 6, 1000)));
    let again = board.new_image(0, 0, vec![1, 2], &mut graphics);
    assert_eq!(
        again,
        Some(BoardAction::NewImage {
            x: 0,
            y: 0,
            local_id: 4,
            texture: Texture::Existing { id: ObjectIdentifier::Global(99) },
        })
    );
}

#[test]
fn confirmation_with_unknown_texture_is_an_error() {
    let mut board = LocalBoard::new();
    let mut graphics = Graphics::new();
    board.new_image(10, 20, vec![1, 2], &mut graphics);
    board.new_image(30, 40, vec![1, 2], &mut graphics);
    board
        .apply_event(BoardEvent::ConfirmImage { local_id: 1, global_id: 11, texture_id: 12 }, &mut graphics)
        .unwrap();
    assert_eq!(
        board.apply_event(
            BoardEvent::ConfirmImage { local_id: 3, global_id: 13, texture_id: 77 },
            &mut graphics
        ),
        Err(EventError::UnknownTexture)
    );
}

#[test]
fn announced_image_with_unknown_texture_is_an_error() {
    let mut board = LocalBoard::new();
    let mut graphics = Graphics::new();
    assert_eq!(
        board.apply_event(
            BoardEvent::NewImage { id: 1, x: 0, y: 0, texture: Texture::Existing { id: 2 } },
            &mut graphics
        ),
        Err(EventError::UnknownTexture)
    );
    assert!(graphics.shown.is_empty());
}

#[test]
fn announced_image_with_refused_bytes_is_an_error() {
    let mut board = LocalBoard::new();
    let mut graphics = Graphics::new();
    assert_eq!(
        board.apply_event(
            BoardEvent::NewImage { id: 1, x: 0, y: 0, texture: Texture::New { id: 2, data: vec![] } },
            &mut graphics
        ),
        Err(EventError::TextureRejected)
    );
    assert_eq!(
        board.record_event(
            BoardEvent::NewImage { id: 1, x: 0, y: 0, texture: Texture::New { id: 2, data: vec![1] } },
            None,
            0
        ),
        Err(EventError::TextureRejected)
    );
}

#[test]
fn announced_image_is_shown_with_its_new_texture() {
    let mut board = LocalBoard::new();
    let mut graphics = Graphics::new();
    assert_eq!(
        board.apply_event(
            BoardEvent::NewImage { id: 1, x: 7, y: 8, texture: Texture::New { id: 2, data: vec![4] } },
            &mut graphics
        ),
        Ok(())
    );
    assert_eq!(graphics.textures, vec![vec![4]]);
    assert_eq!(graphics.shown, vec![(7, 8, 1000)]);
}

#[test]
fn load_shows_every_image_after_every_texture() {
    let mut objects = HashMap::new();
    objects.insert(1, BoardObject::Image(Image { id: 1, x: 10, y: 11, texture: 2 }));
    objects.insert(3, BoardObject::Image(Image { id: 3, x: 12, y: 13, texture: 2 }));
    objects.insert(4, BoardObject::Line);
    let mut textures = HashMap::new();
    textures.insert(2, vec![5, 5]);
    let mut board = LocalBoard::new();
    let mut graphics = Graphics::new();
    assert_eq!(board.load(Board { objects, textures }, &mut graphics), Ok(()));
    assert_eq!(graphics.textures, vec![vec![5, 5]]);
    let mut shown = graphics.shown.clone();
    shown.sort();
    assert_eq!(shown, vec![(10, 11, 1000), (12, 13, 1000)]);
    assert_eq!(
        board.apply_event(
            BoardEvent::NewImage { id: 9, x: 0, y: 0, texture: Texture::Existing { id: 2 } },
            &mut graphics
        ),
        Ok(())
    );
}

#[test]
fn load_refuses_a_board_with_a_missing_texture() {
    let mut objects = HashMap::new();
    objects.insert(1, BoardObject::Image(Image { id: 1, x: 10, y: 11, texture: 2 }));
    let mut board = LocalBoard::new();
    let mut graphics = Graphics::new();
    assert_eq!(
        board.load(Board { objects, textures: HashMap::new() }, &mut graphics),
        Err(EventError::UnknownTexture)
    );
    assert!(graphics.shown.is_empty());
}

#[test]
fn load_stops_at_a_refused_texture() {
    let mut textures = HashMap::new();
    textures.insert(2, vec![]);
    let mut board = LocalBoard::new();
    let mut graphics = Graphics::new();
    assert_eq!(
        board.load(Board { objects: HashMap::new(), textures }, &mut graphics),
        Err(EventError::TextureRejected)
    );
}

#[test]
fn client_and_server_agree_on_names() {
    let mut server = GlobalBoard::new();
    server.new_client(1);
    server.new_client(2);
    let mut first = LocalBoard::new();
    let mut second = LocalBoard::new();
    let mut first_graphics = Graphics::new();
    let mut second_graphics = Graphics::new();

    let action = first.new_image(1, 2, vec![8, 8], &mut first_graphics).unwrap();
    let outcome = server.apply(1, action);
    for delivery in outcome.deliveries {
        let result = if delivery.client_id == 1 {
            first.apply_event(delivery.event, &mut first_graphics)
        } else {
            second.apply_event(delivery.event, &mut second_graphics)
        };
        assert_eq!(result, Ok(()));
    }
    let action = second.new_image(3, 4, vec![8, 8], &mut second_graphics).unwrap();
    assert_eq!(
        action,
        BoardAction::NewImage {
            x: 3,
            y: 4,
            local_id: 1,
            texture: Texture::Existing { id: ObjectIdentifier::Global(2) },
        }
    );
    let outcome = server.apply(2, action);
    for delivery in outcome.deliveries {
        let result = if delivery.client_id == 1 {
            first.apply_event(delivery.event, &mut first_graphics)
        } else {
            second.apply_event(delivery.event, &mut second_graphics)
        };
        assert_eq!(result, Ok(()));
    }
    assert_eq!(first_graphics.shown.len(), 2);
    assert_eq!(second_graphics.shown.len(), 2);
    assert_eq!(server.get_state().textures.len(), 1);
}

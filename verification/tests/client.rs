use shared_board::auth::{Login, UserData};
use shared_board::board::common::{BoardAction, BoardEvent, ObjectIdentifier, Texture};
use shared_board::client_info::{ClientData, ClientInfo, ClientListMessage, ClientMessage};
use shared_board::image_atlas::BoundingBox;
use shared_board::room::{
    ping_millis, ping_payload, pong_timestamp, Recipient, Room, ToClient, ToServer,
};
use shared_board::server_list::{ServerList, ServerListEvent};
use shared_board::pixels::RgbaImage;
use shared_board::textures::{resized_dimensions, Textures, Upload};

fn blank(width: u32, height: u32) -> RgbaImage {
    RgbaImage { width, height, pixels: vec![0; 4 * (width * height) as usize] }
}

fn png(width: u32, height: u32, value: impl Fn(u32, u32) -> [u8; 4]) -> Vec<u8> {
    let img = image::RgbaImage::from_fn(width, height, |x, y| image::Rgba(value(x, y)));
    let mut bytes = Vec::new();
    img.write_to(&mut std::io::Cursor::new(&mut bytes), image::ImageFormat::Png).unwrap();
    bytes
}

#[test]
fn textures_are_found_by_content_and_by_name() {
    let mut textures = Textures::new();
    let name = ObjectIdentifier::Local(1);
    assert!(!textures.texture_exists(&vec![1, 2]));
    assert_eq!(textures.get_texture_id(&vec![1, 2]), None);
    assert!(!textures.texture_known(name));

    let placed = textures.insert_image(name, vec![1, 2], blank(100, 40)).unwrap();
    assert_eq!(
        placed.bounds,
        BoundingBox { atlas_id: 0, x: 0, y: 0, width: 40, height: 100, rotated: true }
    );
    assert!(placed.new_atlas);
    assert_eq!(placed.pixels.len(), 4 * 100 * 40);
    assert!(textures.texture_exists(&vec![1, 2]));
    assert!(!textures.texture_exists(&vec![1, 2, 3]));
    assert_eq!(textures.get_texture_id(&vec![1, 2]), Some(name));
    assert!(textures.texture_known(name));
    assert_eq!(textures.get_bounds(name), placed.bounds);
}

#[test]
fn renaming_a_texture_keeps_its_place() {
    let mut textures = Textures::new();
    let local = ObjectIdentifier::Local(1);
    let global = ObjectIdentifier::Global(9);
    let bounds = textures.insert_image(local, vec![5], blank(64, 64)).unwrap().bounds;
    textures.update_id(local, global);
    assert!(!textures.texture_known(local));
    assert!(textures.texture_known(global));
    assert_eq!(textures.get_bounds(global), bounds);
    assert_eq!(textures.get_texture_id(&vec![5]), Some(global));
    textures.update_id(ObjectIdentifier::Local(77), ObjectIdentifier::Global(78));
    assert!(!textures.texture_known(ObjectIdentifier::Global(78)));
}

#[test]
fn texture_that_finds_no_place_is_not_recorded() {
    let mut textures = Textures::new();
    let first = ObjectIdentifier::Local(1);
    let second = ObjectIdentifier::Local(2);
    assert_eq!(textures.insert_image(first, vec![1], blank(3000, 10)), None);
    assert!(!textures.texture_exists(&vec![1]));
    assert!(!textures.texture_known(first));
    let placed = textures.insert_image(second, vec![2], blank(20, 10)).unwrap();
    assert_eq!(placed.bounds.atlas_id, 0);
    let again = textures.insert_image(second, vec![2], blank(20, 10)).unwrap();
    assert_eq!(again.bounds.x, 10);
    assert_eq!(textures.get_bounds(second), again.bounds);
}

#[test]
fn images_are_halved_until_they_fit() {
    assert_eq!(resized_dimensions(100, 200, 256), (100, 200));
    assert_eq!(resized_dimensions(256, 256, 256), (256, 256));
    assert_eq!(resized_dimensions(257, 10, 256), (128, 5));
    assert_eq!(resized_dimensions(1000, 3000, 256), (62, 187));
    assert_eq!(resized_dimensions(5, 5, 0), (0, 0));
}

#[test]
fn server_list_follows_events() {
    let mut list = ServerList::new();
    assert_eq!(list.len(), 0);
    list.apply(ServerListEvent::Add("lobby".to_string()));
    list.apply(ServerListEvent::Add("attic".to_string()));
    list.apply(ServerListEvent::Add("lobby".to_string()));
    assert_eq!(list.len(), 2);
    assert!(list.contains(&"lobby".to_string()));
    assert!(list.contains(&"attic".to_string()));
    assert_eq!(list.get(0), "lobby");
    assert_eq!(list.get(1), "attic");
    list.apply(ServerListEvent::Remove("lobby".to_string()));
    list.apply(ServerListEvent::Remove("cellar".to_string()));
    assert_eq!(list.len(), 1);
    assert!(!list.contains(&"lobby".to_string()));

    let mut other = ServerList::new();
    other.apply(ServerListEvent::Add("roof".to_string()));
    list.apply(ServerListEvent::SetAll(other));
    assert_eq!(list.len(), 1);
    assert!(list.contains(&"roof".to_string()));
    assert!(!list.contains(&"attic".to_string()));
}

#[test]
fn client_info_takes_up_pings() {
    let mut info = ClientInfo::new(ClientData { id: 4, name: "ada".to_string(), ping: 0 });
    assert_eq!(info.get_name(), "ada");
    assert_eq!(info.get_ping(), 0);
    info.consume(ClientMessage::Ping(35));
    assert_eq!(info.get_ping(), 35);
    assert_eq!(info.get_name(), "ada");
}

#[test]
fn login_keeps_the_name() {
    let user = Login { username: "ada".to_string() }.into_user(17);
    assert_eq!(user, UserData { id: 17, username: "ada".to_string() });
}

#[test]
fn ping_time_saturates_at_zero() {
    assert_eq!(ping_millis(1000, 400), 600);
    assert_eq!(ping_millis(400, 1000), 0);
    assert_eq!(ping_millis(5, 5), 0);
    assert_eq!(ping_millis((1u128 << 32) + 7, 0), 7);
}

#[test]
fn ping_carries_the_time_least_significant_byte_first() {
    let payload = ping_payload(0x0102_0304);
    assert_eq!(payload, vec![4, 3, 2, 1, 0, 0, 0, 0, 0, 0, 0, 0, 0, 0, 0, 0]);
    assert_eq!(pong_timestamp(&payload), Some(0x0102_0304));
    assert_eq!(pong_timestamp(&payload[..8]), None);
    assert_eq!(pong_timestamp(&[]), None);
    assert_eq!(pong_timestamp(&ping_payload(u128::MAX)), Some(u128::MAX));
}

#[test]
fn room_greets_a_client_with_the_board() {
    let mut room = Room::new();
    room.on_connect(1, UserData { id: 10, username: "ada".to_string() });
    room.on_message(
        1,
        ToServer::BoardAction(BoardAction::NewImage {
            x: 1,
            y: 2,
            local_id: 1,
            texture: Texture::New { id: ObjectIdentifier::Local(2), data: vec![3] },
        }),
    );
    let outgoing = room.on_connect(2, UserData { id: 20, username: "bob".to_string() });
    assert_eq!(outgoing.len(), 2);
    assert_eq!(outgoing[0].to, Recipient::Client(2));
    match &outgoing[0].message {
        ToClient::NewBoard(board) => {
            assert_eq!(board.objects.len(), 1);
            assert_eq!(board.textures.get(&2), Some(&vec![3]));
        }
        _ => panic!("the board comes first"),
    }
    assert_eq!(outgoing[1].to, Recipient::Everyone);
    match &outgoing[1].message {
        ToClient::ClientListMessage(message) => assert_eq!(
            *message,
            ClientListMessage::Joined(ClientData { id: 2, name: "bob".to_string(), ping: 0 })
        ),
        _ => panic!("then the news"),
    }
    assert_eq!(room.get_state().objects.len(), 1);
}

#[test]
fn room_passes_actions_to_the_board() {
    let mut room = Room::new();
    room.on_connect(1, UserData { id: 10, username: "ada".to_string() });
    room.on_connect(2, UserData { id: 20, username: "bob".to_string() });
    let outcome = room.on_message(
        2,
        ToServer::BoardAction(BoardAction::NewImage {
            x: 1,
            y: 2,
            local_id: 5,
            texture: Texture::New { id: ObjectIdentifier::Local(6), data: vec![3] },
        }),
    );
    assert_eq!(outcome.deliveries.len(), 2);
    assert_eq!(outcome.deliveries[0].client_id, 2);
    assert_eq!(
        outcome.deliveries[0].event,
        BoardEvent::ConfirmImage { local_id: 5, global_id: 1, texture_id: 2 }
    );
    assert_eq!(outcome.deliveries[1].client_id, 1);
}

#[test]
fn room_forgets_a_client_that_leaves() {
    let mut room = Room::new();
    room.on_connect(1, UserData { id: 10, username: "ada".to_string() });
    room.on_connect(2, UserData { id: 20, username: "bob".to_string() });
    let outgoing = room.on_disconnect(2);
    assert_eq!(outgoing.len(), 1);
    assert_eq!(outgoing[0].to, Recipient::Everyone);
    assert!(matches!(
        outgoing[0].message,
        ToClient::ClientListMessage(ClientListMessage::Quit(2))
    ));
    let outcome = room.on_message(
        1,
        ToServer::BoardAction(BoardAction::NewImage {
            x: 1,
            y: 2,
            local_id: 5,
            texture: Texture::New { id: ObjectIdentifier::Local(6), data: vec![3] },
        }),
    );
    assert_eq!(outcome.deliveries.len(), 1);
}

#[test]
fn poisoned_room_takes_no_actions() {
    let mut room = Room::new();
    room.on_connect(1, UserData { id: 10, username: "ada".to_string() });
    assert!(!room.is_poisoned());
    room.poison();
    assert!(room.is_poisoned());
    let outcome = room.on_message(
        1,
        ToServer::BoardAction(BoardAction::NewImage {
            x: 1,
            y: 2,
            local_id: 5,
            texture: Texture::New { id: ObjectIdentifier::Local(6), data: vec![3] },
        }),
    );
    assert_eq!(outcome.placed, None);
    assert!(outcome.deliveries.is_empty());
    assert!(room.get_state().objects.is_empty());
}

#[test]
fn room_tells_everyone_the_ping_time() {
    let room = Room::new();
    let outgoing = room.on_pong(3, 5000, 4960);
    assert_eq!(outgoing.len(), 1);
    assert_eq!(outgoing[0].to, Recipient::Everyone);
    assert!(matches!(
        outgoing[0].message,
        ToClient::ClientListMessage(ClientListMessage::Update(3, ClientMessage::Ping(40)))
    ));
}

#[test]
fn textures_are_placed_by_number() {
    let mut textures = Textures::new();
    assert_eq!(textures.texture_number(&vec![1]), None);
    assert_eq!(textures.bounds_of(0), None);
    let (number, placed) = textures.place_texture(vec![1], 10, 20).unwrap();
    assert_eq!(number, 0);
    assert!(placed.new_atlas);
    assert_eq!(textures.texture_number(&vec![1]), Some(0));
    assert_eq!(textures.bounds_of(0), Some(placed.bounds));
    assert_eq!(textures.place_texture(vec![2], 5000, 20), None);
    let (number, later) = textures.place_texture(vec![3], 10, 20).unwrap();
    assert_eq!(number, 2);
    assert!(!later.new_atlas);
    assert_eq!(later.bounds.x, 10);
    assert_eq!(textures.get_texture_id(&vec![3]), None);
}

#[test]
fn stored_pixels_are_turned_with_the_placement() {
    let mut textures = Textures::new();
    // two pixels side by side: red on the left, green on the right
    let wide = RgbaImage { width: 2, height: 1, pixels: vec![255, 0, 0, 255, 0, 255, 0, 255] };
    let (number, upload) = textures.place_image(vec![1], wide).unwrap();
    assert_eq!(number, 0);
    assert!(upload.bounds.rotated);
    assert_eq!((upload.bounds.width, upload.bounds.height), (1, 2));
    // turned to the right, red is on top
    assert_eq!(upload.pixels, vec![255, 0, 0, 255, 0, 255, 0, 255]);

    let tall = RgbaImage { width: 1, height: 2, pixels: vec![1, 2, 3, 4, 5, 6, 7, 8] };
    let (_, upload) = textures.place_image(vec![2], tall).unwrap();
    assert!(!upload.bounds.rotated);
    assert_eq!(upload.pixels, vec![1, 2, 3, 4, 5, 6, 7, 8]);

    let square = RgbaImage {
        width: 3,
        height: 2,
        pixels: (0..6u8).flat_map(|p| [p, p, p, p]).collect(),
    };
    let (_, upload) = textures.place_image(vec![3], square).unwrap();
    let firsts: Vec<u8> = upload.pixels.chunks(4).map(|pixel| pixel[0]).collect();
    assert_eq!(firsts, vec![3, 0, 4, 1, 5, 2]);

    let broken = RgbaImage { width: 2, height: 2, pixels: vec![0; 15] };
    assert_eq!(textures.place_image(vec![4], broken), None);
    assert_eq!(textures.texture_number(&vec![4]), None);
}

#[test]
fn textures_are_made_of_the_bytes_of_a_file() {
    let mut textures = Textures::new();
    let file = png(3, 5, |x, y| [x as u8, y as u8, 7, 255]);
    let (number, upload) = textures.create_texture(file.clone()).unwrap();
    let upload = upload.unwrap();
    assert_eq!(number, 0);
    assert_eq!(
        upload.bounds,
        BoundingBox { atlas_id: 0, x: 0, y: 0, width: 3, height: 5, rotated: false }
    );
    assert!(upload.new_atlas);
    assert_eq!(upload.pixels.len(), 4 * 3 * 5);
    assert_eq!(&upload.pixels[..8], &[0, 0, 7, 255, 1, 0, 7, 255]);
    assert_eq!(&upload.pixels[4 * 3..4 * 3 + 4], &[0, 1, 7, 255]);

    // the same bytes make no second texture
    assert_eq!(textures.create_texture(file.clone()), Some((0, None)));
    assert_eq!(textures.texture_number(&file), Some(0));

    // what is no image makes no texture
    assert_eq!(textures.create_texture(vec![1, 2, 3]), None);
    assert_eq!(textures.create_texture(vec![]), None);
    let mut cut = file.clone();
    cut.truncate(file.len() / 2);
    assert_eq!(textures.create_texture(cut), None);

    // a large image is halved until it fits a texture
    let large = png(600, 100, |_, _| [9, 9, 9, 255]);
    let (number, upload) = textures.create_texture(large).unwrap();
    let upload: Upload = upload.unwrap();
    assert_eq!(number, 1);
    assert!(upload.bounds.rotated);
    assert_eq!((upload.bounds.width, upload.bounds.height), (25, 150));
    assert!(upload.pixels.chunks(4).all(|pixel| pixel == [9, 9, 9, 255]));
}

#[test]
fn named_textures_are_made_of_the_bytes_of_a_file() {
    let mut textures = Textures::new();
    let name = ObjectIdentifier::Global(4);
    let file = png(4, 4, |_, _| [1, 2, 3, 4]);
    let upload = textures.insert_texture(name, file.clone()).unwrap();
    assert_eq!((upload.bounds.width, upload.bounds.height), (4, 4));
    assert_eq!(textures.get_texture_id(&file), Some(name));
    assert_eq!(textures.get_bounds(name), upload.bounds);
    assert_eq!(textures.insert_texture(ObjectIdentifier::Global(5), vec![0xFF; 10]), None);
    assert!(!textures.texture_known(ObjectIdentifier::Global(5)));
}

use shared_board::board::common::{
    Board, BoardAction, BoardObject, Image, ObjectIdentifier, Texture as LiveTexture,
};
use shared_board::board::global_board::GlobalBoard;
use shared_board::store::codec::{decode_board, decode_event, encode_board, encode_event, write_varint};
use shared_board::store::error::StoreError;
use shared_board::store::event_store::{EventStore, Load, Replay, StateBuilder, StoreOp};
use shared_board::store::names::{
    last_log_index, last_snapshot_index, log_file_name, parse_log_index, parse_number,
    parse_snapshot_index, snapshot_file_name, snapshot_tmp_file_name, SNAPSHOT_DIRECTORY,
    WAL_DIRECTORY,
};
use shared_board::store::serialization::{
    convert_board, schema_of, Board as StoredBoard, BoardLoader, Event, Schema, CURRENT_VERSION,
};
use shared_board::store::v1::{BoardV1, EventV1, Object, Texture};
use shared_board::store::wal::{
    frame, parse_segment, parse_snapshot, segment_header, snapshot_file, Segment, Snapshot, Wal,
};
use shared_board::store::{BoardStore, StoringObserver};
use std::collections::HashMap;

fn sample_event(id: u64) -> EventV1 {
    EventV1::NewImage {
        id,
        x: 1.5f64.to_bits(),
        y: (-2.0f64).to_bits(),
        texture: Texture::New { id: id + 1, data: vec![0xAB, 0xCD] },
    }
}

fn segment_with(version: u64, records: &[Vec<u8>]) -> Vec<u8> {
    let mut bytes = segment_header(version);
    for record in records {
        bytes.extend(frame(record).unwrap());
    }
    bytes
}

#[test]
fn file_names_are_twenty_digits() {
    assert_eq!(log_file_name(0), "00000000000000000000.log");
    assert_eq!(log_file_name(42), "00000000000000000042.log");
    assert_eq!(log_file_name(u64::MAX), "18446744073709551615.log");
    assert_eq!(snapshot_file_name(7), "00000000000000000007.snapshot");
    assert_eq!(snapshot_tmp_file_name(7), "00000000000000000007.snapshot.tmp");
    assert_eq!(WAL_DIRECTORY, "wal");
    assert_eq!(SNAPSHOT_DIRECTORY, "snapshot");
}

#[test]
fn file_names_are_read_back() {
    for index in [0u64, 1, 9, 10, 12345, u64::MAX - 1, u64::MAX] {
        assert_eq!(parse_log_index(&log_file_name(index)), Some(index));
        assert_eq!(parse_snapshot_index(&snapshot_file_name(index)), Some(index));
        assert_eq!(parse_snapshot_index(&snapshot_tmp_file_name(index)), None);
        assert_eq!(parse_log_index(&snapshot_file_name(index)), None);
    }
}

#[test]
fn names_are_read_freely() {
    assert_eq!(parse_log_index("5.log"), Some(5));
    assert_eq!(parse_log_index("+5.log"), Some(5));
    assert_eq!(parse_log_index("0000000000000000000000000005.log"), Some(5));
    assert_eq!(parse_log_index(".log"), None);
    assert_eq!(parse_log_index("+.log"), None);
    assert_eq!(parse_log_index("-5.log"), None);
    assert_eq!(parse_log_index("5a.log"), None);
    assert_eq!(parse_log_index("5.LOG"), None);
    assert_eq!(parse_log_index("5.log "), None);
    assert_eq!(parse_log_index("log"), None);
    assert_eq!(parse_log_index("18446744073709551615.log"), Some(u64::MAX));
    assert_eq!(parse_log_index("18446744073709551616.log"), None);
    assert_eq!(parse_log_index("99999999999999999999999.log"), None);
    assert_eq!(parse_number("007"), Some(7));
    assert_eq!(parse_number(""), None);
    assert_eq!(parse_number("٣"), None);
}

#[test]
fn newest_index_is_the_largest() {
    let names: Vec<String> = ["00000000000000000003.log", "notes.txt", "00000000000000000011.log", "7.log"]
        .iter()
        .map(|name| name.to_string())
        .collect();
    assert_eq!(last_log_index(&names), Some(11));
    assert_eq!(last_snapshot_index(&names), None);
    let snapshots: Vec<String> = ["00000000000000000002.snapshot", "00000000000000000005.snapshot.tmp"]
        .iter()
        .map(|name| name.to_string())
        .collect();
    assert_eq!(last_snapshot_index(&snapshots), Some(2));
    assert_eq!(last_log_index(&Vec::new()), None);
}

#[test]
fn frames_carry_their_length() {
    assert_eq!(frame(&[]), Some(vec![0, 0, 0, 0]));
    assert_eq!(frame(&[9, 8, 7]), Some(vec![3, 0, 0, 0, 9, 8, 7]));
    let long = vec![1u8; 258];
    let framed = frame(&long).unwrap();
    assert_eq!(&framed[..4], &[2, 1, 0, 0]);
    assert_eq!(framed.len(), 262);
    assert_eq!(segment_header(1), vec![1, 0, 0, 0, 0, 0, 0, 0]);
    assert_eq!(segment_header(0x0102), vec![2, 1, 0, 0, 0, 0, 0, 0]);
}

#[test]
fn segment_is_read_as_written() {
    let records = vec![vec![1, 2, 3], vec![], vec![9; 300]];
    let bytes = segment_with(7, &records);
    assert_eq!(parse_segment(&bytes), Some(Segment { version: 7, records }));
    assert_eq!(parse_segment(&segment_header(7)), Some(Segment { version: 7, records: vec![] }));
}

#[test]
fn cut_segment_is_read_up_to_the_cut() {
    let records = vec![vec![1, 2, 3], vec![4, 5]];
    let whole = segment_with(1, &records);
    for cut in 1..whole.len() {
        let parsed = parse_segment(&whole[..cut]);
        if cut < 8 {
            assert_eq!(parsed, None);
        } else if cut < 15 {
            assert_eq!(parsed, Some(Segment { version: 1, records: vec![] }));
        } else if cut < 21 {
            assert_eq!(parsed, Some(Segment { version: 1, records: vec![vec![1, 2, 3]] }));
        }
    }
    assert_eq!(parse_segment(&whole), Some(Segment { version: 1, records }));
}

#[test]
fn snapshot_file_is_read_as_written() {
    let bytes = snapshot_file(3, &[5, 6, 7]);
    assert_eq!(bytes, vec![3, 0, 0, 0, 0, 0, 0, 0, 5, 6, 7]);
    assert_eq!(parse_snapshot(&bytes), Some(Snapshot { version: 3, payload: vec![5, 6, 7] }));
    assert_eq!(parse_snapshot(&bytes[..7]), None);
    assert_eq!(parse_snapshot(&bytes[..8]), Some(Snapshot { version: 3, payload: vec![] }));
}

#[test]
fn wal_counts_what_is_appended() {
    let mut wal = Wal::open(8);
    assert_eq!(wal.append(&[1, 2, 3]), Ok(vec![3, 0, 0, 0, 1, 2, 3]));
    assert_eq!(wal.get_size(), 15);
    assert_eq!(wal.append(&[]), Ok(vec![0, 0, 0, 0]));
    assert_eq!(wal.get_size(), 19);
    let mut full = Wal::open(u64::MAX - 5);
    assert_eq!(full.append(&[1, 2]), Err(StoreError::SegmentFull));
    assert_eq!(full.get_size(), u64::MAX - 5);
    assert_eq!(full.append(&[1]), Ok(vec![1, 0, 0, 0, 1]));
    assert_eq!(full.get_size(), u64::MAX);
}

#[test]
fn opening_an_empty_store_begins_segment_zero() {
    let (store, op) = EventStore::open(CURRENT_VERSION, None, None).unwrap();
    assert_eq!(store.get_log_index(), 0);
    assert_eq!(store.get_current_log_size(), 8);
    assert_eq!(
        op,
        StoreOp::OpenSegment {
            name: "00000000000000000000.log".to_string(),
            header: vec![1, 0, 0, 0, 0, 0, 0, 0],
        }
    );
    assert_eq!(EventStore::replay_range(None, None), None);
}

#[test]
fn opening_continues_the_newest_segment_of_the_same_version() {
    let (store, op) = EventStore::open(1, Some(4), Some(1)).unwrap();
    assert_eq!(store.get_log_index(), 4);
    assert!(matches!(op, StoreOp::OpenSegment { ref name, .. } if name == "00000000000000000004.log"));
    let (store, _) = EventStore::open(2, Some(4), Some(1)).unwrap();
    assert_eq!(store.get_log_index(), 5);
    assert!(matches!(EventStore::open(1, Some(4), None), Err(StoreError::MissingHeader)));
    assert!(matches!(EventStore::open(2, Some(u64::MAX), Some(1)), Err(StoreError::IndexExhausted)));
    assert_eq!(EventStore::open(1, Some(u64::MAX), Some(1)).unwrap().0.get_log_index(), u64::MAX);
}

#[test]
fn replay_starts_at_the_snapshot() {
    assert_eq!(EventStore::replay_range(None, Some(3)), Some((0, 3)));
    assert_eq!(EventStore::replay_range(Some(2), Some(3)), Some((2, 3)));
    assert_eq!(EventStore::replay_range(Some(5), Some(3)), Some((5, 3)));
    assert_eq!(EventStore::replay_range(Some(5), None), None);
}

#[test]
fn wal_rotation_on_snapshot() {
    let (mut store, _) = EventStore::open(CURRENT_VERSION, None, None).unwrap();
    let mut segment_zero = segment_header(CURRENT_VERSION);
    for id in [1u64, 3, 5] {
        let record = encode_event(&sample_event(id));
        segment_zero.extend(store.append(&record).unwrap());
    }
    assert_eq!(store.get_current_log_size(), segment_zero.len() as u64);
    assert_eq!(store.flush(), StoreOp::FlushSegment);

    let mut loader = BoardLoader::new();
    loader.replay(None, &vec![segment_zero.clone()]).unwrap();
    let payload = encode_board(&convert_board(loader.get_board()));

    let ops = store.snapshot(&payload).unwrap();
    let mut snapshot_zero = vec![1, 0, 0, 0, 0, 0, 0, 0];
    snapshot_zero.extend(payload.clone());
    assert_eq!(
        ops,
        vec![
            StoreOp::FlushSegment,
            StoreOp::OpenSegment {
                name: "00000000000000000001.log".to_string(),
                header: vec![1, 0, 0, 0, 0, 0, 0, 0],
            },
            StoreOp::WriteSnapshot {
                name: "00000000000000000000.snapshot.tmp".to_string(),
                bytes: snapshot_zero.clone(),
            },
            StoreOp::PublishSnapshot {
                from: "00000000000000000000.snapshot.tmp".to_string(),
                to: "00000000000000000000.snapshot".to_string(),
            },
        ]
    );
    assert_eq!(store.get_log_index(), 1);
    assert_eq!(store.get_current_log_size(), 8);

    // a later event goes to segment 1
    let mut segment_one = segment_header(CURRENT_VERSION);
    segment_one.extend(store.append(&encode_event(&sample_event(7))).unwrap());

    // what a restart finds and replays
    let snapshots = vec!["00000000000000000000.snapshot".to_string()];
    let segments = vec!["00000000000000000000.log".to_string(), "00000000000000000001.log".to_string()];
    let snapshot_index = last_snapshot_index(&snapshots);
    let log_index = last_log_index(&segments);
    assert_eq!(EventStore::replay_range(snapshot_index, log_index), Some((0, 1)));
    let mut replayed = BoardLoader::new();
    assert_eq!(
        replayed.replay(Some(&snapshot_zero), &vec![segment_zero.clone(), segment_one.clone()]),
        Ok(())
    );
    let board = replayed.get_board();
    let mut images: Vec<u64> = board.objects.keys().copied().collect();
    images.sort();
    assert_eq!(images, vec![1, 3, 5, 7]);
    assert_eq!(board.textures.len(), 4);
    let (reopened, _) =
        EventStore::open(CURRENT_VERSION, log_index, EventStore::get_log_version(&segment_one)).unwrap();
    assert_eq!(reopened.get_log_index(), 1);
}

#[test]
fn exhausted_segment_numbers_refuse_a_snapshot() {
    let (mut store, _) = EventStore::open(1, Some(u64::MAX), Some(1)).unwrap();
    assert_eq!(store.snapshot(&[1]), Err(StoreError::IndexExhausted));
    assert_eq!(store.next_log(), Err(StoreError::IndexExhausted));
    assert_eq!(store.get_log_index(), u64::MAX);
}

#[test]
fn next_log_rotates() {
    let (mut store, _) = EventStore::open(3, Some(1), Some(3)).unwrap();
    store.segment_opened(100);
    assert_eq!(store.get_current_log_size(), 100);
    assert_eq!(
        store.next_log(),
        Ok(vec![
            StoreOp::FlushSegment,
            StoreOp::OpenSegment {
                name: "00000000000000000002.log".to_string(),
                header: vec![3, 0, 0, 0, 0, 0, 0, 0],
            },
        ])
    );
    assert_eq!(store.get_log_index(), 2);
    assert_eq!(store.get_current_log_size(), 8);
}

#[test]
fn varints_are_seven_bits_to_a_byte() {
    let cases: [(u64, &[u8]); 6] = [
        (0, &[0]),
        (127, &[127]),
        (128, &[0x80, 1]),
        (300, &[0xAC, 2]),
        (16384, &[0x80, 0x80, 1]),
        (u64::MAX, &[0xFF, 0xFF, 0xFF, 0xFF, 0xFF, 0xFF, 0xFF, 0xFF, 0xFF, 1]),
    ];
    for (value, expected) in cases {
        let mut out = vec![0xEE];
        write_varint(&mut out, value);
        assert_eq!(&out[1..], expected);
        assert_eq!(out[1..].to_vec(), postcard::to_stdvec(&value).unwrap());
    }
}

#[test]
fn event_bytes_are_laid_out_field_by_field() {
    let event = EventV1::NewImage {
        id: 300,
        x: 1.0f64.to_bits(),
        y: 2.0f64.to_bits(),
        texture: Texture::New { id: 2, data: vec![0xAB, 0xCD] },
    };
    let bytes = encode_event(&event);
    let mut expected = vec![0, 0xAC, 2];
    expected.extend(1.0f64.to_le_bytes());
    expected.extend(2.0f64.to_le_bytes());
    expected.extend([0, 2, 2, 0xAB, 0xCD]);
    assert_eq!(bytes, expected);
    assert_eq!(decode_event(&bytes), Some(event));

    let by_name = EventV1::NewImage { id: 1, x: 0, y: 0, texture: Texture::Existing { id: 9 } };
    let bytes = encode_event(&by_name);
    assert_eq!(bytes.len(), 1 + 1 + 8 + 8 + 1 + 1);
    assert_eq!(&bytes[18..], &[1, 9]);
    assert_eq!(decode_event(&bytes), Some(by_name));
}

#[test]
fn event_bytes_agree_with_postcard() {
    let event = sample_event(70000);
    let ours = encode_event(&event);
    let theirs =
        postcard::to_stdvec(&(0u32, 70000u64, 1.5f64, -2.0f64, 0u32, 70001u64, vec![0xABu8, 0xCD])).unwrap();
    assert_eq!(ours, theirs);
    let back: (u32, u64, f64, f64, u32, u64, Vec<u8>) = postcard::from_bytes(&ours).unwrap();
    assert_eq!(back, (0, 70000, 1.5, -2.0, 0, 70001, vec![0xAB, 0xCD]));

    let by_name = postcard::to_stdvec(&(0u32, 5u64, 0.25f64, 8.0f64, 1u32, 6u64)).unwrap();
    assert_eq!(
        decode_event(&by_name),
        Some(EventV1::NewImage {
            id: 5,
            x: 0.25f64.to_bits(),
            y: 8.0f64.to_bits(),
            texture: Texture::Existing { id: 6 },
        })
    );
}

#[test]
fn board_bytes_agree_with_postcard() {
    let mut textures = HashMap::new();
    textures.insert(2u64, vec![1u8, 2, 3]);
    let mut objects = HashMap::new();
    objects.insert(1u64, Object::Image { x: 4.0f64.to_bits(), y: 5.0f64.to_bits(), texture_id: 2 });
    let ours = encode_board(&BoardV1 { textures: textures.clone(), objects });

    let mut their_objects = HashMap::new();
    their_objects.insert(1u64, (0u32, 4.0f64, 5.0f64, 2u64));
    let theirs = postcard::to_stdvec(&(textures, their_objects)).unwrap();
    assert_eq!(ours, theirs);

    let mut lines = HashMap::new();
    lines.insert(9u64, 1u32);
    let with_line = postcard::to_stdvec(&(HashMap::<u64, Vec<u8>>::new(), lines)).unwrap();
    let decoded = decode_board(&with_line).unwrap();
    assert!(decoded.textures.is_empty());
    assert_eq!(decoded.objects.get(&9), Some(&Object::Line));
}

#[test]
fn board_is_read_back_from_its_bytes() {
    let mut textures = HashMap::new();
    let mut objects = HashMap::new();
    for id in 0..40u64 {
        textures.insert(1000 + id, vec![id as u8; id as usize]);
        objects.insert(id, Object::Image { x: id, y: id * 2, texture_id: 1000 + id });
    }
    objects.insert(500, Object::Line);
    let board = BoardV1 { textures, objects };
    let decoded = decode_board(&encode_board(&board)).unwrap();
    assert_eq!(decoded.textures, board.textures);
    assert_eq!(decoded.objects, board.objects);
}

#[test]
fn board_has_one_written_form() {
    let mut forward = BoardV1::new();
    let mut backward = BoardV1::new();
    for id in 0..50u64 {
        forward.textures.insert(id * 7919 % 101, vec![id as u8]);
        forward.objects.insert(id * 104729 % 211, Object::Line);
    }
    for id in (0..50u64).rev() {
        backward.textures.insert(id * 7919 % 101, vec![id as u8]);
        backward.objects.insert(id * 104729 % 211, Object::Line);
    }
    assert_eq!(encode_board(&forward), encode_board(&backward));
    let mut small = BoardV1::new();
    small.textures.insert(300, vec![7]);
    small.textures.insert(2, vec![]);
    small.objects.insert(9, Object::Line);
    small.objects.insert(1, Object::Image { x: 0, y: 0, texture_id: 2 });
    let mut expected = vec![2, 2, 0, 0xAC, 2, 1, 7, 2, 1, 0];
    expected.extend([0u8; 16]);
    expected.extend([2, 9, 1]);
    assert_eq!(encode_board(&small), expected);
}

#[test]
fn malformed_bytes_are_not_decoded() {
    assert_eq!(decode_event(&[]), None);
    assert_eq!(decode_event(&[1, 0]), None);
    let whole = encode_event(&sample_event(1));
    for cut in 0..whole.len() {
        assert_eq!(decode_event(&whole[..cut]), None);
    }
    let mut longer = whole.clone();
    longer.push(0xFF);
    assert_eq!(decode_event(&longer), Some(sample_event(1)));
    // a varint of eleven bytes, and one that does not fit 64 bits
    let mut long_varint = vec![0u8];
    long_varint.extend([0x80; 10]);
    long_varint.push(0);
    assert_eq!(decode_event(&long_varint), None);
    let mut big_varint = vec![0u8];
    big_varint.extend([0xFF; 9]);
    big_varint.push(2);
    assert_eq!(decode_event(&big_varint), None);
    assert!(decode_board(&[]).is_none());
    assert!(decode_board(&[1]).is_none());
    assert!(decode_board(&[0, 1, 5, 7]).is_none());
    assert!(decode_board(&[0, 0]).is_some());
}

#[test]
fn loader_refuses_unknown_versions() {
    assert_eq!(schema_of(1), Ok(Schema::V1));
    assert_eq!(schema_of(0), Err(StoreError::UnsupportedVersion { version: 0 }));
    assert_eq!(schema_of(2), Err(StoreError::UnsupportedVersion { version: 2 }));
    let mut loader = BoardLoader::new();
    let payload = encode_board(&BoardV1::new());
    assert_eq!(loader.load_state(2, payload.clone()), Err(StoreError::UnsupportedVersion { version: 2 }));
    assert_eq!(loader.load_state(1, payload), Ok(()));
    assert_eq!(loader.load_state(1, vec![7]), Err(StoreError::Malformed));
    assert_eq!(
        loader.load_event(9, encode_event(&sample_event(1))),
        Err(StoreError::UnsupportedVersion { version: 9 })
    );
    assert_eq!(loader.load_event(1, vec![]), Err(StoreError::Malformed));
    assert_eq!(loader.load_event(1, encode_event(&sample_event(1))), Ok(()));
    assert_eq!(loader.replay(Some(&vec![1, 0, 0]), &vec![]), Err(StoreError::MissingHeader));
    assert_eq!(loader.replay(None, &vec![vec![1, 0, 0]]), Err(StoreError::MissingHeader));
    assert_eq!(loader.get_board().objects.len(), 1);
}

#[test]
fn loader_stops_at_the_first_bad_record() {
    let good = encode_event(&sample_event(1));
    let also_good = encode_event(&sample_event(3));
    let segment = segment_with(1, &[good, vec![0xFF, 0xFF], also_good]);
    let mut loader = BoardLoader::new();
    assert_eq!(loader.replay(None, &vec![segment]), Err(StoreError::Malformed));
    let board = loader.get_board();
    assert_eq!(board.objects.len(), 1);
    assert!(board.objects.contains_key(&1));
}

#[test]
fn loader_keeps_lines() {
    let mut objects = HashMap::new();
    objects.insert(3, Object::Line);
    objects.insert(4, Object::Image { x: 1, y: 2, texture_id: 5 });
    let mut textures = HashMap::new();
    textures.insert(5, vec![1]);
    let mut loader = BoardLoader::new();
    loader.load_board(StoredBoard::V1(BoardV1 { textures, objects }));
    let board = loader.get_board();
    assert_eq!(board.objects.get(&3), Some(&BoardObject::Line));
    assert_eq!(
        board.objects.get(&4),
        Some(&BoardObject::Image(Image { id: 4, x: 1, y: 2, texture: 5 }))
    );
    let stored = convert_board(board);
    assert_eq!(stored.objects.get(&3), Some(&Object::Line));
    assert_eq!(stored.objects.get(&4), Some(&Object::Image { x: 1, y: 2, texture_id: 5 }));
}

#[test]
fn stored_board_applies_events() {
    let mut board = BoardV1::new();
    board.apply_event(sample_event(1));
    board.apply_event(EventV1::NewImage { id: 3, x: 0, y: 0, texture: Texture::Existing { id: 2 } });
    assert_eq!(board.textures.len(), 1);
    assert_eq!(board.textures.get(&2), Some(&vec![0xAB, 0xCD]));
    assert_eq!(board.objects.get(&3), Some(&Object::Image { x: 0, y: 0, texture_id: 2 }));
    let mut loader = BoardLoader::new();
    loader.load_board_event(Event::V1(sample_event(1)));
    assert_eq!(loader.get_board().objects.len(), 1);
}

fn new_image(local_id: u64, texture: LiveTexture<ObjectIdentifier>) -> BoardAction {
    BoardAction::NewImage { x: local_id, y: local_id + 1, local_id, texture }
}

#[test]
fn snapshot_then_load_gives_the_same_board() {
    let mut board = GlobalBoard::new();
    board.new_client(1);
    board.apply(1, new_image(1, LiveTexture::New { id: ObjectIdentifier::Local(2), data: vec![1, 2] }));
    board.apply(1, new_image(3, LiveTexture::Existing { id: ObjectIdentifier::Local(2) }));
    board.apply(1, new_image(4, LiveTexture::New { id: ObjectIdentifier::Local(5), data: vec![] }));
    let state = board.get_state();

    let store = BoardStore::new(());
    let observer = StoringObserver::new(());
    let payload = store.snapshot(&observer.snapshot(board.get_state()));
    let file = snapshot_file(CURRENT_VERSION, &payload);

    let mut loader = BoardLoader::new();
    assert_eq!(loader.replay(Some(&file), &vec![]), Ok(()));
    let restored: Board<u64> = loader.get_board();
    assert_eq!(restored.objects, state.objects);
    assert_eq!(restored.textures, state.textures);
}

#[test]
fn log_replay_gives_the_same_board() {
    let mut board = GlobalBoard::new();
    board.new_client(1);
    board.new_client(2);
    let store = BoardStore::new(());
    let observer = StoringObserver::new(());
    let (mut event_store, _) = EventStore::open(CURRENT_VERSION, None, None).unwrap();
    let mut segment = segment_header(CURRENT_VERSION);
    let actions = vec![
        (1, new_image(1, LiveTexture::New { id: ObjectIdentifier::Local(2), data: vec![1, 2] })),
        (2, new_image(1, LiveTexture::New { id: ObjectIdentifier::Local(2), data: vec![1, 2] })),
        (2, new_image(3, LiveTexture::Existing { id: ObjectIdentifier::Local(77) })),
        (1, new_image(3, LiveTexture::Existing { id: ObjectIdentifier::Local(2) })),
        (2, new_image(4, LiveTexture::New { id: ObjectIdentifier::Local(5), data: vec![9; 200] })),
    ];
    let mut half_way = None;
    for (step, (client, action)) in actions.into_iter().enumerate() {
        if step == 2 {
            half_way = Some((board.get_state(), segment.len()));
        }
        if let Some(placed) = board.apply(client, action).placed {
            let event = observer.new_image(placed.id, placed.x, placed.y, placed.texture);
            segment.extend(event_store.append(&store.apply_event(&event)).unwrap());
        }
    }
    let state = board.get_state();

    let mut loader = BoardLoader::new();
    assert_eq!(loader.replay(None, &vec![segment.clone()]), Ok(()));
    let replayed = loader.get_board();
    assert_eq!(replayed.objects, state.objects);
    assert_eq!(replayed.textures, state.textures);

    // a snapshot taken half way, followed by the events after it
    let (snapshot_state, cut) = half_way.unwrap();
    let payload = encode_board(&convert_board(snapshot_state));
    let mut later = segment_header(CURRENT_VERSION);
    later.extend(&segment[cut..]);
    let mut loader = BoardLoader::new();
    assert_eq!(
        loader.replay(
            Some(&snapshot_file(CURRENT_VERSION, &payload)),
            &vec![segment[..cut].to_vec(), later]
        ),
        Ok(())
    );
    let replayed = loader.get_board();
    assert_eq!(replayed.objects, state.objects);
    assert_eq!(replayed.textures, state.textures);

    let reloaded = GlobalBoard::from_board(replayed);
    assert_eq!(reloaded.get_state().objects, state.objects);
}

#[test]
fn loader_replays_a_whole_store() {
    let first = segment_with(1, &[encode_event(&sample_event(1)), encode_event(&sample_event(3))]);
    let second = segment_with(1, &[encode_event(&sample_event(5))]);
    let mut at_snapshot = BoardLoader::new();
    at_snapshot.replay(None, &vec![first.clone()]).unwrap();
    let snapshot = snapshot_file(1, &encode_board(&convert_board(at_snapshot.get_board())));

    let mut loader = BoardLoader::new();
    assert_eq!(loader.replay(Some(&snapshot), &vec![first.clone(), second.clone()]), Ok(()));
    let mut images: Vec<u64> = loader.get_board().objects.keys().copied().collect();
    images.sort();
    assert_eq!(images, vec![1, 3, 5]);

    let mut without_snapshot = BoardLoader::new();
    assert_eq!(without_snapshot.replay(None, &vec![first.clone(), second.clone()]), Ok(()));
    assert_eq!(without_snapshot.get_board().objects.len(), 3);

    let mut stopped = BoardLoader::new();
    let foreign = segment_with(2, &[encode_event(&sample_event(9))]);
    assert_eq!(
        stopped.replay(None, &vec![first.clone(), foreign, second]),
        Err(StoreError::UnsupportedVersion { version: 2 })
    );
    assert_eq!(stopped.get_board().objects.len(), 2);

    let mut refused = BoardLoader::new();
    assert_eq!(refused.replay(Some(&vec![1, 2]), &vec![first]), Err(StoreError::MissingHeader));
    assert!(refused.get_board().objects.is_empty());
    let mut empty = BoardLoader::new();
    assert_eq!(empty.replay(None, &vec![]), Ok(()));
}

/// A builder that writes down what it is handed and fails on request.
struct Recorder {
    calls: Vec<(bool, u64, Vec<u8>)>,
    fail_at: Option<usize>,
}

impl StateBuilder for Recorder {
    fn load_state(&mut self, version: u64, data: Vec<u8>) -> Result<(), StoreError> {
        self.calls.push((true, version, data));
        Ok(())
    }

    fn load_event(&mut self, version: u64, data: Vec<u8>) -> Result<(), StoreError> {
        self.calls.push((false, version, data));
        if self.fail_at == Some(self.calls.len()) {
            Err(StoreError::Malformed)
        } else {
            Ok(())
        }
    }
}

/// Hands to a builder what is to be replayed, as the owner of a store does.
fn hand_over(replay: Replay, state: &mut impl StateBuilder) -> Result<(), StoreError> {
    for load in replay.loads {
        match load {
            Load::State { version, data } => state.load_state(version, data)?,
            Load::Event { version, data } => state.load_event(version, data)?,
        }
    }
    match replay.error {
        Some(error) => Err(error),
        None => Ok(()),
    }
}

#[test]
fn store_lists_what_a_builder_is_handed_in_order() {
    let segment = segment_with(4, &[vec![1], vec![2, 2], vec![3, 3, 3]]);
    assert_eq!(
        EventStore::read_state(&snapshot_file(4, &[8, 9])),
        Ok(Load::State { version: 4, data: vec![8, 9] })
    );
    assert_eq!(EventStore::read_state(&[1, 2, 3]), Err(StoreError::MissingHeader));
    assert_eq!(
        EventStore::apply_events(&segment),
        Ok(vec![
            Load::Event { version: 4, data: vec![1] },
            Load::Event { version: 4, data: vec![2, 2] },
            Load::Event { version: 4, data: vec![3, 3, 3] },
        ])
    );
    assert_eq!(EventStore::apply_events(&segment[..segment.len() - 1]).unwrap().len(), 2);
    assert_eq!(EventStore::apply_events(&segment_header(9)), Ok(vec![]));
    assert_eq!(EventStore::apply_events(&[]), Err(StoreError::MissingHeader));
    assert_eq!(EventStore::get_log_version(&segment), Some(4));
    assert_eq!(EventStore::get_log_version(&segment[..5]), None);

    let later = segment_with(5, &[vec![9]]);
    let replay = EventStore::replay(Some(&snapshot_file(4, &[8, 9])), &vec![segment.clone(), later.clone()]);
    assert_eq!(
        replay,
        Replay {
            loads: vec![
                Load::State { version: 4, data: vec![8, 9] },
                Load::Event { version: 4, data: vec![1] },
                Load::Event { version: 4, data: vec![2, 2] },
                Load::Event { version: 4, data: vec![3, 3, 3] },
                Load::Event { version: 5, data: vec![9] },
            ],
            error: None,
        }
    );
    let headless = EventStore::replay(None, &vec![segment.clone(), vec![1, 2], later.clone()]);
    assert_eq!(headless.loads.len(), 3);
    assert_eq!(headless.error, Some(StoreError::MissingHeader));
    let no_snapshot = EventStore::replay(Some(&vec![7]), &vec![segment.clone()]);
    assert_eq!(no_snapshot, Replay { loads: vec![], error: Some(StoreError::MissingHeader) });
    assert_eq!(EventStore::replay(None, &vec![]), Replay { loads: vec![], error: None });
}

#[test]
fn recording_builder_is_handed_snapshot_then_records() {
    // a store after three events and a snapshot: snapshot 0, the sealed
    // segment 0 and the fresh segment 1
    let snapshot = snapshot_file(1, &[9]);
    let sealed = segment_with(1, &[vec![1], vec![2, 2], vec![3]]);
    let fresh = segment_header(1);
    let snapshots = vec![snapshot_file_name(0)];
    let segments = vec![log_file_name(0), log_file_name(1)];
    let snapshot_index = last_snapshot_index(&snapshots);
    let log_index = last_log_index(&segments);
    assert_eq!(EventStore::replay_range(snapshot_index, log_index), Some((0, 1)));

    let mut recorder = Recorder { calls: vec![], fail_at: None };
    let replay = EventStore::replay(Some(&snapshot), &vec![sealed.clone(), fresh.clone()]);
    assert_eq!(hand_over(replay, &mut recorder), Ok(()));
    assert_eq!(
        recorder.calls,
        vec![(true, 1, vec![9]), (false, 1, vec![1]), (false, 1, vec![2, 2]), (false, 1, vec![3])]
    );
    let (store, op) = EventStore::open(1, log_index, EventStore::get_log_version(&fresh)).unwrap();
    assert_eq!(store.get_log_index(), 1);
    assert_eq!(op, StoreOp::OpenSegment { name: log_file_name(1), header: segment_header(1) });

    let mut failing = Recorder { calls: vec![], fail_at: Some(3) };
    let replay = EventStore::replay(Some(&snapshot), &vec![sealed, fresh]);
    assert_eq!(hand_over(replay, &mut failing), Err(StoreError::Malformed));
    assert_eq!(failing.calls.len(), 3);
}

#[test]
fn storing_observer_hands_out_its_store() {
    let mut observer = StoringObserver::new(vec![1u8]);
    observer.get_store_mut().push(2);
    assert_eq!(observer.get_store_mut(), &mut vec![1u8, 2]);
    let event = observer.new_image(1, 2, 3, LiveTexture::Existing { id: 4 });
    assert_eq!(event, EventV1::NewImage { id: 1, x: 2, y: 3, texture: Texture::Existing { id: 4 } });
    assert_eq!(StoreError::RecordTooLarge.message(), "record too large");
}

//! The bookkeeping of a store: which segment is written to, when a new one
//! is begun, how a snapshot is taken, and what is replayed on opening.
//!
//! A store is a directory with the segments of the log and the snapshots.
//! The files belong to the owner of the store. The store says what is to be
//! done with them, as a list of operations in the order in which they are to
//! be carried out, and is told what was read from them.

use crate::board::common::copy_bytes;
use crate::store::error::StoreError;
use crate::store::names::{
    file_name, log_file_name, log_suffix, snapshot_file_name, snapshot_suffix,
    snapshot_tmp_file_name, tmp_suffix,
};
use crate::store::wal::{
    body_in, file_version, frame_of, lemma_segment_round_trip, lemma_snapshot_round_trip,
    parse_segment, parse_snapshot, records_in, records_view, segment_header, segment_of,
    snapshot_file, snapshot_of, version_in, Wal, HEADER_LEN, PREFIX_LEN,
};
use vstd::bytes::spec_u64_to_le_bytes;
use vstd::prelude::*;

verus! {

/// Builds a state from what a store holds. The owner of the store hands it
/// the loads that `EventStore::replay` lists, one after the other: the
/// payload of the newest snapshot, if there is one, to `load_state`, and then
/// the records of the segments to `load_event`, each with the version of the
/// file that it was read from. The first error ends the replay.
pub trait StateBuilder {
    fn load_state(&mut self, version: u64, data: Vec<u8>) -> Result<(), StoreError>;

    fn load_event(&mut self, version: u64, data: Vec<u8>) -> Result<(), StoreError>;
}

/// What a builder is to be handed: the payload of a snapshot or one record
/// of a segment, with the version of the file that it was read from.
#[derive(Clone, Debug, PartialEq, Eq)]
pub enum Load {
    /// For `load_state`.
    State { version: u64, data: Vec<u8> },
    /// For `load_event`.
    Event { version: u64, data: Vec<u8> },
}

/// A `Load` as a mathematical value.
pub enum LoadView {
    State { version: u64, data: Seq<u8> },
    Event { version: u64, data: Seq<u8> },
}

impl View for Load {
    type V = LoadView;

    open spec fn view(&self) -> LoadView {
        match *self {
            Load::State { version, data } => LoadView::State { version, data: data@ },
            Load::Event { version, data } => LoadView::Event { version, data: data@ },
        }
    }
}

/// The loads of `loads` as mathematical values.
pub open spec fn loads_view(loads: Seq<Load>) -> Seq<LoadView> {
    Seq::new(loads.len(), |i: int| loads[i]@)
}

/// The files of `files` as mathematical values.
pub open spec fn files_view(files: Seq<Vec<u8>>) -> Seq<Seq<u8>> {
    Seq::new(files.len(), |i: int| files[i]@)
}

/// The snapshot file, if there is one, as a mathematical value.
pub open spec fn file_view(file: Option<&Vec<u8>>) -> Option<Seq<u8>> {
    match file {
        Some(bytes) => Some(bytes@),
        None => None,
    }
}

/// What a builder is to be handed for a snapshot file that has a version:
/// its payload.
pub open spec fn snapshot_load(file: Seq<u8>) -> LoadView
    recommends
        version_in(file) is Some,
{
    LoadView::State { version: version_in(file)->0, data: body_in(file) }
}

/// What a builder is to be handed for a segment that has a version: its
/// records, in their order, up to the end or to the first frame that is not
/// whole.
pub open spec fn segment_loads(file: Seq<u8>) -> Seq<LoadView>
    recommends
        version_in(file) is Some,
{
    Seq::new(
        records_in(body_in(file)).len(),
        |i: int| LoadView::Event { version: version_in(file)->0, data: records_in(body_in(file))[i] },
    )
}

/// What a builder is to be handed for segments, one segment after the
/// other, up to the first segment that has no version.
pub open spec fn segments_loads(files: Seq<Seq<u8>>) -> Seq<LoadView>
    decreases files.len(),
{
    if files.len() == 0 || version_in(files.first()) is None {
        Seq::empty()
    } else {
        segment_loads(files.first()) + segments_loads(files.drop_first())
    }
}

/// Whether every segment has a version.
pub open spec fn segments_headed(files: Seq<Seq<u8>>) -> bool {
    forall|i: int| 0 <= i < files.len() ==> version_in(#[trigger] files[i]) is Some
}

/// What a builder is to be handed for what a store holds: the payload of
/// the newest snapshot, if there is one, and then the records of the
/// segments to replay, segment by segment and record by record; all this up
/// to the first file that has no version.
pub open spec fn store_loads(snapshot: Option<Seq<u8>>, segments: Seq<Seq<u8>>) -> Seq<LoadView> {
    match snapshot {
        Some(file) => if version_in(file) is Some {
            seq![snapshot_load(file)] + segments_loads(segments)
        } else {
            Seq::empty()
        },
        None => segments_loads(segments),
    }
}

/// Whether every file has a version.
pub open spec fn store_headed(snapshot: Option<Seq<u8>>, segments: Seq<Seq<u8>>) -> bool {
    &&& snapshot matches Some(file) ==> version_in(file) is Some
    &&& segments_headed(segments)
}

/// What is to be replayed from a store: the loads to hand to a builder, one
/// after the other until the builder answers one with an error, and the
/// error to end with if the builder took all of them.
#[derive(Clone, Debug, PartialEq, Eq)]
pub struct Replay {
    pub loads: Vec<Load>,
    pub error: Option<StoreError>,
}

/// What the owner of the files is to do.
#[derive(Clone, Debug, PartialEq, Eq)]
pub enum StoreOp {
    /// Open the segment of this name for appending. If there is no such file,
    /// create it, write `header` to it and make that durable first.
    OpenSegment { name: String, header: Vec<u8> },
    /// Write out what was appended to the open segment and make it durable.
    FlushSegment,
    /// Create the snapshot file of this name, write `bytes` to it and make
    /// that durable.
    WriteSnapshot { name: String, bytes: Vec<u8> },
    /// Rename the snapshot file `from` to `to`.
    PublishSnapshot { from: String, to: String },
}

/// A `StoreOp` as a mathematical value.
pub enum StoreOpView {
    OpenSegment { name: Seq<char>, header: Seq<u8> },
    FlushSegment,
    WriteSnapshot { name: Seq<char>, bytes: Seq<u8> },
    PublishSnapshot { from: Seq<char>, to: Seq<char> },
}

impl View for StoreOp {
    type V = StoreOpView;

    open spec fn view(&self) -> StoreOpView {
        match *self {
            StoreOp::OpenSegment { name, header } => StoreOpView::OpenSegment {
                name: name@,
                header: header@,
            },
            StoreOp::FlushSegment => StoreOpView::FlushSegment,
            StoreOp::WriteSnapshot { name, bytes } => StoreOpView::WriteSnapshot {
                name: name@,
                bytes: bytes@,
            },
            StoreOp::PublishSnapshot { from, to } => StoreOpView::PublishSnapshot {
                from: from@,
                to: to@,
            },
        }
    }
}

/// The operations of `ops` as mathematical values.
pub open spec fn ops_view(ops: Seq<StoreOp>) -> Seq<StoreOpView> {
    Seq::new(ops.len(), |i: int| ops[i]@)
}

/// The operation that opens segment `index` for records of `version`.
pub open spec fn open_segment(index: u64, version: u64) -> StoreOpView {
    StoreOpView::OpenSegment {
        name: file_name(index, log_suffix()),
        header: spec_u64_to_le_bytes(version),
    }
}

/// The operations that close the segment written to and begin segment
/// `next`.
pub open spec fn rotation(next: u64, version: u64) -> Seq<StoreOpView> {
    seq![StoreOpView::FlushSegment, open_segment(next, version)]
}

/// The operations that take a snapshot while segment `index` is written to:
/// first the segment is closed and the next one begun, so that nothing more
/// is appended to segment `index`; then the snapshot is written under its
/// temporary name; then it is given its own name.
pub open spec fn snapshot_ops(index: u64, version: u64, payload: Seq<u8>) -> Seq<StoreOpView> {
    rotation((index + 1) as u64, version) + seq![
        StoreOpView::WriteSnapshot {
            name: file_name(index, snapshot_suffix()) + tmp_suffix(),
            bytes: snapshot_of(version, payload),
        },
        StoreOpView::PublishSnapshot {
            from: file_name(index, snapshot_suffix()) + tmp_suffix(),
            to: file_name(index, snapshot_suffix()),
        },
    ]
}

/// The segments to replay on opening, as the first and the last of their
/// numbers: from the segment of the newest snapshot, or from segment 0
/// without a snapshot, through the newest segment. Without a segment nothing
/// is replayed. The first may lie after the last: then, too, nothing is
/// replayed.
pub open spec fn replayed_segments(snapshot_index: Option<u64>, log_index: Option<u64>) -> Option<
    (u64, u64),
> {
    match log_index {
        Some(last) => Some(
            (
                match snapshot_index {
                    Some(first) => first,
                    None => 0,
                },
                last,
            ),
        ),
        None => None,
    }
}

/// The segment to write to after opening: the newest one, if its records
/// have the version that is written now; else the one after it; segment 0 if
/// there is none.
pub open spec fn writable_segment(log_index: Option<u64>, log_version: Option<u64>, current_version: u64) -> Result<
    u64,
    StoreError,
> {
    match log_index {
        Some(index) => match log_version {
            Some(version) => if version == current_version {
                Ok(index)
            } else if index < u64::MAX {
                Ok((index + 1) as u64)
            } else {
                Err(StoreError::IndexExhausted)
            },
            None => Err(StoreError::MissingHeader),
        },
        None => Ok(0),
    }
}

/// The state of a store: the number of the segment that is written to, the
/// version of what is written, and the size of that segment in bytes.
pub struct EventStoreView {
    pub log_index: u64,
    pub version: u64,
    pub size: u64,
}

/// The bookkeeping of a store.
pub struct EventStore {
    wal: Wal,
    log_index: u64,
    version: u64,
}

impl View for EventStore {
    type V = EventStoreView;

    closed spec fn view(&self) -> EventStoreView {
        EventStoreView { log_index: self.log_index, version: self.version, size: self.wal.size() }
    }
}

/// The operation that opens segment `index` for records of `version`.
fn open_segment_op(index: u64, version: u64) -> (op: StoreOp)
    ensures
        op@ == open_segment(index, version),
{
    StoreOp::OpenSegment { name: log_file_name(index), header: segment_header(version) }
}

/// What was written is what a builder is to be handed: for a segment that
/// was written whole, its records, each with the version of the segment, in
/// the order in which they were written; for a snapshot file, its payload
/// with its version.
pub proof fn lemma_written_loads(version: u64, records: Seq<Seq<u8>>, payload: Seq<u8>)
    requires
        forall|i: int| 0 <= i < records.len() ==> (#[trigger] records[i]).len() <= u32::MAX,
    ensures
        version_in(segment_of(version, records)) == Some(version),
        segment_loads(segment_of(version, records)) == Seq::new(
            records.len(),
            |i: int| LoadView::Event { version, data: records[i] },
        ),
        version_in(snapshot_of(version, payload)) == Some(version),
        snapshot_load(snapshot_of(version, payload)) == (LoadView::State { version, data: payload }),
{
    lemma_segment_round_trip(version, records);
    lemma_snapshot_round_trip(version, payload);
    assert(segment_loads(segment_of(version, records)) =~= Seq::new(
        records.len(),
        |i: int| LoadView::Event { version, data: records[i] },
    ));
}

impl EventStore {
    /// The segments to replay on opening; see `replayed_segments`.
    pub fn replay_range(snapshot_index: Option<u64>, log_index: Option<u64>) -> (range: Option<(u64, u64)>)
        ensures
            range == replayed_segments(snapshot_index, log_index),
    {
        match log_index {
            Some(last) => Some(
                (
                    match snapshot_index {
                        Some(first) => first,
                        None => 0,
                    },
                    last,
                ),
            ),
            None => None,
        }
    }

    /// What a builder is to be handed for a snapshot file: its payload, with
    /// the version at the head of the file. A file too short to hold a
    /// version is answered with `MissingHeader`.
    pub fn read_state(bytes: &[u8]) -> (load: Result<Load, StoreError>)
        ensures
            match load {
                Ok(load) => version_in(bytes@) is Some && load@ == snapshot_load(bytes@),
                Err(error) => version_in(bytes@) is None && error == StoreError::MissingHeader,
            },
    {
        match parse_snapshot(bytes) {
            Some(snapshot) => Ok(Load::State { version: snapshot.version, data: snapshot.payload }),
            None => Err(StoreError::MissingHeader),
        }
    }

    /// What a builder is to be handed for a segment: its records, one by
    /// one in their order, each with the version at the head of the segment.
    /// A segment that is cut off in a frame ends before that frame. A file
    /// too short to hold a version is answered with `MissingHeader`.
    pub fn apply_events(bytes: &[u8]) -> (loads: Result<Vec<Load>, StoreError>)
        ensures
            match loads {
                Ok(loads) => version_in(bytes@) is Some && loads_view(loads@) == segment_loads(
                    bytes@,
                ),
                Err(error) => version_in(bytes@) is None && error == StoreError::MissingHeader,
            },
    {
        let segment = match parse_segment(bytes) {
            Some(segment) => segment,
            None => {
                return Err(StoreError::MissingHeader);
            },
        };
        let mut loads: Vec<Load> = Vec::new();
        let mut i: usize = 0;
        while i < segment.records.len()
            invariant
                i <= segment.records@.len(),
                version_in(bytes@) == Some(segment.version),
                records_view(segment.records@) == records_in(body_in(bytes@)),
                loads@.len() == i,
                forall|j: int| 0 <= j < i ==> (#[trigger] loads@[j])@ == segment_loads(bytes@)[j],
            decreases segment.records.len() - i,
        {
            let data = copy_bytes(&segment.records[i]);
            assert(records_view(segment.records@)[i as int] == data@);
            loads.push(Load::Event { version: segment.version, data });
            i = i + 1;
        }
        assert(loads_view(loads@) =~= segment_loads(bytes@));
        Ok(loads)
    }

    /// What is to be replayed from what a store holds: the payload of the
    /// newest snapshot, if there is one, and then the records of the segments
    /// to replay, segment by segment in the order given and record by
    /// record. Nothing follows a file that is too short to hold a version;
    /// the replay then ends with `MissingHeader`.
    pub fn replay(snapshot: Option<&Vec<u8>>, segments: &Vec<Vec<u8>>) -> (replay: Replay)
        ensures
            loads_view(replay.loads@) == store_loads(file_view(snapshot), files_view(segments@)),
            replay.error == (if store_headed(file_view(snapshot), files_view(segments@)) {
                None
            } else {
                Some(StoreError::MissingHeader)
            }),
    {
        let ghost files = files_view(segments@);
        let mut loads: Vec<Load> = Vec::new();
        match snapshot {
            Some(file) => match Self::read_state(file.as_slice()) {
                Ok(load) => {
                    loads.push(load);
                },
                Err(error) => {
                    assert(loads_view(loads@) =~= store_loads(file_view(snapshot), files));
                    return Replay { loads, error: Some(error) };
                },
            },
            None => {},
        }
        let ghost head = loads_view(loads@);
        assert(head =~= (match snapshot {
            Some(file) => seq![snapshot_load(file@)],
            None => Seq::<LoadView>::empty(),
        }));
        assert(files.skip(0) =~= files);
        assert(head + Seq::<LoadView>::empty() =~= head);
        let ghost mut done: Seq<LoadView> = Seq::empty();
        let mut i: usize = 0;
        while i < segments.len()
            invariant
                i <= segments@.len(),
                files == files_view(segments@),
                snapshot matches Some(file) ==> version_in(file@) is Some,
                head == (match snapshot {
                    Some(file) => seq![snapshot_load(file@)],
                    None => Seq::<LoadView>::empty(),
                }),
                loads_view(loads@) == head + done,
                segments_loads(files) == done + segments_loads(files.skip(i as int)),
                forall|j: int| 0 <= j < i ==> version_in(#[trigger] files[j]) is Some,
            decreases segments.len() - i,
        {
            let ghost left = files.skip(i as int);
            proof {
                assert(left.first() == segments@[i as int]@);
                assert(left.drop_first() =~= files.skip(i + 1));
            }
            match Self::apply_events(segments[i].as_slice()) {
                Ok(more) => {
                    let ghost before = loads@;
                    let ghost added = loads_view(more@);
                    let mut more = more;
                    loads.append(&mut more);
                    proof {
                        assert(loads_view(loads@) =~= loads_view(before) + added);
                        assert(done + (added + segments_loads(files.skip(i + 1))) =~= (done + added)
                            + segments_loads(files.skip(i + 1)));
                        assert(head + (done + added) =~= (head + done) + added);
                        done = done + added;
                    }
                },
                Err(error) => {
                    proof {
                        assert(segments_loads(left) =~= Seq::<LoadView>::empty());
                        assert(done + Seq::<LoadView>::empty() =~= done);
                        assert(store_loads(file_view(snapshot), files) =~= head + done);
                        assert(!segments_headed(files));
                    }
                    return Replay { loads, error: Some(error) };
                },
            }
            i = i + 1;
        }
        proof {
            assert(files.skip(files.len() as int) =~= Seq::<Seq<u8>>::empty());
            assert(done + Seq::<LoadView>::empty() =~= done);
            assert(store_loads(file_view(snapshot), files) =~= head + done);
            assert(segments_headed(files));
        }
        Replay { loads, error: None }
    }

    /// The version at the head of a segment, if the segment is long enough
    /// to have one.
    pub fn get_log_version(bytes: &[u8]) -> (version: Option<u64>)
        ensures
            version == version_in(bytes@),
    {
        file_version(bytes)
    }

    /// Opens the store for writing, after what it holds has been replayed.
    ///
    /// `log_index` is the number of the newest segment, if there is a
    /// segment, and `log_version` the version at its head. The store writes
    /// to the segment that `writable_segment` names, and the operation
    /// returned opens it. The size of the segment is taken to be that of a
    /// new one; `segment_opened` corrects it.
    pub fn open(current_version: u64, log_index: Option<u64>, log_version: Option<u64>) -> (opened: Result<
        (EventStore, StoreOp),
        StoreError,
    >)
        ensures
            match opened {
                Ok((store, op)) => {
                    &&& writable_segment(log_index, log_version, current_version) == Ok::<
                        u64,
                        StoreError,
                    >(store@.log_index)
                    &&& store@.version == current_version
                    &&& store@.size == HEADER_LEN
                    &&& op@ == open_segment(store@.log_index, current_version)
                },
                Err(error) => writable_segment(log_index, log_version, current_version) == Err::<
                    u64,
                    StoreError,
                >(error),
            },
    {
        let index = match log_index {
            Some(index) => match log_version {
                Some(version) => {
                    if version == current_version {
                        index
                    } else if index < u64::MAX {
                        index + 1
                    } else {
                        return Err(StoreError::IndexExhausted);
                    }
                },
                None => {
                    return Err(StoreError::MissingHeader);
                },
            },
            None => 0,
        };
        let store = EventStore {
            wal: Wal::open(HEADER_LEN as u64),
            log_index: index,
            version: current_version,
        };
        Ok((store, open_segment_op(index, current_version)))
    }

    /// Tells the store the size of the segment that was opened last.
    pub fn segment_opened(&mut self, size: u64)
        ensures
            final(self)@ == (EventStoreView { size, ..old(self)@ }),
    {
        self.wal = Wal::open(size);
    }

    /// The operation that makes durable what was appended.
    pub fn flush(&self) -> (op: StoreOp)
        ensures
            op@ == StoreOpView::FlushSegment,
    {
        StoreOp::FlushSegment
    }

    /// The bytes to append to the open segment for a record: its frame.
    /// A record too long for a frame, or for the count of the segment's
    /// bytes, is refused and changes nothing.
    pub fn append(&mut self, event: &[u8]) -> (framed: Result<Vec<u8>, StoreError>)
        ensures
            match framed {
                Ok(bytes) => {
                    &&& event@.len() <= u32::MAX
                    &&& bytes@ == frame_of(event@)
                    &&& final(self)@ == (EventStoreView {
                        size: (old(self)@.size + event@.len() + PREFIX_LEN) as u64,
                        ..old(self)@
                    })
                },
                Err(error) => {
                    &&& final(self)@ == old(self)@
                    &&& error == (if event@.len() > u32::MAX {
                        StoreError::RecordTooLarge
                    } else {
                        StoreError::SegmentFull
                    })
                    &&& event@.len() > u32::MAX || old(self)@.size + event@.len() + PREFIX_LEN
                        > u64::MAX
                },
            },
    {
        self.wal.append(event)
    }

    /// Closes the segment that is written to and begins the next one. With
    /// the segment numbers used up nothing changes.
    pub fn next_log(&mut self) -> (ops: Result<Vec<StoreOp>, StoreError>)
        ensures
            match ops {
                Ok(ops) => {
                    &&& old(self)@.log_index < u64::MAX
                    &&& ops_view(ops@) == rotation(final(self)@.log_index, old(self)@.version)
                    &&& final(self)@ == (EventStoreView {
                        log_index: (old(self)@.log_index + 1) as u64,
                        size: HEADER_LEN as u64,
                        ..old(self)@
                    })
                },
                Err(error) => {
                    &&& error == StoreError::IndexExhausted
                    &&& old(self)@.log_index == u64::MAX
                    &&& final(self)@ == old(self)@
                },
            },
    {
        if self.log_index == u64::MAX {
            return Err(StoreError::IndexExhausted);
        }
        self.log_index = self.log_index + 1;
        self.wal = Wal::open(HEADER_LEN as u64);
        let mut ops: Vec<StoreOp> = Vec::new();
        ops.push(StoreOp::FlushSegment);
        ops.push(open_segment_op(self.log_index, self.version));
        assert(ops_view(ops@) =~= rotation(self@.log_index, old(self)@.version));
        Ok(ops)
    }

    /// Takes a snapshot with the given payload.
    ///
    /// The snapshot is named by the segment that is written to when it is
    /// taken. That segment is closed first and the next one begun; then the
    /// snapshot is written, under a temporary name, and at last given its
    /// own name: see `snapshot_ops`. With the segment numbers used up
    /// nothing is done.
    pub fn snapshot(&mut self, data: &[u8]) -> (ops: Result<Vec<StoreOp>, StoreError>)
        ensures
            match ops {
                Ok(ops) => {
                    &&& old(self)@.log_index < u64::MAX
                    &&& ops_view(ops@) == snapshot_ops(
                        old(self)@.log_index,
                        old(self)@.version,
                        data@,
                    )
                    &&& final(self)@ == (EventStoreView {
                        log_index: (old(self)@.log_index + 1) as u64,
                        size: HEADER_LEN as u64,
                        ..old(self)@
                    })
                },
                Err(error) => {
                    &&& error == StoreError::IndexExhausted
                    &&& old(self)@.log_index == u64::MAX
                    &&& final(self)@ == old(self)@
                },
            },
    {
        let snapshot_index = self.log_index;
        let mut ops = match self.next_log() {
            Ok(ops) => ops,
            Err(error) => {
                return Err(error);
            },
        };
        let ghost rotate = ops@;
        ops.push(
            StoreOp::WriteSnapshot {
                name: snapshot_tmp_file_name(snapshot_index),
                bytes: snapshot_file(self.version, data),
            },
        );
        ops.push(
            StoreOp::PublishSnapshot {
                from: snapshot_tmp_file_name(snapshot_index),
                to: snapshot_file_name(snapshot_index),
            },
        );
        proof {
            let expected = snapshot_ops(old(self)@.log_index, old(self)@.version, data@);
            assert(ops_view(ops@).len() == expected.len());
            assert forall|i: int| 0 <= i < expected.len() implies ops_view(ops@)[i] == expected[i] by {
                if i < 2 {
                    assert(ops@[i] == rotate[i]);
                    assert(ops_view(rotate)[i] == rotation(
                        self@.log_index,
                        old(self)@.version,
                    )[i]);
                }
            }
            assert(ops_view(ops@) =~= expected);
        }
        Ok(ops)
    }

    /// The size in bytes of the segment that is written to.
    pub fn get_current_log_size(&self) -> (size: u64)
        ensures
            size == self@.size,
    {
        self.wal.get_size()
    }

    /// The number of the segment that is written to.
    pub fn get_log_index(&self) -> (index: u64)
        ensures
            index == self@.log_index,
    {
        self.log_index
    }
}

} // verus!

//! The layout of a log segment and of a snapshot file.
//!
//! A segment is the version of its records, as eight bytes with the least
//! significant first, followed by any number of frames. A frame is the
//! length of a record, as four bytes with the least significant first,
//! followed by the record. A segment that was cut off in the middle of a
//! frame is read up to that frame. A snapshot file is the version of its
//! payload, as eight bytes, followed by the payload.

use crate::store::error::StoreError;
use vstd::bytes::{
    lemma_auto_spec_u32_to_from_le_bytes, lemma_auto_spec_u64_to_from_le_bytes,
    spec_u32_from_le_bytes, spec_u32_to_le_bytes, spec_u64_from_le_bytes, spec_u64_to_le_bytes,
    u32_from_le_bytes, u32_to_le_bytes, u64_from_le_bytes, u64_to_le_bytes,
};
use vstd::prelude::*;
use vstd::slice::slice_subrange;

verus! {

/// Number of bytes of the version at the head of a file.
pub const HEADER_LEN: usize = 8;

/// Number of bytes of the length in front of a record.
pub const PREFIX_LEN: usize = 4;

/// The frame of a record that is no longer than `u32::MAX` bytes.
pub open spec fn frame_of(record: Seq<u8>) -> Seq<u8> {
    spec_u32_to_le_bytes(record.len() as u32) + record
}

/// The frames of the records, one after the other.
pub open spec fn frames_of(records: Seq<Seq<u8>>) -> Seq<u8>
    decreases records.len(),
{
    if records.len() == 0 {
        Seq::empty()
    } else {
        frame_of(records.first()) + frames_of(records.drop_first())
    }
}

/// A whole segment.
pub open spec fn segment_of(version: u64, records: Seq<Seq<u8>>) -> Seq<u8> {
    spec_u64_to_le_bytes(version) + frames_of(records)
}

/// A whole snapshot file.
pub open spec fn snapshot_of(version: u64, payload: Seq<u8>) -> Seq<u8> {
    spec_u64_to_le_bytes(version) + payload
}

/// The records that the frames in `body` hold, up to the end of `body` or to
/// the first frame that is not whole.
pub open spec fn records_in(body: Seq<u8>) -> Seq<Seq<u8>>
    decreases body.len(),
{
    if body.len() < PREFIX_LEN {
        Seq::empty()
    } else {
        let len = spec_u32_from_le_bytes(body.subrange(0, PREFIX_LEN as int)) as int;
        if body.len() - PREFIX_LEN < len {
            Seq::empty()
        } else {
            seq![body.subrange(PREFIX_LEN as int, PREFIX_LEN + len)] + records_in(
                body.subrange(PREFIX_LEN + len, body.len() as int),
            )
        }
    }
}

/// The version at the head of a file, if the file is long enough to have
/// one.
pub open spec fn version_in(bytes: Seq<u8>) -> Option<u64> {
    if bytes.len() < HEADER_LEN {
        None
    } else {
        Some(spec_u64_from_le_bytes(bytes.subrange(0, HEADER_LEN as int)))
    }
}

/// What follows the version in a file that has one.
pub open spec fn body_in(bytes: Seq<u8>) -> Seq<u8> {
    bytes.subrange(HEADER_LEN as int, bytes.len() as int)
}

/// The records of `records` as mathematical values.
pub open spec fn records_view(records: Seq<Vec<u8>>) -> Seq<Seq<u8>> {
    Seq::new(records.len(), |i: int| records[i]@)
}

/// What was read from a segment.
#[derive(Clone, Debug, PartialEq, Eq)]
pub struct Segment {
    pub version: u64,
    pub records: Vec<Vec<u8>>,
}

/// What was read from a snapshot file.
#[derive(Clone, Debug, PartialEq, Eq)]
pub struct Snapshot {
    pub version: u64,
    pub payload: Vec<u8>,
}

/// The bytes `from..to` of `bytes`, copied.
fn copy_range(bytes: &[u8], from: usize, to: usize) -> (copy: Vec<u8>)
    requires
        from <= to <= bytes@.len(),
    ensures
        copy@ == bytes@.subrange(from as int, to as int),
{
    let mut copy: Vec<u8> = Vec::with_capacity(to - from);
    let mut i: usize = from;
    while i < to
        invariant
            from <= i <= to <= bytes@.len(),
            copy@ == bytes@.subrange(from as int, i as int),
        decreases to - i,
    {
        copy.push(bytes[i]);
        assert(copy@ =~= bytes@.subrange(from as int, i + 1));
        i = i + 1;
    }
    copy
}

/// Appends `tail` to `bytes`.
fn extend(bytes: &mut Vec<u8>, tail: &[u8])
    ensures
        final(bytes)@ == old(bytes)@ + tail@,
{
    let mut i: usize = 0;
    while i < tail.len()
        invariant
            i <= tail@.len(),
            bytes@ == old(bytes)@ + tail@.subrange(0, i as int),
        decreases tail.len() - i,
    {
        bytes.push(tail[i]);
        assert(bytes@ =~= old(bytes)@ + tail@.subrange(0, i + 1));
        i = i + 1;
    }
    assert(tail@.subrange(0, tail@.len() as int) =~= tail@);
}

/// The head of a file whose contents have the given version.
pub fn segment_header(version: u64) -> (header: Vec<u8>)
    ensures
        header@ == spec_u64_to_le_bytes(version),
        header@.len() == HEADER_LEN,
{
    u64_to_le_bytes(version)
}

/// The frame of a record, or `None` for a record whose length does not fit
/// the four bytes in front of it.
pub fn frame(record: &[u8]) -> (framed: Option<Vec<u8>>)
    ensures
        match framed {
            Some(bytes) => record@.len() <= u32::MAX && bytes@ == frame_of(record@),
            None => record@.len() > u32::MAX,
        },
{
    if record.len() > u32::MAX as usize {
        return None;
    }
    let mut framed = u32_to_le_bytes(record.len() as u32);
    extend(&mut framed, record);
    Some(framed)
}

/// The contents of a snapshot file.
pub fn snapshot_file(version: u64, payload: &[u8]) -> (bytes: Vec<u8>)
    ensures
        bytes@ == snapshot_of(version, payload@),
{
    let mut bytes = u64_to_le_bytes(version);
    extend(&mut bytes, payload);
    bytes
}

/// The version at the head of a file, if the file is long enough to have
/// one.
pub fn file_version(bytes: &[u8]) -> (version: Option<u64>)
    ensures
        version == version_in(bytes@),
{
    if bytes.len() < HEADER_LEN {
        None
    } else {
        Some(u64_from_le_bytes(slice_subrange(bytes, 0, HEADER_LEN)))
    }
}

/// Reads a snapshot file: `None` when it is too short to hold a version.
pub fn parse_snapshot(bytes: &[u8]) -> (snapshot: Option<Snapshot>)
    ensures
        match snapshot {
            Some(s) => version_in(bytes@) == Some(s.version) && s.payload@ == body_in(bytes@),
            None => version_in(bytes@) is None,
        },
{
    if bytes.len() < HEADER_LEN {
        return None;
    }
    let version = u64_from_le_bytes(slice_subrange(bytes, 0, HEADER_LEN));
    Some(Snapshot { version, payload: copy_range(bytes, HEADER_LEN, bytes.len()) })
}

/// Reads a segment: `None` when it is too short to hold a version, else the
/// version and the records of all frames up to the end or to the first frame
/// that is not whole.
pub fn parse_segment(bytes: &[u8]) -> (segment: Option<Segment>)
    ensures
        match segment {
            Some(s) => version_in(bytes@) == Some(s.version) && records_view(s.records@)
                == records_in(body_in(bytes@)),
            None => version_in(bytes@) is None,
        },
{
    if bytes.len() < HEADER_LEN {
        return None;
    }
    let version = u64_from_le_bytes(slice_subrange(bytes, 0, HEADER_LEN));
    let mut records: Vec<Vec<u8>> = Vec::new();
    let mut at: usize = HEADER_LEN;
    let ghost body = body_in(bytes@);
    loop
        invariant
            HEADER_LEN <= at <= bytes@.len(),
            body == body_in(bytes@),
            records_in(body) == records_view(records@) + records_in(
                bytes@.subrange(at as int, bytes@.len() as int),
            ),
        ensures
            records_view(records@) == records_in(body),
        decreases bytes@.len() - at,
    {
        let ghost rest = bytes@.subrange(at as int, bytes@.len() as int);
        if bytes.len() - at < PREFIX_LEN {
            assert(records_view(records@) + Seq::<Seq<u8>>::empty() =~= records_view(records@));
            break;
        }
        let len = u32_from_le_bytes(slice_subrange(bytes, at, at + PREFIX_LEN)) as usize;
        assert(bytes@.subrange(at as int, at + PREFIX_LEN) =~= rest.subrange(0, PREFIX_LEN as int));
        if bytes.len() - at - PREFIX_LEN < len {
            assert(records_view(records@) + Seq::<Seq<u8>>::empty() =~= records_view(records@));
            break;
        }
        let record = copy_range(bytes, at + PREFIX_LEN, at + PREFIX_LEN + len);
        proof {
            assert(record@ =~= rest.subrange(PREFIX_LEN as int, PREFIX_LEN + len));
            assert(bytes@.subrange(at + PREFIX_LEN + len, bytes@.len() as int) =~= rest.subrange(
                PREFIX_LEN + len,
                rest.len() as int,
            ));
            assert(records_view(records@.push(record)) =~= records_view(records@) + seq![record@]);
        }
        records.push(record);
        at = at + PREFIX_LEN + len;
    }
    Some(Segment { version, records })
}

/// The count of the bytes of the segment that is written to. The file itself
/// is its owner's.
pub struct Wal {
    size: u64,
}

impl Wal {
    pub closed spec fn size(&self) -> u64 {
        self.size
    }

    /// The count for a segment that holds `size` bytes so far, its head
    /// included.
    pub fn open(size: u64) -> (wal: Wal)
        ensures
            wal.size() == size,
    {
        Wal { size }
    }

    /// The bytes to write for a record, which are its frame; they are
    /// counted. Nothing is counted for a record that is too long for a frame
    /// or for the count.
    pub fn append(&mut self, event: &[u8]) -> (framed: Result<Vec<u8>, StoreError>)
        ensures
            match framed {
                Ok(bytes) => {
                    &&& event@.len() <= u32::MAX
                    &&& bytes@ == frame_of(event@)
                    &&& final(self).size() == old(self).size() + event@.len() + PREFIX_LEN
                },
                Err(error) => {
                    &&& final(self).size() == old(self).size()
                    &&& error == (if event@.len() > u32::MAX {
                        StoreError::RecordTooLarge
                    } else {
                        StoreError::SegmentFull
                    })
                    &&& event@.len() > u32::MAX || old(self).size() + event@.len() + PREFIX_LEN
                        > u64::MAX
                },
            },
    {
        match frame(event) {
            Some(bytes) => {
                let grow: u64 = event.len() as u64 + PREFIX_LEN as u64;
                if self.size > u64::MAX - grow {
                    return Err(StoreError::SegmentFull);
                }
                self.size = self.size + grow;
                Ok(bytes)
            },
            None => Err(StoreError::RecordTooLarge),
        }
    }

    /// The number of bytes of the segment, its head included.
    pub fn get_size(&self) -> (size: u64)
        ensures
            size == self.size(),
    {
        self.size
    }
}

/// The frames of records that are followed by one more record are the frames
/// of the records followed by the frame of that record.
pub proof fn lemma_frames_of_push(records: Seq<Seq<u8>>, record: Seq<u8>)
    ensures
        frames_of(records.push(record)) == frames_of(records) + frame_of(record),
    decreases records.len(),
{
    if records.len() == 0 {
        let one = records.push(record);
        assert(one.first() == record);
        assert(one.drop_first() =~= Seq::<Seq<u8>>::empty());
        assert(frames_of(one.drop_first()) =~= Seq::<u8>::empty());
        assert(frames_of(one) =~= frame_of(record) + frames_of(one.drop_first()));
        assert(frames_of(records.push(record)) =~= frames_of(records) + frame_of(record));
    } else {
        lemma_frames_of_push(records.drop_first(), record);
        assert(records.push(record).drop_first() =~= records.drop_first().push(record));
        assert(frames_of(records.push(record)) =~= frames_of(records) + frame_of(record));
    }
}

/// What is written comes back: the records read from their frames, with or
/// without a cut-off frame after them, are the records themselves.
pub proof fn lemma_frames_round_trip(records: Seq<Seq<u8>>, cut: Seq<u8>, whole: Seq<u8>)
    requires
        forall|i: int| 0 <= i < records.len() ==> (#[trigger] records[i]).len() <= u32::MAX,
        whole.len() <= u32::MAX,
        cut.len() < frame_of(whole).len(),
        cut == frame_of(whole).subrange(0, cut.len() as int),
    ensures
        records_in(frames_of(records) + cut) == records,
    decreases records.len(),
{
    lemma_auto_spec_u32_to_from_le_bytes();
    if records.len() == 0 {
        assert(frames_of(records) + cut =~= cut);
        if cut.len() >= PREFIX_LEN {
            assert(cut.subrange(0, PREFIX_LEN as int) =~= spec_u32_to_le_bytes(whole.len() as u32));
        }
        assert(records_in(cut) =~= records);
    } else {
        let first = records.first();
        let rest = records.drop_first();
        let body = frames_of(records) + cut;
        assert(body =~= frame_of(first) + (frames_of(rest) + cut));
        assert(body.subrange(0, PREFIX_LEN as int) =~= spec_u32_to_le_bytes(first.len() as u32));
        assert(body.subrange(PREFIX_LEN as int, PREFIX_LEN + first.len()) =~= first);
        assert(body.subrange(PREFIX_LEN + first.len(), body.len() as int) =~= frames_of(rest) + cut);
        lemma_frames_round_trip(rest, cut, whole);
        assert(records_in(body) =~= records);
    }
}

/// A segment that was written whole is read whole: its version and its
/// records come back.
pub proof fn lemma_segment_round_trip(version: u64, records: Seq<Seq<u8>>)
    requires
        forall|i: int| 0 <= i < records.len() ==> (#[trigger] records[i]).len() <= u32::MAX,
    ensures
        version_in(segment_of(version, records)) == Some(version),
        records_in(body_in(segment_of(version, records))) == records,
{
    lemma_auto_spec_u64_to_from_le_bytes();
    let bytes = segment_of(version, records);
    assert(bytes.subrange(0, HEADER_LEN as int) =~= spec_u64_to_le_bytes(version));
    assert(body_in(bytes) =~= frames_of(records) + Seq::<u8>::empty());
    lemma_auto_spec_u32_to_from_le_bytes();
    assert(frame_of(Seq::empty()).len() == PREFIX_LEN);
    assert(Seq::<u8>::empty() =~= frame_of(Seq::empty()).subrange(0, 0));
    lemma_frames_round_trip(records, Seq::empty(), Seq::empty());
}

/// A segment whose last frame was cut off is read up to that frame.
pub proof fn lemma_cut_segment(version: u64, records: Seq<Seq<u8>>, last: Seq<u8>, keep: int)
    requires
        forall|i: int| 0 <= i < records.len() ==> (#[trigger] records[i]).len() <= u32::MAX,
        last.len() <= u32::MAX,
        0 <= keep < frame_of(last).len(),
    ensures
        version_in(segment_of(version, records) + frame_of(last).subrange(0, keep)) == Some(version),
        records_in(body_in(segment_of(version, records) + frame_of(last).subrange(0, keep)))
            == records,
{
    lemma_auto_spec_u64_to_from_le_bytes();
    let cut = frame_of(last).subrange(0, keep);
    let bytes = segment_of(version, records) + cut;
    assert(bytes.subrange(0, HEADER_LEN as int) =~= spec_u64_to_le_bytes(version));
    assert(body_in(bytes) =~= frames_of(records) + cut);
    lemma_frames_round_trip(records, cut, last);
}

/// A snapshot file is read as it was written.
pub proof fn lemma_snapshot_round_trip(version: u64, payload: Seq<u8>)
    ensures
        version_in(snapshot_of(version, payload)) == Some(version),
        body_in(snapshot_of(version, payload)) == payload,
{
    lemma_auto_spec_u64_to_from_le_bytes();
    let bytes = snapshot_of(version, payload);
    assert(bytes.subrange(0, HEADER_LEN as int) =~= spec_u64_to_le_bytes(version));
    assert(body_in(bytes) =~= payload);
}

} // verus!

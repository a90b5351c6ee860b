//! The manifest: where the last checkpoint lies and what state the store was left in.
use crate::coding;
use crate::coding::{checksum, read_u32_le, write_u32_le, write_u64_le, ByteReader};
use crate::error::Error;
use crate::transaction::Timestamp;
use crate::wal::segment::LogPointer;
use vstd::prelude::*;
use vstd::slice::slice_subrange;

verus! {

/// What a store is doing.
#[derive(Clone, Copy, Debug, PartialEq, Eq, Structural)]
pub enum DbState {
    Shutdowned,
    Shutdowning,
    InCrashRecovery,
    InProduction,
}

impl DbState {
    /// The number of a state.
    pub open spec fn number(self) -> nat {
        match self {
            DbState::Shutdowned => 0,
            DbState::Shutdowning => 1,
            DbState::InCrashRecovery => 2,
            DbState::InProduction => 3,
        }
    }

    /// The state with a number.
    pub open spec fn of(n: nat) -> DbState {
        if n == 0 {
            DbState::Shutdowned
        } else if n == 1 {
            DbState::Shutdowning
        } else if n == 2 {
            DbState::InCrashRecovery
        } else {
            DbState::InProduction
        }
    }

    fn to_number(self) -> (r: u32)
        ensures
            r == self.number(),
    {
        match self {
            DbState::Shutdowned => 0,
            DbState::Shutdowning => 1,
            DbState::InCrashRecovery => 2,
            DbState::InProduction => 3,
        }
    }
}

/// A point in time: seconds and nanoseconds since the epoch.
#[derive(Clone, Copy, Debug, PartialEq, Eq, Structural)]
pub struct ManifestTime {
    pub secs: u64,
    pub nanos: u32,
}

/// What the manifest file says.
#[derive(Clone, Copy, Debug, PartialEq, Eq, Structural)]
pub struct Manifest {
    pub db_state: DbState,
    pub last_checkpoint_pos: LogPointer,
    pub prev_checkpoint_pos: LogPointer,
    pub min_xip: Timestamp,
    pub time: ManifestTime,
}

/// The manifest of a new store.
pub open spec fn initial_manifest(now: ManifestTime) -> Manifest {
    Manifest {
        db_state: DbState::Shutdowned,
        last_checkpoint_pos: 0,
        prev_checkpoint_pos: 0,
        min_xip: Timestamp(0),
        time: now,
    }
}

impl Manifest {
    /// The manifest of a new store.
    pub fn new(now: ManifestTime) -> (r: Self)
        ensures
            r == initial_manifest(now),
    {
        Self {
            db_state: DbState::Shutdowned,
            last_checkpoint_pos: 0,
            prev_checkpoint_pos: 0,
            min_xip: Timestamp::default(),
            time: now,
        }
    }

    pub fn db_state(&self) -> (r: DbState)
        ensures
            r == self.db_state,
    {
        self.db_state
    }

    pub fn last_checkpoint_pos(&self) -> (r: LogPointer)
        ensures
            r == self.last_checkpoint_pos,
    {
        self.last_checkpoint_pos
    }
}

/// A manifest without its checksum.
pub open spec fn manifest_body(m: Manifest) -> Seq<u8> {
    coding::le_bytes(m.db_state.number(), 4) + (coding::le_bytes(m.last_checkpoint_pos as nat, 8)
        + (coding::le_bytes(m.prev_checkpoint_pos as nat, 8) + (coding::le_bytes(
        m.min_xip.0 as nat,
        8,
    ) + (coding::le_bytes(m.time.secs as nat, 8) + coding::le_bytes(m.time.nanos as nat, 4)))))
}

/// The bytes of a manifest.
pub open spec fn manifest_bytes(m: Manifest) -> Seq<u8> {
    let body = manifest_body(m);
    body + coding::le_bytes(coding::crc32(body) as nat, 4)
}

/// The manifest that bytes without checksum hold.
pub open spec fn take_manifest(s: Seq<u8>) -> Option<Manifest> {
    match coding::take_number(s, 4) {
        None => None,
        Some((state, s1)) => if state > 3 {
            None
        } else {
            match coding::take_number(s1, 8) {
                None => None,
                Some((last, s2)) => match coding::take_number(s2, 8) {
                    None => None,
                    Some((prev, s3)) => match coding::take_number(s3, 8) {
                        None => None,
                        Some((min_xip, s4)) => match coding::take_number(s4, 8) {
                            None => None,
                            Some((secs, s5)) => match coding::take_number(s5, 4) {
                                None => None,
                                Some((nanos, _)) => Some(
                                    Manifest {
                                        db_state: DbState::of(state),
                                        last_checkpoint_pos: last as u64,
                                        prev_checkpoint_pos: prev as u64,
                                        min_xip: Timestamp(min_xip as u64),
                                        time: ManifestTime { secs: secs as u64, nanos: nanos as u32 },
                                    },
                                ),
                            },
                        },
                    },
                },
            }
        },
    }
}

/// Whether the checksum at the end of a manifest is right.
pub open spec fn manifest_intact(s: Seq<u8>) -> bool {
    s.len() >= 4 && coding::le_value(s.skip(s.len() - 4)) == coding::crc32(s.take(s.len() - 4))
}

/// The manifest that bytes hold.
pub open spec fn manifest_of(s: Seq<u8>) -> Option<Manifest> {
    if manifest_intact(s) {
        take_manifest(s.take(s.len() - 4))
    } else {
        None
    }
}

/// A manifest is read back as it was written.
pub proof fn lemma_manifest_round_trip(m: Manifest)
    ensures
        manifest_of(manifest_bytes(m)) == Some(m),
{
    coding::lemma_pow256_values();
    let body = manifest_body(m);
    let crc = coding::le_bytes(coding::crc32(body) as nat, 4);
    let s = body + crc;
    coding::lemma_le_bytes_len(coding::crc32(body) as nat, 4);
    coding::lemma_le_value_of_le_bytes(coding::crc32(body) as nat, 4);
    assert(s.take(s.len() - 4) =~= body);
    assert(s.skip(s.len() - 4) =~= crc);
    let r5 = coding::le_bytes(m.time.nanos as nat, 4);
    let r4 = coding::le_bytes(m.time.secs as nat, 8) + r5;
    let r3 = coding::le_bytes(m.min_xip.0 as nat, 8) + r4;
    let r2 = coding::le_bytes(m.prev_checkpoint_pos as nat, 8) + r3;
    let r1 = coding::le_bytes(m.last_checkpoint_pos as nat, 8) + r2;
    coding::lemma_take_number(m.db_state.number(), 4, r1);
    coding::lemma_take_number(m.last_checkpoint_pos as nat, 8, r2);
    coding::lemma_take_number(m.prev_checkpoint_pos as nat, 8, r3);
    coding::lemma_take_number(m.min_xip.0 as nat, 8, r4);
    coding::lemma_take_number(m.time.secs as nat, 8, r5);
    coding::lemma_take_number(m.time.nanos as nat, 4, Seq::empty());
    assert(r5 + Seq::<u8>::empty() =~= r5);
}

/// The bytes of a manifest.
pub fn encode_manifest(m: &Manifest) -> (r: Vec<u8>)
    ensures
        r@ == manifest_bytes(*m),
{
    let mut buf: Vec<u8> = Vec::new();
    write_u32_le(&mut buf, m.db_state.to_number());
    write_u64_le(&mut buf, m.last_checkpoint_pos);
    write_u64_le(&mut buf, m.prev_checkpoint_pos);
    write_u64_le(&mut buf, m.min_xip.0);
    write_u64_le(&mut buf, m.time.secs);
    write_u32_le(&mut buf, m.time.nanos);
    proof {
        assert(buf@ =~= manifest_body(*m));
    }
    let crc = checksum(buf.as_slice());
    write_u32_le(&mut buf, crc);
    buf
}

fn read_manifest_body(reader: &mut ByteReader) -> (r: Option<Manifest>)
    requires
        old(reader).wf(),
    ensures
        r == take_manifest(old(reader).rest()),
{
    let state = match reader.u32() {
        Some(n) => n,
        None => {
            return None;
        },
    };
    let db_state = match state {
        0 => DbState::Shutdowned,
        1 => DbState::Shutdowning,
        2 => DbState::InCrashRecovery,
        3 => DbState::InProduction,
        _ => {
            return None;
        },
    };
    let last_checkpoint_pos = match reader.u64() {
        Some(n) => n,
        None => {
            return None;
        },
    };
    let prev_checkpoint_pos = match reader.u64() {
        Some(n) => n,
        None => {
            return None;
        },
    };
    let min_xip = match reader.u64() {
        Some(n) => n,
        None => {
            return None;
        },
    };
    let secs = match reader.u64() {
        Some(n) => n,
        None => {
            return None;
        },
    };
    let nanos = match reader.u32() {
        Some(n) => n,
        None => {
            return None;
        },
    };
    Some(
        Manifest {
            db_state,
            last_checkpoint_pos,
            prev_checkpoint_pos,
            min_xip: Timestamp(min_xip),
            time: ManifestTime { secs, nanos },
        },
    )
}

/// The manifest that bytes hold.
pub fn decode_manifest(buffer: &[u8]) -> (r: Result<Manifest, Error>)
    ensures
        match r {
            Ok(m) => manifest_of(buffer@) == Some(m),
            Err(e) => {
                &&& manifest_of(buffer@) is None
                &&& if buffer@.len() < 4 {
                    e.is_corrupted("master record is corrupted"@)
                } else if !manifest_intact(buffer@) {
                    e.is_corrupted("master record is corrupted (checksum does not match)"@)
                } else {
                    e.is_corrupted("cannot deserialize the master record"@)
                }
            },
        },
{
    let size: usize = buffer.len();
    if size < 4 {
        return Err(Error::corrupted("master record is corrupted"));
    }
    let crc_buf = slice_subrange(buffer, size - 4, size);
    let body = slice_subrange(buffer, 0, size - 4);
    proof {
        assert(crc_buf@.take(4) =~= buffer@.skip(buffer@.len() - 4));
        assert(body@ =~= buffer@.take(buffer@.len() - 4));
    }
    let crc_file = read_u32_le(crc_buf);
    let crc = checksum(body);
    if crc != crc_file {
        return Err(Error::corrupted("master record is corrupted (checksum does not match)"));
    }
    let mut reader = ByteReader::new(body);
    match read_manifest_body(&mut reader) {
        Some(m) => Ok(m),
        None => Err(Error::corrupted("cannot deserialize the master record")),
    }
}

/// Keeps the manifest. What is to be written to its file is handed back.
pub struct CheckpointManager {
    manifest: Manifest,
}

impl CheckpointManager {
    /// The manifest.
    pub closed spec fn current(self) -> Manifest {
        self.manifest
    }

    /// Takes up the manifest of a file, or starts a new one where there is no file. Hands back the
    /// bytes that are to be written then.
    pub fn open(contents: Option<Vec<u8>>, now: ManifestTime) -> (r: Result<
        (Self, Option<Vec<u8>>),
        Error,
    >)
        ensures
            match r {
                Ok((ckptmgr, out)) => match contents {
                    Some(c) => manifest_of(c@) == Some(ckptmgr.current()) && out is None,
                    None => {
                        &&& ckptmgr.current() == initial_manifest(now)
                        &&& out matches Some(o) && o@ == manifest_bytes(ckptmgr.current())
                    },
                },
                Err(e) => contents matches Some(c) && manifest_of(c@) is None && e is DataCorrupted,
            },
    {
        let mut ckptmgr = Self { manifest: Manifest::new(now) };
        match ckptmgr.read_manifest(contents, now) {
            Ok(out) => Ok((ckptmgr, out)),
            Err(e) => Err(e),
        }
    }

    /// Notes a checkpoint and hands back the bytes of the new manifest.
    pub fn create_checkpoint(
        &mut self,
        min_xip: Timestamp,
        checkpoint: LogPointer,
        now: ManifestTime,
    ) -> (r: Vec<u8>)
        ensures
            final(self).current() == (Manifest {
                db_state: old(self).current().db_state,
                last_checkpoint_pos: checkpoint,
                prev_checkpoint_pos: old(self).current().last_checkpoint_pos,
                min_xip,
                time: now,
            }),
            r@ == manifest_bytes(final(self).current()),
    {
        self.manifest.time = now;
        self.manifest.min_xip = min_xip;
        self.manifest.prev_checkpoint_pos = self.manifest.last_checkpoint_pos;
        self.manifest.last_checkpoint_pos = checkpoint;
        encode_manifest(&self.manifest)
    }

    /// Takes up the manifest of a file, or starts a new one where there is no file. Hands back the
    /// bytes that are to be written then.
    pub fn read_manifest(&mut self, contents: Option<Vec<u8>>, now: ManifestTime) -> (r: Result<
        Option<Vec<u8>>,
        Error,
    >)
        ensures
            match r {
                Ok(out) => match contents {
                    Some(c) => manifest_of(c@) == Some(final(self).current()) && out is None,
                    None => {
                        &&& final(self).current() == initial_manifest(now)
                        &&& out matches Some(o) && o@ == manifest_bytes(final(self).current())
                    },
                },
                Err(e) => {
                    &&& contents matches Some(c) && manifest_of(c@) is None
                    &&& e is DataCorrupted
                    &&& *final(self) == *old(self)
                },
            },
    {
        match contents {
            Some(buffer) => match decode_manifest(buffer.as_slice()) {
                Ok(record) => {
                    self.manifest = record;
                    Ok(None)
                },
                Err(e) => Err(e),
            },
            None => {
                self.manifest = Manifest::new(now);
                Ok(Some(encode_manifest(&self.manifest)))
            },
        }
    }

    /// The manifest.
    pub fn manifest(&self) -> (r: &Manifest)
        ensures
            *r == self.current(),
    {
        &self.manifest
    }

    /// Notes what the store is doing and hands back the bytes of the new manifest.
    pub fn set_db_state(&mut self, state: DbState, now: ManifestTime) -> (r: Vec<u8>)
        ensures
            final(self).current() == (Manifest {
                db_state: state,
                time: now,
                ..old(self).current()
            }),
            r@ == manifest_bytes(final(self).current()),
    {
        self.manifest.db_state = state;
        self.manifest.time = now;
        encode_manifest(&self.manifest)
    }
}

} // verus!

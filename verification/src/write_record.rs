//! The serialized record stored under the `write` column: a kind flag, the
//! transaction's start timestamp, and an optional inlined short value.

use vstd::prelude::*;

use crate::keys::{push_u64_be, read_u64_be, spec_u64_from_be_bytes, spec_u64_to_be_bytes,
    lemma_u64_be_bytes_roundtrip};

verus! {

/// The kind of a committed write.
#[derive(Clone, Copy, PartialEq, Eq, Structural, Debug)]
pub enum WriteType {
    Put,
    Delete,
    Lock,
    Rollback,
}

pub open spec fn write_type_flag(t: WriteType) -> u8 {
    match t {
        WriteType::Put => 80u8,
        WriteType::Delete => 68u8,
        WriteType::Lock => 76u8,
        WriteType::Rollback => 82u8,
    }
}

pub open spec fn flag_write_type(b: u8) -> Option<WriteType> {
    if b == 80u8 {
        Some(WriteType::Put)
    } else if b == 68u8 {
        Some(WriteType::Delete)
    } else if b == 76u8 {
        Some(WriteType::Lock)
    } else if b == 82u8 {
        Some(WriteType::Rollback)
    } else {
        None
    }
}

/// A decoded write record.
pub struct WriteRecord {
    pub write_type: WriteType,
    pub start_ts: u64,
    pub short_value: Option<Vec<u8>>,
}

/// The ghost form of a write record.
pub type WriteView = (WriteType, u64, Option<Seq<u8>>);

impl View for WriteRecord {
    type V = WriteView;

    open spec fn view(&self) -> WriteView {
        (self.write_type, self.start_ts, match self.short_value {
            Some(v) => Some(v@),
            None => None,
        })
    }
}

/// The marker byte that announces an inlined short value.
pub const SHORT_VALUE_MARKER: u8 = 118;

/// The bytes of a write record: flag, big-endian start timestamp, and the
/// short value behind its marker when one is inlined.
pub open spec fn spec_encode_write(w: WriteView) -> Seq<u8> {
    let head = seq![write_type_flag(w.0)] + spec_u64_to_be_bytes(w.1);
    match w.2 {
        Some(sv) => head + seq![SHORT_VALUE_MARKER] + sv,
        None => head,
    }
}

/// Whether `v` is a well-formed write record.
pub open spec fn write_parseable(v: Seq<u8>) -> bool {
    &&& v.len() >= 9
    &&& flag_write_type(v[0]) is Some
    &&& (v.len() > 9 ==> v[9] == SHORT_VALUE_MARKER)
}

/// The record that `v` holds.
pub open spec fn spec_parse_write(v: Seq<u8>) -> WriteView
    recommends
        write_parseable(v),
{
    (flag_write_type(v[0]).unwrap(), spec_u64_from_be_bytes(v.subrange(1, 9)), if v.len() > 9 {
        Some(v.skip(10))
    } else {
        None
    })
}

/// Encoding then parsing a record gives the record back.
pub proof fn lemma_write_roundtrip(w: WriteView)
    ensures
        write_parseable(spec_encode_write(w)),
        spec_parse_write(spec_encode_write(w)) == w,
{
    let v = spec_encode_write(w);
    lemma_u64_be_bytes_roundtrip(w.1);
    match w.2 {
        Some(sv) => {
            assert(v[0] == write_type_flag(w.0));
            assert(v.subrange(1, 9) =~= spec_u64_to_be_bytes(w.1));
            assert(v[9] == SHORT_VALUE_MARKER);
            assert(v.skip(10) =~= sv);
        },
        None => {
            assert(v[0] == write_type_flag(w.0));
            assert(v.subrange(1, 9) =~= spec_u64_to_be_bytes(w.1));
            assert(v.len() == 9);
        },
    }
}

impl WriteRecord {
    pub fn new(write_type: WriteType, start_ts: u64, short_value: Option<Vec<u8>>) -> (w:
        WriteRecord)
        ensures
            w.write_type == write_type,
            w.start_ts == start_ts,
            w@.2 == match short_value {
                Some(v) => Some::<Seq<u8>>(v@),
                None => None::<Seq<u8>>,
            },
    {
        WriteRecord { write_type, start_ts, short_value }
    }

    /// Serializes the record.
    pub fn encode(&self) -> (r: Vec<u8>)
        ensures
            r@ == spec_encode_write(self@),
    {
        let mut out: Vec<u8> = Vec::new();
        let flag: u8 = match self.write_type {
            WriteType::Put => 80,
            WriteType::Delete => 68,
            WriteType::Lock => 76,
            WriteType::Rollback => 82,
        };
        out.push(flag);
        push_u64_be(&mut out, self.start_ts);
        match &self.short_value {
            Some(sv) => {
                out.push(SHORT_VALUE_MARKER);
                let ghost head = out@;
                let mut i: usize = 0;
                while i < sv.len()
                    invariant
                        i <= sv.len(),
                        out@ =~= head + sv@.take(i as int),
                    decreases sv.len() - i,
                {
                    out.push(sv[i]);
                    assert(out@ =~= head + sv@.take(i as int + 1));
                    i = i + 1;
                }
                assert(out@ =~= head + sv@);
                assert(out@ =~= spec_encode_write(self@));
            },
            None => {
                assert(out@ =~= spec_encode_write(self@));
            },
        }
        out
    }
}

/// Parses the bytes of a write record; fails exactly on malformed input.
pub fn parse_write(v: &Vec<u8>) -> (r: Result<WriteRecord, ()>)
    ensures
        match r {
            Ok(w) => write_parseable(v@) && w@ == spec_parse_write(v@),
            Err(()) => !write_parseable(v@),
        },
{
    if v.len() < 9 {
        return Err(());
    }
    let flag = v[0];
    let write_type = if flag == 80 {
        WriteType::Put
    } else if flag == 68 {
        WriteType::Delete
    } else if flag == 76 {
        WriteType::Lock
    } else if flag == 82 {
        WriteType::Rollback
    } else {
        return Err(());
    };
    let start_ts = u64::MAX - (u64::MAX - read_u64_be(v, 1));
    let short_value = if v.len() > 9 {
        if v[9] != SHORT_VALUE_MARKER {
            return Err(());
        }
        let mut sv: Vec<u8> = Vec::new();
        let mut i: usize = 10;
        while i < v.len()
            invariant
                10 <= i <= v.len(),
                v@.len() >= 10,
                sv@ =~= v@.subrange(10, i as int),
            decreases v.len() - i,
        {
            sv.push(v[i]);
            assert(sv@ =~= v@.subrange(10, i as int + 1));
            i = i + 1;
        }
        assert(sv@ =~= v@.skip(10));
        Some(sv)
    } else {
        None
    };
    Ok(WriteRecord { write_type, start_ts, short_value })
}

} // verus!

use vstd::prelude::*;

use crate::bitbuf::{varint32_at, BitReader, Decoded};
use crate::error::DemoError;
use crate::flattenedserializers::{lp_bytes_at, SdOut};

verus! {

/// The message that declares a string table and carries its initial
/// snapshot.
pub struct CreateStMsg {
    pub name: Vec<u8>,
    pub user_data_fixed_size: bool,
    pub user_data_size_bits: u32,
    pub data_compressed: bool,
    pub num_entries: u32,
    pub string_data: Vec<u8>,
}

/// The model of a table-creation message.
pub struct CreateStMsgSpec {
    pub name: Seq<u8>,
    pub user_data_fixed_size: bool,
    pub user_data_size_bits: u32,
    pub data_compressed: bool,
    pub num_entries: u32,
    pub string_data: Seq<u8>,
}

impl View for CreateStMsg {
    type V = CreateStMsgSpec;

    open spec fn view(&self) -> CreateStMsgSpec {
        CreateStMsgSpec {
            name: self.name@,
            user_data_fixed_size: self.user_data_fixed_size,
            user_data_size_bits: self.user_data_size_bits,
            data_compressed: self.data_compressed,
            num_entries: self.num_entries,
            string_data: self.string_data@,
        }
    }
}

/// The table-creation message at bit `off`: name, a fixed-size flag, a
/// value bit width, a compression flag, an entry count, and the diff
/// body.
pub open spec fn create_st_at(d: Seq<u8>, off: int) -> SdOut<CreateStMsgSpec> {
    match lp_bytes_at(d, off) {
        SdOut::Val { v: name, end: o1 } => if o1 + 2 > d.len() * 8 {
            SdOut::Trunc
        } else {
            let fixed = crate::bitbuf::bit_at(d, o1);
            let compressed = crate::bitbuf::bit_at(d, o1 + 1);
            match varint32_at(d, o1 + 2) {
                Decoded::Val { value: sb, bits: b1 } => match varint32_at(d, o1 + 2 + b1) {
                    Decoded::Val { value: ne, bits: b2 } => match lp_bytes_at(
                        d,
                        o1 + 2 + b1 + b2,
                    ) {
                        SdOut::Val { v: data, end } => SdOut::Val {
                            v: CreateStMsgSpec {
                                name,
                                user_data_fixed_size: fixed,
                                user_data_size_bits: sb as u32,
                                data_compressed: compressed,
                                num_entries: ne as u32,
                                string_data: data,
                            },
                            end,
                        },
                        SdOut::Trunc => SdOut::Trunc,
                        SdOut::Malformed => SdOut::Malformed,
                    },
                    Decoded::Trunc => SdOut::Trunc,
                    Decoded::Malformed => SdOut::Malformed,
                },
                Decoded::Trunc => SdOut::Trunc,
                Decoded::Malformed => SdOut::Malformed,
            }
        },
        SdOut::Trunc => SdOut::Trunc,
        SdOut::Malformed => SdOut::Malformed,
    }
}

impl CreateStMsg {
    /// Decodes a table-creation message from the front of `data`.
    pub fn decode(data: &Vec<u8>) -> (r: Result<Self, DemoError>)
        requires
            data@.len() <= crate::bitbuf::MAX_BUF_BYTES,
        ensures
            match r {
                Ok(m) => create_st_at(data@, 0) matches SdOut::Val { v, end } && m@ == v,
                Err(e) => {
                    &&& (e == DemoError::Truncated || e == DemoError::MalformedVarint)
                    &&& (e == DemoError::Truncated <==> create_st_at(data@, 0) is Trunc)
                    &&& (e == DemoError::MalformedVarint <==> create_st_at(data@, 0)
                        is Malformed)
                },
            },
    {
        let mut br = BitReader::new(data);
        let name = read_lp(&mut br)?;
        let fixed = match br.read_bool() {
            Ok(b) => b,
            Err(_) => {
                return Err(DemoError::Truncated);
            },
        };
        let compressed = match br.read_bool() {
            Ok(b) => b,
            Err(_) => {
                return Err(DemoError::Truncated);
            },
        };
        let sb = br.read_varint32()?;
        let ne = br.read_varint32()?;
        let sd = read_lp(&mut br)?;
        Ok(
            CreateStMsg {
                name,
                user_data_fixed_size: fixed,
                user_data_size_bits: sb,
                data_compressed: compressed,
                num_entries: ne,
                string_data: sd,
            },
        )
    }
}

/// The message that applies an incremental diff to a table.
pub struct UpdateStMsg {
    pub table_id: u32,
    pub num_changed: u32,
    pub string_data: Vec<u8>,
}

/// The table-update message at bit `off`: a table id, a changed-entry
/// count, and the diff body.
pub open spec fn update_st_at(d: Seq<u8>, off: int) -> SdOut<(u32, u32, Seq<u8>)> {
    match varint32_at(d, off) {
        Decoded::Val { value: id, bits: b0 } => match varint32_at(d, off + b0) {
            Decoded::Val { value: nc, bits: b1 } => match lp_bytes_at(d, off + b0 + b1) {
                SdOut::Val { v: data, end } => SdOut::Val {
                    v: (id as u32, nc as u32, data),
                    end,
                },
                SdOut::Trunc => SdOut::Trunc,
                SdOut::Malformed => SdOut::Malformed,
            },
            Decoded::Trunc => SdOut::Trunc,
            Decoded::Malformed => SdOut::Malformed,
        },
        Decoded::Trunc => SdOut::Trunc,
        Decoded::Malformed => SdOut::Malformed,
    }
}

impl UpdateStMsg {
    /// Decodes a table-update message from the front of `data`.
    pub fn decode(data: &Vec<u8>) -> (r: Result<Self, DemoError>)
        requires
            data@.len() <= crate::bitbuf::MAX_BUF_BYTES,
        ensures
            match r {
                Ok(m) => update_st_at(data@, 0) matches SdOut::Val { v, end } && m.table_id
                    == v.0 && m.num_changed == v.1 && m.string_data@ == v.2,
                Err(e) => {
                    &&& (e == DemoError::Truncated || e == DemoError::MalformedVarint)
                    &&& (e == DemoError::Truncated <==> update_st_at(data@, 0) is Trunc)
                    &&& (e == DemoError::MalformedVarint <==> update_st_at(data@, 0)
                        is Malformed)
                },
            },
    {
        let mut br = BitReader::new(data);
        let id = br.read_varint32()?;
        let nc = br.read_varint32()?;
        let sd = read_lp(&mut br)?;
        Ok(UpdateStMsg { table_id: id, num_changed: nc, string_data: sd })
    }
}

/// The message that applies one tick's entity operations.
pub struct PacketEntitiesMsg {
    pub updated_entries: u32,
    pub entity_data: Vec<u8>,
}

/// The packet-entities message at bit `off`: an operation count and
/// the bit-packed entity data.
pub open spec fn packet_entities_at(d: Seq<u8>, off: int) -> SdOut<(u32, Seq<u8>)> {
    match varint32_at(d, off) {
        Decoded::Val { value: ue, bits: b0 } => match lp_bytes_at(d, off + b0) {
            SdOut::Val { v: data, end } => SdOut::Val { v: (ue as u32, data), end },
            SdOut::Trunc => SdOut::Trunc,
            SdOut::Malformed => SdOut::Malformed,
        },
        Decoded::Trunc => SdOut::Trunc,
        Decoded::Malformed => SdOut::Malformed,
    }
}

impl PacketEntitiesMsg {
    /// Decodes a packet-entities message from the front of `data`.
    pub fn decode(data: &Vec<u8>) -> (r: Result<Self, DemoError>)
        requires
            data@.len() <= crate::bitbuf::MAX_BUF_BYTES,
        ensures
            match r {
                Ok(m) => packet_entities_at(data@, 0) matches SdOut::Val { v, end }
                    && m.updated_entries == v.0 && m.entity_data@ == v.1,
                Err(e) => {
                    &&& (e == DemoError::Truncated || e == DemoError::MalformedVarint)
                    &&& (e == DemoError::Truncated <==> packet_entities_at(data@, 0) is Trunc)
                    &&& (e == DemoError::MalformedVarint <==> packet_entities_at(data@, 0)
                        is Malformed)
                },
            },
    {
        let mut br = BitReader::new(data);
        let ue = br.read_varint32()?;
        let ed = read_lp(&mut br)?;
        Ok(PacketEntitiesMsg { updated_entries: ue, entity_data: ed })
    }
}

/// A length-prefixed byte string from the cursor.
fn read_lp(br: &mut BitReader) -> (r: Result<Vec<u8>, DemoError>)
    requires
        old(br).wf(),
    ensures
        final(br).wf(),
        final(br).sdata() == old(br).sdata(),
        match r {
            Ok(v) => lp_bytes_at(old(br).sdata(), old(br).soff() as int) matches SdOut::Val {
                v: sv,
                end,
            } && v@ == sv && final(br).soff() == end,
            Err(e) => {
                &&& (e == DemoError::Truncated || e == DemoError::MalformedVarint)
                &&& (e == DemoError::Truncated <==> lp_bytes_at(
                    old(br).sdata(),
                    old(br).soff() as int,
                ) is Trunc)
                &&& (e == DemoError::MalformedVarint <==> lp_bytes_at(
                    old(br).sdata(),
                    old(br).soff() as int,
                ) is Malformed)
            },
        },
{
    let len = br.read_varint32()?;
    match br.read_bytes(len as usize) {
        Ok(v) => Ok(v),
        Err(_) => Err(DemoError::Truncated),
    }
}

} // verus!

use vstd::prelude::*;

use crate::bitbuf::{byte_at, bytes_at, varint32_at, BitReader, Decoded, MAX_BUF_BYTES};
use crate::error::DemoError;
use crate::snappy::{snappy_decompress, snappy_ok, snappy_plain};

verus! {

/// The tag that marks the end of the command stream.
pub const CMD_STOP: u32 = 0;

/// The tag bit that flags a compressed command body.
pub const CMD_COMPRESSED_FLAG: u32 = 64;

/// The fixed eight-byte magic that opens every demo file.
pub open spec fn header_magic() -> Seq<u8> {
    seq![0x50u8, 0x42u8, 0x44u8, 0x45u8, 0x4du8, 0x53u8, 0x32u8, 0x00u8]
}

/// A demo file begins with exactly the magic bytes.
pub open spec fn valid_header(data: Seq<u8>) -> bool {
    data.len() >= 8 && data.subrange(0, 8) == header_magic()
}

/// One framed command: its tag, whether the body arrived compressed,
/// the tick it belongs to, and the body's declared byte size.
pub struct CmdHeader {
    pub command: u32,
    pub compressed: bool,
    pub tick: u32,
    pub size: u32,
}

/// The three chained varints of a command header, decoded from `off`:
/// raw tag, tick, size, together with the bits they span.
pub enum HdrDecoded {
    Val { raw: nat, tick: nat, size: nat, bits: nat },
    Trunc,
    Malformed,
}

/// Decodes the command-header triple at bit `off` of `data`.
pub open spec fn cmd_header_at(data: Seq<u8>, off: int) -> HdrDecoded {
    match varint32_at(data, off) {
        Decoded::Val { value: raw, bits: b0 } => match varint32_at(data, off + b0) {
            Decoded::Val { value: tick, bits: b1 } => match varint32_at(
                data,
                off + b0 + b1,
            ) {
                Decoded::Val { value: size, bits: b2 } => HdrDecoded::Val {
                    raw,
                    tick,
                    size,
                    bits: b0 + b1 + b2,
                },
                Decoded::Trunc => HdrDecoded::Trunc,
                Decoded::Malformed => HdrDecoded::Malformed,
            },
            Decoded::Trunc => HdrDecoded::Trunc,
            Decoded::Malformed => HdrDecoded::Malformed,
        },
        Decoded::Trunc => HdrDecoded::Trunc,
        Decoded::Malformed => HdrDecoded::Malformed,
    }
}

/// Frames a demo byte stream into a validated header followed by a
/// sequence of tagged, length-prefixed, optionally compressed commands.
pub struct DemoFile<'a> {
    r: BitReader<'a>,
}

impl<'a> DemoFile<'a> {
    /// The underlying bytes.
    pub closed spec fn sdata(&self) -> Seq<u8> {
        self.r.sdata()
    }

    /// The cursor's position, in bits.
    pub closed spec fn soff(&self) -> nat {
        self.r.soff()
    }

    pub closed spec fn wf(&self) -> bool {
        self.r.wf()
    }

    /// The invariant bounds, for callers that hold the container
    /// abstractly.
    pub proof fn lemma_wf_bounds(&self)
        requires
            self.wf(),
        ensures
            self.soff() <= self.sdata().len() * 8,
    {
        self.r.lemma_wf_bounds();
    }

    /// Validates the fixed file header and positions the cursor on the
    /// first command. Header validation failure is fatal and immediate.
    pub fn new(data: &'a Vec<u8>) -> (r: Result<Self, DemoError>)
        requires
            data@.len() <= MAX_BUF_BYTES,
        ensures
            match r {
                Ok(df) => {
                    &&& valid_header(data@)
                    &&& df.wf()
                    &&& df.sdata() == data@
                    &&& df.soff() == 64
                },
                Err(e) => {
                    &&& e == DemoError::InvalidHeader
                    &&& !valid_header(data@)
                },
            },
    {
        if data.len() < 8 {
            proof {
                assert(data@.len() < 8);
            }
            return Err(DemoError::InvalidHeader);
        }
        let ok = data[0] == 0x50 && data[1] == 0x42 && data[2] == 0x44 && data[3] == 0x45
            && data[4] == 0x4d && data[5] == 0x53 && data[6] == 0x32 && data[7] == 0x00;
        proof {
            if ok {
                assert(data@.subrange(0, 8) =~= header_magic());
            } else {
                assert(data@.subrange(0, 8) != header_magic()) by {
                    if data@.subrange(0, 8) == header_magic() {
                        assert(data@[0] == header_magic()[0]);
                        assert(data@[1] == header_magic()[1]);
                        assert(data@[2] == header_magic()[2]);
                        assert(data@[3] == header_magic()[3]);
                        assert(data@[4] == header_magic()[4]);
                        assert(data@[5] == header_magic()[5]);
                        assert(data@[6] == header_magic()[6]);
                        assert(data@[7] == header_magic()[7]);
                    }
                };
            }
        }
        if !ok {
            return Err(DemoError::InvalidHeader);
        }
        let mut r = BitReader::new(data);
        match r.skip_bytes(8) {
            Ok(()) => Ok(DemoFile { r }),
            Err(_) => {
                proof {
                    assert(false);
                }
                Err(DemoError::InvalidHeader)
            },
        }
    }

    /// Reads one command header: a tag varint carrying the compression
    /// flag bit, a tick varint, and a body-size varint.
    pub fn read_cmd_header(&mut self) -> (r: Result<CmdHeader, DemoError>)
        requires
            old(self).wf(),
        ensures
            final(self).wf(),
            final(self).sdata() == old(self).sdata(),
            r is Ok ==> final(self).soff() > old(self).soff(),
            match r {
                Ok(h) => cmd_header_at(old(self).sdata(), old(self).soff() as int) matches
                    HdrDecoded::Val { raw, tick, size, bits } && h.command == (raw as u32)
                    & !CMD_COMPRESSED_FLAG && h.compressed == ((raw as u32) & CMD_COMPRESSED_FLAG
                    != 0) && h.tick as nat == tick && h.size as nat == size && final(self).soff()
                    == old(self).soff() + bits,
                Err(e) => {
                    &&& final(self).soff() == old(self).soff()
                    &&& (e == DemoError::Truncated || e == DemoError::MalformedVarint)
                    &&& (e == DemoError::Truncated <==> cmd_header_at(
                        old(self).sdata(),
                        old(self).soff() as int,
                    ) is Trunc)
                    &&& (e == DemoError::MalformedVarint <==> cmd_header_at(
                        old(self).sdata(),
                        old(self).soff() as int,
                    ) is Malformed)
                },
            },
    {
        let start = self.r.pos();
        let raw = self.r.read_varint32()?;
        let tick = match self.r.read_varint32() {
            Ok(t) => t,
            Err(e) => {
                let _ = self.r.seek(start);
                return Err(e);
            },
        };
        let size = match self.r.read_varint32() {
            Ok(s) => s,
            Err(e) => {
                let _ = self.r.seek(start);
                return Err(e);
            },
        };
        Ok(
            CmdHeader {
                command: raw & !CMD_COMPRESSED_FLAG,
                compressed: raw & CMD_COMPRESSED_FLAG != 0,
                tick,
                size,
            },
        )
    }

    /// Reads a command's body. A declared size past the end of the
    /// buffer is a `Truncated` error, never a silent short read; a
    /// compressed body is decompressed before it is returned.
    pub fn read_cmd(&mut self, hdr: &CmdHeader) -> (r: Result<Vec<u8>, DemoError>)
        requires
            old(self).wf(),
        ensures
            final(self).wf(),
            final(self).sdata() == old(self).sdata(),
            match r {
                Ok(out) => {
                    &&& old(self).soff() + 8 * hdr.size <= old(self).sdata().len() * 8
                    &&& final(self).soff() == old(self).soff() + 8 * hdr.size
                    &&& !hdr.compressed ==> out@.len() == hdr.size && forall|j: int|
                        0 <= j < hdr.size ==> out@[j] as nat == byte_at(
                            old(self).sdata(),
                            old(self).soff() + 8 * j,
                        )
                    &&& hdr.compressed ==> out@ == snappy_plain(
                        Seq::new(
                            hdr.size as nat,
                            |j: int|
                                (byte_at(old(self).sdata(), old(self).soff() + 8 * j) as u8),
                        ),
                    )
                },
                Err(e) => {
                    &&& (e == DemoError::Truncated || e == DemoError::DecompressionFailed)
                    &&& (e == DemoError::Truncated <==> old(self).soff() + 8 * hdr.size > old(
                        self,
                    ).sdata().len() * 8)
                    &&& (e == DemoError::Truncated ==> final(self).soff() == old(self).soff())
                    &&& (e == DemoError::DecompressionFailed <==> hdr.compressed && old(
                        self,
                    ).soff() + 8 * hdr.size <= old(self).sdata().len() * 8 && !snappy_ok(
                        bytes_at(old(self).sdata(), old(self).soff() as int, hdr.size as nat),
                    ))
                    &&& final(self).soff() >= old(self).soff()
                },
            },
    {
        let raw = self.r.read_bytes(hdr.size as usize)?;
        if !hdr.compressed {
            return Ok(raw);
        }
        proof {
            assert(raw@ =~= Seq::new(
                hdr.size as nat,
                |j: int| (byte_at(old(self).sdata(), old(self).soff() + 8 * j) as u8),
            ));
        }
        snappy_decompress(&raw)
    }

    /// Skips a command's body without reading it; unknown tags are
    /// passed over by size, never interpreted.
    pub fn skip_cmd(&mut self, hdr: &CmdHeader) -> (r: Result<(), DemoError>)
        requires
            old(self).wf(),
        ensures
            final(self).wf(),
            final(self).sdata() == old(self).sdata(),
            match r {
                Ok(()) => {
                    &&& old(self).soff() + 8 * hdr.size <= old(self).sdata().len() * 8
                    &&& final(self).soff() == old(self).soff() + 8 * hdr.size
                },
                Err(e) => {
                    &&& e == DemoError::Truncated
                    &&& old(self).soff() + 8 * hdr.size > old(self).sdata().len() * 8
                    &&& final(self).soff() == old(self).soff()
                },
            },
    {
        self.r.skip_bytes(hdr.size as usize)
    }

    /// How many bits remain unread.
    pub fn bits_left(&self) -> (r: usize)
        requires
            self.wf(),
        ensures
            r == self.sdata().len() * 8 - self.soff(),
    {
        self.r.bits_left()
    }
}

} // verus!

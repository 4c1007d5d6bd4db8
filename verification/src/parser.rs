use vstd::prelude::*;

use crate::bitbuf::{BitReader, MAX_BUF_BYTES};
use crate::demofile::{cmd_header_at, valid_header, CmdHeader, DemoFile, CMD_STOP};
use crate::entities::{Entities, Entity};
use crate::entityclasses::EntityClasses;
use crate::error::DemoError;
use crate::flattenedserializers::{bytes_eq, FlattenedSerializers};
use crate::instancebaseline::InstanceBaseline;
use crate::messages::{CreateStMsg, PacketEntitiesMsg, UpdateStMsg};
use crate::snappy::snappy_decompress;
use crate::stringtables::StringTables;

verus! {

/// The command tag that carries the schema definitions.
pub const CMD_SEND_TABLES: u32 = 4;

/// The command tag that declares the entity classes.
pub const CMD_CLASS_INFO: u32 = 5;

/// The command tag that wraps a sub-stream of service messages.
pub const CMD_PACKET: u32 = 7;

/// The command tag of the sign-on variant of a packet command.
pub const CMD_SIGNON_PACKET: u32 = 8;

/// The service-message tag that creates a string table.
pub const SVC_CREATE_STRING_TABLE: u32 = 44;

/// The service-message tag that updates a string table.
pub const SVC_UPDATE_STRING_TABLE: u32 = 45;

/// The service-message tag that carries entity operations.
pub const SVC_PACKET_ENTITIES: u32 = 55;

/// The name of the table whose contents project to the per-class
/// baseline blobs.
pub open spec fn baseline_table_name() -> Seq<u8> {
    seq![
        105u8, 110u8, 115u8, 116u8, 97u8, 110u8, 99u8, 101u8, 95u8, 98u8, 97u8, 115u8, 101u8,
        108u8, 105u8, 110u8, 101u8,
    ]
}

/// The baseline table's name as a byte string.
pub fn baseline_name() -> (r: Vec<u8>)
    ensures
        r@ == baseline_table_name(),
{
    let mut v: Vec<u8> = Vec::new();
    v.push(105);
    v.push(110);
    v.push(115);
    v.push(116);
    v.push(97);
    v.push(110);
    v.push(99);
    v.push(101);
    v.push(95);
    v.push(98);
    v.push(97);
    v.push(115);
    v.push(101);
    v.push(108);
    v.push(105);
    v.push(110);
    v.push(101);
    proof {
        assert(v@ =~= baseline_table_name());
    }
    v
}

/// What a decoded message is delivered with: the tick the enclosing
/// command belongs to.
#[derive(Clone, Copy, PartialEq, Eq, Structural, Debug)]
pub struct Context {
    pub tick: u32,
}

impl Context {
    /// The tick of the command being decoded.
    pub fn tick(&self) -> (r: u32)
        ensures
            r == self.tick,
    {
        self.tick
    }
}

/// A consumer of decoded events. The driving loop hands every inner
/// service message to the visitor before interpreting it itself, as
/// the raw pair of tag and bytes with its context.
pub trait Visitor {
    /// Called once per decoded service message.
    fn on_packet(&mut self, ctx: &Context, packet_type: u32, data: &Vec<u8>) -> Result<
        (),
        DemoError,
    >;
}

/// A visitor that ignores every message; the driving loop alone then
/// maintains the decoded state.
pub struct NopVisitor {}

impl Visitor for NopVisitor {
    fn on_packet(&mut self, _ctx: &Context, _packet_type: u32, _data: &Vec<u8>) -> Result<
        (),
        DemoError,
    > {
        Ok(())
    }
}

/// The driving loop's position in its state machine.
#[derive(Clone, Copy, PartialEq, Eq, Structural, Debug)]
pub enum ParserState {
    /// Commands are being read.
    Streaming,
    /// The stop tag or the end of input was reached; terminal.
    Stopped,
}

/// The driving loop: reads commands from the outer container, routes
/// them to the string-table engine, the schema table, the class table
/// or the entity store, and hands decoded messages to the visitor. It
/// owns all decode state for the duration of one session.
pub struct Parser<'a, V: Visitor> {
    demo_file: DemoFile<'a>,
    string_tables: StringTables,
    instance_baseline: InstanceBaseline,
    flattened_serializers: FlattenedSerializers,
    entity_classes: EntityClasses,
    entities: Entities,
    visitor: V,
    state: ParserState,
}

impl<'a, V: Visitor> Parser<'a, V> {
    /// The parser invariant: the container cursor and the schema cache
    /// are well formed.
    pub closed spec fn wf(&self) -> bool {
        &&& self.demo_file.wf()
        &&& self.flattened_serializers.wf()
    }

    /// The state-machine position.
    pub closed spec fn sstate(&self) -> ParserState {
        self.state
    }

    /// The container's bytes.
    pub closed spec fn sdemo_data(&self) -> Seq<u8> {
        self.demo_file.sdata()
    }

    /// The container cursor's position, in bits.
    pub closed spec fn sdemo_off(&self) -> nat {
        self.demo_file.soff()
    }

    /// The string-table engine, as the model sees it.
    pub closed spec fn view_tables(&self) -> StringTables {
        self.string_tables
    }

    /// The class table, as the model sees it.
    pub closed spec fn view_classes(&self) -> EntityClasses {
        self.entity_classes
    }

    /// The baseline, as the model sees it.
    pub closed spec fn view_baseline(&self) -> InstanceBaseline {
        self.instance_baseline
    }

    /// The visitor, as the model sees it.
    pub closed spec fn view_visitor(&self) -> V {
        self.visitor
    }

    /// Validates the header and readies the stream; header validation
    /// failure is fatal and immediate.
    pub fn from_bytes_with_visitor(data: &'a Vec<u8>, visitor: V) -> (r: Result<
        Self,
        DemoError,
    >)
        requires
            data@.len() <= MAX_BUF_BYTES,
        ensures
            match r {
                Ok(p) => {
                    &&& valid_header(data@)
                    &&& p.wf()
                    &&& p.sstate() == ParserState::Streaming
                    &&& p.view_tables().stables().len() == 0
                    &&& p.view_classes().snames().len() == 0
                    &&& p.view_baseline().spairs() == Seq::<(nat, Seq<u8>)>::empty()
                    &&& p.view_entities().smap() == Map::<u64, Entity>::empty()
                    &&& p.view_visitor() == visitor
                },
                Err(e) => {
                    &&& e == DemoError::InvalidHeader
                    &&& !valid_header(data@)
                },
            },
    {
        let demo_file = DemoFile::new(data)?;
        Ok(
            Parser {
                demo_file,
                string_tables: StringTables::new(),
                instance_baseline: InstanceBaseline::new(),
                flattened_serializers: FlattenedSerializers::new(),
                entity_classes: EntityClasses::new(),
                entities: Entities::new(),
                visitor: visitor,
                state: ParserState::Streaming,
            },
        )
    }

    /// The live entity store.
    pub fn entities(&self) -> (r: &Entities)
        ensures
            *r == self.view_entities(),
    {
        &self.entities
    }

    /// The entity store, as the model sees it.
    pub closed spec fn view_entities(&self) -> Entities {
        self.entities
    }

    /// The declared entity classes.
    pub fn classes(&self) -> (r: &EntityClasses)
        ensures
            *r == self.view_classes(),
    {
        &self.entity_classes
    }

    /// The string-table engine.
    pub fn tables(&self) -> (r: &StringTables)
        ensures
            *r == self.view_tables(),
    {
        &self.string_tables
    }

    /// The current baseline.
    pub fn baseline(&self) -> (r: &InstanceBaseline)
        ensures
            *r == self.view_baseline(),
    {
        &self.instance_baseline
    }

    /// The visitor, for reading back accumulated state.
    pub fn visitor(&self) -> (r: &V)
        ensures
            *r == self.view_visitor(),
    {
        &self.visitor
    }

    /// Reads commands until the stop tag or the end of input, then
    /// stops for good: after a successful run the parser is `Stopped`
    /// and reads nothing further. The first error halts the run; a
    /// desynchronized session must stop rather than decode garbage.
    pub fn run_to_end(&mut self) -> (r: Result<(), DemoError>)
        requires
            old(self).wf(),
        ensures
            final(self).wf(),
            r is Ok ==> final(self).sstate() == ParserState::Stopped,
            r is Err ==> final(self).sstate() == old(self).sstate(),
            old(self).sstate() == ParserState::Stopped ==> r is Ok && *final(self) == *old(
                self,
            ),
            (old(self).sstate() == ParserState::Streaming && old(self).sdemo_off() < old(
                self,
            ).sdemo_data().len() * 8 && cmd_header_at(
                old(self).sdemo_data(),
                old(self).sdemo_off() as int,
            ) is Trunc) ==> r == Err::<(), DemoError>(DemoError::Truncated),
    {
        loop
            invariant
                self.wf(),
                self.state == old(self).sstate() || (old(self).sstate()
                    == ParserState::Streaming && self.state == ParserState::Streaming),
                (old(self).sstate() == ParserState::Streaming && old(self).sdemo_off() < old(
                    self,
                ).sdemo_data().len() * 8 && cmd_header_at(
                    old(self).sdemo_data(),
                    old(self).sdemo_off() as int,
                ) is Trunc) ==> *self == *old(self),
                old(self).sstate() == ParserState::Stopped ==> *self == *old(self),
            decreases self.demo_file.sdata().len() * 8 - self.demo_file.soff(),
        {
            let ghost d0 = self.demo_file.sdata();
            let ghost off0 = self.demo_file.soff();
            match self.state {
                ParserState::Stopped => {
                    return Ok(());
                },
                ParserState::Streaming => {},
            }
            if self.demo_file.bits_left() == 0 {
                self.state = ParserState::Stopped;
                return Ok(());
            }
            let hdr = match self.demo_file.read_cmd_header() {
                Ok(h) => h,
                Err(e) => {
                    return Err(e);
                },
            };
            if hdr.command == CMD_STOP {
                self.state = ParserState::Stopped;
                return Ok(());
            }
            match self.handle_cmd(&hdr) {
                Ok(()) => {},
                Err(e) => {
                    return Err(e);
                },
            }
            proof {
                self.demo_file.lemma_wf_bounds();
                assert(self.demo_file.sdata() == d0);
                assert(self.demo_file.soff() > off0);
            }
        }
    }

    /// Dispatches one command by tag; unrecognized tags are skipped by
    /// their declared size, never interpreted.
    fn handle_cmd(&mut self, hdr: &CmdHeader) -> (r: Result<(), DemoError>)
        requires
            old(self).wf(),
        ensures
            final(self).wf(),
            final(self).sstate() == old(self).sstate(),
            final(self).demo_file.sdata() == old(self).demo_file.sdata(),
            final(self).demo_file.soff() >= old(self).demo_file.soff(),
    {
        if hdr.command == CMD_SEND_TABLES {
            let payload = self.demo_file.read_cmd(hdr)?;
            if payload.len() > MAX_BUF_BYTES {
                return Err(DemoError::BodyTooLarge);
            }
            match self.flattened_serializers.parse(&payload) {
                Ok(()) => {},
                Err(e) => {
                    return Err(e);
                },
            }
            Ok(())
        } else if hdr.command == CMD_CLASS_INFO {
            let payload = self.demo_file.read_cmd(hdr)?;
            if payload.len() > MAX_BUF_BYTES {
                return Err(DemoError::BodyTooLarge);
            }
            match self.entity_classes.parse(&payload) {
                Ok(()) => {},
                Err(e) => {
                    return Err(e);
                },
            }
            Ok(())
        } else if hdr.command == CMD_PACKET || hdr.command == CMD_SIGNON_PACKET {
            let payload = self.demo_file.read_cmd(hdr)?;
            if payload.len() > MAX_BUF_BYTES {
                return Err(DemoError::BodyTooLarge);
            }
            let ctx = Context { tick: hdr.tick };
            match self.handle_packet(&ctx, &payload) {
                Ok(()) => {},
                Err(e) => {
                    return Err(e);
                },
            }
            Ok(())
        } else {
            self.demo_file.skip_cmd(hdr)?;
            Ok(())
        }
    }

    /// Unwraps one packet command: a sub-stream of tagged,
    /// length-prefixed service messages, each handed to the visitor
    /// and then dispatched to the table, baseline or entity layer.
    fn handle_packet(&mut self, ctx: &Context, payload: &Vec<u8>) -> (r: Result<(), DemoError>)
        requires
            old(self).wf(),
            payload@.len() <= MAX_BUF_BYTES,
        ensures
            final(self).wf(),
            final(self).sstate() == old(self).sstate(),
            final(self).demo_file == old(self).demo_file,
    {
        let mut br = BitReader::new(payload);
        loop
            invariant
                br.wf(),
                self.wf(),
                self.demo_file == old(self).demo_file,
                self.sstate() == old(self).sstate(),
                br.sdata() == payload@,
                br.sdata().len() <= MAX_BUF_BYTES,
            decreases br.sdata().len() * 8 - br.soff(),
        {
            if br.bits_left() <= 8 {
                return Ok(());
            }
            let ghost off0 = br.soff();
            let cmd = match br.read_ubitvar() {
                Ok(v) => v,
                Err(e) => {
                    return Err(e);
                },
            };
            let size = match br.read_varint32() {
                Ok(v) => v,
                Err(e) => {
                    return Err(e);
                },
            };
            let data = match br.read_bytes(size as usize) {
                Ok(v) => v,
                Err(_) => {
                    return Err(DemoError::Truncated);
                },
            };
            proof {
                assert(br.soff() > off0);
            }
            match self.visitor.on_packet(ctx, cmd, &data) {
                Ok(()) => {},
                Err(e) => {
                    return Err(e);
                },
            }
            if cmd == SVC_CREATE_STRING_TABLE {
                let msg = CreateStMsg::decode(&data)?;
                match self.handle_create_string_table(msg) {
                    Ok(()) => {},
                    Err(e) => {
                        return Err(e);
                    },
                }
            } else if cmd == SVC_UPDATE_STRING_TABLE {
                let msg = UpdateStMsg::decode(&data)?;
                match self.handle_update_string_table(msg) {
                    Ok(()) => {},
                    Err(e) => {
                        return Err(e);
                    },
                }
            } else if cmd == SVC_PACKET_ENTITIES {
                let msg = PacketEntitiesMsg::decode(&data)?;
                if msg.entity_data.len() > MAX_BUF_BYTES {
                    return Err(DemoError::BodyTooLarge);
                }
                match self.entities.read_packet_entities(
                    &msg.entity_data,
                    msg.updated_entries,
                    &self.entity_classes,
                    &self.instance_baseline,
                    &mut self.flattened_serializers,
                ) {
                    Ok(()) => {},
                    Err(e) => {
                        return Err(e);
                    },
                }
            }
        }
    }

    /// Declares a table and applies its initial snapshot; a compressed
    /// diff body is decompressed first, never interleaved with diff
    /// decoding. When the baseline table changed, the baseline is
    /// recomputed from that table's full contents.
    fn handle_create_string_table(&mut self, msg: CreateStMsg) -> (r: Result<(), DemoError>)
        requires
            old(self).wf(),
        ensures
            final(self).wf(),
            final(self).sstate() == old(self).sstate(),
            final(self).demo_file == old(self).demo_file,
    {
        let body: Vec<u8> = if msg.data_compressed {
            snappy_decompress(&msg.string_data)?
        } else {
            msg.string_data
        };
        if body.len() > MAX_BUF_BYTES {
            return Err(DemoError::BodyTooLarge);
        }
        let mut br = BitReader::new(&body);
        let id = match self.string_tables.create_string_table(
            msg.name,
            msg.user_data_fixed_size,
            msg.user_data_size_bits,
            &mut br,
            msg.num_entries,
        ) {
            Ok(id) => id,
            Err(e) => {
                return Err(e);
            },
        };
        self.refresh_baseline(id)
    }

    /// Applies an incremental diff to an existing table, then
    /// recomputes the baseline if that table feeds it.
    fn handle_update_string_table(&mut self, msg: UpdateStMsg) -> (r: Result<(), DemoError>)
        requires
            old(self).wf(),
        ensures
            final(self).wf(),
            final(self).sstate() == old(self).sstate(),
            final(self).demo_file == old(self).demo_file,
    {
        if msg.string_data.len() > MAX_BUF_BYTES {
            return Err(DemoError::BodyTooLarge);
        }
        let mut br = BitReader::new(&msg.string_data);
        match self.string_tables.update_string_table(
            msg.table_id as usize,
            &mut br,
            msg.num_changed,
        ) {
            Ok(()) => {},
            Err(e) => {
                return Err(e);
            },
        }
        self.refresh_baseline(msg.table_id as usize)
    }

    /// Rebuilds the instance baseline when the named table is the one
    /// it projects; the baseline is a pure projection of that table.
    fn refresh_baseline(&mut self, id: usize) -> (r: Result<(), DemoError>)
        requires
            old(self).wf(),
        ensures
            final(self).wf(),
            final(self).sstate() == old(self).sstate(),
            final(self).demo_file == old(self).demo_file,
    {
        let table = match self.string_tables.table(id) {
            Ok(t) => t,
            Err(e) => {
                return Err(e);
            },
        };
        let want = baseline_name();
        if bytes_eq(table.name(), &want) {
            self.instance_baseline.update(table);
        }
        Ok(())
    }
}

} // verus!

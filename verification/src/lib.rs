mod bitbuf;
mod demofile;
mod entityclasses;
mod entities;
mod error;
mod handler;
mod flattenedserializers;
mod instancebaseline;
mod messages;
mod parser;
mod snappy;
mod stringtables;

pub use bitbuf::{BitReader, BitWriter};
pub use demofile::{CmdHeader, DemoFile};
pub use entityclasses::EntityClasses;
pub use entities::{decode_changed_paths, read_field_value, Entities, Entity, FieldValue, PATH_SENTINEL};
pub use error::DemoError;
pub use handler::{FromPacket, HandlerVisitor, IntoPacketHandler, PacketHandler, PacketHandlerWrapper};
pub use flattenedserializers::{
    DecoderKind, FieldDef, FieldDefKind, FlatField, FlattenedSerializer, FlattenedSerializers,
    PathSeg, SerializerDef,
};
pub use instancebaseline::InstanceBaseline;
pub use messages::{CreateStMsg, PacketEntitiesMsg, UpdateStMsg};
pub use parser::{Context, NopVisitor, Parser, ParserState, Visitor};
pub use stringtables::{StEntry, StringTable, StringTables};

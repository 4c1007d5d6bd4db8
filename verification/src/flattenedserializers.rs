use vstd::prelude::*;

use crate::bitbuf::{bytes_at, varint32_at, BitReader, Decoded, MAX_BUF_BYTES};
use crate::error::DemoError;
use crate::stringtables::clone_bytes;

verus! {

/// The decode rule of one primitive field: how its wire value is read.
#[derive(Clone, Copy, PartialEq, Eq, Structural, Debug)]
pub enum DecoderKind {
    /// One bit.
    BoolRule,
    /// A fixed number of bits, unsigned.
    UnsignedRule,
    /// A 32-bit varint.
    Varint32Rule,
    /// A 64-bit varint.
    Varint64Rule,
    /// A raw 32-bit bit pattern (carried opaquely).
    Float32Rule,
    /// A quantized bit field (carried as its raw bits).
    QuantizedRule,
    /// A length-prefixed byte string.
    StringRule,
}

/// One segment of a flattened field path: a field name, or an index
/// into a repeated field.
pub enum PathSeg {
    Field(Vec<u8>),
    Index(u32),
}

/// The model of a path segment.
pub enum PathSegSpec {
    Field(Seq<u8>),
    Index(u32),
}

impl View for PathSeg {
    type V = PathSegSpec;

    open spec fn view(&self) -> PathSegSpec {
        match self {
            PathSeg::Field(n) => PathSegSpec::Field(n@),
            PathSeg::Index(k) => PathSegSpec::Index(*k),
        }
    }
}

/// One leaf of a flattened serializer: the full path that addresses it
/// and the rule that decodes its value.
pub struct FlatField {
    pub path: Vec<PathSeg>,
    pub decoder: DecoderKind,
    pub bit_count: u32,
}

/// The model of one leaf.
pub struct FlatFieldSpec {
    pub path: Seq<PathSegSpec>,
    pub decoder: DecoderKind,
    pub bit_count: u32,
}

impl View for FlatField {
    type V = FlatFieldSpec;

    open spec fn view(&self) -> FlatFieldSpec {
        FlatFieldSpec {
            path: self.path@.map_values(|s: PathSeg| s@),
            decoder: self.decoder,
            bit_count: self.bit_count,
        }
    }
}

/// The flat, ordinal-addressed field table of one serializer version.
pub type FlattenedSerializer = Vec<FlatField>;

/// The model of a flattened serializer.
pub open spec fn flat_view(f: Seq<FlatField>) -> Seq<FlatFieldSpec> {
    f.map_values(|x: FlatField| x@)
}

/// What one field of a serializer definition is.
pub enum FieldDefKind {
    /// A primitive with a decode rule.
    Primitive { decoder: DecoderKind, bit_count: u32 },
    /// A reference to another serializer by name and version.
    Reference { name: Vec<u8>, version: u32 },
}

/// One field of a serializer definition.
pub struct FieldDef {
    pub name: Vec<u8>,
    pub kind: FieldDefKind,
    pub array_count: Option<u32>,
}

/// One named, versioned serializer definition.
pub struct SerializerDef {
    pub name: Vec<u8>,
    pub version: u32,
    pub fields: Vec<FieldDef>,
}

/// The first definition carrying the given name and version.
pub open spec fn find_def_spec(defs: Seq<SerializerDef>, name: Seq<u8>, version: u32) -> Option<
    int,
>
    decreases defs.len(),
{
    if defs.len() == 0 {
        None
    } else if defs[0].name@ == name && defs[0].version == version {
        Some(0)
    } else {
        match find_def_spec(defs.skip(1), name, version) {
            Some(i) => Some(i + 1),
            None => None,
        }
    }
}

/// Prefixes every path of `sub` with one segment.
pub open spec fn prefix_all(seg: PathSegSpec, sub: Seq<FlatFieldSpec>) -> Seq<FlatFieldSpec> {
    sub.map_values(
        |f: FlatFieldSpec| FlatFieldSpec {
            path: seq![seg].add(f.path),
            decoder: f.decoder,
            bit_count: f.bit_count,
        },
    )
}

/// Materializes a repeated field: for each index below `c`, the leaves
/// of `sub` prefixed with that index, in index order.
pub open spec fn array_expand(sub: Seq<FlatFieldSpec>, c: nat) -> Seq<FlatFieldSpec>
    decreases c,
{
    if c == 0 {
        Seq::empty()
    } else {
        array_expand(sub, (c - 1) as nat) + prefix_all(
            PathSegSpec::Index((c - 1) as u32),
            sub,
        )
    }
}

/// The leaves one field contributes, before its own name is prefixed:
/// a primitive is a single leaf, a reference expands the serializer it
/// names. `None` is a failed expansion: an unknown reference, or a
/// chain deeper than the number of definitions, which must revisit one
/// and is therefore a cycle.
pub open spec fn flatten_field_sub(
    defs: Seq<SerializerDef>,
    f: FieldDef,
    fuel: nat,
) -> Option<Seq<FlatFieldSpec>>
    decreases fuel, 0nat, 0nat,
{
    match f.kind {
        FieldDefKind::Primitive { decoder, bit_count } => Some(
            seq![FlatFieldSpec { path: Seq::empty(), decoder, bit_count }],
        ),
        FieldDefKind::Reference { name, version } => match find_def_spec(defs, name@, version) {
            None => None,
            Some(i) => if fuel == 0 {
                None
            } else {
                spec_flatten(defs, i, (fuel - 1) as nat)
            },
        },
    }
}

/// The leaves a whole field list contributes, in field order.
pub open spec fn flatten_fields(
    defs: Seq<SerializerDef>,
    fields: Seq<FieldDef>,
    fuel: nat,
) -> Option<Seq<FlatFieldSpec>>
    decreases fuel, 1nat, fields.len(),
{
    if fields.len() == 0 {
        Some(Seq::empty())
    } else {
        let f = fields[0];
        let sub = flatten_field_sub(defs, f, fuel);
        match sub {
            None => None,
            Some(sub) => {
                let expanded = match f.array_count {
                    Some(c) => array_expand(sub, c as nat),
                    None => sub,
                };
                let mine = prefix_all(PathSegSpec::Field(f.name@), expanded);
                match flatten_fields(defs, fields.skip(1), fuel) {
                    None => None,
                    Some(rest) => Some(mine + rest),
                }
            },
        }
    }
}

/// The depth-first expansion of one serializer definition into its
/// ordered leaf list. Every entity update addresses leaves by ordinal
/// position in this list, so it must be produced identically every
/// time; being a function of the definitions alone, it is.
pub open spec fn spec_flatten(defs: Seq<SerializerDef>, idx: int, fuel: nat) -> Option<
    Seq<FlatFieldSpec>,
>
    decreases fuel, 2nat, 0nat,
{
    if 0 <= idx < defs.len() {
        flatten_fields(defs, defs[idx].fields@, fuel)
    } else {
        None
    }
}

/// The model of one field definition.
pub struct FieldDefSpec {
    pub name: Seq<u8>,
    pub primitive: bool,
    pub decoder: DecoderKind,
    pub bit_count: u32,
    pub ref_name: Seq<u8>,
    pub ref_version: u32,
    pub array_count: Option<u32>,
}

impl View for FieldDef {
    type V = FieldDefSpec;

    open spec fn view(&self) -> FieldDefSpec {
        match self.kind {
            FieldDefKind::Primitive { decoder, bit_count } => FieldDefSpec {
                name: self.name@,
                primitive: true,
                decoder,
                bit_count,
                ref_name: Seq::empty(),
                ref_version: 0,
                array_count: self.array_count,
            },
            FieldDefKind::Reference { name, version } => FieldDefSpec {
                name: self.name@,
                primitive: false,
                decoder: DecoderKind::BoolRule,
                bit_count: 0,
                ref_name: name@,
                ref_version: version,
                array_count: self.array_count,
            },
        }
    }
}

/// The model of one serializer definition.
pub struct SerializerDefSpec {
    pub name: Seq<u8>,
    pub version: u32,
    pub fields: Seq<FieldDefSpec>,
}

impl View for SerializerDef {
    type V = SerializerDefSpec;

    open spec fn view(&self) -> SerializerDefSpec {
        SerializerDefSpec {
            name: self.name@,
            version: self.version,
            fields: self.fields@.map_values(|f: FieldDef| f@),
        }
    }
}

/// The model of a definition list.
pub open spec fn defs_view(defs: Seq<SerializerDef>) -> Seq<SerializerDefSpec> {
    defs.map_values(|d: SerializerDef| d@)
}

/// The numeric code of a decode rule on the wire.
pub open spec fn decoder_code(b: nat) -> Option<DecoderKind> {
    if b == 0 {
        Some(DecoderKind::BoolRule)
    } else if b == 1 {
        Some(DecoderKind::UnsignedRule)
    } else if b == 2 {
        Some(DecoderKind::Varint32Rule)
    } else if b == 3 {
        Some(DecoderKind::Varint64Rule)
    } else if b == 4 {
        Some(DecoderKind::Float32Rule)
    } else if b == 5 {
        Some(DecoderKind::QuantizedRule)
    } else if b == 6 {
        Some(DecoderKind::StringRule)
    } else {
        None
    }
}

/// Outcome of decoding part of a schema command.
pub enum SdOut<T> {
    Val { v: T, end: int },
    Trunc,
    Malformed,
}

/// A length-prefixed byte string at bit `off`.
pub open spec fn lp_bytes_at(d: Seq<u8>, off: int) -> SdOut<Seq<u8>> {
    match varint32_at(d, off) {
        Decoded::Val { value: len, bits } => if off + bits + 8 * len > d.len() * 8 {
            SdOut::Trunc
        } else {
            SdOut::Val { v: bytes_at(d, off + bits, len), end: off + bits + 8 * len }
        },
        Decoded::Trunc => SdOut::Trunc,
        Decoded::Malformed => SdOut::Malformed,
    }
}

/// One field definition at bit `off`: its name, a primitive/reference
/// bit with the matching payload, and an optional repeat count.
pub open spec fn field_def_at(d: Seq<u8>, off: int) -> SdOut<FieldDefSpec> {
    match lp_bytes_at(d, off) {
        SdOut::Val { v: name, end: o1 } => if o1 + 1 > d.len() * 8 {
            SdOut::Trunc
        } else if !crate::bitbuf::bit_at(d, o1) {
            // primitive: a decoder byte and a bit count
            if o1 + 9 > d.len() * 8 {
                SdOut::Trunc
            } else {
                let code = crate::bitbuf::byte_at(d, o1 + 1);
                match decoder_code(code) {
                    None => SdOut::Malformed,
                    Some(dec) => match varint32_at(d, o1 + 9) {
                        Decoded::Val { value: bc, bits } => array_tail_at(
                            d,
                            o1 + 9 + bits,
                            FieldDefSpec {
                                name,
                                primitive: true,
                                decoder: dec,
                                bit_count: bc as u32,
                                ref_name: Seq::empty(),
                                ref_version: 0,
                                array_count: None,
                            },
                        ),
                        Decoded::Trunc => SdOut::Trunc,
                        Decoded::Malformed => SdOut::Malformed,
                    },
                }
            }
        } else {
            // reference: a serializer name and version
            match lp_bytes_at(d, o1 + 1) {
                SdOut::Val { v: rname, end: o2 } => match varint32_at(d, o2) {
                    Decoded::Val { value: rver, bits } => array_tail_at(
                        d,
                        o2 + bits,
                        FieldDefSpec {
                            name,
                            primitive: false,
                            decoder: DecoderKind::BoolRule,
                            bit_count: 0,
                            ref_name: rname,
                            ref_version: rver as u32,
                            array_count: None,
                        },
                    ),
                    Decoded::Trunc => SdOut::Trunc,
                    Decoded::Malformed => SdOut::Malformed,
                },
                SdOut::Trunc => SdOut::Trunc,
                SdOut::Malformed => SdOut::Malformed,
            }
        },
        SdOut::Trunc => SdOut::Trunc,
        SdOut::Malformed => SdOut::Malformed,
    }
}

/// The trailing repeat marker of a field definition.
pub open spec fn array_tail_at(d: Seq<u8>, off: int, f: FieldDefSpec) -> SdOut<FieldDefSpec> {
    if off + 1 > d.len() * 8 {
        SdOut::Trunc
    } else if !crate::bitbuf::bit_at(d, off) {
        SdOut::Val { v: f, end: off + 1 }
    } else {
        match varint32_at(d, off + 1) {
            Decoded::Val { value: c, bits } => SdOut::Val {
                v: FieldDefSpec { array_count: Some(c as u32), ..f },
                end: off + 1 + bits,
            },
            Decoded::Trunc => SdOut::Trunc,
            Decoded::Malformed => SdOut::Malformed,
        }
    }
}

/// `n` field definitions in sequence.
pub open spec fn fields_at(d: Seq<u8>, off: int, n: nat) -> SdOut<Seq<FieldDefSpec>>
    decreases n,
{
    if n == 0 {
        SdOut::Val { v: Seq::empty(), end: off }
    } else {
        match field_def_at(d, off) {
            SdOut::Val { v: f, end } => match fields_at(d, end, (n - 1) as nat) {
                SdOut::Val { v: rest, end: e2 } => SdOut::Val {
                    v: seq![f].add(rest),
                    end: e2,
                },
                o => o,
            },
            SdOut::Trunc => SdOut::Trunc,
            SdOut::Malformed => SdOut::Malformed,
        }
    }
}

/// One serializer definition: name, version, and its field list.
pub open spec fn ser_def_at(d: Seq<u8>, off: int) -> SdOut<SerializerDefSpec> {
    match lp_bytes_at(d, off) {
        SdOut::Val { v: name, end: o1 } => match varint32_at(d, o1) {
            Decoded::Val { value: ver, bits: b1 } => match varint32_at(d, o1 + b1) {
                Decoded::Val { value: nf, bits: b2 } => match fields_at(
                    d,
                    o1 + b1 + b2,
                    nf,
                ) {
                    SdOut::Val { v: fields, end } => SdOut::Val {
                        v: SerializerDefSpec { name, version: ver as u32, fields },
                        end,
                    },
                    SdOut::Trunc => SdOut::Trunc,
                    SdOut::Malformed => SdOut::Malformed,
                },
                Decoded::Trunc => SdOut::Trunc,
                Decoded::Malformed => SdOut::Malformed,
            },
            Decoded::Trunc => SdOut::Trunc,
            Decoded::Malformed => SdOut::Malformed,
        },
        SdOut::Trunc => SdOut::Trunc,
        SdOut::Malformed => SdOut::Malformed,
    }
}

/// `n` serializer definitions in sequence.
pub open spec fn sers_at(d: Seq<u8>, off: int, n: nat) -> SdOut<Seq<SerializerDefSpec>>
    decreases n,
{
    if n == 0 {
        SdOut::Val { v: Seq::empty(), end: off }
    } else {
        match ser_def_at(d, off) {
            SdOut::Val { v: s, end } => match sers_at(d, end, (n - 1) as nat) {
                SdOut::Val { v: rest, end: e2 } => SdOut::Val {
                    v: seq![s].add(rest),
                    end: e2,
                },
                o => o,
            },
            SdOut::Trunc => SdOut::Trunc,
            SdOut::Malformed => SdOut::Malformed,
        }
    }
}

/// A whole schema command: a count, then that many definitions.
pub open spec fn send_tables_at(d: Seq<u8>) -> SdOut<Seq<SerializerDefSpec>> {
    match varint32_at(d, 0) {
        Decoded::Val { value: n, bits } => sers_at(d, bits as int, n),
        Decoded::Trunc => SdOut::Trunc,
        Decoded::Malformed => SdOut::Malformed,
    }
}

/// Flattening is deterministic: the same definitions and serializer
/// always flatten to the same leaf list.
pub proof fn lemma_flatten_deterministic(
    defs: Seq<SerializerDef>,
    idx: int,
    fuel: nat,
    f1: Seq<FlatFieldSpec>,
    f2: Seq<FlatFieldSpec>,
)
    requires
        spec_flatten(defs, idx, fuel) == Some(f1),
        spec_flatten(defs, idx, fuel) == Some(f2),
    ensures
        f1 == f2,
{
}

/// Compares two byte strings.
pub(crate) fn bytes_eq(a: &Vec<u8>, b: &Vec<u8>) -> (r: bool)
    ensures
        r == (a@ == b@),
{
    if a.len() != b.len() {
        proof {
            assert(a@ != b@);
        }
        return false;
    }
    let mut i: usize = 0;
    while i < a.len()
        invariant
            i <= a@.len() == b@.len(),
            forall|j: int| 0 <= j < i ==> a@[j] == b@[j],
        decreases a@.len() - i,
    {
        if a[i] != b[i] {
            proof {
                assert(a@[i as int] != b@[i as int]);
            }
            return false;
        }
        i = i + 1;
    }
    proof {
        assert(a@ =~= b@);
    }
    true
}

/// A length-prefixed byte string from the cursor.
fn read_lp_bytes(br: &mut BitReader) -> (r: Result<Vec<u8>, DemoError>)
    requires
        old(br).wf(),
    ensures
        final(br).wf(),
        final(br).sdata() == old(br).sdata(),
        match r {
            Ok(v) => lp_bytes_at(old(br).sdata(), old(br).soff() as int) matches SdOut::Val {
                v: sv,
                end,
            } && v@ == sv && final(br).soff() == end,
            Err(e) => {
                &&& (e == DemoError::Truncated || e == DemoError::MalformedVarint)
                &&& (e == DemoError::Truncated <==> lp_bytes_at(
                    old(br).sdata(),
                    old(br).soff() as int,
                ) is Trunc)
                &&& (e == DemoError::MalformedVarint <==> lp_bytes_at(
                    old(br).sdata(),
                    old(br).soff() as int,
                ) is Malformed)
            },
        },
{
    let len = br.read_varint32()?;
    match br.read_bytes(len as usize) {
        Ok(v) => Ok(v),
        Err(_) => Err(DemoError::Truncated),
    }
}

/// One field definition from the cursor.
fn read_field_def(br: &mut BitReader) -> (r: Result<FieldDef, DemoError>)
    requires
        old(br).wf(),
    ensures
        final(br).wf(),
        final(br).sdata() == old(br).sdata(),
        match r {
            Ok(f) => field_def_at(old(br).sdata(), old(br).soff() as int) matches SdOut::Val {
                v,
                end,
            } && f@ == v && final(br).soff() == end,
            Err(e) => {
                &&& (e == DemoError::Truncated || e == DemoError::MalformedVarint || e
                    == DemoError::MalformedPath)
                &&& (e == DemoError::Truncated <==> field_def_at(
                    old(br).sdata(),
                    old(br).soff() as int,
                ) is Trunc)
                &&& ((e == DemoError::MalformedVarint || e == DemoError::MalformedPath)
                    <==> field_def_at(old(br).sdata(), old(br).soff() as int) is Malformed)
            },
        },
{
    let name = read_lp_bytes(br)?;
    let is_ref = match br.read_bool() {
        Ok(b) => b,
        Err(_) => {
            return Err(DemoError::Truncated);
        },
    };
    let kind: FieldDefKind = if !is_ref {
        let code = match br.read_bits(8) {
            Ok(c) => c,
            Err(_) => {
                return Err(DemoError::Truncated);
            },
        };
        let dec = if code == 0 {
            DecoderKind::BoolRule
        } else if code == 1 {
            DecoderKind::UnsignedRule
        } else if code == 2 {
            DecoderKind::Varint32Rule
        } else if code == 3 {
            DecoderKind::Varint64Rule
        } else if code == 4 {
            DecoderKind::Float32Rule
        } else if code == 5 {
            DecoderKind::QuantizedRule
        } else if code == 6 {
            DecoderKind::StringRule
        } else {
            return Err(DemoError::MalformedPath);
        };
        let bc = match br.read_varint32() {
            Ok(v) => v,
            Err(e) => {
                return Err(e);
            },
        };
        FieldDefKind::Primitive { decoder: dec, bit_count: bc }
    } else {
        let rname = match read_lp_bytes(br) {
            Ok(v) => v,
            Err(e) => {
                return Err(e);
            },
        };
        let rver = match br.read_varint32() {
            Ok(v) => v,
            Err(e) => {
                return Err(e);
            },
        };
        FieldDefKind::Reference { name: rname, version: rver }
    };
    let has_array = match br.read_bool() {
        Ok(b) => b,
        Err(_) => {
            return Err(DemoError::Truncated);
        },
    };
    let array_count: Option<u32> = if has_array {
        match br.read_varint32() {
            Ok(v) => Some(v),
            Err(e) => {
                return Err(e);
            },
        }
    } else {
        None
    };
    Ok(FieldDef { name, kind, array_count })
}

/// A run of `n` field definitions from the cursor.
#[verifier::rlimit(100)]
#[verifier::spinoff_prover]
fn read_fields(br: &mut BitReader, n: u32) -> (r: Result<Vec<FieldDef>, DemoError>)
    requires
        old(br).wf(),
    ensures
        final(br).wf(),
        final(br).sdata() == old(br).sdata(),
        match r {
            Ok(fs) => fields_at(old(br).sdata(), old(br).soff() as int, n as nat)
                matches SdOut::Val { v, end } && fs@.map_values(|f: FieldDef| f@) == v
                && final(br).soff() == end,
            Err(e) => {
                &&& (e == DemoError::Truncated || e == DemoError::MalformedVarint || e
                    == DemoError::MalformedPath)
                &&& (e == DemoError::Truncated <==> fields_at(
                    old(br).sdata(),
                    old(br).soff() as int,
                    n as nat,
                ) is Trunc)
                &&& ((e == DemoError::MalformedVarint || e == DemoError::MalformedPath)
                    <==> fields_at(old(br).sdata(), old(br).soff() as int, n as nat)
                    is Malformed)
            },
        },
{
    let ghost d = old(br).sdata();
    let mut fields: Vec<FieldDef> = Vec::new();
    let mut i: u32 = 0;
    let ghost fstart = br.soff() as int;
    let ghost whole = fields_at(d, fstart, n as nat);
    proof {
        assert(fields@.map_values(|f: FieldDef| f@) =~= Seq::<FieldDefSpec>::empty());
        match whole {
            SdOut::Val { v, end } => {
                assert(Seq::<FieldDefSpec>::empty() + v =~= v);
            },
            _ => {},
        }
    }
    while i < n
        invariant
            br.wf(),
            br.sdata() == d,
            d == old(br).sdata(),
            fstart == old(br).soff() as int,
            i <= n,
            whole == fields_at(d, fstart, n as nat),
            match fields_at(d, br.soff() as int, (n - i) as nat) {
                SdOut::Val { v: rest, end } => whole == (SdOut::Val {
                    v: fields@.map_values(|f: FieldDef| f@) + rest,
                    end,
                }),
                SdOut::Trunc => whole is Trunc,
                SdOut::Malformed => whole is Malformed,
            },
        decreases n - i,
    {
        let ghost pre = fields@.map_values(|f: FieldDef| f@);
        let f = match read_field_def(br) {
            Ok(f) => f,
            Err(e) => {
                return Err(e);
            },
        };
        let ghost fv = f@;
        fields.push(f);
        proof {
            assert(fields@.map_values(|x: FieldDef| x@) =~= pre.push(fv));
            match fields_at(d, br.soff() as int, (n - i - 1) as nat) {
                SdOut::Val { v: rest, end } => {
                    assert(pre + (seq![fv].add(rest)) =~= pre.push(fv) + rest);
                },
                _ => {},
            }
        }
        i = i + 1;
    }
    proof {
        assert(fields@.map_values(|x: FieldDef| x@) + Seq::<FieldDefSpec>::empty()
            =~= fields@.map_values(|x: FieldDef| x@));
    }
    Ok(fields)
}

/// One serializer definition from the cursor.
#[verifier::rlimit(100)]
#[verifier::spinoff_prover]
fn read_ser_def(br: &mut BitReader) -> (r: Result<SerializerDef, DemoError>)
    requires
        old(br).wf(),
    ensures
        final(br).wf(),
        final(br).sdata() == old(br).sdata(),
        match r {
            Ok(s) => ser_def_at(old(br).sdata(), old(br).soff() as int) matches SdOut::Val {
                v,
                end,
            } && s@ == v && final(br).soff() == end,
            Err(e) => {
                &&& (e == DemoError::Truncated || e == DemoError::MalformedVarint || e
                    == DemoError::MalformedPath)
                &&& (e == DemoError::Truncated <==> ser_def_at(
                    old(br).sdata(),
                    old(br).soff() as int,
                ) is Trunc)
                &&& ((e == DemoError::MalformedVarint || e == DemoError::MalformedPath)
                    <==> ser_def_at(old(br).sdata(), old(br).soff() as int) is Malformed)
            },
        },
{
    let ghost d = old(br).sdata();
    let name = read_lp_bytes(br)?;
    let version = match br.read_varint32() {
        Ok(v) => v,
        Err(e) => {
            return Err(e);
        },
    };
    let nf = match br.read_varint32() {
        Ok(v) => v,
        Err(e) => {
            return Err(e);
        },
    };
    let fields = read_fields(br, nf)?;
    let s = SerializerDef { name, version, fields };
    Ok(s)
}

/// Copies one path segment.
fn clone_seg(s: &PathSeg) -> (r: PathSeg)
    ensures
        r@ == s@,
{
    match s {
        PathSeg::Field(n) => PathSeg::Field(clone_bytes(n)),
        PathSeg::Index(k) => PathSeg::Index(*k),
    }
}

/// A leaf of `sub` with one extra leading path segment.
fn prefix_one(seg: &PathSeg, f: &FlatField) -> (r: FlatField)
    ensures
        r@ == (FlatFieldSpec {
            path: seq![seg@].add(f@.path),
            decoder: f@.decoder,
            bit_count: f@.bit_count,
        }),
{
    let mut p: Vec<PathSeg> = Vec::new();
    p.push(clone_seg(seg));
    let mut i: usize = 0;
    while i < f.path.len()
        invariant
            i <= f.path@.len(),
            p@.len() == i + 1,
            p@.map_values(|s: PathSeg| s@) == seq![seg@].add(
                f.path@.map_values(|s: PathSeg| s@).take(i as int),
            ),
        decreases f.path@.len() - i,
    {
        let ghost pv = p@.map_values(|s: PathSeg| s@);
        p.push(clone_seg(&f.path[i]));
        proof {
            assert(p@.map_values(|s: PathSeg| s@) =~= pv.push(f.path@[i as int]@));
            assert(pv.push(f.path@[i as int]@) =~= seq![seg@].add(
                f.path@.map_values(|s: PathSeg| s@).take(i + 1),
            ));
        }
        i = i + 1;
    }
    proof {
        assert(f.path@.map_values(|s: PathSeg| s@).take(f.path@.len() as int) =~= f.path@
            .map_values(|s: PathSeg| s@));
        assert(p@.map_values(|s: PathSeg| s@) =~= seq![seg@].add(
            f.path@.map_values(|s: PathSeg| s@),
        ));
    }
    FlatField { path: p, decoder: f.decoder, bit_count: f.bit_count }
}

/// Appends every leaf of `sub`, prefixed with `seg`, to `out`.
fn push_prefixed(out: &mut Vec<FlatField>, seg: &PathSeg, sub: &Vec<FlatField>)
    ensures
        flat_view(final(out)@) == flat_view(old(out)@) + prefix_all(seg@, flat_view(sub@)),
{
    let mut i: usize = 0;
    proof {
        assert(flat_view(out@) =~= flat_view(out@) + prefix_all(seg@, flat_view(sub@)).take(0));
    }
    while i < sub.len()
        invariant
            i <= sub@.len(),
            flat_view(out@) == flat_view(old(out)@) + prefix_all(seg@, flat_view(sub@)).take(
                i as int,
            ),
        decreases sub@.len() - i,
    {
        let ghost pre = flat_view(out@);
        let nf = prefix_one(seg, &sub[i]);
        let ghost nv = nf@;
        out.push(nf);
        proof {
            assert(flat_view(out@) =~= pre.push(nv));
            assert(prefix_all(seg@, flat_view(sub@))[i as int] == nv);
            assert(pre.push(nv) =~= flat_view(old(out)@) + prefix_all(
                seg@,
                flat_view(sub@),
            ).take(i + 1));
        }
        i = i + 1;
    }
    proof {
        assert(prefix_all(seg@, flat_view(sub@)).take(sub@.len() as int) =~= prefix_all(
            seg@,
            flat_view(sub@),
        ));
    }
}

/// Finds the first definition with the given name and version.
fn find_def(defs: &Vec<SerializerDef>, name: &Vec<u8>, version: u32) -> (r: Option<usize>)
    ensures
        match r {
            Some(i) => find_def_spec(defs@, name@, version) == Some(i as int) && i
                < defs@.len(),
            None => find_def_spec(defs@, name@, version) is None,
        },
{
    let mut j: usize = 0;
    proof {
        assert(defs@.skip(0) =~= defs@);
    }
    while j < defs.len()
        invariant
            j <= defs@.len(),
            find_def_spec(defs@, name@, version) == (match find_def_spec(
                defs@.skip(j as int),
                name@,
                version,
            ) {
                Some(i) => Some(i + j),
                None => None::<int>,
            }),
        decreases defs@.len() - j,
    {
        proof {
            assert(defs@.skip(j as int)[0] == defs@[j as int]);
            assert(defs@.skip(j as int).skip(1) =~= defs@.skip(j + 1));
        }
        if bytes_eq(&defs[j].name, name) && defs[j].version == version {
            return Some(j);
        }
        j = j + 1;
    }
    None
}

/// Expands one serializer definition into its leaf list; the exec
/// mirror of `spec_flatten`, with a fuel bound in place of the
/// unbounded recursion a cyclic schema would cause.
#[verifier::rlimit(100)]
fn flatten_def(defs: &Vec<SerializerDef>, idx: usize, fuel: u64) -> (r: Result<
    Vec<FlatField>,
    DemoError,
>)
    requires
        idx < defs@.len(),
    ensures
        match r {
            Ok(f) => spec_flatten(defs@, idx as int, fuel as nat) == Some(flat_view(f@)),
            Err(e) => {
                &&& spec_flatten(defs@, idx as int, fuel as nat) is None
                &&& (e == DemoError::CyclicSerializer || e == DemoError::UnknownClass)
            },
        },
    decreases fuel,
{
    let ghost dv = defs@;
    let nf = defs[idx].fields.len();
    let mut out: Vec<FlatField> = Vec::new();
    let mut j: usize = 0;
    let ghost whole = flatten_fields(dv, defs@[idx as int].fields@, fuel as nat);
    proof {
        assert(defs@[idx as int].fields@.skip(0) =~= defs@[idx as int].fields@);
        assert(flat_view(out@) =~= Seq::<FlatFieldSpec>::empty());
        match whole {
            Some(v) => {
                assert(Seq::<FlatFieldSpec>::empty() + v =~= v);
            },
            None => {},
        }
    }
    while j < nf
        invariant
            j <= nf == defs@[idx as int].fields@.len(),
            idx < defs@.len(),
            dv == defs@,
            whole == flatten_fields(dv, defs@[idx as int].fields@, fuel as nat),
            match flatten_fields(dv, defs@[idx as int].fields@.skip(j as int), fuel as nat) {
                Some(rest) => whole == Some(flat_view(out@) + rest),
                None => whole is None,
            },
        decreases nf - j,
    {
        let ghost pre = flat_view(out@);
        let ghost fseq = defs@[idx as int].fields@;
        proof {
            assert(fseq.skip(j as int)[0] == fseq[j as int]);
            assert(fseq.skip(j as int).skip(1) =~= fseq.skip(j + 1));
        }
        // the leaves this field contributes, without its name prefix
        let sub: Vec<FlatField> = {
            let fd = &defs[idx].fields[j];
            match &fd.kind {
                FieldDefKind::Primitive { decoder, bit_count } => {
                    let mut s: Vec<FlatField> = Vec::new();
                    s.push(FlatField { path: Vec::new(), decoder: *decoder, bit_count: *bit_count });
                    proof {
                        assert(s@[0]@.path =~= Seq::<PathSegSpec>::empty());
                        assert(fd.kind matches FieldDefKind::Primitive {
                            decoder: dd,
                            bit_count: bb,
                        } && dd == *decoder && bb == *bit_count);
                        assert(s@[0]@ == (FlatFieldSpec {
                            path: Seq::<PathSegSpec>::empty(),
                            decoder: fd@.decoder,
                            bit_count: fd@.bit_count,
                        }));
                        assert(flat_view(s@) =~= seq![
                            FlatFieldSpec {
                                path: Seq::empty(),
                                decoder: fd@.decoder,
                                bit_count: fd@.bit_count,
                            },
                        ]);
                    }
                    s
                },
                FieldDefKind::Reference { name, version } => {
                    let ci = match find_def(defs, name, *version) {
                        Some(i) => i,
                        None => {
                            return Err(DemoError::UnknownClass);
                        },
                    };
                    if fuel == 0 {
                        return Err(DemoError::CyclicSerializer);
                    }
                    match flatten_def(defs, ci, fuel - 1) {
                        Ok(s) => s,
                        Err(e) => {
                            return Err(e);
                        },
                    }
                },
            }
        };
        proof {
            assert(flatten_field_sub(dv, fseq[j as int], fuel as nat) == Some(flat_view(sub@)));
        }
        // materialize a repeated field, then prefix the field's name
        let fd = &defs[idx].fields[j];
        match fd.array_count {
            Some(c) => {
                let mut expanded: Vec<FlatField> = Vec::new();
                let mut k: u32 = 0;
                proof {
                    assert(flat_view(expanded@) =~= array_expand(flat_view(sub@), 0));
                }
                while k < c
                    invariant
                        k <= c,
                        flat_view(expanded@) == array_expand(flat_view(sub@), k as nat),
                    decreases c - k,
                {
                    push_prefixed(&mut expanded, &PathSeg::Index(k), &sub);
                    k = k + 1;
                }
                push_prefixed(&mut out, &PathSeg::Field(clone_bytes(&fd.name)), &expanded);
            },
            None => {
                push_prefixed(&mut out, &PathSeg::Field(clone_bytes(&fd.name)), &sub);
            },
        }
        proof {
            match flatten_fields(dv, fseq.skip(j + 1), fuel as nat) {
                Some(rest) => {
                    let mine = prefix_all(
                        PathSegSpec::Field(fseq[j as int].name@),
                        match fseq[j as int].array_count {
                            Some(c) => array_expand(
                                flatten_field_sub(dv, fseq[j as int], fuel as nat).unwrap(),
                                c as nat,
                            ),
                            None => flatten_field_sub(dv, fseq[j as int], fuel as nat).unwrap(),
                        },
                    );
                    assert(flat_view(out@) =~= pre + mine);
                    assert(pre + (mine + rest) =~= (pre + mine) + rest);
                },
                None => {},
            }
        }
        j = j + 1;
    }
    proof {
        assert(defs@[idx as int].fields@.skip(nf as int) =~= Seq::<FieldDef>::empty());
        match whole {
            Some(v) => {
                assert(flat_view(out@) + Seq::<FlatFieldSpec>::empty() =~= flat_view(out@));
            },
            None => {},
        }
    }
    Ok(out)
}

/// The schema table: the serializer definitions of one demo and, per
/// definition, the memoized flat field list, computed on first use and
/// never recomputed for an already-cached serializer.
pub struct FlattenedSerializers {
    defs: Vec<SerializerDef>,
    cache: Vec<Option<FlattenedSerializer>>,
}

impl FlattenedSerializers {
    /// The definitions, in command order.
    pub closed spec fn sdefs(&self) -> Seq<SerializerDef> {
        self.defs@
    }

    /// The cache, parallel to the definitions.
    pub closed spec fn scache(&self) -> Seq<Option<FlattenedSerializer>> {
        self.cache@
    }

    /// Every cached entry is exactly the flattening of its definition.
    pub open spec fn wf(&self) -> bool {
        &&& self.sdefs().len() <= 0xFFFF_FFFF
        &&& self.scache().len() == self.sdefs().len()
        &&& forall|i: int|
            0 <= i < self.scache().len() ==> (#[trigger] self.scache()[i] matches Some(f)
                ==> spec_flatten(self.sdefs(), i, self.sdefs().len() + 1) == Some(
                flat_view(f@),
            ))
    }

    pub fn new() -> (r: Self)
        ensures
            r.wf(),
            r.sdefs().len() == 0,
    {
        FlattenedSerializers { defs: Vec::new(), cache: Vec::new() }
    }

    /// Reads the schema command, replacing any definitions already
    /// held and clearing the cache.
    #[verifier::rlimit(100)]
    #[verifier::spinoff_prover]
    pub fn parse(&mut self, data: &Vec<u8>) -> (r: Result<(), DemoError>)
        requires
            data@.len() <= MAX_BUF_BYTES,
        ensures
            final(self).wf(),
            match r {
                Ok(()) => send_tables_at(data@) matches SdOut::Val { v, end } && defs_view(
                    final(self).sdefs(),
                ) == v,
                Err(e) => {
                    &&& (e == DemoError::Truncated || e == DemoError::MalformedVarint || e
                        == DemoError::MalformedPath)
                    &&& (e == DemoError::Truncated <==> send_tables_at(data@) is Trunc)
                    &&& ((e == DemoError::MalformedVarint || e == DemoError::MalformedPath)
                        <==> send_tables_at(data@) is Malformed)
                },
            },
    {
        let ghost d = data@;
        let mut br = BitReader::new(data);
        let n = match br.read_varint32() {
            Ok(v) => v,
            Err(e) => {
                self.cache = Vec::new();
                self.defs = Vec::new();
                proof {
                    assert(self.wf());
                }
                return Err(e);
            },
        };
        let mut defs: Vec<SerializerDef> = Vec::new();
        let mut i: u32 = 0;
        let ghost sstart = br.soff() as int;
        let ghost whole = sers_at(d, sstart, n as nat);
        proof {
            assert(defs_view(defs@) =~= Seq::<SerializerDefSpec>::empty());
            match whole {
                SdOut::Val { v, end } => {
                    assert(Seq::<SerializerDefSpec>::empty() + v =~= v);
                },
                _ => {},
            }
        }
        while i < n
            invariant
                br.wf(),
                br.sdata() == d,
                d == data@,
                i <= n,
                defs@.len() == i,
                whole == sers_at(d, sstart, n as nat),
                varint32_at(d, 0) is Val && sstart >= 0,
                send_tables_at(d) == (match sers_at(d, sstart, n as nat) {
                    SdOut::Val { v, end } => SdOut::Val { v, end },
                    SdOut::Trunc => SdOut::Trunc,
                    SdOut::Malformed => SdOut::Malformed,
                }),
                match sers_at(d, br.soff() as int, (n - i) as nat) {
                    SdOut::Val { v: rest, end } => whole == (SdOut::Val {
                        v: defs_view(defs@) + rest,
                        end,
                    }),
                    SdOut::Trunc => whole is Trunc,
                    SdOut::Malformed => whole is Malformed,
                },
            decreases n - i,
        {
            let ghost pre = defs_view(defs@);
            let s = match read_ser_def(&mut br) {
                Ok(s) => s,
                Err(e) => {
                    self.cache = Vec::new();
                    self.defs = Vec::new();
                    proof {
                        assert(self.wf());
                    }
                    return Err(e);
                },
            };
            let ghost sv = s@;
            defs.push(s);
            proof {
                assert(defs_view(defs@) =~= pre.push(sv));
                match sers_at(d, br.soff() as int, (n - i - 1) as nat) {
                    SdOut::Val { v: rest, end } => {
                        assert(pre + (seq![sv].add(rest)) =~= pre.push(sv) + rest);
                    },
                    _ => {},
                }
            }
            i = i + 1;
        }
        proof {
            assert(defs_view(defs@) + Seq::<SerializerDefSpec>::empty() =~= defs_view(defs@));
        }
        let nd = defs.len();
        self.defs = defs;
        let mut cache: Vec<Option<FlattenedSerializer>> = Vec::new();
        let mut k: usize = 0;
        while k < nd
            invariant
                k <= nd,
                cache@.len() == k,
                forall|i2: int| 0 <= i2 < k ==> cache@[i2] is None,
            decreases nd - k,
        {
            cache.push(None);
            k = k + 1;
        }
        self.cache = cache;
        Ok(())
    }

    /// How many definitions the schema holds.
    pub fn len(&self) -> (r: usize)
        ensures
            r == self.sdefs().len(),
    {
        self.defs.len()
    }

    /// The index of the definition with the given name and version.
    pub fn find(&self, name: &Vec<u8>, version: u32) -> (r: Option<usize>)
        ensures
            match r {
                Some(i) => find_def_spec(self.sdefs(), name@, version) == Some(i as int) && i
                    < self.sdefs().len(),
                None => find_def_spec(self.sdefs(), name@, version) is None,
            },
    {
        find_def(&self.defs, name, version)
    }

    /// Flattens the definition at `idx` on first use; a later call for
    /// an already-cached index recomputes nothing and changes nothing.
    pub fn ensure_flattened(&mut self, idx: usize) -> (r: Result<(), DemoError>)
        requires
            old(self).wf(),
            idx < old(self).sdefs().len(),
        ensures
            final(self).wf(),
            final(self).sdefs() == old(self).sdefs(),
            final(self).scache().len() == old(self).scache().len(),
            old(self).scache()[idx as int] is Some ==> *final(self) == *old(self) && r is Ok,
            forall|j: int|
                0 <= j < old(self).scache().len() && j != idx ==> final(self).scache()[j]
                    == old(self).scache()[j],
            match r {
                Ok(()) => final(self).scache()[idx as int] matches Some(f) && spec_flatten(
                    final(self).sdefs(),
                    idx as int,
                    final(self).sdefs().len() + 1,
                ) == Some(flat_view(f@)),
                Err(e) => {
                    &&& spec_flatten(
                        old(self).sdefs(),
                        idx as int,
                        old(self).sdefs().len() + 1,
                    ) is None
                    &&& (e == DemoError::CyclicSerializer || e == DemoError::UnknownClass)
                },
            },
    {
        let cached = match &self.cache[idx] {
            Some(_) => true,
            None => false,
        };
        if cached {
            return Ok(());
        }
        let fuel: u64 = self.defs.len() as u64 + 1;
        match flatten_def(&self.defs, idx, fuel) {
            Ok(f) => {
                self.cache.set(idx, Some(f));
                Ok(())
            },
            Err(e) => Err(e),
        }
    }

    /// The cached flat field list of the definition at `idx`.
    pub fn flat(&self, idx: usize) -> (r: Result<&FlattenedSerializer, DemoError>)
        requires
            self.wf(),
        ensures
            match r {
                Ok(f) => {
                    &&& idx < self.sdefs().len()
                    &&& self.scache()[idx as int] matches Some(c) && c@ == f@
                    &&& spec_flatten(self.sdefs(), idx as int, self.sdefs().len() + 1)
                        == Some(flat_view(f@))
                },
                Err(e) => {
                    &&& e == DemoError::UnknownClass
                    &&& (idx >= self.scache().len() || self.scache()[idx as int] is None)
                },
            },
            r is Err <==> (idx >= self.scache().len() || self.scache()[idx as int] is None),
    {
        if idx >= self.cache.len() {
            return Err(DemoError::UnknownClass);
        }
        match &self.cache[idx] {
            Some(f) => Ok(f),
            None => Err(DemoError::UnknownClass),
        }
    }
}

} // verus!

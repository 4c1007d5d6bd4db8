use vstd::prelude::*;

use crate::bitbuf::{
    bit_at, bits_seq, decode_bits, ubitvar_at, varint32_at, varint64_at, BitReader, Decoded,
    MAX_BUF_BYTES,
};
use crate::entityclasses::EntityClasses;
use crate::error::DemoError;
use crate::flattenedserializers::{
    flat_view, lp_bytes_at, DecoderKind, FlatFieldSpec, FlattenedSerializer,
    FlattenedSerializers, SdOut, SerializerDef,
};
use crate::instancebaseline::InstanceBaseline;
use std::collections::HashMap;

verus! {

/// The skip value that ends a changed-path list.
pub const PATH_SENTINEL: u32 = 0xFFFF_FFFF;

/// One decoded field value. Floating-point and quantized rules carry
/// their raw wire bits; interpreting them is the caller's business.
pub enum FieldValue {
    U32(u32),
    U64(u64),
    BoolV(bool),
    Bytes(Vec<u8>),
    Float32Raw(u32),
    QuantizedRaw(u32),
}

/// The model of one field value.
pub enum FieldValueSpec {
    U32(u32),
    U64(u64),
    BoolV(bool),
    Bytes(Seq<u8>),
    Float32Raw(u32),
    QuantizedRaw(u32),
}

impl View for FieldValue {
    type V = FieldValueSpec;

    open spec fn view(&self) -> FieldValueSpec {
        match self {
            FieldValue::U32(v) => FieldValueSpec::U32(*v),
            FieldValue::U64(v) => FieldValueSpec::U64(*v),
            FieldValue::BoolV(v) => FieldValueSpec::BoolV(*v),
            FieldValue::Bytes(v) => FieldValueSpec::Bytes(v@),
            FieldValue::Float32Raw(v) => FieldValueSpec::Float32Raw(*v),
            FieldValue::QuantizedRaw(v) => FieldValueSpec::QuantizedRaw(*v),
        }
    }
}

/// The model of a sparse field store.
pub open spec fn fields_view(fs: Seq<Option<FieldValue>>) -> Seq<Option<FieldValueSpec>> {
    fs.map_values(
        |f: Option<FieldValue>|
            match f {
                Some(v) => Some(v@),
                None => None,
            },
    )
}

/// Outcome of decoding one field value.
pub enum FvOut {
    Val { v: FieldValueSpec, end: int },
    Trunc,
    Malformed,
}

/// The wire value of one field under its decode rule, at bit `off`.
pub open spec fn field_value_at(d: Seq<u8>, off: int, dec: DecoderKind, bit_count: u32) -> FvOut {
    match dec {
        DecoderKind::BoolRule => if off + 1 > d.len() * 8 {
            FvOut::Trunc
        } else {
            FvOut::Val { v: FieldValueSpec::BoolV(bit_at(d, off)), end: off + 1 }
        },
        DecoderKind::UnsignedRule => if bit_count > 32 {
            FvOut::Malformed
        } else if off + bit_count > d.len() * 8 {
            FvOut::Trunc
        } else {
            FvOut::Val {
                v: FieldValueSpec::U32(
                    decode_bits(bits_seq(d, off, bit_count as nat)) as u32,
                ),
                end: off + bit_count,
            }
        },
        DecoderKind::Varint32Rule => match varint32_at(d, off) {
            Decoded::Val { value, bits } => FvOut::Val {
                v: FieldValueSpec::U32(value as u32),
                end: off + bits,
            },
            Decoded::Trunc => FvOut::Trunc,
            Decoded::Malformed => FvOut::Malformed,
        },
        DecoderKind::Varint64Rule => match varint64_at(d, off) {
            Decoded::Val { value, bits } => FvOut::Val {
                v: FieldValueSpec::U64(value as u64),
                end: off + bits,
            },
            Decoded::Trunc => FvOut::Trunc,
            Decoded::Malformed => FvOut::Malformed,
        },
        DecoderKind::Float32Rule => if off + 32 > d.len() * 8 {
            FvOut::Trunc
        } else {
            FvOut::Val {
                v: FieldValueSpec::Float32Raw(decode_bits(bits_seq(d, off, 32)) as u32),
                end: off + 32,
            }
        },
        DecoderKind::QuantizedRule => if bit_count > 32 {
            FvOut::Malformed
        } else if off + bit_count > d.len() * 8 {
            FvOut::Trunc
        } else {
            FvOut::Val {
                v: FieldValueSpec::QuantizedRaw(
                    decode_bits(bits_seq(d, off, bit_count as nat)) as u32,
                ),
                end: off + bit_count,
            }
        },
        DecoderKind::StringRule => match lp_bytes_at(d, off) {
            SdOut::Val { v, end } => FvOut::Val { v: FieldValueSpec::Bytes(v), end },
            SdOut::Trunc => FvOut::Trunc,
            SdOut::Malformed => FvOut::Malformed,
        },
    }
}

/// Reads one field value under its decode rule.
pub fn read_field_value(br: &mut BitReader, dec: DecoderKind, bit_count: u32) -> (r: Result<
    FieldValue,
    DemoError,
>)
    requires
        old(br).wf(),
    ensures
        final(br).wf(),
        final(br).sdata() == old(br).sdata(),
        match r {
            Ok(v) => field_value_at(old(br).sdata(), old(br).soff() as int, dec, bit_count)
                matches FvOut::Val { v: sv, end } && v@ == sv && final(br).soff() == end,
            Err(e) => {
                &&& (e == DemoError::Truncated || e == DemoError::MalformedVarint || e
                    == DemoError::MalformedPath)
                &&& (e == DemoError::Truncated <==> field_value_at(
                    old(br).sdata(),
                    old(br).soff() as int,
                    dec,
                    bit_count,
                ) is Trunc)
                &&& ((e == DemoError::MalformedVarint || e == DemoError::MalformedPath)
                    <==> field_value_at(
                    old(br).sdata(),
                    old(br).soff() as int,
                    dec,
                    bit_count,
                ) is Malformed)
            },
        },
{
    match dec {
        DecoderKind::BoolRule => match br.read_bool() {
            Ok(b) => Ok(FieldValue::BoolV(b)),
            Err(_) => Err(DemoError::Truncated),
        },
        DecoderKind::UnsignedRule => {
            if bit_count > 32 {
                return Err(DemoError::MalformedPath);
            }
            match br.read_bits(bit_count as usize) {
                Ok(v) => Ok(FieldValue::U32(v)),
                Err(_) => Err(DemoError::Truncated),
            }
        },
        DecoderKind::Varint32Rule => match br.read_varint32() {
            Ok(v) => Ok(FieldValue::U32(v)),
            Err(e) => Err(e),
        },
        DecoderKind::Varint64Rule => match br.read_varint64() {
            Ok(v) => Ok(FieldValue::U64(v)),
            Err(e) => Err(e),
        },
        DecoderKind::Float32Rule => match br.read_bits(32) {
            Ok(v) => Ok(FieldValue::Float32Raw(v)),
            Err(_) => Err(DemoError::Truncated),
        },
        DecoderKind::QuantizedRule => {
            if bit_count > 32 {
                return Err(DemoError::MalformedPath);
            }
            match br.read_bits(bit_count as usize) {
                Ok(v) => Ok(FieldValue::QuantizedRaw(v)),
                Err(_) => Err(DemoError::Truncated),
            }
        },
        DecoderKind::StringRule => {
            let len = match br.read_varint32() {
                Ok(v) => v,
                Err(e) => {
                    return Err(e);
                },
            };
            match br.read_bytes(len as usize) {
                Ok(v) => Ok(FieldValue::Bytes(v)),
                Err(_) => Err(DemoError::Truncated),
            }
        },
    }
}

/// Outcome of decoding a changed-path list.
pub enum POut {
    Val { ords: Seq<usize>, end: int },
    Trunc,
    Malformed,
}

/// The changed-path ordinals at bit `off`: repeatedly read a skip
/// count, advance past that many unmarked paths, and mark the next
/// one; the sentinel skip ends the list. `prev` is the last marked
/// ordinal, or -1 at the start.
pub open spec fn paths_at(d: Seq<u8>, off: int, npaths: usize, prev: int) -> POut
    decreases npaths - prev,
{
    match ubitvar_at(d, off) {
        Decoded::Val { value: skip, bits } => if skip == PATH_SENTINEL {
            POut::Val { ords: Seq::empty(), end: off + bits }
        } else {
            let ord = prev + 1 + skip;
            if ord >= npaths || prev >= npaths {
                POut::Malformed
            } else {
                match paths_at(d, off + bits, npaths, ord) {
                    POut::Val { ords, end } => POut::Val {
                        ords: seq![ord as usize].add(ords),
                        end,
                    },
                    o => o,
                }
            }
        },
        _ => POut::Trunc,
    }
}

/// Reads a changed-path list against an index space of `npaths` paths.
/// A skip sequence such as `[0, 2, sentinel]` over `0..N` marks
/// exactly the ordinals `{0, 3}`.
pub fn decode_changed_paths(br: &mut BitReader, npaths: usize) -> (r: Result<
    Vec<usize>,
    DemoError,
>)
    requires
        old(br).wf(),
        npaths <= 0x7FFF_FFFF,
    ensures
        final(br).wf(),
        final(br).sdata() == old(br).sdata(),
        match r {
            Ok(ords) => paths_at(old(br).sdata(), old(br).soff() as int, npaths, -1)
                matches POut::Val { ords: so, end } && ords@ == so && final(br).soff() == end
                && (forall|j: int| 0 <= j < ords@.len() ==> (#[trigger] ords@[j]) < npaths)
                && (forall|a: int, b: int|
                0 <= a < b < ords@.len() ==> ords@[a] < ords@[b]),
            Err(e) => {
                &&& (e == DemoError::Truncated || e == DemoError::MalformedPath)
                &&& (e == DemoError::Truncated <==> paths_at(
                    old(br).sdata(),
                    old(br).soff() as int,
                    npaths,
                    -1,
                ) is Trunc)
                &&& (e == DemoError::MalformedPath <==> paths_at(
                    old(br).sdata(),
                    old(br).soff() as int,
                    npaths,
                    -1,
                ) is Malformed)
            },
        },
{
    let ghost d = old(br).sdata();
    let mut ords: Vec<usize> = Vec::new();
    let mut prev: i64 = -1;
    let ghost whole = paths_at(d, old(br).soff() as int, npaths, -1);
    proof {
        assert(ords@.map_values(|o: usize| o) =~= Seq::<usize>::empty());
        match whole {
            POut::Val { ords: so, end } => {
                assert(Seq::<usize>::empty() + so =~= so);
            },
            _ => {},
        }
    }
    loop
        invariant
            br.wf(),
            br.sdata() == d,
            d == old(br).sdata(),
            -1 <= prev < npaths,
            npaths <= 0x7FFF_FFFF,
            whole == paths_at(d, old(br).soff() as int, npaths, -1),
            forall|j: int| 0 <= j < ords@.len() ==> (#[trigger] ords@[j]) <= prev,
            forall|j: int| 0 <= j < ords@.len() ==> (#[trigger] ords@[j]) < npaths,
            forall|a: int, b: int| 0 <= a < b < ords@.len() ==> ords@[a] < ords@[b],
            match paths_at(d, br.soff() as int, npaths, prev as int) {
                POut::Val { ords: rest, end } => whole == (POut::Val {
                    ords: ords@ + rest,
                    end,
                }),
                POut::Trunc => whole is Trunc,
                POut::Malformed => whole is Malformed,
            },
        decreases br.sdata().len() * 8 - br.soff(),
    {
        let ghost pre_off = br.soff();
        let skip = match br.read_ubitvar() {
            Ok(v) => v,
            Err(_) => {
                return Err(DemoError::Truncated);
            },
        };
        if skip == PATH_SENTINEL {
            proof {
                match whole {
                    POut::Val { ords: so, end } => {
                        assert(ords@ + Seq::<usize>::empty() =~= ords@);
                    },
                    _ => {},
                }
            }
            return Ok(ords);
        }
        let ord: i64 = prev + 1 + (skip as i64);
        if ord >= npaths as i64 {
            return Err(DemoError::MalformedPath);
        }
        let ghost pre = ords@;
        ords.push(ord as usize);
        proof {
            match paths_at(d, br.soff() as int, npaths, ord as int) {
                POut::Val { ords: rest, end } => {
                    assert(pre + (seq![ord as usize].add(rest)) =~= pre.push(ord as usize)
                        + rest);
                },
                _ => {},
            }
            assert(ords@ =~= pre.push(ord as usize));
        }
        prev = ord;
    }
}

/// The values of the marked fields, decoded in ordinal order, each
/// under its own field's rule.
pub open spec fn values_at(
    d: Seq<u8>,
    off: int,
    flat: Seq<FlatFieldSpec>,
    ords: Seq<usize>,
) -> FvsOut
    decreases ords.len(),
{
    if ords.len() == 0 {
        FvsOut::Val { vals: Seq::empty(), end: off }
    } else if ords[0] >= flat.len() {
        FvsOut::Malformed
    } else {
        match field_value_at(d, off, flat[ords[0] as int].decoder, flat[ords[0] as int].bit_count) {
            FvOut::Val { v, end } => match values_at(d, end, flat, ords.skip(1)) {
                FvsOut::Val { vals, end: e2 } => FvsOut::Val {
                    vals: seq![v].add(vals),
                    end: e2,
                },
                o => o,
            },
            FvOut::Trunc => FvsOut::Trunc,
            FvOut::Malformed => FvsOut::Malformed,
        }
    }
}

/// Outcome of decoding a value run.
pub enum FvsOut {
    Val { vals: Seq<FieldValueSpec>, end: int },
    Trunc,
    Malformed,
}

/// Reads the values of the marked fields, in ordinal order.
pub fn decode_values(
    br: &mut BitReader,
    flat: &FlattenedSerializer,
    ords: &Vec<usize>,
) -> (r: Result<Vec<FieldValue>, DemoError>)
    requires
        old(br).wf(),
    ensures
        final(br).wf(),
        final(br).sdata() == old(br).sdata(),
        match r {
            Ok(vals) => values_at(
                old(br).sdata(),
                old(br).soff() as int,
                flat_view(flat@),
                ords@,
            ) matches FvsOut::Val { vals: sv, end } && fields_vals_view(vals@) == sv
                && final(br).soff() == end && vals@.len() == ords@.len(),
            Err(e) => {
                &&& (e == DemoError::Truncated || e == DemoError::MalformedVarint || e
                    == DemoError::MalformedPath)
                &&& (e == DemoError::Truncated <==> values_at(
                    old(br).sdata(),
                    old(br).soff() as int,
                    flat_view(flat@),
                    ords@,
                ) is Trunc)
                &&& ((e == DemoError::MalformedVarint || e == DemoError::MalformedPath)
                    <==> values_at(
                    old(br).sdata(),
                    old(br).soff() as int,
                    flat_view(flat@),
                    ords@,
                ) is Malformed)
            },
        },
{
    let ghost d = old(br).sdata();
    let ghost fl = flat_view(flat@);
    let mut vals: Vec<FieldValue> = Vec::new();
    let mut j: usize = 0;
    let ghost whole = values_at(d, old(br).soff() as int, fl, ords@);
    proof {
        assert(ords@.skip(0) =~= ords@);
        assert(fields_vals_view(vals@) =~= Seq::<FieldValueSpec>::empty());
        match whole {
            FvsOut::Val { vals: sv, end } => {
                assert(Seq::<FieldValueSpec>::empty() + sv =~= sv);
            },
            _ => {},
        }
    }
    while j < ords.len()
        invariant
            br.wf(),
            br.sdata() == d,
            d == old(br).sdata(),
            j <= ords@.len(),
            vals@.len() == j,
            fl == flat_view(flat@),
            whole == values_at(d, old(br).soff() as int, fl, ords@),
            match values_at(d, br.soff() as int, fl, ords@.skip(j as int)) {
                FvsOut::Val { vals: rest, end } => whole == (FvsOut::Val {
                    vals: fields_vals_view(vals@) + rest,
                    end,
                }),
                FvsOut::Trunc => whole is Trunc,
                FvsOut::Malformed => whole is Malformed,
            },
        decreases ords@.len() - j,
    {
        proof {
            assert(ords@.skip(j as int)[0] == ords@[j as int]);
            assert(ords@.skip(j as int).skip(1) =~= ords@.skip(j + 1));
        }
        let ord = ords[j];
        if ord >= flat.len() {
            return Err(DemoError::MalformedPath);
        }
        let f = &flat[ord];
        let ghost pre = fields_vals_view(vals@);
        let v = match read_field_value(br, f.decoder, f.bit_count) {
            Ok(v) => v,
            Err(e) => {
                return Err(e);
            },
        };
        let ghost vv = v@;
        vals.push(v);
        proof {
            assert(fields_vals_view(vals@) =~= pre.push(vv));
            match values_at(d, br.soff() as int, fl, ords@.skip(j + 1)) {
                FvsOut::Val { vals: rest, end } => {
                    assert(pre + (seq![vv].add(rest)) =~= pre.push(vv) + rest);
                },
                _ => {},
            }
        }
        j = j + 1;
    }
    proof {
        assert(ords@.skip(ords@.len() as int) =~= Seq::<usize>::empty());
        match whole {
            FvsOut::Val { vals: sv, end } => {
                assert(fields_vals_view(vals@) + Seq::<FieldValueSpec>::empty()
                    =~= fields_vals_view(vals@));
            },
            _ => {},
        }
    }
    Ok(vals)
}

/// The model of a value run.
pub open spec fn fields_vals_view(vs: Seq<FieldValue>) -> Seq<FieldValueSpec> {
    vs.map_values(|v: FieldValue| v@)
}

/// Overlays a delta on a field store: each marked ordinal takes its
/// new value, every other slot keeps what it held.
pub open spec fn overlay_spec(
    base: Seq<Option<FieldValueSpec>>,
    ords: Seq<usize>,
    vals: Seq<FieldValueSpec>,
) -> Seq<Option<FieldValueSpec>>
    decreases ords.len(),
{
    if ords.len() == 0 || ords.len() != vals.len() {
        base
    } else {
        overlay_spec(base.update(ords[0] as int, Some(vals[0])), ords.skip(1), vals.skip(1))
    }
}

/// A slot no ordinal marks keeps its value through an overlay.
pub proof fn lemma_overlay_untouched(
    base: Seq<Option<FieldValueSpec>>,
    ords: Seq<usize>,
    vals: Seq<FieldValueSpec>,
    i: int,
)
    requires
        ords.len() == vals.len(),
        forall|j: int| 0 <= j < ords.len() ==> (#[trigger] ords[j]) < base.len(),
        0 <= i < base.len(),
        forall|j: int| 0 <= j < ords.len() ==> (#[trigger] ords[j]) != i,
    ensures
        overlay_spec(base, ords, vals)[i] == base[i],
    decreases ords.len(),
{
    if ords.len() == 0 {
    } else {
        let base2 = base.update(ords[0] as int, Some(vals[0]));
        assert(forall|j: int|
            0 <= j < ords.skip(1).len() ==> (#[trigger] ords.skip(1)[j]) == ords[j + 1]);
        lemma_overlay_untouched(base2, ords.skip(1), vals.skip(1), i);
    }
}

/// An overlay never changes the store's length.
pub proof fn lemma_overlay_len(
    base: Seq<Option<FieldValueSpec>>,
    ords: Seq<usize>,
    vals: Seq<FieldValueSpec>,
)
    requires
        forall|j: int| 0 <= j < ords.len() ==> (#[trigger] ords[j]) < base.len(),
    ensures
        overlay_spec(base, ords, vals).len() == base.len(),
    decreases ords.len(),
{
    if ords.len() == 0 || ords.len() != vals.len() {
    } else {
        assert(forall|j: int|
            0 <= j < ords.skip(1).len() ==> (#[trigger] ords.skip(1)[j]) == ords[j + 1]);
        lemma_overlay_len(base.update(ords[0] as int, Some(vals[0])), ords.skip(1), vals.skip(1));
    }
}

/// Each marked ordinal ends an overlay holding its new value.
pub proof fn lemma_overlay_marked(
    base: Seq<Option<FieldValueSpec>>,
    ords: Seq<usize>,
    vals: Seq<FieldValueSpec>,
    j: int,
)
    requires
        ords.len() == vals.len(),
        forall|a: int, b: int| 0 <= a < b < ords.len() ==> ords[a] < ords[b],
        forall|k: int| 0 <= k < ords.len() ==> (#[trigger] ords[k]) < base.len(),
        0 <= j < ords.len(),
    ensures
        overlay_spec(base, ords, vals)[ords[j] as int] == Some(vals[j]),
    decreases ords.len(),
{
    let base2 = base.update(ords[0] as int, Some(vals[0]));
    assert(forall|k: int|
        0 <= k < ords.skip(1).len() ==> (#[trigger] ords.skip(1)[k]) == ords[k + 1]);
    if j == 0 {
        assert(forall|k: int|
            0 <= k < ords.skip(1).len() ==> (#[trigger] ords.skip(1)[k]) != ords[0]);
        lemma_overlay_untouched(base2, ords.skip(1), vals.skip(1), ords[0] as int);
    } else {
        assert(forall|a: int, b: int|
            0 <= a < b < ords.skip(1).len() ==> ords.skip(1)[a] < ords.skip(1)[b]);
        lemma_overlay_marked(base2, ords.skip(1), vals.skip(1), j - 1);
        assert(ords.skip(1)[j - 1] == ords[j]);
        assert(vals.skip(1)[j - 1] == vals[j]);
    }
}

/// The baseline-overlay law: creating an entity seeds every slot from
/// the decoded baseline, then overlays the creating delta. An empty
/// delta leaves the store exactly the baseline; a delta over a subset
/// of ordinals changes exactly those ordinals' values and nothing
/// else.
pub proof fn lemma_baseline_overlay(
    base: Seq<Option<FieldValueSpec>>,
    ords: Seq<usize>,
    vals: Seq<FieldValueSpec>,
)
    requires
        ords.len() == vals.len(),
        forall|a: int, b: int| 0 <= a < b < ords.len() ==> ords[a] < ords[b],
        forall|k: int| 0 <= k < ords.len() ==> (#[trigger] ords[k]) < base.len(),
    ensures
        overlay_spec(base, ords, vals).len() == base.len(),
        ords.len() == 0 ==> overlay_spec(base, ords, vals) == base,
        forall|i: int|
            0 <= i < base.len() && (forall|j: int| 0 <= j < ords.len() ==> (#[trigger] ords[j])
                != i) ==> overlay_spec(base, ords, vals)[i] == base[i],
        forall|j: int|
            0 <= j < ords.len() ==> overlay_spec(base, ords, vals)[#[trigger] ords[j] as int]
                == Some(vals[j]),
{
    lemma_overlay_len(base, ords, vals);
    assert forall|i: int|
        0 <= i < base.len() && (forall|j: int| 0 <= j < ords.len() ==> (#[trigger] ords[j])
            != i) implies overlay_spec(base, ords, vals)[i] == base[i] by {
        lemma_overlay_untouched(base, ords, vals, i);
    }
    assert forall|j: int| 0 <= j < ords.len() implies overlay_spec(base, ords, vals)[
        #[trigger] ords[j] as int
    ] == Some(vals[j]) by {
        lemma_overlay_marked(base, ords, vals, j);
    }
}

/// Applies a delta to a field store in place.
fn overlay_into(fields: &mut Vec<Option<FieldValue>>, ords: &Vec<usize>, vals: Vec<FieldValue>)
    requires
        ords@.len() == vals@.len(),
        forall|j: int| 0 <= j < ords@.len() ==> (#[trigger] ords@[j]) < old(fields)@.len(),
    ensures
        fields_view(final(fields)@) == overlay_spec(
            fields_view(old(fields)@),
            ords@,
            fields_vals_view(vals@),
        ),
        final(fields)@.len() == old(fields)@.len(),
{
    let mut vals = vals;
    let mut j: usize = 0;
    let ghost b0 = fields_view(fields@);
    let ghost ovals = fields_vals_view(vals@);
    proof {
        assert(ords@.skip(0) =~= ords@);
        assert(ovals.skip(0) =~= ovals);
    }
    while j < ords.len()
        invariant
            j <= ords@.len(),
            vals@.len() == ords@.len() - j,
            fields_vals_view(vals@) == ovals.skip(j as int),
            forall|k: int| 0 <= k < ords@.len() ==> (#[trigger] ords@[k]) < fields@.len(),
            fields@.len() == old(fields)@.len(),
            b0 == fields_view(old(fields)@),
            ovals.len() == ords@.len(),
            overlay_spec(b0, ords@, ovals) == overlay_spec(
                fields_view(fields@),
                ords@.skip(j as int),
                ovals.skip(j as int),
            ),
        decreases ords@.len() - j,
    {
        proof {
            assert(ords@.skip(j as int)[0] == ords@[j as int]);
            assert(ords@.skip(j as int).skip(1) =~= ords@.skip(j + 1));
            assert(ovals.skip(j as int)[0] == ovals[j as int]);
            assert(ovals.skip(j as int).skip(1) =~= ovals.skip(j + 1));
            assert(fields_vals_view(vals@)[0] == ovals[j as int]);
        }
        let ord = ords[j];
        let v = vals.remove(0);
        let ghost pre = fields_view(fields@);
        fields.set(ord, Some(v));
        proof {
            assert(v@ == ovals[j as int]);
            assert(fields_view(fields@) =~= pre.update(ord as int, Some(ovals[j as int])));
            assert(fields_vals_view(vals@) =~= ovals.skip(j + 1));
        }
        j = j + 1;
    }
    proof {
        assert(ords@.skip(ords@.len() as int) =~= Seq::<usize>::empty());
        assert(ovals.skip(ords@.len() as int) =~= Seq::<FieldValueSpec>::empty());
    }
}

/// One live entity: its class, the serializer definition index its
/// class flattens through, its sparse field store, and whether it is
/// in the active set.
pub struct Entity {
    pub class_id: u32,
    pub ser_idx: usize,
    pub active: bool,
    pub fields: Vec<Option<FieldValue>>,
}

impl Entity {
    /// The number of field slots (the class's flattened leaf count).
    pub fn num_fields(&self) -> (r: usize)
        ensures
            r == self.fields@.len(),
    {
        self.fields.len()
    }

    /// The value at one ordinal, if the entity carries one.
    pub fn field(&self, ord: usize) -> (r: Option<&FieldValue>)
        ensures
            match r {
                Some(v) => ord < self.fields@.len() && self.fields@[ord as int] == Some(*v),
                None => ord >= self.fields@.len() || self.fields@[ord as int] is None,
            },
    {
        if ord >= self.fields.len() {
            return None;
        }
        match &self.fields[ord] {
            Some(v) => Some(v),
            None => None,
        }
    }
}

/// The model of one live entity.
pub struct EntitySpec {
    pub class_id: u32,
    pub ser_idx: usize,
    pub active: bool,
    pub fields: Seq<Option<FieldValueSpec>>,
}

impl View for Entity {
    type V = EntitySpec;

    open spec fn view(&self) -> EntitySpec {
        EntitySpec {
            class_id: self.class_id,
            ser_idx: self.ser_idx,
            active: self.active,
            fields: fields_view(self.fields@),
        }
    }
}

/// The model of the entity store.
pub open spec fn store_view(m: Map<u64, Entity>) -> Map<u64, EntitySpec> {
    Map::new(|h: u64| m.contains_key(h), |h: u64| m[h]@)
}

/// The ordinals of every leaf of a serializer, in order; a baseline
/// blob is a full snapshot over exactly these.
pub open spec fn all_ords(n: nat) -> Seq<usize> {
    Seq::new(n, |i: int| i as usize)
}

/// Outcome of building one entity's field store.
pub enum FieldsOut {
    Val(Seq<Option<FieldValueSpec>>),
    Fail { err: DemoError },
    FailValues,
}

/// The field store a create seeds before its delta: the class baseline
/// blob decoded as a full snapshot, or all-empty slots when the class
/// has no baseline. `FailValues` is a malformed field value, whose
/// exact error kind depends on the field's rule.
pub open spec fn pe_base_fields(
    baseline: Seq<(nat, Seq<u8>)>,
    cid: u32,
    flat: Seq<FlatFieldSpec>,
) -> FieldsOut {
    match crate::instancebaseline::assoc_last(baseline, cid as nat) {
        None => FieldsOut::Val(Seq::new(flat.len(), |i: int| None)),
        Some(blob) => if blob.len() > MAX_BUF_BYTES {
            FieldsOut::Fail { err: DemoError::BodyTooLarge }
        } else {
            match values_at(blob, 0, flat, all_ords(flat.len())) {
                FvsOut::Val { vals, end } => FieldsOut::Val(
                    vals.map_values(|v: FieldValueSpec| Some(v)),
                ),
                FvsOut::Trunc => FieldsOut::Fail { err: DemoError::Truncated },
                FvsOut::Malformed => FieldsOut::FailValues,
            }
        },
    }
}

/// The changed-path delta at bit `off`, overlaid on `base`.
pub open spec fn pe_delta_at(
    d: Seq<u8>,
    off: int,
    flat: Seq<FlatFieldSpec>,
    base: Seq<Option<FieldValueSpec>>,
) -> FieldsDeltaOut {
    match paths_at(d, off, flat.len() as usize, -1) {
        POut::Val { ords, end } => match values_at(d, end, flat, ords) {
            FvsOut::Val { vals, end: e2 } => if exists|j: int|
                0 <= j < ords.len() && (#[trigger] ords[j]) >= base.len() {
                FieldsDeltaOut::Fail { err: DemoError::MalformedPath }
            } else {
                FieldsDeltaOut::Done { fields: overlay_spec(base, ords, vals), end: e2 }
            },
            FvsOut::Trunc => FieldsDeltaOut::Fail { err: DemoError::Truncated },
            FvsOut::Malformed => FieldsDeltaOut::FailValues,
        },
        POut::Trunc => FieldsDeltaOut::Fail { err: DemoError::Truncated },
        POut::Malformed => FieldsDeltaOut::Fail { err: DemoError::MalformedPath },
    }
}

/// Outcome of decoding one delta.
pub enum FieldsDeltaOut {
    Done { fields: Seq<Option<FieldValueSpec>>, end: int },
    Fail { err: DemoError },
    FailValues,
}

/// Outcome of replaying an entity-operation stream.
pub enum PeOut {
    Done { store: Map<u64, EntitySpec>, end: int },
    Fail { err: DemoError },
    /// Flattening the class's serializer failed: an unknown reference
    /// or a cycle.
    FailFlatten,
    /// A field value was malformed; the exact error kind depends on
    /// the field's rule.
    FailValues,
}

/// One create operation at bit `off`: a class id of the wire width,
/// the baseline seed, and the creating delta overlaid on it.
pub open spec fn pe_create_at(
    d: Seq<u8>,
    off: int,
    store: Map<u64, EntitySpec>,
    handle: u64,
    classes: Seq<Seq<u8>>,
    baseline: Seq<(nat, Seq<u8>)>,
    defs: Seq<SerializerDef>,
) -> PeOut {
    let width = crate::entityclasses::wire_id_width(classes.len());
    if off + width > d.len() * 8 {
        PeOut::Fail { err: DemoError::Truncated }
    } else {
        let cid = decode_bits(bits_seq(d, off, width)) as u32;
        if cid >= classes.len() {
            PeOut::Fail { err: DemoError::UnknownClass }
        } else {
            match crate::flattenedserializers::find_def_spec(defs, classes[cid as int], 0) {
                None => PeOut::Fail { err: DemoError::UnknownClass },
                Some(si) => match crate::flattenedserializers::spec_flatten(
                    defs,
                    si,
                    defs.len() + 1,
                ) {
                    None => PeOut::FailFlatten,
                    Some(flat) => if flat.len() > 0x7FFF_FFFF {
                        PeOut::Fail { err: DemoError::MalformedPath }
                    } else {
                        match pe_base_fields(baseline, cid, flat) {
                            FieldsOut::Fail { err } => PeOut::Fail { err },
                            FieldsOut::FailValues => PeOut::FailValues,
                            FieldsOut::Val(base) => match pe_delta_at(
                                d,
                                off + width,
                                flat,
                                base,
                            ) {
                                FieldsDeltaOut::Done { fields, end } => PeOut::Done {
                                    store: store.insert(
                                        handle,
                                        EntitySpec {
                                            class_id: cid,
                                            ser_idx: si as usize,
                                            active: true,
                                            fields,
                                        },
                                    ),
                                    end,
                                },
                                FieldsDeltaOut::Fail { err } => PeOut::Fail { err },
                                FieldsDeltaOut::FailValues => PeOut::FailValues,
                            },
                        }
                    },
                },
            }
        }
    }
}

/// One delta-update operation at bit `off`: the entity's own
/// serializer gives the rules, and the delta overlays its current
/// fields.
pub open spec fn pe_update_at(
    d: Seq<u8>,
    off: int,
    store: Map<u64, EntitySpec>,
    handle: u64,
    defs: Seq<SerializerDef>,
) -> PeOut {
    if !store.contains_key(handle) {
        PeOut::Fail { err: DemoError::UnknownEntity }
    } else {
        let e = store[handle];
        if e.ser_idx >= defs.len() {
            PeOut::Fail { err: DemoError::UnknownClass }
        } else {
            match crate::flattenedserializers::spec_flatten(
                defs,
                e.ser_idx as int,
                defs.len() + 1,
            ) {
                None => PeOut::FailFlatten,
                Some(flat) => if flat.len() > 0x7FFF_FFFF {
                    PeOut::Fail { err: DemoError::MalformedPath }
                } else {
                    match pe_delta_at(d, off, flat, e.fields) {
                        FieldsDeltaOut::Done { fields, end } => PeOut::Done {
                            store: store.insert(handle, EntitySpec { fields, ..e }),
                            end,
                        },
                        FieldsDeltaOut::Fail { err } => PeOut::Fail { err },
                        FieldsDeltaOut::FailValues => PeOut::FailValues,
                    }
                },
            }
        }
    }
}

/// Replays `n` entity operations in order: for each, a handle delta, a
/// two-bit operation kind, and the operation's own payload. This is
/// the model `read_packet_entities` is held to.
pub open spec fn pe_ops_at(
    d: Seq<u8>,
    off: int,
    n: nat,
    prev: int,
    store: Map<u64, EntitySpec>,
    classes: Seq<Seq<u8>>,
    baseline: Seq<(nat, Seq<u8>)>,
    defs: Seq<SerializerDef>,
) -> PeOut
    decreases n,
{
    if n == 0 {
        PeOut::Done { store, end: off }
    } else {
        match ubitvar_at(d, off) {
            Decoded::Val { value: delta, bits } => {
                let handle = prev + 1 + delta;
                if handle > 0x1_0000_0000 {
                    PeOut::Fail { err: DemoError::MalformedPath }
                } else if off + bits + 2 > d.len() * 8 {
                    PeOut::Fail { err: DemoError::Truncated }
                } else {
                    let flags = decode_bits(bits_seq(d, off + bits, 2));
                    let o2 = off + bits + 2;
                    let one = if flags == 2 {
                        pe_create_at(d, o2, store, handle as u64, classes, baseline, defs)
                    } else if flags == 0 {
                        pe_update_at(d, o2, store, handle as u64, defs)
                    } else if flags == 1 {
                        if !store.contains_key(handle as u64) {
                            PeOut::Fail { err: DemoError::UnknownEntity }
                        } else {
                            PeOut::Done {
                                store: store.insert(
                                    handle as u64,
                                    EntitySpec { active: false, ..store[handle as u64] },
                                ),
                                end: o2,
                            }
                        }
                    } else {
                        PeOut::Done { store: store.remove(handle as u64), end: o2 }
                    };
                    match one {
                        PeOut::Done { store: store2, end } => pe_ops_at(
                            d,
                            end,
                            (n - 1) as nat,
                            handle,
                            store2,
                            classes,
                            baseline,
                            defs,
                        ),
                        o => o,
                    }
                }
            },
            _ => PeOut::Fail { err: DemoError::Truncated },
        }
    }
}

/// The store of every live entity, keyed by handle. Creates seed from
/// the class baseline and overlay the creating delta; updates touch
/// only the ordinals their delta marks; deletes remove the entity and
/// leaves flag it inactive but keep its values.
pub struct Entities {
    map: HashMap<u64, Entity>,
}

impl Entities {
    /// The live entities by handle.
    pub closed spec fn smap(&self) -> Map<u64, Entity> {
        self.map@
    }

    pub fn new() -> (r: Self)
        ensures
            r.smap() == Map::<u64, Entity>::empty(),
    {
        Entities { map: HashMap::new() }
    }

    /// How many entities are live.
    pub fn len(&self) -> (r: usize)
        ensures
            r == self.smap().dom().len(),
    {
        self.map.len()
    }

    /// The entity with the given handle.
    pub fn get(&self, handle: u64) -> (r: Option<&Entity>)
        ensures
            match r {
                Some(e) => self.smap().contains_key(handle) && *e == self.smap()[handle],
                None => !self.smap().contains_key(handle),
            },
    {
        self.map.get(&handle)
    }

    /// Creates an entity: its store is the baseline seed with the
    /// creating delta overlaid, and it enters the active set.
    pub fn apply_create(
        &mut self,
        handle: u64,
        class_id: u32,
        ser_idx: usize,
        base: Vec<Option<FieldValue>>,
        ords: &Vec<usize>,
        vals: Vec<FieldValue>,
    )
        requires
            ords@.len() == vals@.len(),
            forall|j: int| 0 <= j < ords@.len() ==> (#[trigger] ords@[j]) < base@.len(),
        ensures
            final(self).smap().contains_key(handle),
            final(self).smap()[handle].class_id == class_id,
            final(self).smap()[handle].ser_idx == ser_idx,
            final(self).smap()[handle].active,
            fields_view(final(self).smap()[handle].fields@) == overlay_spec(
                fields_view(base@),
                ords@,
                fields_vals_view(vals@),
            ),
            final(self).smap() == old(self).smap().insert(
                handle,
                final(self).smap()[handle],
            ),
    {
        let mut fields = base;
        overlay_into(&mut fields, ords, vals);
        let ent = Entity { class_id, ser_idx, active: true, fields };
        self.map.insert(handle, ent);
    }

    /// Updates an entity: only the ordinals the delta marks change;
    /// absent ordinals keep their prior value.
    pub fn apply_update(&mut self, handle: u64, ords: &Vec<usize>, vals: Vec<FieldValue>) -> (r:
        Result<(), DemoError>)
        requires
            ords@.len() == vals@.len(),
        ensures
            match r {
                Ok(()) => {
                    &&& old(self).smap().contains_key(handle)
                    &&& forall|j: int|
                        0 <= j < ords@.len() ==> (#[trigger] ords@[j]) < old(self).smap()[
                            handle
                        ].fields@.len()
                    &&& final(self).smap().contains_key(handle)
                    &&& final(self).smap()[handle].class_id == old(self).smap()[
                        handle
                    ].class_id
                    &&& final(self).smap()[handle].ser_idx == old(self).smap()[handle].ser_idx
                    &&& final(self).smap()[handle].active == old(self).smap()[handle].active
                    &&& fields_view(final(self).smap()[handle].fields@) == overlay_spec(
                        fields_view(old(self).smap()[handle].fields@),
                        ords@,
                        fields_vals_view(vals@),
                    )
                    &&& final(self).smap() == old(self).smap().insert(
                        handle,
                        final(self).smap()[handle],
                    )
                },
                Err(e) => {
                    &&& final(self).smap() == old(self).smap()
                    &&& (e == DemoError::UnknownEntity <==> !old(self).smap().contains_key(
                        handle,
                    ))
                    &&& (e == DemoError::MalformedPath <==> old(self).smap().contains_key(
                        handle,
                    ) && exists|j: int|
                        0 <= j < ords@.len() && (#[trigger] ords@[j]) >= old(self).smap()[
                            handle
                        ].fields@.len())
                    &&& (e == DemoError::UnknownEntity || e == DemoError::MalformedPath)
                },
            },
    {
        let ent = match self.map.remove(&handle) {
            Some(e) => e,
            None => {
                return Err(DemoError::UnknownEntity);
            },
        };
        let nf = ent.fields.len();
        let mut k: usize = 0;
        let mut ok = true;
        while k < ords.len()
            invariant
                k <= ords@.len(),
                ok <==> (forall|j: int| 0 <= j < k ==> (#[trigger] ords@[j]) < nf),
            decreases ords@.len() - k,
        {
            if ords[k] >= nf {
                ok = false;
            }
            k = k + 1;
        }
        if !ok {
            self.map.insert(handle, ent);
            proof {
                assert(self.map@ =~= old(self).smap());
            }
            return Err(DemoError::MalformedPath);
        }
        let mut ent = ent;
        overlay_into(&mut ent.fields, ords, vals);
        self.map.insert(handle, ent);
        Ok(())
    }

    /// Destroys an entity.
    pub fn apply_delete(&mut self, handle: u64)
        ensures
            final(self).smap() == old(self).smap().remove(handle),
    {
        self.map.remove(&handle);
        proof {
            assert(self.map@ =~= old(self).smap().remove(handle));
        }
    }

    /// Flags an entity as having left the active set, keeping its
    /// values.
    pub fn apply_leave(&mut self, handle: u64) -> (r: Result<(), DemoError>)
        ensures
            match r {
                Ok(()) => {
                    &&& old(self).smap().contains_key(handle)
                    &&& final(self).smap().contains_key(handle)
                    &&& !final(self).smap()[handle].active
                    &&& final(self).smap()[handle].class_id == old(self).smap()[
                        handle
                    ].class_id
                    &&& final(self).smap()[handle].ser_idx == old(self).smap()[handle].ser_idx
                    &&& final(self).smap()[handle].fields == old(self).smap()[handle].fields
                    &&& final(self).smap() == old(self).smap().insert(
                        handle,
                        final(self).smap()[handle],
                    )
                },
                Err(e) => {
                    &&& e == DemoError::UnknownEntity
                    &&& !old(self).smap().contains_key(handle)
                    &&& final(self).smap() == old(self).smap()
                },
            },
    {
        let ent = match self.map.remove(&handle) {
            Some(e) => e,
            None => {
                return Err(DemoError::UnknownEntity);
            },
        };
        let ent = Entity {
            class_id: ent.class_id,
            ser_idx: ent.ser_idx,
            active: false,
            fields: ent.fields,
        };
        self.map.insert(handle, ent);
        Ok(())
    }

    /// Decodes and applies one create operation: the class id of the
    /// wire width, the baseline seed, and the creating delta.
    #[verifier::rlimit(100)]
    #[verifier::spinoff_prover]
    fn op_create(
        &mut self,
        br: &mut BitReader,
        handle: u64,
        classes: &EntityClasses,
        baseline: &InstanceBaseline,
        serializers: &mut FlattenedSerializers,
    ) -> (r: Result<(), DemoError>)
        requires
            old(br).wf(),
            old(serializers).wf(),
        ensures
            final(br).wf(),
            final(br).sdata() == old(br).sdata(),
            final(serializers).wf(),
            final(serializers).sdefs() == old(serializers).sdefs(),
            ({
                let pe = pe_create_at(
                    old(br).sdata(),
                    old(br).soff() as int,
                    store_view(old(self).smap()),
                    handle,
                    classes.snames(),
                    baseline.spairs(),
                    old(serializers).sdefs(),
                );
                match r {
                    Ok(()) => pe matches PeOut::Done { store, end } && store_view(
                        final(self).smap(),
                    ) == store && final(br).soff() == end,
                    Err(e) => match pe {
                        PeOut::Done { store, end } => false,
                        PeOut::Fail { err } => e == err,
                        PeOut::FailFlatten => e == DemoError::CyclicSerializer || e
                            == DemoError::UnknownClass,
                        PeOut::FailValues => e == DemoError::MalformedVarint || e
                            == DemoError::MalformedPath,
                    },
                }
            }),
    {
        let ghost d = old(br).sdata();
        let ghost store0 = store_view(self.smap());
        let idb = classes.id_bits();
        let cid = match br.read_bits(idb) {
            Ok(v) => v,
            Err(_) => {
                return Err(DemoError::Truncated);
            },
        };
        let name = match classes.class_name(cid) {
            Ok(n) => n,
            Err(e) => {
                return Err(e);
            },
        };
        let ser_idx = match serializers.find(name, 0) {
            Some(s) => s,
            None => {
                return Err(DemoError::UnknownClass);
            },
        };
        match serializers.ensure_flattened(ser_idx) {
            Ok(()) => {},
            Err(e) => {
                return Err(e);
            },
        }
        let flat = match serializers.flat(ser_idx) {
            Ok(f) => f,
            Err(e) => {
                proof {
                    assert(false);
                }
                return Err(e);
            },
        };
        let nf = flat.len();
        if nf > 0x7FFF_FFFF {
            return Err(DemoError::MalformedPath);
        }
        // seed from the baseline blob, decoded as a full snapshot
        let base: Vec<Option<FieldValue>> = match baseline.get(cid) {
            Some(blob) => {
                if blob.len() > MAX_BUF_BYTES {
                    return Err(DemoError::BodyTooLarge);
                }
                let mut bbr = BitReader::new(blob);
                let mut all: Vec<usize> = Vec::new();
                let mut k: usize = 0;
                while k < nf
                    invariant
                        k <= nf,
                        all@.len() == k,
                        forall|j: int| 0 <= j < k ==> (#[trigger] all@[j]) == j,
                    decreases nf - k,
                {
                    all.push(k);
                    k = k + 1;
                }
                proof {
                    assert(all@ =~= all_ords(nf as nat));
                }
                let vals = match decode_values(&mut bbr, flat, &all) {
                    Ok(v) => v,
                    Err(e) => {
                        return Err(e);
                    },
                };
                let ghost svals = fields_vals_view(vals@);
                let mut base: Vec<Option<FieldValue>> = Vec::new();
                let mut vals = vals;
                let mut k2: usize = 0;
                proof {
                    assert(fields_view(base@) =~= svals.take(0).map_values(
                        |v: FieldValueSpec| Some(v),
                    ));
                    assert(fields_vals_view(vals@) =~= svals.skip(0));
                }
                while k2 < nf
                    invariant
                        k2 <= nf == svals.len(),
                        base@.len() == k2,
                        vals@.len() == nf - k2,
                        fields_view(base@) == svals.take(k2 as int).map_values(
                            |v: FieldValueSpec| Some(v),
                        ),
                        fields_vals_view(vals@) == svals.skip(k2 as int),
                    decreases nf - k2,
                {
                    let ghost pre = fields_view(base@);
                    let ghost vpre = vals@;
                    let v = vals.remove(0);
                    proof {
                        assert(vals@ =~= vpre.skip(1));
                        assert(fields_vals_view(vpre)[0] == vpre[0]@);
                        assert(v@ == svals[k2 as int]);
                        assert(fields_vals_view(vals@) =~= svals.skip(k2 + 1)) by {
                            assert(forall|j: int|
                                0 <= j < vals@.len() ==> #[trigger] vals@[j] == vpre[j + 1]);
                            assert(forall|j: int|
                                0 <= j < vpre.len() ==> fields_vals_view(vpre)[j] == #[trigger] vpre[j]@);
                        };
                    }
                    base.push(Some(v));
                    proof {
                        assert(fields_view(base@) =~= pre.push(Some(svals[k2 as int])));
                        assert(pre.push(Some(svals[k2 as int])) =~= svals.take(
                            k2 + 1,
                        ).map_values(|v: FieldValueSpec| Some(v)));
                    }
                    k2 = k2 + 1;
                }
                proof {
                    assert(svals.take(nf as int) =~= svals);
                    assert(fields_view(base@) =~= svals.map_values(
                        |v: FieldValueSpec| Some(v),
                    ));
                }
                base
            },
            None => {
                let mut base: Vec<Option<FieldValue>> = Vec::new();
                let mut k: usize = 0;
                while k < nf
                    invariant
                        k <= nf,
                        base@.len() == k,
                        forall|j: int| 0 <= j < k ==> (#[trigger] fields_view(base@)[j]) is None,
                    decreases nf - k,
                {
                    let ghost pre = fields_view(base@);
                    base.push(None);
                    proof {
                        assert(fields_view(base@) =~= pre.push(None));
                    }
                    k = k + 1;
                }
                proof {
                    assert(fields_view(base@) =~= Seq::new(
                        flat_view(flat@).len(),
                        |i: int| None::<FieldValueSpec>,
                    ));
                }
                base
            },
        };
        let ords = match decode_changed_paths(br, nf) {
            Ok(o) => o,
            Err(e) => {
                return Err(e);
            },
        };
        let vals = match decode_values(br, flat, &ords) {
            Ok(v) => v,
            Err(e) => {
                return Err(e);
            },
        };
        let ghost ent = EntitySpec {
            class_id: cid,
            ser_idx: ser_idx,
            active: true,
            fields: overlay_spec(fields_view(base@), ords@, fields_vals_view(vals@)),
        };
        self.apply_create(handle, cid, ser_idx, base, &ords, vals);
        proof {
            assert(store_view(self.smap()) =~= store0.insert(handle, ent));
        }
        Ok(())
    }

    /// Decodes and applies one delta update: the entity's serializer
    /// gives the rules; only the marked ordinals change.
    #[verifier::rlimit(100)]
    #[verifier::spinoff_prover]
    fn op_update(
        &mut self,
        br: &mut BitReader,
        handle: u64,
        serializers: &mut FlattenedSerializers,
    ) -> (r: Result<(), DemoError>)
        requires
            old(br).wf(),
            old(serializers).wf(),
        ensures
            final(br).wf(),
            final(br).sdata() == old(br).sdata(),
            final(serializers).wf(),
            final(serializers).sdefs() == old(serializers).sdefs(),
            ({
                let pe = pe_update_at(
                    old(br).sdata(),
                    old(br).soff() as int,
                    store_view(old(self).smap()),
                    handle,
                    old(serializers).sdefs(),
                );
                match r {
                    Ok(()) => pe matches PeOut::Done { store, end } && store_view(
                        final(self).smap(),
                    ) == store && final(br).soff() == end,
                    Err(e) => match pe {
                        PeOut::Done { store, end } => false,
                        PeOut::Fail { err } => e == err,
                        PeOut::FailFlatten => e == DemoError::CyclicSerializer || e
                            == DemoError::UnknownClass,
                        PeOut::FailValues => e == DemoError::MalformedVarint || e
                            == DemoError::MalformedPath,
                    },
                }
            }),
    {
        let ghost store0 = store_view(self.smap());
        let ghost pe = pe_update_at(
            old(br).sdata(),
            old(br).soff() as int,
            store0,
            handle,
            old(serializers).sdefs(),
        );
        let ser_idx = match self.get(handle) {
            Some(e) => e.ser_idx,
            None => {
                proof {
                    assert(pe == (PeOut::Fail { err: DemoError::UnknownEntity }));
                }
                return Err(DemoError::UnknownEntity);
            },
        };
        proof {
            assert(ser_idx == store0[handle].ser_idx);
        }
        if ser_idx >= serializers.len() {
            proof {
                assert(pe == (PeOut::Fail { err: DemoError::UnknownClass }));
            }
            return Err(DemoError::UnknownClass);
        }
        match serializers.ensure_flattened(ser_idx) {
            Ok(()) => {},
            Err(e) => {
                proof {
                    assert(pe == PeOut::FailFlatten);
                }
                return Err(e);
            },
        }
        let flat = match serializers.flat(ser_idx) {
            Ok(f) => f,
            Err(e) => {
                proof {
                    assert(false);
                }
                return Err(e);
            },
        };
        proof {
            assert(crate::flattenedserializers::spec_flatten(
                old(serializers).sdefs(),
                ser_idx as int,
                old(serializers).sdefs().len() + 1,
            ) == Some(flat_view(flat@)));
        }
        let nf = flat.len();
        if nf > 0x7FFF_FFFF {
            proof {
                assert(pe == (PeOut::Fail { err: DemoError::MalformedPath }));
            }
            return Err(DemoError::MalformedPath);
        }
        let ords = match decode_changed_paths(br, nf) {
            Ok(o) => o,
            Err(e) => {
                proof {
                    match paths_at(old(br).sdata(), old(br).soff() as int, nf, -1) {
                        POut::Trunc => {
                            assert(pe == (PeOut::Fail { err: DemoError::Truncated }));
                        },
                        POut::Malformed => {
                            assert(pe == (PeOut::Fail { err: DemoError::MalformedPath }));
                        },
                        POut::Val { ords: o2, end } => {
                            assert(false);
                        },
                    }
                }
                return Err(e);
            },
        };
        let ghost voff = br.soff();
        let vals = match decode_values(br, flat, &ords) {
            Ok(v) => v,
            Err(e) => {
                proof {
                    match values_at(br.sdata(), voff as int, flat_view(flat@), ords@) {
                        FvsOut::Trunc => {
                            assert(pe == (PeOut::Fail { err: DemoError::Truncated }));
                        },
                        FvsOut::Malformed => {
                            assert(pe == PeOut::FailValues);
                        },
                        FvsOut::Val { vals: v2, end } => {
                            assert(false);
                        },
                    }
                }
                return Err(e);
            },
        };
        let ghost e0 = store0[handle];
        let ghost ent = EntitySpec {
            fields: overlay_spec(e0.fields, ords@, fields_vals_view(vals@)),
            ..e0
        };
        match self.apply_update(handle, &ords, vals) {
            Ok(()) => {
                proof {
                    assert(store_view(self.smap()) =~= store0.insert(handle, ent));
                    assert(pe == (PeOut::Done {
                        store: store0.insert(handle, ent),
                        end: br.soff() as int,
                    }));
                }
                Ok(())
            },
            Err(e) => {
                proof {
                    assert(e == DemoError::MalformedPath);
                    assert(pe == (PeOut::Fail { err: DemoError::MalformedPath }));
                }
                Err(e)
            },
        }
    }

    /// Applies one packet-entities operation sequence: for each
    /// affected handle, an operation kind and, for creates and
    /// updates, a changed-path list with the new values. The store is
    /// held to the model replay `pe_ops_at`; a decode error leaves it
    /// where the last whole operation left it and the session must
    /// stop.
    #[verifier::rlimit(100)]
    #[verifier::spinoff_prover]
    pub fn read_packet_entities(
        &mut self,
        data: &Vec<u8>,
        updated_entries: u32,
        classes: &EntityClasses,
        baseline: &InstanceBaseline,
        serializers: &mut FlattenedSerializers,
    ) -> (r: Result<(), DemoError>)
        requires
            old(serializers).wf(),
            data@.len() <= MAX_BUF_BYTES,
        ensures
            final(serializers).wf(),
            final(serializers).sdefs() == old(serializers).sdefs(),
            ({
                let pe = pe_ops_at(
                    data@,
                    0,
                    updated_entries as nat,
                    -1,
                    store_view(old(self).smap()),
                    classes.snames(),
                    baseline.spairs(),
                    old(serializers).sdefs(),
                );
                match r {
                    Ok(()) => pe matches PeOut::Done { store, end } && store_view(
                        final(self).smap(),
                    ) == store,
                    Err(e) => match pe {
                        PeOut::Done { store, end } => false,
                        PeOut::Fail { err } => e == err,
                        PeOut::FailFlatten => e == DemoError::CyclicSerializer || e
                            == DemoError::UnknownClass,
                        PeOut::FailValues => e == DemoError::MalformedVarint || e
                            == DemoError::MalformedPath,
                    },
                }
            }),
    {
        let ghost d = data@;
        let ghost store0 = store_view(self.smap());
        let ghost whole = pe_ops_at(
            d,
            0,
            updated_entries as nat,
            -1,
            store0,
            classes.snames(),
            baseline.spairs(),
            old(serializers).sdefs(),
        );
        let mut br = BitReader::new(data);
        let mut prev: i64 = -1;
        let mut i: u32 = 0;
        while i < updated_entries
            invariant
                br.wf(),
                br.sdata() == d,
                d == data@,
                serializers.wf(),
                serializers.sdefs() == old(serializers).sdefs(),
                i <= updated_entries,
                -1 <= prev <= 0x1_0000_0000i64,
                whole == pe_ops_at(
                    d,
                    0,
                    updated_entries as nat,
                    -1,
                    store_view(old(self).smap()),
                    classes.snames(),
                    baseline.spairs(),
                    old(serializers).sdefs(),
                ),
                whole == pe_ops_at(
                    d,
                    br.soff() as int,
                    (updated_entries - i) as nat,
                    prev as int,
                    store_view(self.smap()),
                    classes.snames(),
                    baseline.spairs(),
                    serializers.sdefs(),
                ),
            decreases updated_entries - i,
        {
            let delta = match br.read_ubitvar() {
                Ok(v) => v,
                Err(_) => {
                    return Err(DemoError::Truncated);
                },
            };
            let handle: i64 = prev + 1 + (delta as i64);
            if handle > 0x1_0000_0000i64 {
                return Err(DemoError::MalformedPath);
            }
            prev = handle;
            let flags = match br.read_bits(2) {
                Ok(v) => v,
                Err(_) => {
                    return Err(DemoError::Truncated);
                },
            };
            if flags == 2 {
                match self.op_create(&mut br, handle as u64, classes, baseline, serializers) {
                    Ok(()) => {},
                    Err(e) => {
                        return Err(e);
                    },
                }
            } else if flags == 0 {
                match self.op_update(&mut br, handle as u64, serializers) {
                    Ok(()) => {},
                    Err(e) => {
                        return Err(e);
                    },
                }
            } else if flags == 1 {
                let ghost pre = store_view(self.smap());
                match self.apply_leave(handle as u64) {
                    Ok(()) => {
                        proof {
                            assert(store_view(self.smap()) =~= pre.insert(
                                handle as u64,
                                EntitySpec { active: false, ..pre[handle as u64] },
                            ));
                        }
                    },
                    Err(e) => {
                        return Err(e);
                    },
                }
            } else {
                let ghost pre = store_view(self.smap());
                self.apply_delete(handle as u64);
                proof {
                    assert(store_view(self.smap()) =~= pre.remove(handle as u64));
                }
            }
            i = i + 1;
        }
        Ok(())
    }
}

} // verus!

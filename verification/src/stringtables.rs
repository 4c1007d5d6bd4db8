use vstd::prelude::*;

use crate::bitbuf::{
    bit_at, bytes_at, packed_bits, ubitvar_at, BitReader, Decoded,
};
use crate::error::DemoError;

verus! {

/// One replicated entry: a string key, an optional byte value, and an
/// optional small integer of per-entry user data.
pub struct StEntry {
    pub key: Vec<u8>,
    pub value: Option<Vec<u8>>,
    pub user_int: Option<u32>,
}

/// The model of one entry.
pub struct StEntrySpec {
    pub key: Seq<u8>,
    pub value: Option<Seq<u8>>,
    pub user_int: Option<u32>,
}

impl View for StEntry {
    type V = StEntrySpec;

    open spec fn view(&self) -> StEntrySpec {
        StEntrySpec {
            key: self.key@,
            value: match self.value {
                Some(v) => Some(v@),
                None => None,
            },
            user_int: self.user_int,
        }
    }
}

/// The model of a table's contents.
pub open spec fn st_view(entries: Seq<StEntry>) -> Seq<StEntrySpec> {
    entries.map_values(|e: StEntry| e@)
}

/// One decoded diff entry: the table index it addresses, the fields it
/// carries (absent fields keep the prior entry's), and the bit offset
/// just past it.
pub struct DiffEntrySpec {
    pub index: nat,
    pub key: Option<Seq<u8>>,
    pub value: Option<Seq<u8>>,
    pub user_int: Option<u32>,
    pub end: int,
}

/// Outcome of decoding one diff entry.
pub enum DiffOut {
    Val(DiffEntrySpec),
    Trunc,
    Malformed,
}

/// Decodes one diff entry at bit `off`. `next_index` is one past the
/// previous entry's index, `prev_key` the previous entry's key (the
/// prefix-reuse base), `entries` the table contents built so far, and
/// `fixed`/`size_bits` the table's value-size flags.
pub open spec fn diff_entry_at(
    d: Seq<u8>,
    off: int,
    next_index: nat,
    prev_key: Seq<u8>,
    entries: Seq<StEntrySpec>,
    fixed: bool,
    size_bits: nat,
) -> DiffOut {
    {
        match index_at(d, off, next_index) {
            DiffOut::Val(e1) => match key_at(d, e1.end, prev_key) {
                DiffOut::Val(e2) => match value_at(d, e2.end, entries, fixed, size_bits) {
                    DiffOut::Val(e3) => match int_at(d, e3.end) {
                        DiffOut::Val(e4) => DiffOut::Val(
                            DiffEntrySpec {
                                index: e1.index,
                                key: e2.key,
                                value: e3.value,
                                user_int: e4.user_int,
                                end: e4.end,
                            },
                        ),
                        o => o,
                    },
                    o => o,
                },
                o => o,
            },
            o => o,
        }
    }
}

/// The index part of a diff entry: a consecutive bit, then, when the
/// index is not one past the previous entry's, an explicit index.
pub open spec fn index_at(d: Seq<u8>, off: int, next_index: nat) -> DiffOut {
    if off + 1 > d.len() * 8 {
        DiffOut::Trunc
    } else if bit_at(d, off) {
        DiffOut::Val(
            DiffEntrySpec {
                index: next_index,
                key: None,
                value: None,
                user_int: None,
                end: off + 1,
            },
        )
    } else {
        match ubitvar_at(d, off + 1) {
            Decoded::Val { value: idx, bits } => DiffOut::Val(
                DiffEntrySpec {
                    index: idx,
                    key: None,
                    value: None,
                    user_int: None,
                    end: off + 1 + bits,
                },
            ),
            _ => DiffOut::Trunc,
        }
    }
}

/// The key part of a diff entry: a presence bit, then a five-bit count
/// of bytes shared with the previous key and a length-prefixed suffix.
pub open spec fn key_at(d: Seq<u8>, off: int, prev_key: Seq<u8>) -> DiffOut {
    if off + 1 > d.len() * 8 {
        DiffOut::Trunc
    } else if !bit_at(d, off) {
        DiffOut::Val(
            DiffEntrySpec { index: 0, key: None, value: None, user_int: None, end: off + 1 },
        )
    } else if off + 6 > d.len() * 8 {
        DiffOut::Trunc
    } else {
        let prefix = crate::bitbuf::decode_bits(crate::bitbuf::bits_seq(d, off + 1, 5));
        if prefix > prev_key.len() {
            DiffOut::Malformed
        } else {
            match ubitvar_at(d, off + 6) {
                Decoded::Val { value: slen, bits } => {
                    let o2 = off + 6 + bits;
                    if o2 + 8 * slen > d.len() * 8 {
                        DiffOut::Trunc
                    } else {
                        DiffOut::Val(
                            DiffEntrySpec {
                                index: 0,
                                key: Some(
                                    prev_key.take(prefix as int) + bytes_at(d, o2, slen),
                                ),
                                value: None,
                                user_int: None,
                                end: o2 + 8 * slen,
                            },
                        )
                    }
                },
                _ => DiffOut::Trunc,
            }
        }
    }
}

/// The value part of a diff entry: a presence bit, then either a
/// reference back to an earlier entry's value, a fixed-width bit field,
/// or a length-prefixed byte string.
pub open spec fn value_at(
    d: Seq<u8>,
    off: int,
    entries: Seq<StEntrySpec>,
    fixed: bool,
    size_bits: nat,
) -> DiffOut {
    if off + 1 > d.len() * 8 {
        DiffOut::Trunc
    } else if !bit_at(d, off) {
        DiffOut::Val(
            DiffEntrySpec { index: 0, key: None, value: None, user_int: None, end: off + 1 },
        )
    } else if off + 2 > d.len() * 8 {
        DiffOut::Trunc
    } else if bit_at(d, off + 1) {
        match ubitvar_at(d, off + 2) {
            Decoded::Val { value: ref_idx, bits } => if ref_idx >= entries.len() {
                DiffOut::Malformed
            } else {
                match entries[ref_idx as int].value {
                    None => DiffOut::Malformed,
                    Some(v) => DiffOut::Val(
                        DiffEntrySpec {
                            index: 0,
                            key: None,
                            value: Some(v),
                            user_int: None,
                            end: off + 2 + bits,
                        },
                    ),
                }
            },
            _ => DiffOut::Trunc,
        }
    } else if fixed {
        if off + 2 + size_bits > d.len() * 8 {
            DiffOut::Trunc
        } else {
            DiffOut::Val(
                DiffEntrySpec {
                    index: 0,
                    key: None,
                    value: Some(packed_bits(d, off + 2, size_bits)),
                    user_int: None,
                    end: off + 2 + size_bits,
                },
            )
        }
    } else {
        match ubitvar_at(d, off + 2) {
            Decoded::Val { value: vlen, bits } => {
                let o2 = off + 2 + bits;
                if o2 + 8 * vlen > d.len() * 8 {
                    DiffOut::Trunc
                } else {
                    DiffOut::Val(
                        DiffEntrySpec {
                            index: 0,
                            key: None,
                            value: Some(bytes_at(d, o2, vlen)),
                            user_int: None,
                            end: o2 + 8 * vlen,
                        },
                    )
                }
            },
            _ => DiffOut::Trunc,
        }
    }
}

/// The user-data integer part of a diff entry: a presence bit, then a
/// self-describing small integer.
pub open spec fn int_at(d: Seq<u8>, off: int) -> DiffOut {
    if off + 1 > d.len() * 8 {
        DiffOut::Trunc
    } else if !bit_at(d, off) {
        DiffOut::Val(
            DiffEntrySpec { index: 0, key: None, value: None, user_int: None, end: off + 1 },
        )
    } else {
        match ubitvar_at(d, off + 1) {
            Decoded::Val { value, bits } => DiffOut::Val(
                DiffEntrySpec {
                    index: 0,
                    key: None,
                    value: None,
                    user_int: Some(value as u32),
                    end: off + 1 + bits,
                },
            ),
            _ => DiffOut::Trunc,
        }
    }
}

/// Applies one decoded diff entry: in range it updates in place, one
/// past the end it appends (a new entry must bring a key), and further
/// out it is malformed. The table never reorders.
pub open spec fn st_apply(entries: Seq<StEntrySpec>, e: DiffEntrySpec) -> Option<
    Seq<StEntrySpec>,
> {
    if e.index < entries.len() {
        let old_e = entries[e.index as int];
        Some(
            entries.update(
                e.index as int,
                StEntrySpec {
                    key: match e.key {
                        Some(k) => k,
                        None => old_e.key,
                    },
                    value: match e.value {
                        Some(v) => Some(v),
                        None => old_e.value,
                    },
                    user_int: match e.user_int {
                        Some(u) => Some(u),
                        None => old_e.user_int,
                    },
                },
            ),
        )
    } else if e.index == entries.len() {
        match e.key {
            None => None,
            Some(k) => Some(
                entries.push(StEntrySpec { key: k, value: e.value, user_int: e.user_int }),
            ),
        }
    } else {
        None
    }
}

/// Outcome of applying a whole diff.
pub enum StOut {
    Done { entries: Seq<StEntrySpec>, end: int },
    Trunc,
    Malformed,
}

/// Decodes and applies `n` diff entries in strict sequence order,
/// starting from `entries`; each entry's meaning depends on the cursor
/// state and key left by the previous one.
pub open spec fn st_diffs_at(
    d: Seq<u8>,
    off: int,
    n: nat,
    entries: Seq<StEntrySpec>,
    next_index: nat,
    prev_key: Seq<u8>,
    fixed: bool,
    size_bits: nat,
) -> StOut
    decreases n,
{
    if n == 0 {
        StOut::Done { entries, end: off }
    } else {
        match diff_entry_at(d, off, next_index, prev_key, entries, fixed, size_bits) {
            DiffOut::Val(e) => match st_apply(entries, e) {
                None => StOut::Malformed,
                Some(newe) => st_diffs_at(
                    d,
                    e.end,
                    (n - 1) as nat,
                    newe,
                    e.index + 1,
                    newe[e.index as int].key,
                    fixed,
                    size_bits,
                ),
            },
            DiffOut::Trunc => StOut::Trunc,
            DiffOut::Malformed => StOut::Malformed,
        }
    }
}

/// Copies a byte string.
pub(crate) fn clone_bytes(v: &Vec<u8>) -> (r: Vec<u8>)
    ensures
        r@ == v@,
{
    let r = v.clone();
    proof {
        assert(r@ =~= v@);
    }
    r
}

/// The first `prefix` bytes of `prev`, then all of `suffix`.
fn splice_key(prev: &Vec<u8>, prefix: usize, suffix: &Vec<u8>) -> (r: Vec<u8>)
    requires
        prefix <= prev@.len(),
    ensures
        r@ == prev@.take(prefix as int) + suffix@,
{
    let mut r: Vec<u8> = Vec::new();
    let mut i: usize = 0;
    while i < prefix
        invariant
            i <= prefix <= prev@.len(),
            r@ == prev@.take(i as int),
        decreases prefix - i,
    {
        r.push(prev[i]);
        proof {
            assert(r@ =~= prev@.take(i + 1));
        }
        i = i + 1;
    }
    let mut j: usize = 0;
    while j < suffix.len()
        invariant
            j <= suffix@.len(),
            prefix <= prev@.len(),
            r@ == prev@.take(prefix as int) + suffix@.take(j as int),
        decreases suffix@.len() - j,
    {
        r.push(suffix[j]);
        proof {
            assert(r@ =~= prev@.take(prefix as int) + suffix@.take(j + 1));
        }
        j = j + 1;
    }
    proof {
        assert(suffix@.take(suffix@.len() as int) =~= suffix@);
    }
    r
}

/// A named, versioned key/value table replicated through full snapshots
/// and incremental diffs; entries are index-stable and append-mostly.
pub struct StringTable {
    name: Vec<u8>,
    user_data_fixed_size: bool,
    user_data_size_bits: u32,
    entries: Vec<StEntry>,
}

impl StringTable {
    /// The table's contents, as the model sees them.
    pub closed spec fn sentries(&self) -> Seq<StEntrySpec> {
        st_view(self.entries@)
    }

    /// The table's name.
    pub closed spec fn sname(&self) -> Seq<u8> {
        self.name@
    }

    /// Whether values are fixed-size bit fields.
    pub closed spec fn sfixed(&self) -> bool {
        self.user_data_fixed_size
    }

    /// The bit width of fixed-size values.
    pub closed spec fn ssize_bits(&self) -> nat {
        self.user_data_size_bits as nat
    }

    /// The table's name, for dispatch by the driving loop.
    pub fn name(&self) -> (r: &Vec<u8>)
        ensures
            r@ == self.sname(),
    {
        &self.name
    }

    /// Declares an empty table with its value-size flags.
    pub fn new(name: Vec<u8>, user_data_fixed_size: bool, user_data_size_bits: u32) -> (r:
        Self)
        ensures
            r.sentries() == Seq::<StEntrySpec>::empty(),
            r.sentries().len() == 0,
            r.sname() == name@,
            r.sfixed() == user_data_fixed_size,
            r.ssize_bits() == user_data_size_bits as nat,
    {
        let r = StringTable { name, user_data_fixed_size, user_data_size_bits, entries: Vec::new() };
        proof {
            assert(st_view(r.entries@) =~= Seq::<StEntrySpec>::empty());
        }
        r
    }

    /// How many entries the table holds.
    pub fn len(&self) -> (r: usize)
        ensures
            r == self.sentries().len(),
    {
        self.entries.len()
    }

    /// The entry at `i`.
    pub fn entry(&self, i: usize) -> (r: &StEntry)
        requires
            i < self.sentries().len(),
        ensures
            r@ == self.sentries()[i as int],
    {
        &self.entries[i]
    }

    /// Applies an incremental diff of `num_entries` entries read from
    /// `br`, in strict sequence order. On success the table holds
    /// exactly the result of the model's diff application; on error the
    /// table is no longer in sync and the session must stop.
    #[verifier::rlimit(100)]
    pub fn parse_update(&mut self, br: &mut BitReader, num_entries: u32) -> (r: Result<
        (),
        DemoError,
    >)
        requires
            old(br).wf(),
        ensures
            final(br).wf(),
            final(br).sdata() == old(br).sdata(),
            final(self).sname() == old(self).sname(),
            final(self).sfixed() == old(self).sfixed(),
            final(self).ssize_bits() == old(self).ssize_bits(),
            match r {
                Ok(()) => st_diffs_at(
                    old(br).sdata(),
                    old(br).soff() as int,
                    num_entries as nat,
                    old(self).sentries(),
                    0,
                    Seq::<u8>::empty(),
                    old(self).sfixed(),
                    old(self).ssize_bits(),
                ) matches StOut::Done { entries, end } && final(self).sentries() == entries
                    && final(br).soff() == end,
                Err(e) => {
                    &&& (e == DemoError::Truncated || e == DemoError::MalformedPath)
                    &&& (e == DemoError::Truncated <==> st_diffs_at(
                        old(br).sdata(),
                        old(br).soff() as int,
                        num_entries as nat,
                        old(self).sentries(),
                        0,
                        Seq::<u8>::empty(),
                        old(self).sfixed(),
                        old(self).ssize_bits(),
                    ) is Trunc)
                    &&& (e == DemoError::MalformedPath <==> st_diffs_at(
                        old(br).sdata(),
                        old(br).soff() as int,
                        num_entries as nat,
                        old(self).sentries(),
                        0,
                        Seq::<u8>::empty(),
                        old(self).sfixed(),
                        old(self).ssize_bits(),
                    ) is Malformed)
                },
            },
    {
        let ghost d = old(br).sdata();
        let ghost start = old(br).soff() as int;
        let ghost entries0 = self.sentries();
        let fixed = self.user_data_fixed_size;
        let size_bits = self.user_data_size_bits;
        let mut prev_key: Vec<u8> = Vec::new();
        let mut next_index: usize = 0;
        let mut i: u32 = 0;
        proof {
            assert(prev_key@ =~= Seq::<u8>::empty());
        }
        while i < num_entries
            invariant
                br.wf(),
                br.sdata() == d,
                d == old(br).sdata(),
                start == old(br).soff() as int,
                entries0 == old(self).sentries(),
                fixed == old(self).sfixed(),
                size_bits as nat == old(self).ssize_bits(),
                self.sname() == old(self).sname(),
                self.sfixed() == old(self).sfixed(),
                self.ssize_bits() == old(self).ssize_bits(),
                i <= num_entries,
                st_diffs_at(
                    d,
                    start,
                    num_entries as nat,
                    entries0,
                    0,
                    Seq::<u8>::empty(),
                    fixed,
                    size_bits as nat,
                ) == st_diffs_at(
                    d,
                    br.soff() as int,
                    (num_entries - i) as nat,
                    self.sentries(),
                    next_index as nat,
                    prev_key@,
                    fixed,
                    size_bits as nat,
                ),
            decreases num_entries - i,
        {
            match self.apply_one(br, next_index, &prev_key) {
                Ok((idx, key)) => {
                    next_index = idx + 1;
                    prev_key = key;
                },
                Err(e) => {
                    return Err(e);
                },
            }
            i = i + 1;
        }
        Ok(())
    }

    /// Decodes one diff entry from `br` and applies it to the table.
    /// Returns the index it addressed and the key now at that index.
    #[verifier::rlimit(100)]
    #[verifier::spinoff_prover]
    fn apply_one(&mut self, br: &mut BitReader, next_index: usize, prev_key: &Vec<u8>) -> (r:
        Result<(usize, Vec<u8>), DemoError>)
        requires
            old(br).wf(),
        ensures
            final(br).wf(),
            final(br).sdata() == old(br).sdata(),
            final(self).sname() == old(self).sname(),
            final(self).sfixed() == old(self).sfixed(),
            final(self).ssize_bits() == old(self).ssize_bits(),
            match r {
                Ok((idx, key)) => {
                    &&& diff_entry_at(
                        old(br).sdata(),
                        old(br).soff() as int,
                        next_index as nat,
                        prev_key@,
                        old(self).sentries(),
                        old(self).sfixed(),
                        old(self).ssize_bits(),
                    ) matches DiffOut::Val(e) && e.index == idx as nat && e.end
                        == final(br).soff() && st_apply(old(self).sentries(), e)
                        == Some(final(self).sentries())
                    &&& idx < final(self).sentries().len()
                    &&& idx < usize::MAX
                    &&& key@ == final(self).sentries()[idx as int].key
                },
                Err(e) => {
                    &&& (e == DemoError::Truncated || e == DemoError::MalformedPath)
                    &&& final(self).sentries() == old(self).sentries()
                    &&& {
                        let de = diff_entry_at(
                            old(br).sdata(),
                            old(br).soff() as int,
                            next_index as nat,
                            prev_key@,
                            old(self).sentries(),
                            old(self).sfixed(),
                            old(self).ssize_bits(),
                        );
                        &&& (e == DemoError::Truncated <==> de is Trunc)
                        &&& (e == DemoError::MalformedPath <==> de is Malformed || (
                        de matches DiffOut::Val(v) && st_apply(old(self).sentries(), v)
                            is None))
                    }
                },
            },
    {
        let ghost d = old(br).sdata();
        let ghost start = old(br).soff() as int;
        let ghost entries_v = self.sentries();
        let fixed = self.user_data_fixed_size;
        let size_bits = self.user_data_size_bits;

        let index = read_index_part(br, next_index)?;
        let key = read_key_part(br, prev_key)?;
        let value = read_value_part(br, &self.entries, fixed, size_bits)?;
        let user_int = read_int_part(br)?;

        let ghost de = DiffEntrySpec {
            index: index as nat,
            key: match key {
                Some(ref k) => Some(k@),
                None => None,
            },
            value: match value {
                Some(ref v) => Some(v@),
                None => None,
            },
            user_int,
            end: br.soff() as int,
        };
        proof {
            assert(diff_entry_at(
                d,
                start,
                next_index as nat,
                prev_key@,
                entries_v,
                fixed,
                size_bits as nat,
            ) == DiffOut::Val(de));
        }

        if index < self.entries.len() {
            let old_e = self.entries.remove(index);
            let new_key = match key {
                Some(k) => k,
                None => old_e.key,
            };
            let new_value = match value {
                Some(v) => Some(v),
                None => old_e.value,
            };
            let new_int = match user_int {
                Some(u) => Some(u),
                None => old_e.user_int,
            };
            let out_key = clone_bytes(&new_key);
            self.entries.insert(
                index,
                StEntry { key: new_key, value: new_value, user_int: new_int },
            );
            proof {
                assert(st_view(self.entries@) =~= st_apply(entries_v, de).unwrap());
            }
            Ok((index, out_key))
        } else if index == self.entries.len() {
            match key {
                None => Err(DemoError::MalformedPath),
                Some(k) => {
                    let out_key = clone_bytes(&k);
                    self.entries.push(StEntry { key: k, value, user_int });
                    let n2 = self.entries.len();
                    proof {
                        assert(index < n2);
                        assert(st_view(self.entries@) =~= st_apply(entries_v, de).unwrap());
                    }
                    Ok((index, out_key))
                },
            }
        } else {
            Err(DemoError::MalformedPath)
        }
    }
}

/// Reads the index part of one diff entry.
fn read_index_part(br: &mut BitReader, next_index: usize) -> (r: Result<usize, DemoError>)
    requires
        old(br).wf(),
    ensures
        final(br).wf(),
        final(br).sdata() == old(br).sdata(),
        match r {
            Ok(idx) => index_at(old(br).sdata(), old(br).soff() as int, next_index as nat)
                matches DiffOut::Val(e) && e.index == idx as nat && e.end == final(br).soff(),
            Err(e) => {
                &&& e == DemoError::Truncated
                &&& index_at(old(br).sdata(), old(br).soff() as int, next_index as nat)
                    is Trunc
            },
        },
{
    let consec = match br.read_bool() {
        Ok(b) => b,
        Err(_) => {
            return Err(DemoError::Truncated);
        },
    };
    if consec {
        Ok(next_index)
    } else {
        match br.read_ubitvar() {
            Ok(v) => Ok(v as usize),
            Err(_) => Err(DemoError::Truncated),
        }
    }
}

/// Reads the key part of one diff entry.
fn read_key_part(br: &mut BitReader, prev_key: &Vec<u8>) -> (r: Result<
    Option<Vec<u8>>,
    DemoError,
>)
    requires
        old(br).wf(),
    ensures
        final(br).wf(),
        final(br).sdata() == old(br).sdata(),
        match r {
            Ok(key) => key_at(old(br).sdata(), old(br).soff() as int, prev_key@) matches
                DiffOut::Val(e) && e.key == (match key {
                Some(k) => Some(k@),
                None => None::<Seq<u8>>,
            }) && e.end == final(br).soff(),
            Err(e) => {
                &&& (e == DemoError::Truncated || e == DemoError::MalformedPath)
                &&& (e == DemoError::Truncated <==> key_at(
                    old(br).sdata(),
                    old(br).soff() as int,
                    prev_key@,
                ) is Trunc)
                &&& (e == DemoError::MalformedPath <==> key_at(
                    old(br).sdata(),
                    old(br).soff() as int,
                    prev_key@,
                ) is Malformed)
            },
        },
{
    let has_key = match br.read_bool() {
        Ok(b) => b,
        Err(_) => {
            return Err(DemoError::Truncated);
        },
    };
    if !has_key {
        return Ok(None);
    }
    let prefix = match br.read_bits(5) {
        Ok(p) => p as usize,
        Err(_) => {
            return Err(DemoError::Truncated);
        },
    };
    if prefix > prev_key.len() {
        return Err(DemoError::MalformedPath);
    }
    let slen = match br.read_ubitvar() {
        Ok(v) => v,
        Err(_) => {
            return Err(DemoError::Truncated);
        },
    };
    let suffix = match br.read_bytes(slen as usize) {
        Ok(s) => s,
        Err(_) => {
            return Err(DemoError::Truncated);
        },
    };
    Ok(Some(splice_key(prev_key, prefix, &suffix)))
}

/// Reads the value part of one diff entry.
fn read_value_part(
    br: &mut BitReader,
    entries: &Vec<StEntry>,
    fixed: bool,
    size_bits: u32,
) -> (r: Result<Option<Vec<u8>>, DemoError>)
    requires
        old(br).wf(),
    ensures
        final(br).wf(),
        final(br).sdata() == old(br).sdata(),
        match r {
            Ok(value) => value_at(
                old(br).sdata(),
                old(br).soff() as int,
                st_view(entries@),
                fixed,
                size_bits as nat,
            ) matches DiffOut::Val(e) && e.value == (match value {
                Some(v) => Some(v@),
                None => None::<Seq<u8>>,
            }) && e.end == final(br).soff(),
            Err(e) => {
                &&& (e == DemoError::Truncated || e == DemoError::MalformedPath)
                &&& (e == DemoError::Truncated <==> value_at(
                    old(br).sdata(),
                    old(br).soff() as int,
                    st_view(entries@),
                    fixed,
                    size_bits as nat,
                ) is Trunc)
                &&& (e == DemoError::MalformedPath <==> value_at(
                    old(br).sdata(),
                    old(br).soff() as int,
                    st_view(entries@),
                    fixed,
                    size_bits as nat,
                ) is Malformed)
            },
        },
{
    let has_value = match br.read_bool() {
        Ok(b) => b,
        Err(_) => {
            return Err(DemoError::Truncated);
        },
    };
    if !has_value {
        return Ok(None);
    }
    let by_ref = match br.read_bool() {
        Ok(b) => b,
        Err(_) => {
            return Err(DemoError::Truncated);
        },
    };
    if by_ref {
        let ref_idx = match br.read_ubitvar() {
            Ok(v) => v,
            Err(_) => {
                return Err(DemoError::Truncated);
            },
        };
        if ref_idx as usize >= entries.len() {
            return Err(DemoError::MalformedPath);
        }
        match &entries[ref_idx as usize].value {
            None => Err(DemoError::MalformedPath),
            Some(v) => Ok(Some(clone_bytes(v))),
        }
    } else if fixed {
        match br.read_bits_as_bytes(size_bits as usize) {
            Ok(v) => Ok(Some(v)),
            Err(_) => Err(DemoError::Truncated),
        }
    } else {
        let vlen = match br.read_ubitvar() {
            Ok(v) => v,
            Err(_) => {
                return Err(DemoError::Truncated);
            },
        };
        match br.read_bytes(vlen as usize) {
            Ok(v) => Ok(Some(v)),
            Err(_) => Err(DemoError::Truncated),
        }
    }
}

/// Reads the user-data integer part of one diff entry.
fn read_int_part(br: &mut BitReader) -> (r: Result<Option<u32>, DemoError>)
    requires
        old(br).wf(),
    ensures
        final(br).wf(),
        final(br).sdata() == old(br).sdata(),
        match r {
            Ok(ui) => int_at(old(br).sdata(), old(br).soff() as int) matches DiffOut::Val(e)
                && e.user_int == ui && e.end == final(br).soff(),
            Err(e) => {
                &&& e == DemoError::Truncated
                &&& int_at(old(br).sdata(), old(br).soff() as int) is Trunc
            },
        },
{
    let has_int = match br.read_bool() {
        Ok(b) => b,
        Err(_) => {
            return Err(DemoError::Truncated);
        },
    };
    if !has_int {
        return Ok(None);
    }
    match br.read_ubitvar() {
        Ok(v) => Ok(Some(v)),
        Err(_) => Err(DemoError::Truncated),
    }
}


/// Borrows one element of a vector mutably.
fn vec_index_mut<T>(v: &mut Vec<T>, i: usize) -> (element: &mut T)
    requires
        i < old(v).len(),
    ensures
        *element == old(v)@[i as int],
        final(v)@ == old(v)@.update(i as int, *final(element)),
{
    &mut v[i]
}

/// The engine that owns every replicated table of one session, keyed by
/// a numeric table id assigned at creation time, in creation order.
pub struct StringTables {
    tables: Vec<StringTable>,
}

impl StringTables {
    /// The tables, in creation order.
    pub closed spec fn stables(&self) -> Seq<StringTable> {
        self.tables@
    }

    pub fn new() -> (r: Self)
        ensures
            r.stables().len() == 0,
    {
        StringTables { tables: Vec::new() }
    }

    /// How many tables have been declared.
    pub fn len(&self) -> (r: usize)
        ensures
            r == self.stables().len(),
    {
        self.tables.len()
    }

    /// The table with the given id.
    pub fn table(&self, id: usize) -> (r: Result<&StringTable, DemoError>)
        ensures
            match r {
                Ok(t) => id < self.stables().len() && *t == self.stables()[id as int],
                Err(e) => e == DemoError::UnknownTable && id >= self.stables().len(),
            },
    {
        if id >= self.tables.len() {
            return Err(DemoError::UnknownTable);
        }
        Ok(&self.tables[id])
    }

    /// Declares a table by name with its value-size flags and applies
    /// its initial full snapshot of `num_entries` entries from `br`.
    /// Returns the new table's id.
    pub fn create_string_table(
        &mut self,
        name: Vec<u8>,
        user_data_fixed_size: bool,
        user_data_size_bits: u32,
        br: &mut BitReader,
        num_entries: u32,
    ) -> (r: Result<usize, DemoError>)
        requires
            old(br).wf(),
        ensures
            final(br).wf(),
            final(br).sdata() == old(br).sdata(),
            match r {
                Ok(id) => {
                    &&& id == old(self).stables().len()
                    &&& final(self).stables().len() == id + 1
                    &&& forall|j: int|
                        0 <= j < id ==> final(self).stables()[j] == old(self).stables()[j]
                    &&& final(self).stables()[id as int].sname() == name@
                    &&& final(self).stables()[id as int].sfixed() == user_data_fixed_size
                    &&& final(self).stables()[id as int].ssize_bits()
                        == user_data_size_bits as nat
                    &&& st_diffs_at(
                        old(br).sdata(),
                        old(br).soff() as int,
                        num_entries as nat,
                        Seq::<StEntrySpec>::empty(),
                        0,
                        Seq::<u8>::empty(),
                        user_data_fixed_size,
                        user_data_size_bits as nat,
                    ) matches StOut::Done { entries, end } && final(self).stables()[
                        id as int
                    ].sentries() == entries && final(br).soff() == end
                },
                Err(e) => {
                    &&& (e == DemoError::Truncated || e == DemoError::MalformedPath)
                    &&& (e == DemoError::Truncated <==> st_diffs_at(
                        old(br).sdata(),
                        old(br).soff() as int,
                        num_entries as nat,
                        Seq::<StEntrySpec>::empty(),
                        0,
                        Seq::<u8>::empty(),
                        user_data_fixed_size,
                        user_data_size_bits as nat,
                    ) is Trunc)
                },
            },
    {
        let id = self.tables.len();
        let table = StringTable::new(name, user_data_fixed_size, user_data_size_bits);
        self.tables.push(table);
        let t = vec_index_mut(&mut self.tables, id);
        match t.parse_update(br, num_entries) {
            Ok(()) => Ok(id),
            Err(e) => Err(e),
        }
    }

    /// Applies an incremental diff of `num_changed` entries to the
    /// table with the given id.
    pub fn update_string_table(
        &mut self,
        id: usize,
        br: &mut BitReader,
        num_changed: u32,
    ) -> (r: Result<(), DemoError>)
        requires
            old(br).wf(),
        ensures
            final(br).wf(),
            final(br).sdata() == old(br).sdata(),
            final(self).stables().len() == old(self).stables().len(),
            match r {
                Ok(()) => {
                    &&& id < old(self).stables().len()
                    &&& forall|j: int|
                        0 <= j < old(self).stables().len() && j != id ==> final(self).stables()[j] == old(self).stables()[j]
                    &&& final(self).stables()[id as int].sname() == old(self).stables()[
                        id as int
                    ].sname()
                    &&& st_diffs_at(
                        old(br).sdata(),
                        old(br).soff() as int,
                        num_changed as nat,
                        old(self).stables()[id as int].sentries(),
                        0,
                        Seq::<u8>::empty(),
                        old(self).stables()[id as int].sfixed(),
                        old(self).stables()[id as int].ssize_bits(),
                    ) matches StOut::Done { entries, end } && final(self).stables()[
                        id as int
                    ].sentries() == entries && final(br).soff() == end
                },
                Err(e) => {
                    &&& (e == DemoError::UnknownTable <==> id >= old(self).stables().len())
                    &&& (e == DemoError::UnknownTable || e == DemoError::Truncated || e
                        == DemoError::MalformedPath)
                },
            },
    {
        if id >= self.tables.len() {
            return Err(DemoError::UnknownTable);
        }
        let t = vec_index_mut(&mut self.tables, id);
        t.parse_update(br, num_changed)
    }
}

/// Applying a full snapshot and then no incremental diffs at all leaves
/// a table exactly as the snapshot built it: a diff of zero entries is
/// the identity on a table's contents.
pub proof fn lemma_empty_diff_identity(
    d: Seq<u8>,
    off: int,
    entries: Seq<StEntrySpec>,
    next_index: nat,
    prev_key: Seq<u8>,
    fixed: bool,
    size_bits: nat,
)
    ensures
        st_diffs_at(d, off, 0, entries, next_index, prev_key, fixed, size_bits)
            == (StOut::Done { entries, end: off }),
{
}

} // verus!

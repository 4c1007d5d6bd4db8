use vstd::prelude::*;

use crate::bitbuf::{bytes_at, varint32_at, BitReader, Decoded, MAX_BUF_BYTES};
use crate::error::DemoError;
use vstd::arithmetic::power2::pow2;

verus! {

/// Outcome of decoding a class-info list.
pub enum CiOut {
    Done { names: Seq<Seq<u8>>, end: int },
    Trunc,
    BadVarint,
    BadId,
}

/// Decodes `n` class declarations at bit `off`: each is an id varint,
/// which must equal the next unassigned id, then a length-prefixed
/// serializer name. Class ids are assigned densely, in declaration
/// order.
pub open spec fn class_info_at(d: Seq<u8>, off: int, n: nat, next_id: nat) -> CiOut
    decreases n,
{
    if n == 0 {
        CiOut::Done { names: Seq::empty(), end: off }
    } else {
        match varint32_at(d, off) {
            Decoded::Val { value: id, bits: b0 } => if id != next_id {
                CiOut::BadId
            } else {
                match varint32_at(d, off + b0) {
                    Decoded::Val { value: nlen, bits: b1 } => {
                        let o2 = off + b0 + b1;
                        if o2 + 8 * nlen > d.len() * 8 {
                            CiOut::Trunc
                        } else {
                            match class_info_at(
                                d,
                                o2 + 8 * nlen,
                                (n - 1) as nat,
                                next_id + 1,
                            ) {
                                CiOut::Done { names, end } => CiOut::Done {
                                    names: seq![bytes_at(d, o2, nlen)].add(names),
                                    end,
                                },
                                o => o,
                            }
                        }
                    },
                    Decoded::Trunc => CiOut::Trunc,
                    Decoded::Malformed => CiOut::BadVarint,
                }
            },
            Decoded::Trunc => CiOut::Trunc,
            Decoded::Malformed => CiOut::BadVarint,
        }
    }
}

/// Splices names already read onto the decoding of the remaining
/// declarations.
pub open spec fn ci_extend(acc: Seq<Seq<u8>>, o: CiOut) -> CiOut {
    match o {
        CiOut::Done { names, end } => CiOut::Done { names: acc + names, end },
        other => other,
    }
}

/// The narrowest bit width that covers `n` distinct class ids.
pub open spec fn class_id_width(n: nat) -> nat
    decreases n,
{
    if n <= 1 {
        0
    } else {
        1 + class_id_width((n + 1) / 2)
    }
}

/// The width an entity-create reads for a class id on the wire; the
/// cursor reads at most 32 bits in one step.
pub open spec fn wire_id_width(n: nat) -> nat {
    if n <= pow2(32) {
        class_id_width(n)
    } else {
        32
    }
}

/// The narrowest covering width is what its name says: it covers `n`,
/// and one bit fewer would not.
pub proof fn lemma_class_id_width(n: nat)
    ensures
        n <= pow2(class_id_width(n)),
        class_id_width(n) == 0 || n > pow2((class_id_width(n) - 1) as nat),
        n <= pow2(32) ==> class_id_width(n) <= 32,
    decreases n,
{
    vstd::arithmetic::power2::lemma2_to64();
    vstd::arithmetic::power2::lemma2_to64_rest();
    if n <= 1 {
    } else {
        let m = (n + 1) / 2;
        lemma_class_id_width(m);
        let w = class_id_width(n);
        vstd::arithmetic::div_mod::lemma_fundamental_div_mod(n as int + 1, 2);
        vstd::arithmetic::power2::lemma_pow2_adds((w - 1) as nat, 1);
        if w - 1 > 0 {
            vstd::arithmetic::power2::lemma_pow2_adds((w - 2) as nat, 1);
        }
        if n <= pow2(32) {
            if w > 32 {
                vstd::arithmetic::power2::lemma_pow2_strictly_increases(
                    32,
                    (w - 1) as nat,
                );
            }
        }
    }
}

/// Only one width satisfies the covering characterization.
pub proof fn lemma_id_width_unique(n: nat, a: nat, b: nat)
    requires
        n <= pow2(a),
        a == 0 || n > pow2((a - 1) as nat),
        n <= pow2(b),
        b == 0 || n > pow2((b - 1) as nat),
    ensures
        a == b,
{
    if a < b {
        if a < b - 1 {
            vstd::arithmetic::power2::lemma_pow2_strictly_increases(a, (b - 1) as nat);
        }
    }
    if b < a {
        if b < a - 1 {
            vstd::arithmetic::power2::lemma_pow2_strictly_increases(b, (a - 1) as nat);
        }
    }
}

/// The growing table from numeric entity-class id to serializer name,
/// populated by the one class-info command of a demo.
pub struct EntityClasses {
    names: Vec<Vec<u8>>,
}

impl EntityClasses {
    /// The class names in id order.
    pub closed spec fn snames(&self) -> Seq<Seq<u8>> {
        self.names@.map_values(|n: Vec<u8>| n@)
    }

    pub fn new() -> (r: Self)
        ensures
            r.snames() == Seq::<Seq<u8>>::empty(),
    {
        let r = EntityClasses { names: Vec::new() };
        proof {
            assert(r.snames() =~= Seq::<Seq<u8>>::empty());
        }
        r
    }

    /// How many classes have been declared.
    pub fn count(&self) -> (r: usize)
        ensures
            r == self.snames().len(),
    {
        self.names.len()
    }

    /// The serializer name of one class.
    pub fn class_name(&self, id: u32) -> (r: Result<&Vec<u8>, DemoError>)
        ensures
            match r {
                Ok(n) => (id as nat) < self.snames().len() && n@ == self.snames()[id as int],
                Err(e) => e == DemoError::UnknownClass && id as nat >= self.snames().len(),
            },
    {
        if (id as usize) >= self.names.len() {
            return Err(DemoError::UnknownClass);
        }
        Ok(&self.names[id as usize])
    }

    /// How many bits an entity-create reads for a class id: the
    /// narrowest width that covers every declared class.
    pub fn id_bits(&self) -> (r: usize)
        ensures
            r <= 32,
            self.snames().len() <= pow2(32) ==> self.snames().len() <= pow2(r as nat),
            r == 0 || self.snames().len() > pow2((r - 1) as nat),
            r == wire_id_width(self.snames().len()),
    {
        let n = self.names.len();
        let mut b: usize = 0;
        let mut c: u64 = 1;
        proof {
            vstd::arithmetic::power2::lemma2_to64();
        }
        while c < n as u64 && b < 32
            invariant
                b <= 32,
                c == pow2(b as nat),
                c >= 1,
                b == 0 || n > pow2((b - 1) as nat),
            decreases 32 - b,
        {
            proof {
                vstd::arithmetic::power2::lemma_pow2_adds(b as nat, 1);
                vstd::arithmetic::power2::lemma2_to64();
                vstd::arithmetic::power2::lemma_pow2_strictly_increases(b as nat, 33);
                vstd::arithmetic::power2::lemma2_to64_rest();
            }
            c = c * 2;
            b = b + 1;
        }
        proof {
            vstd::arithmetic::power2::lemma2_to64_rest();
            if self.names@.len() <= pow2(32) {
                lemma_class_id_width(self.names@.len());
                lemma_id_width_unique(
                    self.names@.len(),
                    b as nat,
                    class_id_width(self.names@.len()),
                );
            } else {
                if b < 32 {
                    vstd::arithmetic::power2::lemma_pow2_strictly_increases(b as nat, 32);
                }
            }
        }
        b
    }

    /// Reads the one class-info command: a count varint, then that many
    /// id/name declarations, appended to the classes already known.
    pub fn parse(&mut self, data: &Vec<u8>) -> (r: Result<(), DemoError>)
        requires
            data@.len() <= MAX_BUF_BYTES,
        ensures
            match r {
                Ok(()) => varint32_at(data@, 0) matches Decoded::Val { value: n, bits }
                    && class_info_at(data@, bits as int, n, old(self).snames().len())
                    matches CiOut::Done { names, end } && final(self).snames() == old(
                    self,
                ).snames() + names,
                Err(e) => {
                    &&& final(self).snames() == old(self).snames()
                    &&& match varint32_at(data@, 0) {
                        Decoded::Trunc => e == DemoError::Truncated,
                        Decoded::Malformed => e == DemoError::MalformedVarint,
                        Decoded::Val { value: n, bits } => {
                            let ci = class_info_at(
                                data@,
                                bits as int,
                                n,
                                old(self).snames().len(),
                            );
                            &&& (e == DemoError::Truncated <==> ci is Trunc)
                            &&& (e == DemoError::MalformedVarint <==> ci is BadVarint)
                            &&& (e == DemoError::MalformedPath <==> ci is BadId)
                        },
                    }
                },
            },
    {
        let ghost d = data@;
        let ghost base = self.snames();
        let base_len = self.names.len();
        let mut br = BitReader::new(data);
        let n = match br.read_varint32() {
            Ok(n) => n,
            Err(e) => {
                return Err(e);
            },
        };
        let mut i: u32 = 0;
        let ghost hb = br.soff();
        let ghost whole = class_info_at(d, br.soff() as int, n as nat, base.len());
        proof {
            assert(base == self.snames().take(base_len as int)) by {
                assert(self.snames().take(base_len as int) =~= self.snames());
            };
            assert(base + Seq::<Seq<u8>>::empty() =~= base);
            assert(ci_extend(base, whole) == ci_extend(
                self.snames(),
                class_info_at(d, br.soff() as int, (n - i) as nat, self.snames().len()),
            ));
        }
        while i < n
            invariant
                br.wf(),
                br.sdata() == d,
                d == data@,
                i <= n,
                base_len == base.len(),
                base_len <= self.names@.len(),
                base == self.snames().take(base_len as int),
                base == old(self).snames(),
                varint32_at(d, 0) == (Decoded::Val { value: n as nat, bits: hb }),
                whole == class_info_at(d, hb as int, n as nat, base.len()),
                ci_extend(base, whole) == ci_extend(
                    self.snames(),
                    class_info_at(d, br.soff() as int, (n - i) as nat, self.snames().len()),
                ),
            decreases n - i,
        {
            let ghost pre = self.snames();
            let id = match br.read_varint32() {
                Ok(v) => v,
                Err(e) => {
                    self.truncate_to(base_len);
                    return Err(e);
                },
            };
            let cnt = self.names.len();
            if id as usize != cnt {
                self.truncate_to(base_len);
                return Err(DemoError::MalformedPath);
            }
            let nlen = match br.read_varint32() {
                Ok(v) => v,
                Err(e) => {
                    self.truncate_to(base_len);
                    return Err(e);
                },
            };
            let name = match br.read_bytes(nlen as usize) {
                Ok(v) => v,
                Err(e) => {
                    self.truncate_to(base_len);
                    return Err(e);
                },
            };
            let ghost nv = name@;
            self.names.push(name);
            proof {
                assert(self.snames() =~= pre.push(nv));
                assert(self.snames().take(base_len as int) =~= pre.take(base_len as int));
                assert(pre + seq![nv] =~= pre.push(nv));
                let rest = class_info_at(
                    d,
                    br.soff() as int,
                    (n - i - 1) as nat,
                    self.snames().len(),
                );
                match rest {
                    CiOut::Done { names, end } => {
                        assert(pre + (seq![nv].add(names)) =~= pre.push(nv) + names);
                    },
                    _ => {},
                }
            }
            i = i + 1;
        }
        proof {
            assert(class_info_at(d, br.soff() as int, 0, self.snames().len())
                == (CiOut::Done { names: Seq::<Seq<u8>>::empty(), end: br.soff() as int }));
            assert(self.snames() + Seq::<Seq<u8>>::empty() =~= self.snames());
        }
        Ok(())
    }

    /// Drops names past `keep`; used to leave the table unchanged when
    /// a class-info command turns out to be malformed.
    fn truncate_to(&mut self, keep: usize)
        requires
            keep <= old(self).snames().len(),
        ensures
            final(self).snames() == old(self).snames().take(keep as int),
    {
        self.names.truncate(keep);
        proof {
            assert(self.snames() =~= old(self).snames().take(keep as int));
        }
    }
}

} // verus!
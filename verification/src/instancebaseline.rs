use vstd::prelude::*;

use crate::stringtables::{StEntrySpec, StringTable};

verus! {

/// The value of a string of ASCII decimal digits, most significant
/// first.
pub open spec fn digits_to_nat(s: Seq<u8>) -> nat
    decreases s.len(),
{
    if s.len() == 0 {
        0
    } else {
        (digits_to_nat(s.drop_last()) * 10 + (s.last() - 48)) as nat
    }
}

/// Whether every byte is an ASCII decimal digit.
pub open spec fn all_digits(s: Seq<u8>) -> bool {
    forall|i: int| 0 <= i < s.len() ==> 48 <= #[trigger] s[i] <= 57
}

/// The entity-class id denoted by a string-table key: a non-empty,
/// all-digit string whose value fits 32 bits.
pub open spec fn parse_u32_key(s: Seq<u8>) -> Option<nat> {
    if 1 <= s.len() <= 10 && all_digits(s) && digits_to_nat(s) < 0x1_0000_0000 {
        Some(digits_to_nat(s))
    } else {
        None
    }
}

/// The baseline pairs a table's contents project to, in table order:
/// one `(class id, blob)` pair for each entry whose key parses as a
/// class id and whose value is present.
pub open spec fn baseline_proj(entries: Seq<StEntrySpec>) -> Seq<(nat, Seq<u8>)>
    decreases entries.len(),
{
    if entries.len() == 0 {
        Seq::empty()
    } else {
        let rest = baseline_proj(entries.drop_last());
        let last = entries.last();
        match (parse_u32_key(last.key), last.value) {
            (Some(id), Some(v)) => rest.push((id, v)),
            _ => rest,
        }
    }
}

/// The blob of the last pair carrying `id`, if any: later table entries
/// override earlier ones.
pub open spec fn assoc_last(pairs: Seq<(nat, Seq<u8>)>, id: nat) -> Option<Seq<u8>>
    decreases pairs.len(),
{
    if pairs.len() == 0 {
        None
    } else if pairs.last().0 == id {
        Some(pairs.last().1)
    } else {
        assoc_last(pairs.drop_last(), id)
    }
}

/// A digit string's value only grows as more digits follow.
proof fn lemma_digits_prefix_le(s: Seq<u8>, i: int)
    requires
        0 <= i <= s.len(),
        all_digits(s),
    ensures
        digits_to_nat(s.take(i)) <= digits_to_nat(s),
    decreases s.len() - i,
{
    if i == s.len() {
        assert(s.take(i) =~= s);
    } else {
        assert(s.drop_last().take(i) =~= s.take(i));
        assert(all_digits(s.drop_last())) by {
            assert(forall|j: int|
                0 <= j < s.drop_last().len() ==> #[trigger] s.drop_last()[j] == s[j]);
        };
        lemma_digits_prefix_le(s.drop_last(), i);
        assert(48 <= s.last() <= 57);
    }
}

/// Parses a table key as an entity-class id.
fn parse_key(key: &Vec<u8>) -> (r: Option<u32>)
    ensures
        match r {
            Some(v) => parse_u32_key(key@) == Some(v as nat),
            None => parse_u32_key(key@) is None,
        },
{
    let n = key.len();
    if n < 1 || n > 10 {
        return None;
    }
    let mut acc: u64 = 0;
    let mut i: usize = 0;
    while i < n
        invariant
            i <= n == key@.len(),
            1 <= n <= 10,
            acc == digits_to_nat(key@.take(i as int)),
            acc < 0x1_0000_0000,
            forall|j: int| 0 <= j < i ==> 48 <= #[trigger] key@[j] <= 57,
        decreases n - i,
    {
        let b = key[i];
        if b < 48 || b > 57 {
            proof {
                assert(!all_digits(key@));
            }
            return None;
        }
        proof {
            assert(key@.take(i + 1).drop_last() =~= key@.take(i as int));
            assert(key@.take(i + 1).last() == key@[i as int]);
        }
        acc = acc * 10 + ((b - 48) as u64);
        i = i + 1;
        if acc >= 0x1_0000_0000 {
            proof {
                if all_digits(key@) {
                    lemma_digits_prefix_le(key@, i as int);
                }
            }
            return None;
        }
    }
    proof {
        assert(key@.take(n as int) =~= key@);
        assert(all_digits(key@));
    }
    Some(acc as u32)
}

/// The derived view over one string table that gives, per entity
/// class, the byte blob of default field values. It is a pure
/// projection of that table's current contents, rebuilt on every
/// update and never independently mutated.
pub struct InstanceBaseline {
    pairs: Vec<(u32, Vec<u8>)>,
}

impl InstanceBaseline {
    /// The projected pairs, in table order.
    pub closed spec fn spairs(&self) -> Seq<(nat, Seq<u8>)> {
        self.pairs@.map_values(|p: (u32, Vec<u8>)| (p.0 as nat, p.1@))
    }

    pub fn new() -> (r: Self)
        ensures
            r.spairs() == Seq::<(nat, Seq<u8>)>::empty(),
    {
        let r = InstanceBaseline { pairs: Vec::new() };
        proof {
            assert(r.spairs() =~= Seq::<(nat, Seq<u8>)>::empty());
        }
        r
    }

    /// Rebuilds the baseline from the table's full current contents.
    pub fn update(&mut self, table: &StringTable)
        ensures
            final(self).spairs() == baseline_proj(table.sentries()),
    {
        self.pairs = Vec::new();
        let n = table.len();
        let mut i: usize = 0;
        proof {
            assert(self.spairs() =~= baseline_proj(table.sentries().take(0)));
        }
        while i < n
            invariant
                i <= n == table.sentries().len(),
                self.spairs() == baseline_proj(table.sentries().take(i as int)),
            decreases n - i,
        {
            let ghost pre = self.spairs();
            let e = table.entry(i);
            proof {
                assert(table.sentries().take(i + 1).drop_last() =~= table.sentries().take(
                    i as int,
                ));
                assert(table.sentries().take(i + 1).last() == table.sentries()[i as int]);
            }
            match parse_key(&e.key) {
                Some(id) => match &e.value {
                    Some(v) => {
                        let blob = crate::stringtables::clone_bytes(v);
                        self.pairs.push((id, blob));
                        proof {
                            assert(self.spairs() =~= pre.push(((id as nat), v@)));
                        }
                    },
                    None => {},
                },
                None => {},
            }
            i = i + 1;
        }
        proof {
            assert(table.sentries().take(n as int) =~= table.sentries());
        }
    }

    /// The baseline blob for one class, the last one the table carries.
    pub fn get(&self, class_id: u32) -> (r: Option<&Vec<u8>>)
        ensures
            match r {
                Some(v) => assoc_last(self.spairs(), class_id as nat) == Some(v@),
                None => assoc_last(self.spairs(), class_id as nat) is None,
            },
    {
        let mut j = self.pairs.len();
        proof {
            assert(self.spairs().take(self.pairs@.len() as int) =~= self.spairs());
        }
        while j > 0
            invariant
                j <= self.pairs@.len(),
                assoc_last(self.spairs(), class_id as nat) == assoc_last(
                    self.spairs().take(j as int),
                    class_id as nat,
                ),
            decreases j,
        {
            j = j - 1;
            proof {
                assert(self.spairs().take(j + 1).drop_last() =~= self.spairs().take(j as int));
                assert(self.spairs().take(j + 1).last() == self.spairs()[j as int]);
            }
            if self.pairs[j].0 == class_id {
                return Some(&self.pairs[j].1);
            }
        }
        None
    }
}

} // verus!

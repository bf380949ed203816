//! The two code tables: from symbol to code, and from code back to symbol.
use crate::bits::{bits_eq, bits_get, bits_len, max_bits, BitBuf};
use vstd::arithmetic::power2::{
    lemma2_to64, lemma2_to64_rest, lemma_pow2_pos, lemma_pow2_strictly_increases,
    lemma_pow2_unfold, pow2,
};
use std::collections::HashMap;
use vstd::prelude::*;

verus! {

broadcast use vstd::std_specs::hash::group_hash_axioms;

/// The code of each symbol.
pub struct HuffTable {
    codes: HashMap<u8, BitBuf>,
}

impl View for HuffTable {
    type V = Map<u8, Seq<bool>>;

    closed spec fn view(&self) -> Map<u8, Seq<bool>> {
        Map::new(|byte: u8| self.codes@.contains_key(byte), |byte: u8| self.codes@[byte]@)
    }
}

impl HuffTable {
    /// A table without codes.
    pub fn new() -> (table: Self)
        ensures
            table@ == Map::<u8, Seq<bool>>::empty(),
    {
        let table = HuffTable { codes: HashMap::new() };
        assert(table@ =~= Map::<u8, Seq<bool>>::empty());
        table
    }

    /// Gives `byte` the code `code`, in place of any code it had.
    pub fn insert(&mut self, byte: u8, code: BitBuf)
        ensures
            final(self)@ == old(self)@.insert(byte, code@),
    {
        self.codes.insert(byte, code);
        assert(self@ =~= old(self)@.insert(byte, code@));
    }

    /// The code of `byte`, if it has one.
    pub fn get(&self, byte: u8) -> (code: Option<&BitBuf>)
        ensures
            (match code {
                Some(c) => self@.contains_key(byte) && c@ == self@[byte],
                None => !self@.contains_key(byte),
            }),
    {
        self.codes.get(&byte)
    }
}

/// One entry of an inverse table: a code and the symbol it stands for.
struct InverseEntry {
    code: BitBuf,
    byte: u8,
}

/// The map that a list of entries stands for: a later entry replaces an
/// earlier one with the same code.
spec fn entries_map(entries: Seq<InverseEntry>) -> Map<Seq<bool>, u8>
    decreases entries.len(),
{
    if entries.len() == 0 {
        Map::empty()
    } else {
        entries_map(entries.drop_last()).insert(entries.last().code@, entries.last().byte)
    }
}

/// A code that no entry holds is not a key of the map.
proof fn lemma_absent(entries: Seq<InverseEntry>, code: Seq<bool>)
    requires
        forall|k: int| 0 <= k < entries.len() ==> (#[trigger] entries[k]).code@ != code,
    ensures
        !entries_map(entries).contains_key(code),
    decreases entries.len(),
{
    if entries.len() > 0 {
        let front = entries.drop_last();
        assert forall|k: int| 0 <= k < front.len() implies (#[trigger] front[k]).code@ != code by {
            assert(front[k] == entries[k]);
        }
        lemma_absent(front, code);
        assert(entries[entries.len() - 1].code@ != code);
    }
}

/// The map gives a code the symbol of the last entry that holds it.
proof fn lemma_found(entries: Seq<InverseEntry>, code: Seq<bool>, j: int)
    requires
        0 <= j < entries.len(),
        entries[j].code@ == code,
        forall|k: int| j < k < entries.len() ==> (#[trigger] entries[k]).code@ != code,
    ensures
        entries_map(entries).contains_key(code),
        entries_map(entries)[code] == entries[j].byte,
    decreases entries.len(),
{
    if j < entries.len() - 1 {
        let front = entries.drop_last();
        assert(front[j] == entries[j]);
        assert forall|k: int| j < k < front.len() implies (#[trigger] front[k]).code@ != code by {
            assert(front[k] == entries[k]);
        }
        lemma_found(front, code, j);
        assert(entries[entries.len() - 1].code@ != code);
    }
}

/// Every key of the map is the code of some entry.
proof fn lemma_key_has_entry(entries: Seq<InverseEntry>, code: Seq<bool>)
    requires
        entries_map(entries).contains_key(code),
    ensures
        exists|k: int| 0 <= k < entries.len() && (#[trigger] entries[k]).code@ == code,
{
    if forall|k: int| 0 <= k < entries.len() ==> (#[trigger] entries[k]).code@ != code {
        lemma_absent(entries, code);
    }
}

/// The number that stands for a code: a 1 bit and behind it the bits of the
/// code, read as a binary number.  Codes of up to 63 bits have a number
/// below 2^64.
pub open spec fn key_of(code: Seq<bool>) -> nat
    decreases code.len(),
{
    if code.len() == 0 {
        1
    } else {
        2 * key_of(code.drop_last()) + if code.last() {
            1nat
        } else {
            0nat
        }
    }
}

/// The number of a code lies between 2 to the code's length and twice that.
pub proof fn lemma_key_bound(code: Seq<bool>)
    ensures
        pow2(code.len()) <= key_of(code) < pow2(code.len() + 1),
        code.len() <= 63 ==> key_of(code) <= u64::MAX,
    decreases code.len(),
{
    lemma2_to64();
    lemma2_to64_rest();
    lemma_pow2_unfold(code.len() + 1);
    if code.len() > 0 {
        lemma_key_bound(code.drop_last());
        lemma_pow2_unfold(code.len());
    }
    if code.len() < 63 {
        lemma_pow2_strictly_increases(code.len() + 1, 64);
    }
}

/// Two codes with the same number are the same code.
pub proof fn lemma_key_injective(a: Seq<bool>, b: Seq<bool>)
    requires
        key_of(a) == key_of(b),
    ensures
        a == b,
    decreases a.len(),
{
    lemma_key_bound(a.drop_last());
    lemma_key_bound(b.drop_last());
    lemma_pow2_pos(a.drop_last().len());
    lemma_pow2_pos(b.drop_last().len());
    if a.len() == 0 || b.len() == 0 {
        assert(a.len() == 0 && b.len() == 0);
        assert(a =~= b);
    } else {
        lemma_key_injective(a.drop_last(), b.drop_last());
        assert(a == a.drop_last().push(a.last()));
        assert(b == b.drop_last().push(b.last()));
    }
}

/// The number of a code of at most 63 bits; `None` for a longer one.
fn short_key(code: &BitBuf) -> (key: Option<u64>)
    ensures
        code@.len() <= 63 ==> key == Some(key_of(code@) as u64) && key_of(code@) <= u64::MAX,
        code@.len() > 63 ==> key.is_none(),
{
    let n = bits_len(code);
    if n > 63 {
        return None;
    }
    let mut key: u64 = 1;
    let mut i: usize = 0;
    assert(code@.take(0) =~= Seq::<bool>::empty());
    while i < n
        invariant
            i <= n == code@.len() <= 63,
            key == key_of(code@.take(i as int)),
        decreases n - i,
    {
        proof {
            assert(code@.take(i + 1).drop_last() == code@.take(i as int));
            lemma_key_bound(code@.take(i + 1));
        }
        let bit: u64 = if bits_get(code, i) {
            1
        } else {
            0
        };
        key = key * 2 + bit;
        i += 1;
    }
    proof {
        assert(code@.take(i as int) == code@);
        lemma_key_bound(code@);
    }
    Some(key)
}

/// The symbol of each code.  Codes of up to 63 bits are found by their
/// number; longer ones, which only a lopsided tree can give, stand in a list.
pub struct InverseHuffTable {
    short: HashMap<u64, u8>,
    long: Vec<InverseEntry>,
}

impl View for InverseHuffTable {
    type V = Map<Seq<bool>, u8>;

    closed spec fn view(&self) -> Map<Seq<bool>, u8> {
        Map::new(
            |code: Seq<bool>|
                if code.len() <= 63 {
                    self.short@.contains_key(key_of(code) as u64)
                } else {
                    entries_map(self.long@).contains_key(code)
                },
            |code: Seq<bool>|
                if code.len() <= 63 {
                    self.short@[key_of(code) as u64]
                } else {
                    entries_map(self.long@)[code]
                },
        )
    }
}

impl InverseHuffTable {
    /// A table without codes.
    pub fn new() -> (table: Self)
        ensures
            table@ == Map::<Seq<bool>, u8>::empty(),
    {
        let table = InverseHuffTable { short: HashMap::new(), long: Vec::new() };
        assert(table@ =~= Map::<Seq<bool>, u8>::empty());
        table
    }

    /// Makes `code` stand for `byte`, in place of any symbol it stood for.
    pub fn insert(&mut self, code: BitBuf, byte: u8)
        ensures
            final(self)@ == old(self)@.insert(code@, byte),
    {
        match short_key(&code) {
            Some(key) => {
                self.short.insert(key, byte);
                proof {
                    assert forall|other: Seq<bool>| other.len() <= 63 && other != code@ implies key_of(
                        other,
                    ) as u64 != key by {
                        lemma_key_bound(other);
                        if key_of(other) == key_of(code@) {
                            lemma_key_injective(other, code@);
                        }
                    }
                }
            },
            None => {
                self.long.push(InverseEntry { code, byte });
                assert(self.long@.drop_last() == old(self).long@);
            },
        }
        assert(self@ =~= old(self)@.insert(code@, byte));
    }

    /// The symbol that `code` stands for, if it stands for one.
    pub fn get(&self, code: &BitBuf) -> (byte: Option<u8>)
        ensures
            byte == (if self@.contains_key(code@) {
                Some(self@[code@])
            } else {
                None
            }),
    {
        match short_key(code) {
            Some(key) => match self.short.get(&key) {
                Some(byte) => Some(*byte),
                None => None,
            },
            None => {
                let mut i: usize = self.long.len();
                while i > 0
                    invariant
                        i <= self.long@.len(),
                        code@.len() > 63,
                        forall|k: int|
                            i <= k < self.long@.len() ==> (#[trigger] self.long@[k]).code@ != code@,
                    decreases i,
                {
                    i -= 1;
                    if bits_eq(&self.long[i].code, code) {
                        proof {
                            lemma_found(self.long@, code@, i as int);
                        }
                        return Some(self.long[i].byte);
                    }
                }
                proof {
                    lemma_absent(self.long@, code@);
                }
                None
            },
        }
    }

    /// A length that no code of the table exceeds.
    pub(crate) fn length_bound(&self) -> (n: usize)
        ensures
            forall|code: Seq<bool>| self@.contains_key(code) ==> code.len() <= n,
            n <= max_bits(),
    {
        let mut n: usize = 63;
        let mut i: usize = 0;
        while i < self.long.len()
            invariant
                i <= self.long@.len(),
                forall|k: int| 0 <= k < i ==> (#[trigger] self.long@[k]).code@.len() <= n,
                63 <= n <= max_bits(),
            decreases self.long@.len() - i,
        {
            let len = bits_len(&self.long[i].code);
            if len > n {
                n = len;
            }
            i += 1;
        }
        proof {
            assert forall|code: Seq<bool>| self@.contains_key(code) implies code.len() <= n by {
                if code.len() > 63 {
                    lemma_key_has_entry(self.long@, code);
                }
            }
        }
        n
    }
}

} // verus!

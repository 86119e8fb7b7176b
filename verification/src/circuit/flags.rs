//! Instruction families, and the flags that tell which family an instruction belongs to.
use crate::circuit::expression::Boolean;
use vstd::prelude::*;

verus! {

/// An instruction format.
#[derive(Clone, Copy, PartialEq, Eq, Structural, Debug)]
pub enum InstructionType {
    RType,
    IType,
    SType,
    BType,
    UType,
    JType,
}

/// A family of instructions that share one part of the circuit.
#[derive(Clone, Copy, PartialEq, Eq, Structural, Debug)]
pub enum DecoderMajorInstructionFamilyKey {
    Add,
    Sub,
    Lui,
    AuiPc,
    Binary,
    Mul,
    DivRem,
    Conditional,
    Shift,
    Jump,
    Load,
    Store,
    Csr,
}

/// A variant within a family, by its number.
#[derive(Clone, Copy, PartialEq, Eq, Structural, Debug)]
pub struct DecoderInstructionVariantsKey(pub u32);

/// ADD and ADDI.
pub const ADD_OP_KEY: DecoderMajorInstructionFamilyKey = DecoderMajorInstructionFamilyKey::Add;

/// SUB.
pub const SUB_OP_KEY: DecoderMajorInstructionFamilyKey = DecoderMajorInstructionFamilyKey::Sub;

/// The families of a machine, and the variants of each: the order in which the opcode table lists
/// its flags.
pub struct DecoderOutputExtraKeysHolder {
    pub major_keys: Vec<DecoderMajorInstructionFamilyKey>,
    pub minor_keys: Vec<Vec<DecoderInstructionVariantsKey>>,
}

/// The place of the first occurrence of `key`; the length where there is none.
pub open spec fn index_of<K>(keys: Seq<K>, key: K) -> int
    decreases keys.len(),
{
    if keys.len() == 0 {
        0
    } else if keys[0] == key {
        0
    } else {
        1 + index_of(keys.skip(1), key)
    }
}

proof fn lemma_index_of<K>(keys: Seq<K>, key: K, i: int)
    requires
        0 <= i < keys.len(),
        keys[i] == key,
        forall|j: int| 0 <= j < i ==> keys[j] != key,
    ensures
        index_of(keys, key) == i,
    decreases keys.len(),
{
    if i > 0 {
        assert(keys[0] != key);
        lemma_index_of(keys.skip(1), key, i - 1);
    }
}

/// A key that is in a list is at the place of its first occurrence.
pub proof fn lemma_index_of_contained<K>(keys: Seq<K>, key: K)
    requires
        keys.contains(key),
    ensures
        0 <= index_of(keys, key) < keys.len(),
        keys[index_of(keys, key)] == key,
    decreases keys.len(),
{
    if keys[0] != key {
        let i = choose|i: int| 0 <= i < keys.len() && keys[i] == key;
        assert(keys.skip(1)[i - 1] == key);
        lemma_index_of_contained(keys.skip(1), key);
    }
}

/// The greatest length in a list of lists.
pub open spec fn greatest_length<K>(lists: Seq<Seq<K>>) -> int
    decreases lists.len(),
{
    if lists.len() == 0 {
        0
    } else {
        let rest = greatest_length(lists.drop_last());
        if lists.last().len() > rest {
            lists.last().len() as int
        } else {
            rest
        }
    }
}

pub open spec fn minor_lists(holder: DecoderOutputExtraKeysHolder) -> Seq<
    Seq<DecoderInstructionVariantsKey>,
> {
    holder.minor_keys@.map_values(|v: Vec<DecoderInstructionVariantsKey>| v@)
}

impl DecoderOutputExtraKeysHolder {
    /// There is a list of variants for each family.
    pub open spec fn well_formed(&self) -> bool {
        self.major_keys@.len() == self.minor_keys@.len()
    }

    pub fn num_major_keys(&self) -> (r: usize)
        ensures
            r == self.major_keys@.len(),
    {
        self.major_keys.len()
    }

    /// The number of variants of the family that has most.
    pub fn max_minor_keys(&self) -> (r: usize)
        ensures
            r == greatest_length(minor_lists(*self)),
    {
        let mut greatest: usize = 0;
        let mut i: usize = 0;
        while i < self.minor_keys.len()
            invariant
                i <= self.minor_keys@.len(),
                greatest == greatest_length(minor_lists(*self).take(i as int)),
            decreases self.minor_keys@.len() - i,
        {
            let length: usize = self.minor_keys[i].len();
            if length > greatest {
                greatest = length;
            }
            assert(minor_lists(*self).take(i + 1).drop_last() =~= minor_lists(*self).take(i as int));
            i = i + 1;
        }
        assert(minor_lists(*self).take(i as int) =~= minor_lists(*self));
        greatest
    }

    /// The place of a family.
    pub fn get_major_index(&self, major: &DecoderMajorInstructionFamilyKey) -> (r: usize)
        requires
            self.major_keys@.contains(*major),
        ensures
            r < self.major_keys@.len(),
            r == index_of(self.major_keys@, *major),
            self.major_keys@[r as int] == *major,
    {
        let mut i: usize = 0;
        while i < self.major_keys.len()
            invariant
                i <= self.major_keys@.len(),
                self.major_keys@.contains(*major),
                forall|j: int| 0 <= j < i ==> self.major_keys@[j] != *major,
            decreases self.major_keys@.len() - i,
        {
            if self.major_keys[i] == *major {
                proof {
                    lemma_index_of(self.major_keys@, *major, i as int);
                }
                return i;
            }
            i = i + 1;
        }
        proof {
            let k = choose|k: int| 0 <= k < self.major_keys@.len() && self.major_keys@[k] == *major;
            assert(self.major_keys@[k] == *major);
            assert(false);
        }
        0
    }

    /// The places of a family and of a variant within it.
    pub fn get_index_set(
        &self,
        major: &DecoderMajorInstructionFamilyKey,
        minor: &DecoderInstructionVariantsKey,
    ) -> (r: (usize, usize))
        requires
            self.well_formed(),
            self.major_keys@.contains(*major),
            self.minor_keys@[index_of(self.major_keys@, *major)]@.contains(*minor),
        ensures
            r.0 < self.major_keys@.len(),
            r.0 == index_of(self.major_keys@, *major),
            r.1 == index_of(self.minor_keys@[r.0 as int]@, *minor),
            r.1 < self.minor_keys@[r.0 as int]@.len(),
    {
        let major_index: usize = self.get_major_index(major);
        let variants = &self.minor_keys[major_index];
        let mut i: usize = 0;
        while i < variants.len()
            invariant
                i <= variants@.len(),
                variants@.contains(*minor),
                major_index < self.major_keys@.len(),
                variants == self.minor_keys@[major_index as int],
                major_index == index_of(self.major_keys@, *major),
                forall|j: int| 0 <= j < i ==> variants@[j] != *minor,
            decreases variants@.len() - i,
        {
            if variants[i] == *minor {
                proof {
                    lemma_index_of(variants@, *minor, i as int);
                }
                return (major_index, i);
            }
            i = i + 1;
        }
        proof {
            let k = choose|k: int| 0 <= k < variants@.len() && variants@[k] == *minor;
            assert(variants@[k] == *minor);
            assert(false);
        }
        (major_index, 0)
    }
}

proof fn lemma_greatest_length<K>(lists: Seq<Seq<K>>, i: int)
    requires
        0 <= i < lists.len(),
    ensures
        lists[i].len() <= greatest_length(lists),
    decreases lists.len(),
{
    if i < lists.len() - 1 {
        lemma_greatest_length(lists.drop_last(), i);
        assert(lists.drop_last()[i] == lists[i]);
    }
}

/// The flags of the decoder, to be asked for by family and variant.
pub struct BasicFlagsSource {
    keys: DecoderOutputExtraKeysHolder,
    values: Vec<Boolean>,
}

impl BasicFlagsSource {
    pub closed spec fn keys(&self) -> DecoderOutputExtraKeysHolder {
        self.keys
    }

    pub closed spec fn values(&self) -> Seq<Boolean> {
        self.values@
    }

    #[verifier::type_invariant]
    closed spec fn matched(self) -> bool {
        &&& self.keys.well_formed()
        &&& self.values@.len() == self.keys.major_keys@.len() + greatest_length(
            minor_lists(self.keys),
        )
    }

    /// One flag for each family, and then as many as the greatest number of variants.
    pub fn new(keys: DecoderOutputExtraKeysHolder, values: Vec<Boolean>) -> (r: Self)
        requires
            keys.well_formed(),
            keys.major_keys@.len() + greatest_length(minor_lists(keys)) == values@.len(),
        ensures
            r.keys() == keys,
            r.values() == values@,
    {
        BasicFlagsSource { keys, values }
    }

    /// The flag of a family.
    pub fn get_major_flag(&self, major: DecoderMajorInstructionFamilyKey) -> (r: Boolean)
        requires
            self.keys().major_keys@.contains(major),
        ensures
            r == self.values()[index_of(self.keys().major_keys@, major)],
    {
        proof {
            use_type_invariant(self);
            lemma_greatest_length_is_natural(minor_lists(self.keys));
        }
        let major_index: usize = self.keys.get_major_index(&major);
        self.values[major_index]
    }

    /// The flag of a variant. Families share these flags: an instruction belongs to one family.
    pub fn get_minor_flag(
        &self,
        major: DecoderMajorInstructionFamilyKey,
        minor: DecoderInstructionVariantsKey,
    ) -> (r: Boolean)
        requires
            self.keys().major_keys@.contains(major),
            self.keys().minor_keys@[index_of(self.keys().major_keys@, major)]@.contains(minor),
        ensures
            r == self.values()[self.keys().major_keys@.len() + index_of(
                self.keys().minor_keys@[index_of(self.keys().major_keys@, major)]@,
                minor,
            )],
    {
        proof {
            use_type_invariant(self);
        }
        let (major_index, minor_index) = self.keys.get_index_set(&major, &minor);
        proof {
            lemma_greatest_length(minor_lists(self.keys), major_index as int);
            assert(minor_lists(self.keys)[major_index as int]
                == self.keys.minor_keys@[major_index as int]@);
        }
        let offset: usize = self.keys.num_major_keys();
        let count: usize = self.values.len();
        assert(offset + minor_index < count);
        self.values[offset + minor_index]
    }
}

proof fn lemma_greatest_length_is_natural<K>(lists: Seq<Seq<K>>)
    ensures
        greatest_length(lists) >= 0,
    decreases lists.len(),
{
    if lists.len() > 0 {
        lemma_greatest_length_is_natural(lists.drop_last());
    }
}

/// The place of a key is that of its first occurrence.
pub proof fn law_place_of_a_key<K>(keys: Seq<K>, key: K, i: int)
    requires
        0 <= i < keys.len(),
        keys[i] == key,
    ensures
        0 <= index_of(keys, key) <= i,
        keys[index_of(keys, key)] == key,
    decreases keys.len(),
{
    assert(keys.contains(key));
    lemma_index_of_contained(keys, key);
    if keys[0] != key {
        law_place_of_a_key(keys.skip(1), key, i - 1);
    }
}

/// The greatest length is the length of one of the lists, and none is longer.
pub proof fn law_greatest_length<K>(lists: Seq<Seq<K>>, i: int)
    requires
        0 <= i < lists.len(),
    ensures
        lists[i].len() <= greatest_length(lists),
        exists|k: int| 0 <= k < lists.len() && (#[trigger] lists[k]).len() == greatest_length(lists),
    decreases lists.len(),
{
    lemma_greatest_length(lists, i);
    let last = lists.len() - 1;
    let fewer = lists.drop_last();
    if lists[last].len() == greatest_length(lists) {
    } else if fewer.len() > 0 {
        law_greatest_length(fewer, 0);
        let k = choose|k: int|
            0 <= k < fewer.len() && (#[trigger] fewer[k]).len() == greatest_length(fewer);
        assert(lists[k] == fewer[k]);
    } else {
        assert(greatest_length(fewer) == 0);
    }
}

/// The lists of variants are those of the families, in their order.
pub proof fn law_lists_of_variants(holder: DecoderOutputExtraKeysHolder, i: int)
    requires
        0 <= i < holder.minor_keys@.len(),
    ensures
        minor_lists(holder).len() == holder.minor_keys@.len(),
        minor_lists(holder)[i] == holder.minor_keys@[i]@,
{
}

} // verus!

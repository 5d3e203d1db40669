//! Leaf value types: fixed-width name tags, 32-bit membership masks, and
//! the append-only component registry.

use vstd::prelude::*;

verus! {

use vstd::array::ArrayAdditionalExecFns;
use vstd::slice::slice_to_vec;
use vstd::string::StringSliceAdditionalSpecFns;
use vstd::utf8::{decode_utf8, encode_utf8, valid_utf8};

/// A 32-bit membership set; each bit position stands for one component
/// kind. At most 32 distinct components exist system-wide: positions at
/// or above 32 wrap around, so two components whose positions agree
/// modulo 32 share a bit.
#[derive(Clone, Copy, PartialEq, Eq, Structural, Debug)]
pub struct BitFlags(pub u32);

/// The single bit a component position occupies, with the documented
/// wrap-around at the 32-component ceiling.
pub open spec fn bit_mask(position: usize) -> u32 {
    1u32 << ((position % 32) as u32)
}

/// A mask qualifies for a requirement mask exactly when it is a bitwise
/// superset of it.
pub open spec fn mask_satisfies(mask: u32, required: u32) -> bool {
    mask & required == required
}

impl BitFlags {
    /// Clears every bit.
    pub fn reset(&mut self)
        ensures
            final(self).0 == 0,
    {
        self.0 = 0;
    }

    /// Turns the bit of component position `at_index` on or off.
    pub fn set_bit(&mut self, at_index: usize, to: bool)
        ensures
            to ==> final(self).0 == old(self).0 | bit_mask(at_index),
            !to ==> final(self).0 == old(self).0 & !bit_mask(at_index),
    {
        let bit: u32 = 1u32 << ((at_index % 32) as u32);
        match to {
            true => self.enable_bits(bit),
            false => self.disable_bits(bit),
        }
    }

    /// Turns on every bit that is set in `bits`.
    pub fn enable_bits(&mut self, bits: u32)
        ensures
            final(self).0 == old(self).0 | bits,
    {
        self.0 |= bits
    }

    /// Turns off every bit that is set in `bits`.
    pub fn disable_bits(&mut self, bits: u32)
        ensures
            final(self).0 == old(self).0 & !bits,
    {
        self.0 &= !bits
    }

    /// The superset test that decides whether an entity with this mask
    /// qualifies for a system requiring `required`.
    pub fn contains_all(&self, required: &BitFlags) -> (r: bool)
        ensures
            r == mask_satisfies(self.0, required.0),
    {
        self.0 & required.0 == required.0
    }
}

impl Default for BitFlags {
    /// An empty membership set.
    fn default() -> (r: Self)
        ensures
            r.0 == 0,
    {
        BitFlags(0)
    }
}

/// Qualifying is the same as the requirement's bits being a subset of the
/// mask's bits, stated through bitwise-or.
pub proof fn lemma_satisfies_iff_superset(m: u32, r: u32)
    ensures
        mask_satisfies(m, r) <==> (m | r) == m,
{
    assert((m & r == r) <==> (m | r == m)) by (bit_vector);
}

/// Every mask qualifies for its own requirements.
pub proof fn lemma_satisfies_self(r: u32)
    ensures
        mask_satisfies(r, r),
{
    assert(r & r == r) by (bit_vector);
}

/// The full mask qualifies for every requirement.
pub proof fn lemma_full_mask_satisfies(r: u32)
    ensures
        mask_satisfies(0xffff_ffffu32, r),
{
    assert(0xffff_ffffu32 & r == r) by (bit_vector);
}

/// Qualifying, bit by bit: every bit set in the requirement of a
/// qualifying mask is set in the mask itself.
pub proof fn lemma_satisfies_bit(m: u32, r: u32, i: u32)
    requires
        mask_satisfies(m, r),
        i < 32,
        (r >> i) & 1 == 1,
    ensures
        (m >> i) & 1 == 1,
{
    assert(m & r == r && i < 32 && (r >> i) & 1 == 1 ==> (m >> i) & 1 == 1) by (bit_vector);
}

/// Two component positions that agree modulo 32 occupy the same bit.
pub proof fn lemma_bit_position_aliasing(i: usize, j: usize)
    requires
        i % 32 == j % 32,
    ensures
        bit_mask(i) == bit_mask(j),
{
}

/// A fixed-width identifier: the UTF-8 bytes of a name, truncated or
/// zero-padded to 16 bytes, so that names compare without heap
/// allocation. Names longer than 16 bytes lose their tail.
#[derive(Clone, Copy, Eq, Debug)]
pub struct NameTag(pub [u8; 16]);

/// The 16 tag bytes a byte string is stored as.
pub open spec fn tag_of_bytes(b: Seq<u8>) -> Seq<u8> {
    Seq::new(16, |i: int| if i < b.len() { b[i] } else { 0u8 })
}

/// The 16 tag bytes a character string is stored as.
pub open spec fn tag_of_str(s: Seq<char>) -> Seq<u8> {
    tag_of_bytes(encode_utf8(s))
}

impl View for NameTag {
    type V = Seq<u8>;

    open spec fn view(&self) -> Seq<u8> {
        self.0@
    }
}

impl PartialEq for NameTag {
    /// Two tags are equal exactly when their 16 bytes are equal.
    fn eq(&self, other: &NameTag) -> (r: bool)
    {
        let mut i: usize = 0;
        while i < 16
            invariant
                i <= 16,
                forall|j: int| 0 <= j < i ==> self.0@[j] == other.0@[j],
            decreases 16 - i,
        {
            if self.0[i] != other.0[i] {
                assert(self.0@ != other.0@);
                return false;
            }
            i += 1;
        }
        proof {
            assert(self.0@ =~= other.0@);
        }
        true
    }
}

impl vstd::std_specs::cmp::PartialEqSpecImpl for NameTag {
    open spec fn obeys_eq_spec() -> bool {
        true
    }

    open spec fn eq_spec(&self, other: &NameTag) -> bool {
        self.0@ == other.0@
    }
}

impl Default for NameTag {
    /// The all-zero tag, the stored form of the empty name.
    fn default() -> (r: Self)
        ensures
            r@ == tag_of_bytes(Seq::<u8>::empty()),
    {
        let r = NameTag([0u8; 16]);
        proof {
            assert(r@ =~= tag_of_bytes(Seq::<u8>::empty()));
        }
        r
    }
}

/// Relies on `String::from_utf8`: returns the string made of the given
/// bytes exactly when they are valid UTF-8, and nothing otherwise.
#[verifier::external_body]
fn string_from_bytes(v: Vec<u8>) -> (r: Option<String>)
    ensures
        match r {
            Some(s) => valid_utf8(v@) && s@ == decode_utf8(v@),
            None => !valid_utf8(v@),
        },
{
    match String::from_utf8(v) {
        Ok(s) => Some(s),
        Err(_) => None,
    }
}

impl NameTag {
    /// Stores a name given as a string slice.
    pub fn from_str(s: &str) -> (r: Self)
        ensures
            r@ == tag_of_str(s@),
    {
        let b: &[u8] = s.as_bytes();
        let mut a = [0u8; 16];
        let mut i: usize = 0;
        while i < 16
            invariant
                i <= 16,
                a@.len() == 16,
                b@ == s.spec_bytes(),
                forall|j: int| 0 <= j < i ==> a@[j] == tag_of_bytes(b@)[j],
                forall|j: int| i <= j < 16 ==> a@[j] == 0u8,
            decreases 16 - i,
        {
            if i < b.len() {
                a[i] = b[i];
            }
            i += 1;
        }
        proof {
            assert(a@ =~= tag_of_str(s@));
        }
        NameTag(a)
    }

    /// Stores a name given as an owned string.
    pub fn from_string(s: String) -> (r: Self)
        ensures
            r@ == tag_of_str(s@),
    {
        Self::from_str(s.as_str())
    }

    /// The stored bytes read back as a string: the name with its zero
    /// padding, or the empty string where the 16 bytes are not valid
    /// UTF-8 (possible only for a tag built from a truncated multi-byte
    /// character).
    pub fn to_string(&self) -> (r: String)
        ensures
            valid_utf8(self@) ==> r@ == decode_utf8(self@),
            !valid_utf8(self@) ==> r@ == Seq::<char>::empty(),
    {
        let v: Vec<u8> = slice_to_vec(self.0.as_slice());
        match string_from_bytes(v) {
            Some(s) => s,
            None => String::new(),
        }
    }
}

/// The position of the first occurrence of `key`, scanning left to right.
pub open spec fn first_hit<A>(keys: Seq<A>, key: A) -> Option<int>
    decreases keys.len(),
{
    if keys.len() == 0 {
        None
    } else if keys[0] == key {
        Some(0)
    } else {
        match first_hit(keys.drop_first(), key) {
            Some(i) => Some(i + 1),
            None => None,
        }
    }
}

/// What `first_hit` returns: the first matching position, or nothing
/// where no position matches.
pub proof fn lemma_first_hit_ensures<A>(keys: Seq<A>, key: A)
    ensures
        match first_hit(keys, key) {
            Some(i) => 0 <= i < keys.len() && keys[i] == key && (forall|j: int|
                0 <= j < i ==> keys[j] != key),
            None => forall|j: int| 0 <= j < keys.len() ==> keys[j] != key,
        },
    decreases keys.len(),
{
    if keys.len() == 0 {
    } else if keys[0] == key {
    } else {
        let sub = keys.drop_first();
        lemma_first_hit_ensures(sub, key);
        assert(forall|j: int| 0 <= j < sub.len() ==> sub[j] == keys[j + 1]);
        match first_hit(sub, key) {
            Some(i) => {
                assert(keys[i + 1] == sub[i]);
                assert(forall|j: int| 1 <= j < i + 1 ==> keys[j] == sub[j - 1] && sub[j - 1] != key);
            },
            None => {
                assert(forall|j: int| 1 <= j < keys.len() ==> keys[j] == sub[j - 1] && sub[j - 1] != key);
            },
        }
    }
}

/// A left-to-right scan that saw no match before position `i`, and a
/// match at `i` unless it ran off the end, has computed `first_hit`.
pub proof fn lemma_first_hit_scan<A>(keys: Seq<A>, key: A, i: int)
    requires
        0 <= i <= keys.len(),
        forall|j: int| 0 <= j < i ==> keys[j] != key,
        i < keys.len() ==> keys[i] == key,
    ensures
        first_hit(keys, key) == (if i == keys.len() {
            None::<int>
        } else {
            Some(i)
        }),
    decreases keys.len(),
{
    if keys.len() == 0 {
    } else if keys[0] == key {
        assert(i == 0);
    } else {
        assert(i >= 1);
        let sub = keys.drop_first();
        assert(forall|j: int| 0 <= j < i - 1 ==> sub[j] != key);
        lemma_first_hit_scan(sub, key, i - 1);
    }
}

/// One registry entry: the bit position assigned at definition time and
/// the component's name.
#[derive(Clone, Copy, Debug)]
pub struct ComponentRef {
    pub index: ComponentIndex,
    pub name: NameTag,
}

use crate::ComponentIndex;

impl ComponentRef {
    pub(crate) fn new(index: ComponentIndex, name: &str) -> (r: Self)
        ensures
            r.index == index,
            r.name@ == tag_of_str(name@),
    {
        ComponentRef { index, name: NameTag::from_str(name) }
    }

    /// The bit position this component was assigned.
    pub fn index(&self) -> (r: &ComponentIndex)
        ensures
            *r == self.spec_index(),
    {
        &self.index
    }

    /// The component's name.
    pub fn name(&self) -> (r: &NameTag)
        ensures
            r@ == self.spec_name(),
    {
        &self.name
    }

    /// The bit position, readable in contracts.
    pub open spec fn spec_index(&self) -> ComponentIndex {
        self.index
    }

    /// The name's stored bytes, readable in contracts.
    pub open spec fn spec_name(&self) -> Seq<u8> {
        self.name@
    }
}

/// The ordered, append-only component registry: entry `i` was defined
/// `i`-th and owns bit position `i`.
pub struct ComponentRefs(pub Vec<ComponentRef>);

/// Bit positions equal insertion order.
pub open spec fn registry_wf(refs: Seq<ComponentRef>) -> bool {
    forall|i: int| 0 <= i < refs.len() ==> (#[trigger] refs[i]).spec_index() == i
}

impl View for ComponentRefs {
    type V = Seq<ComponentRef>;

    open spec fn view(&self) -> Seq<ComponentRef> {
        self.0@
    }
}

/// The stored names of a registry, in definition order.
pub open spec fn registry_names(refs: Seq<ComponentRef>) -> Seq<Seq<u8>> {
    refs.map_values(|c: ComponentRef| c.spec_name())
}

impl ComponentRefs {
    /// The stored names, in definition order.
    pub open spec fn names(&self) -> Seq<Seq<u8>> {
        registry_names(self@)
    }

    /// The first entry whose name equals `tag`, or nothing.
    pub fn get(&self, tag: &NameTag) -> (r: Option<&ComponentRef>)
        ensures
            match r {
                Some(c) => {
                    &&& first_hit(self.names(), tag@) matches Some(i)
                    &&& *c == self@[first_hit(self.names(), tag@).unwrap()]
                },
                None => first_hit(self.names(), tag@) is None,
            },
    {
        let n = self.0.len();
        let mut i: usize = 0;
        while i < n
            invariant
                n == self@.len(),
                i <= n,
                forall|j: int| 0 <= j < i ==> self.names()[j] != tag@,
            decreases n - i,
        {
            if self.0[i].name == *tag {
                assert(self.names()[i as int] == tag@);
                proof {
                    lemma_first_hit_scan(self.names(), tag@, i as int);
                }
                return Some(&self.0[i]);
            }
            assert(self.names()[i as int] != tag@);
            i += 1;
        }
        proof {
            lemma_first_hit_scan(self.names(), tag@, n as int);
        }
        None
    }

    /// The whole registry, in definition order.
    pub fn list(&self) -> (r: &Vec<ComponentRef>)
        ensures
            r@ == self@,
    {
        &self.0
    }
}

/// The mask a requirement list resolves to: the bits of the names found
/// in the registry, with unresolved names dropped without error.
pub open spec fn requirement_mask(refs: Seq<ComponentRef>, names: Seq<Seq<u8>>) -> u32
    decreases names.len(),
{
    if names.len() == 0 {
        0u32
    } else {
        let rest = requirement_mask(refs, names.drop_last());
        match first_hit(registry_names(refs), names.last()) {
            Some(i) => rest | bit_mask(refs[i].spec_index()),
            None => rest,
        }
    }
}

/// How many names of a requirement list the registry does not know;
/// each such name is dropped from the mask.
pub open spec fn unresolved_count(refs: Seq<ComponentRef>, names: Seq<Seq<u8>>) -> nat
    decreases names.len(),
{
    if names.len() == 0 {
        0
    } else {
        unresolved_count(refs, names.drop_last()) + (match first_hit(
            registry_names(refs),
            names.last(),
        ) {
            Some(_) => 0nat,
            None => 1nat,
        })
    }
}

/// Past the 32-component ceiling the registry holds two entries whose
/// bit positions share one bit.
pub proof fn lemma_registry_ceiling_aliasing(refs: Seq<ComponentRef>)
    requires
        registry_wf(refs),
        refs.len() > 32,
    ensures
        exists|i: int, j: int|
            0 <= i < j < refs.len() && bit_mask(refs[i].spec_index()) == bit_mask(
                refs[j].spec_index(),
            ),
{
    assert(refs[0].spec_index() == 0);
    assert(refs[32].spec_index() == 32);
    lemma_bit_position_aliasing(0, 32);
    assert(0 <= 0 < 32 < refs.len() && bit_mask(refs[0].spec_index()) == bit_mask(
        refs[32].spec_index(),
    ));
}

} // verus!

use std::collections::BTreeSet;

use rand::Rng;
use vstd::prelude::*;

use crate::gc::TriColor;

verus! {

/// Offset of an object in the heap, or the identity minted for it.
pub type ObjectAddress = usize;

/// Bytes taken by one field.
pub const WORD_SIZE: usize = 8;

/// Header size recorded for an object that has not been placed by an
/// allocator: the footprint of an object record.
pub const DEFAULT_HEADER_SIZE: usize = 144;

/// An immediate value.
#[derive(Debug, PartialEq, Eq, Structural, Clone, Copy)]
pub enum TypeValue {
    Int(i32),
}

/// A reference target: an object address, or null.
#[derive(Debug, PartialEq, Eq, Structural, Clone, Copy)]
pub enum Address {
    Ptr(ObjectAddress),
    NullPtr,
}

/// A field of an object: an inline value or a reference.
#[derive(Debug, PartialEq, Eq, Structural, Clone, Copy)]
pub enum Field {
    Value(TypeValue),
    Ref(Address),
}

#[derive(Debug, PartialEq, Eq, Structural, Clone, Copy, Default)]
pub struct ObjectHeader {
    pub size: usize,
    pub next: Option<Address>,
    pub marked: TriColor,
}

/// A heap object: a label, an optional immediate value, a header, an
/// address, the set of addresses it refers to, and its fields.
#[derive(Debug, PartialEq)]
pub struct Object {
    pub ident: String,
    pub value: Option<TypeValue>,
    pub header: ObjectHeader,
    pub addr: ObjectAddress,
    pub references: BTreeSet<ObjectAddress>,
    pub fields: Vec<Field>,
}

/// What an object holds, with its label as characters.
pub struct ObjectView {
    pub ident: Seq<char>,
    pub value: Option<TypeValue>,
    pub header: ObjectHeader,
    pub addr: ObjectAddress,
    pub references: Set<ObjectAddress>,
    pub fields: Seq<Field>,
}

impl View for Object {
    type V = ObjectView;

    open spec fn view(&self) -> ObjectView {
        ObjectView {
            ident: self.ident@,
            value: self.value,
            header: self.header,
            addr: self.addr,
            references: self.references@,
            fields: self.fields@,
        }
    }
}

/// Size of an object: a word per field plus the header size.
pub open spec fn object_size(o: Object) -> int {
    o.fields@.len() * WORD_SIZE + o.header.size
}

/// The addresses an object points to: its reference set and every
/// non-null reference field.
pub open spec fn points_to(o: Object, a: ObjectAddress) -> bool {
    o.references@.contains(a) || o.fields@.contains(Field::Ref(Address::Ptr(a)))
}

/// The header of an object that has not been placed yet.
pub open spec fn fresh_header() -> ObjectHeader {
    ObjectHeader { size: DEFAULT_HEADER_SIZE, next: None, marked: TriColor::White }
}

/// Operations common to heap objects.
pub trait ObjectTrait: Sized {
    /// Bytes the object takes.
    spec fn footprint(&self) -> int;

    fn new(ident: String, value: TypeValue) -> Self;

    fn len(&self) -> usize;

    fn add_reference(&mut self, obj: Object) -> usize;

    fn remove_reference(&mut self, obj: Object) -> usize;

    fn get_address(&self) -> ObjectAddress;

    fn is_empty(&self) -> bool;

    fn get_ident(&self) -> String;

    fn get_value(&self) -> Option<TypeValue>;

    fn is_marked(&self) -> bool;

    fn size(&self) -> (r: usize)
        requires
            self.footprint() <= usize::MAX,
        ensures
            r == self.footprint(),
    ;

    fn create_random_object(name: Option<&str>) -> Self;

    fn inject_address(&mut self, addr: ObjectAddress);
}

/// Relies on uuid's `Uuid::now_v7` (and `Uuid::as_u128`): a time-ordered
/// identifier drawn from the clock and the process's shared counter; nothing
/// about its value is promised here.
#[verifier::external_body]
fn time_ordered_uuid() -> u128 {
    uuid::Uuid::now_v7().as_u128()
}

/// Relies on rand's `Rng::gen_range` on the thread-local generator: a
/// number in `0..bound`.
#[verifier::external_body]
fn random_below(bound: u32) -> (r: u32)
    requires
        bound > 0,
    ensures
        r < bound,
{
    rand::thread_rng().gen_range(0..bound)
}

/// The address minted from a time-ordered identifier (layout from the most
/// significant bit: 48 bits of millisecond clock, 4 version bits, 12 counter
/// bits, 2 variant bits, 30 counter bits, 32 random bits): the low 22 bits
/// of the clock followed by the 42 counter bits, cut to the address width.
/// Identifiers drawn one after another give increasing addresses while those
/// 22 clock bits do not wrap, that is within windows of about 70 minutes.
pub open spec fn address_of_uuid(id: u128) -> int {
    let clock = (id / 0x1_0000_0000_0000_0000_0000) as int % 0x40_0000;
    let high = (id / 0x1_0000_0000_0000_0000) as int % 0x1000;
    let low = (id / 0x1_0000_0000) as int % 0x4000_0000;
    (clock * 0x400_0000_0000 + high * 0x4000_0000 + low) % (usize::MAX + 1)
}

/// The address for a time-ordered identifier.
pub fn address_from_uuid(id: u128) -> (r: ObjectAddress)
    ensures
        r == address_of_uuid(id),
{
    let clock: u128 = (id / 0x1_0000_0000_0000_0000_0000) % 0x40_0000;
    let high: u128 = (id / 0x1_0000_0000_0000_0000) % 0x1000;
    let low: u128 = (id / 0x1_0000_0000) % 0x4000_0000;
    let wide: u128 = clock * 0x400_0000_0000 + high * 0x4000_0000 + low;
    let modulus: u128 = usize::MAX as u128 + 1;
    (wide % modulus) as usize
}

/// A fresh object address, above the previous one unless the low 22 bits of
/// the millisecond clock wrapped in between.
fn generate_sequential_uuid() -> ObjectAddress {
    address_from_uuid(time_ordered_uuid())
}

impl Field {
    /// A value field.
    pub fn new_instance(value: TypeValue) -> (r: Self)
        ensures
            r == Field::Value(value),
    {
        match value {
            TypeValue::Int(i) => Field::Value(TypeValue::Int(i)),
        }
    }

    /// A reference field pointing to `addr`.
    pub fn new_ref(addr: ObjectAddress) -> (r: Self)
        ensures
            r == Field::Ref(Address::Ptr(addr)),
    {
        Field::Ref(Address::Ptr(addr))
    }

    /// The field a random draw stands for: kind 0 is a null reference, any
    /// other kind the integer `value`.
    pub fn from_draw(kind: u32, value: i32) -> (r: Self)
        ensures
            kind == 0 ==> r == Field::Ref(Address::NullPtr),
            kind != 0 ==> r == Field::Value(TypeValue::Int(value)),
    {
        if kind == 0 {
            Field::Ref(Address::NullPtr)
        } else {
            Field::Value(TypeValue::Int(value))
        }
    }
}

impl Clone for Object {
    fn clone(&self) -> (r: Self)
        ensures
            r@ == self@,
    {
        let mut fields: Vec<Field> = Vec::new();
        let mut i: usize = 0;
        while i < self.fields.len()
            invariant
                i <= self.fields.len(),
                fields@ == self.fields@.subrange(0, i as int),
            decreases self.fields.len() - i,
        {
            fields.push(self.fields[i]);
            i = i + 1;
            assert(fields@ =~= self.fields@.subrange(0, i as int));
        }
        assert(self.fields@.subrange(0, i as int) =~= self.fields@);
        Object {
            ident: self.ident.clone(),
            value: self.value,
            header: self.header,
            addr: self.addr,
            references: self.references.clone(),
            fields,
        }
    }
}

impl Default for Object {
    /// An empty object with a fresh address.
    fn default() -> (r: Self)
        ensures
            r.ident@ == Seq::<char>::empty(),
            r.value.is_none(),
            r.header == fresh_header(),
            r.references@ == Set::<ObjectAddress>::empty(),
            r.fields@ == Seq::<Field>::empty(),
    {
        Object {
            ident: String::new(),
            value: None,
            header: ObjectHeader { size: DEFAULT_HEADER_SIZE, next: None, marked: TriColor::White },
            addr: generate_sequential_uuid(),
            references: BTreeSet::new(),
            fields: Vec::new(),
        }
    }
}

impl ObjectTrait for Object {
    open spec fn footprint(&self) -> int {
        object_size(*self)
    }

    /// An object labelled `ident` holding `value`, with a fresh address.
    fn new(ident: String, value: TypeValue) -> (r: Self)
        ensures
            r.ident@ == ident@,
            r.value == Some(value),
            r.header == fresh_header(),
            r.references@ == Set::<ObjectAddress>::empty(),
            r.fields@ == Seq::<Field>::empty(),
    {
        Object {
            ident,
            value: Some(value),
            header: ObjectHeader { size: DEFAULT_HEADER_SIZE, next: None, marked: TriColor::White },
            addr: generate_sequential_uuid(),
            references: BTreeSet::new(),
            fields: Vec::new(),
        }
    }

    fn get_ident(&self) -> (r: String)
        ensures
            r@ == self.ident@,
    {
        self.ident.clone()
    }

    fn get_value(&self) -> (r: Option<TypeValue>)
        ensures
            r == self.value,
    {
        self.value
    }

    fn get_address(&self) -> (r: ObjectAddress)
        ensures
            r == self.addr,
    {
        self.addr
    }

    /// Records a reference to `obj`; returns how many references there are.
    fn add_reference(&mut self, obj: Object) -> (r: usize)
        ensures
            final(self).references@ == old(self).references@.insert(obj.addr),
            r == final(self).references@.len(),
            final(self).ident@ == old(self).ident@,
            final(self).value == old(self).value,
            final(self).header == old(self).header,
            final(self).addr == old(self).addr,
            final(self).fields@ == old(self).fields@,
    {
        self.references.insert(obj.addr);
        self.references.len()
    }

    /// Forgets the reference to `obj`; returns how many references are left.
    fn remove_reference(&mut self, obj: Object) -> (r: usize)
        ensures
            final(self).references@ == old(self).references@.remove(obj.addr),
            r == final(self).references@.len(),
            final(self).ident@ == old(self).ident@,
            final(self).value == old(self).value,
            final(self).header == old(self).header,
            final(self).addr == old(self).addr,
            final(self).fields@ == old(self).fields@,
    {
        self.references.remove(&obj.addr);
        self.references.len()
    }

    /// The header size.
    fn len(&self) -> (r: usize)
        ensures
            r == self.header.size,
    {
        self.header.size
    }

    fn size(&self) -> (r: usize) {
        self.fields.len() * WORD_SIZE + self.header.size
    }

    /// Whether the header size is zero.
    fn is_empty(&self) -> (r: bool)
        ensures
            r == (self.header.size == 0),
    {
        self.header.size == 0
    }

    /// Whether the object is colored other than white.
    fn is_marked(&self) -> (r: bool)
        ensures
            r == (self.header.marked != TriColor::White),
    {
        self.header.marked != TriColor::White
    }

    /// An object labelled `name` (or "Random Object") with up to nine random
    /// fields, each a null reference or an integer below 100.
    fn create_random_object(name: Option<&str>) -> (r: Self)
        ensures
            name is Some ==> r.ident@ == name->0@,
            name is None ==> r.ident@ == "Random Object"@,
            r.value.is_none(),
            r.header == fresh_header(),
            r.references@ == Set::<ObjectAddress>::empty(),
            r.fields@.len() < 10,
            forall|i: int|
                0 <= i < r.fields@.len() ==> r.fields@[i] == Field::Ref(Address::NullPtr) || (
                exists|v: i32| 0 <= v < 100 && r.fields@[i] == Field::Value(TypeValue::Int(v))),
    {
        let ident = match name {
            Some(n) => n.to_owned(),
            None => "Random Object".to_owned(),
        };
        let num_fields = random_below(10);
        let mut fields: Vec<Field> = Vec::new();
        let mut i: u32 = 0;
        while i < num_fields
            invariant
                i <= num_fields < 10,
                fields@.len() == i,
                forall|j: int|
                    0 <= j < fields@.len() ==> fields@[j] == Field::Ref(Address::NullPtr) || (
                    exists|v: i32| 0 <= v < 100 && fields@[j] == Field::Value(TypeValue::Int(v))),
            decreases num_fields - i,
        {
            let kind = random_below(2);
            let f = if kind == 0 {
                Field::from_draw(kind, 0)
            } else {
                let v = random_below(100) as i32;
                Field::from_draw(kind, v)
            };
            fields.push(f);
            i = i + 1;
        }
        Object {
            ident,
            value: None,
            header: ObjectHeader { size: DEFAULT_HEADER_SIZE, next: None, marked: TriColor::White },
            addr: generate_sequential_uuid(),
            references: BTreeSet::new(),
            fields,
        }
    }

    fn inject_address(&mut self, addr: ObjectAddress)
        ensures
            final(self).addr == addr,
            final(self).ident@ == old(self).ident@,
            final(self).value == old(self).value,
            final(self).header == old(self).header,
            final(self).references@ == old(self).references@,
            final(self).fields@ == old(self).fields@,
    {
        self.addr = addr;
    }
}

} // verus!

//! What a decoded demo holds: entities and their networked fields, the schema
//! that names the fields, the events and the ticks.
use crate::float::{Float, Vector};
use crate::names::{Names, Scope};
use crate::order;
use crate::text;
use crate::text::same_text;
use std::collections::HashMap;
use vstd::prelude::*;

verus! {

broadcast use vstd::std_specs::hash::group_hash_axioms;

/// The value of one networked field. Each kind is read by the getter of its name.
#[derive(Debug)]
pub enum FieldValue {
    Bool(bool),
    I64(i64),
    U64(u64),
    U32(u32),
    Real(Float),
    Handle(u32),
    Text(String),
    Angles(Vector),
}

/// An entity at one tick.
#[derive(Debug)]
pub struct Entity {
    pub index: i32,
    pub serial: u32,
    pub active: bool,
    pub class_id: i32,
    pub class_name: String,
    /// The fields present on the entity, by key.
    pub fields: HashMap<u64, FieldValue>,
    /// The world position that the cell and in-cell offset fields give.
    pub world: Vector,
}

impl Entity {
    /// The value under `key`, if the key is known and the field is present.
    pub open spec fn field(self, key: Option<u64>) -> Option<FieldValue> {
        match key {
            Some(k) => if self.fields@.contains_key(k) {
                Some(self.fields@[k])
            } else {
                None
            },
            None => None,
        }
    }

    pub open spec fn has(self, key: Option<u64>) -> bool {
        self.field(key) is Some
    }

    pub open spec fn bool_at(self, key: Option<u64>) -> bool {
        match self.field(key) {
            Some(FieldValue::Bool(b)) => b,
            _ => false,
        }
    }

    pub open spec fn i64_at(self, key: Option<u64>) -> i64 {
        match self.field(key) {
            Some(FieldValue::I64(v)) => v,
            _ => 0,
        }
    }

    pub open spec fn u64_at(self, key: Option<u64>) -> Option<u64> {
        match self.field(key) {
            Some(FieldValue::U64(v)) => Some(v),
            _ => None,
        }
    }

    pub open spec fn u32_at(self, key: Option<u64>) -> u32 {
        match self.field(key) {
            Some(FieldValue::U32(v)) => v,
            _ => 0,
        }
    }

    pub open spec fn real_at(self, key: Option<u64>) -> Float {
        match self.field(key) {
            Some(FieldValue::Real(v)) => v,
            _ => Float { bits: 0 },
        }
    }

    pub open spec fn handle_at(self, key: Option<u64>) -> Option<u32> {
        match self.field(key) {
            Some(FieldValue::Handle(v)) => Some(v),
            _ => None,
        }
    }

    pub open spec fn text_at(self, key: Option<u64>) -> Option<Seq<char>> {
        match self.field(key) {
            Some(FieldValue::Text(v)) => Some(v@),
            _ => None,
        }
    }

    pub open spec fn angles_at(self, key: Option<u64>) -> Vector {
        match self.field(key) {
            Some(FieldValue::Angles(v)) => v,
            _ => Vector::origin(),
        }
    }

    /// The value under a key.
    pub fn get(&self, key: Option<u64>) -> (v: Option<&FieldValue>)
        ensures
            v is Some == self.has(key),
            v matches Some(w) ==> self.field(key) == Some(*w),
    {
        match key {
            Some(k) => self.fields.get(&k),
            None => None,
        }
    }

    /// Whether the field is present.
    pub fn contains(&self, key: Option<u64>) -> (b: bool)
        ensures
            b == self.has(key),
    {
        self.get(key).is_some()
    }

    /// A flag; unset when the field is absent.
    pub fn get_bool(&self, key: Option<u64>) -> (b: bool)
        ensures
            b == self.bool_at(key),
    {
        match self.get(key) {
            Some(FieldValue::Bool(b)) => *b,
            _ => false,
        }
    }

    /// A signed number; 0 when the field is absent.
    pub fn get_i64(&self, key: Option<u64>) -> (v: i64)
        ensures
            v == self.i64_at(key),
    {
        match self.get(key) {
            Some(FieldValue::I64(v)) => *v,
            _ => 0,
        }
    }

    /// An unsigned number, when the field is present.
    pub fn get_u64(&self, key: Option<u64>) -> (v: Option<u64>)
        ensures
            v == self.u64_at(key),
    {
        match self.get(key) {
            Some(FieldValue::U64(v)) => Some(*v),
            _ => None,
        }
    }

    /// A half of a split unsigned number; 0 when the field is absent.
    pub fn get_u32(&self, key: Option<u64>) -> (v: u32)
        ensures
            v == self.u32_at(key),
    {
        match self.get(key) {
            Some(FieldValue::U32(v)) => *v,
            _ => 0,
        }
    }

    /// A single-precision number; zero when the field is absent.
    pub fn get_real(&self, key: Option<u64>) -> (v: Float)
        ensures
            v == self.real_at(key),
    {
        match self.get(key) {
            Some(FieldValue::Real(v)) => *v,
            _ => Float::zero(),
        }
    }

    /// A handle to another entity, when the field is present.
    pub fn get_handle(&self, key: Option<u64>) -> (v: Option<u32>)
        ensures
            v == self.handle_at(key),
    {
        match self.get(key) {
            Some(FieldValue::Handle(v)) => Some(*v),
            _ => None,
        }
    }

    /// A text, when the field is present.
    pub fn get_string(&self, key: Option<u64>) -> (v: Option<String>)
        ensures
            text::of(v) == self.text_at(key),
    {
        match self.get(key) {
            Some(FieldValue::Text(v)) => Some(v.clone()),
            _ => None,
        }
    }

    /// Angles; zeros when the field is absent.
    pub fn get_qangle(&self, key: Option<u64>) -> (v: Vector)
        ensures
            v == self.angles_at(key),
    {
        match self.get(key) {
            Some(FieldValue::Angles(v)) => *v,
            _ => Vector::zero(),
        }
    }

    /// Whether the entity is of the named class.
    pub fn is_a(&self, class: &str) -> (b: bool)
        ensures
            b == (self.class_name@ == class@),
    {
        same_text(self.class_name.as_str(), class)
    }
}

/// A field's dotted path and its key.
#[derive(Debug)]
pub struct FieldKey {
    pub path: String,
    pub key: u64,
}

/// An element of an array: the array's dotted path, the position and the key.
#[derive(Debug)]
pub struct ElementKey {
    pub path: String,
    pub at: u8,
    pub key: u64,
}

/// The fields of one entity class.
#[derive(Debug)]
pub struct Serializer {
    pub class_name: String,
    pub fields: Vec<FieldKey>,
    pub elements: Vec<ElementKey>,
}

impl Serializer {
    /// The key of the field at a dotted path.
    pub open spec fn key_of(self, path: Seq<char>) -> Option<u64> {
        match order::first_match(self.fields@, |f: FieldKey| f.path@ == path) {
            Some(f) => Some(f.key),
            None => None,
        }
    }

    /// The key of one element of the array at a dotted path.
    pub open spec fn element_key_of(self, path: Seq<char>, at: u8) -> Option<u64> {
        match order::first_match(self.elements@, |f: ElementKey| f.path@ == path && f.at == at) {
            Some(f) => Some(f.key),
            None => None,
        }
    }

    /// The key of the field at a dotted path, if there is such a field.
    pub fn resolve_field_key(&self, path: &str) -> (key: Option<u64>)
        ensures
            key == self.key_of(path@),
    {
        let n: usize = self.fields.len();
        let ghost p = |f: FieldKey| f.path@ == path@;
        let mut i: usize = 0;
        while i < n
            invariant
                i <= n,
                n == self.fields@.len(),
                p == (|f: FieldKey| f.path@ == path@),
                forall|j: int| 0 <= j < i ==> !p(#[trigger] self.fields@[j]),
            decreases n - i,
        {
            if same_text(self.fields[i].path.as_str(), path) {
                proof {
                    order::lemma_first_match(self.fields@, p, i as int);
                }
                return Some(self.fields[i].key);
            }
            i = i + 1;
        }
        proof {
            order::lemma_first_match(self.fields@, p, n as int);
        }
        None
    }

    /// The key of one element of the array at a dotted path, if there is one.
    pub fn resolve_element_key(&self, path: &str, at: u8) -> (key: Option<u64>)
        ensures
            key == self.element_key_of(path@, at),
    {
        let n: usize = self.elements.len();
        let ghost p = |f: ElementKey| f.path@ == path@ && f.at == at;
        let mut i: usize = 0;
        while i < n
            invariant
                i <= n,
                n == self.elements@.len(),
                p == (|f: ElementKey| f.path@ == path@ && f.at == at),
                forall|j: int| 0 <= j < i ==> !p(#[trigger] self.elements@[j]),
            decreases n - i,
        {
            if self.elements[i].at == at && same_text(self.elements[i].path.as_str(), path) {
                proof {
                    order::lemma_first_match(self.elements@, p, i as int);
                }
                return Some(self.elements[i].key);
            }
            i = i + 1;
        }
        proof {
            order::lemma_first_match(self.elements@, p, n as int);
        }
        None
    }
}

/// An entity class and its number.
#[derive(Debug)]
pub struct ClassId {
    pub class_name: String,
    pub id: i32,
}

/// The serializers and class numbers of a demo.
#[derive(Debug)]
pub struct Schema {
    pub serializers: Vec<Serializer>,
    pub classes: Vec<ClassId>,
}

impl Schema {
    pub open spec fn serializer_of(self, class: Seq<char>) -> Option<Serializer> {
        order::first_match(self.serializers@, |s: Serializer| s.class_name@ == class)
    }

    /// The key of a class's field.
    pub open spec fn key_of(self, class: Seq<char>, path: Seq<char>) -> Option<u64> {
        match self.serializer_of(class) {
            Some(s) => s.key_of(path),
            None => None,
        }
    }

    /// The key of one element of a class's array.
    pub open spec fn element_key_of(self, class: Seq<char>, path: Seq<char>, at: u8) -> Option<u64> {
        match self.serializer_of(class) {
            Some(s) => s.element_key_of(path, at),
            None => None,
        }
    }

    /// The number of a class.
    pub open spec fn class_id_of(self, class: Seq<char>) -> Option<i32> {
        match order::first_match(self.classes@, |c: ClassId| c.class_name@ == class) {
            Some(c) => Some(c.id),
            None => None,
        }
    }

    /// The serializer of a class, if there is one.
    pub fn serializer(&self, class: &str) -> (s: Option<&Serializer>)
        ensures
            s is Some == self.serializer_of(class@) is Some,
            s matches Some(t) ==> self.serializer_of(class@) == Some(*t),
    {
        let n: usize = self.serializers.len();
        let ghost p = |s: Serializer| s.class_name@ == class@;
        let mut i: usize = 0;
        while i < n
            invariant
                i <= n,
                n == self.serializers@.len(),
                p == (|s: Serializer| s.class_name@ == class@),
                forall|j: int| 0 <= j < i ==> !p(#[trigger] self.serializers@[j]),
            decreases n - i,
        {
            if same_text(self.serializers[i].class_name.as_str(), class) {
                proof {
                    order::lemma_first_match(self.serializers@, p, i as int);
                }
                return Some(&self.serializers[i]);
            }
            i = i + 1;
        }
        proof {
            order::lemma_first_match(self.serializers@, p, n as int);
        }
        None
    }

    /// The key of a class's field, if the class and the field are known.
    pub fn field_key(&self, class: &str, path: &str) -> (key: Option<u64>)
        ensures
            key == self.key_of(class@, path@),
    {
        match self.serializer(class) {
            Some(s) => s.resolve_field_key(path),
            None => None,
        }
    }

    /// The key of one element of a class's array, if it is known.
    pub fn element_key(&self, class: &str, path: &str, at: u8) -> (key: Option<u64>)
        ensures
            key == self.element_key_of(class@, path@, at),
    {
        match self.serializer(class) {
            Some(s) => s.resolve_element_key(path, at),
            None => None,
        }
    }

    /// The number of a class, if the class is known.
    pub fn id_of(&self, class: &str) -> (id: Option<i32>)
        ensures
            id == self.class_id_of(class@),
    {
        let n: usize = self.classes.len();
        let ghost p = |c: ClassId| c.class_name@ == class@;
        let mut i: usize = 0;
        while i < n
            invariant
                i <= n,
                n == self.classes@.len(),
                p == (|c: ClassId| c.class_name@ == class@),
                forall|j: int| 0 <= j < i ==> !p(#[trigger] self.classes@[j]),
            decreases n - i,
        {
            if same_text(self.classes[i].class_name.as_str(), class) {
                proof {
                    order::lemma_first_match(self.classes@, p, i as int);
                }
                return Some(self.classes[i].id);
            }
            i = i + 1;
        }
        proof {
            order::lemma_first_match(self.classes@, p, n as int);
        }
        None
    }
}

/// One key of a game event: its name, its text and, where the text writes a
/// number, that number in single precision.
#[derive(Debug)]
pub struct KeyValue {
    pub key: String,
    pub value: String,
    pub number: Option<Float>,
}

/// A game event or user message.
#[derive(Debug)]
pub struct GameEvent {
    pub tick: i32,
    pub name: String,
    pub msg_type: u32,
    pub keys: Vec<KeyValue>,
    pub payload: Vec<u8>,
}

/// The state of the demo at one tick, and the game events that fired with it.
#[derive(Debug)]
pub struct Frame {
    pub tick: i32,
    /// By entity index, ascending.
    pub entities: Vec<Entity>,
    pub events: Vec<GameEvent>,
}

/// Whether a list of names holds a name.
pub open spec fn lists(names: Seq<String>, name: Seq<char>) -> bool {
    exists|i: int| 0 <= i < names.len() && #[trigger] names[i]@ == name
}

/// Whether a list of names holds a name.
pub fn is_listed(names: &Vec<String>, name: &str) -> (b: bool)
    ensures
        b == lists(names@, name@),
{
    let n: usize = names.len();
    let mut i: usize = 0;
    while i < n
        invariant
            i <= n,
            n == names@.len(),
            forall|j: int| 0 <= j < i ==> #[trigger] names@[j]@ != name@,
        decreases n - i,
    {
        if same_text(names[i].as_str(), name) {
            assert(names@[i as int]@ == name@);
            return true;
        }
        i = i + 1;
    }
    false
}

/// The index that a handle points at: its low 14 bits.
pub open spec fn handle_index(handle: u32) -> int {
    (handle % 0x4000) as int
}

/// The entity that a handle points at, among the decoded ones.
pub open spec fn entity_at(entities: Seq<Entity>, scope: Scope, names: Names, handle: u32) -> Option<Entity> {
    order::first_match(
        entities,
        |e: Entity| e.index == handle_index(handle) && scope.sees(names, e.class_name@),
    )
}

/// The entity that an optional handle points at.
pub open spec fn linked(entities: Seq<Entity>, scope: Scope, names: Names, handle: Option<u32>) -> Option<Entity> {
    match handle {
        Some(h) => entity_at(entities, scope, names, h),
        None => None,
    }
}

/// The first entity of a class.
pub open spec fn first_of_class(entities: Seq<Entity>, class: Seq<char>) -> Option<Entity> {
    order::first_match(entities, |e: Entity| e.class_name@ == class)
}

impl Frame {
    /// The entity that a handle points at, if it is decoded.
    pub fn get_by_handle(&self, scope: Scope, names: &Names, handle: u32) -> (e: Option<&Entity>)
        ensures
            e is Some == entity_at(self.entities@, scope, *names, handle) is Some,
            e matches Some(f) ==> entity_at(self.entities@, scope, *names, handle) == Some(*f),
    {
        let n: usize = self.entities.len();
        let index: i32 = (handle % 0x4000) as i32;
        let ghost p = |e: Entity|
            e.index == handle_index(handle) && scope.sees(*names, e.class_name@);
        let mut i: usize = 0;
        while i < n
            invariant
                i <= n,
                n == self.entities@.len(),
                index == handle_index(handle),
                p == (|e: Entity|
                    e.index == handle_index(handle) && scope.sees(*names, e.class_name@)),
                forall|j: int| 0 <= j < i ==> !p(#[trigger] self.entities@[j]),
            decreases n - i,
        {
            if self.entities[i].index == index && scope.admits(names, self.entities[i].class_name.as_str()) {
                proof {
                    order::lemma_first_match(self.entities@, p, i as int);
                }
                return Some(&self.entities[i]);
            }
            i = i + 1;
        }
        proof {
            order::lemma_first_match(self.entities@, p, n as int);
        }
        None
    }

    /// The entity that an optional handle points at, if it is decoded.
    pub fn follow(&self, scope: Scope, names: &Names, handle: Option<u32>) -> (e: Option<&Entity>)
        ensures
            e is Some == linked(self.entities@, scope, *names, handle) is Some,
            e matches Some(f) ==> linked(self.entities@, scope, *names, handle) == Some(*f),
    {
        match handle {
            Some(h) => self.get_by_handle(scope, names, h),
            None => None,
        }
    }

    /// The first entity of a class.
    pub fn find_class(&self, class: &str) -> (e: Option<&Entity>)
        ensures
            e is Some == first_of_class(self.entities@, class@) is Some,
            e matches Some(f) ==> first_of_class(self.entities@, class@) == Some(*f),
    {
        let n: usize = self.entities.len();
        let ghost p = |e: Entity| e.class_name@ == class@;
        let mut i: usize = 0;
        while i < n
            invariant
                i <= n,
                n == self.entities@.len(),
                p == (|e: Entity| e.class_name@ == class@),
                forall|j: int| 0 <= j < i ==> !p(#[trigger] self.entities@[j]),
            decreases n - i,
        {
            if self.entities[i].is_a(class) {
                proof {
                    order::lemma_first_match(self.entities@, p, i as int);
                }
                return Some(&self.entities[i]);
            }
            i = i + 1;
        }
        proof {
            order::lemma_first_match(self.entities@, p, n as int);
        }
        None
    }
}

/// Why a demo could not be decoded, by the decoder's own code.
#[derive(Clone, Copy, Debug, PartialEq, Eq, Structural)]
pub struct DemoError {
    pub code: u32,
}

} // verus!

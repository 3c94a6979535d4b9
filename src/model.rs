//! The data that the analyzer reads: schema, query selections and the
//! response sample.
use vstd::prelude::*;

verus! {

/// The declared output type of a field: a named type (an object type of the
/// schema, or a scalar when no object type has that name) or a list of an
/// inner type.
pub enum FieldType {
    Named(String),
    List(Box<FieldType>),
}

/// A field of an object type. `rate` is the cost weight of one realized
/// occurrence of the field, in millionths (`1_000_000` stands for `1.0`);
/// `None` weighs as zero.
pub struct FieldDefinition {
    pub name: String,
    pub field_type: FieldType,
    pub rate: Option<u64>,
}

/// A named object type and its fields. Lookups take the first field of a name.
pub struct TypeDefinition {
    pub name: String,
    pub fields: Vec<FieldDefinition>,
}

/// The object types of a schema and the name of its root query type.
pub struct SchemaModel {
    pub query_type: String,
    pub types: Vec<TypeDefinition>,
}

/// One field selection of a query: the schema field it names and its nested
/// selections (empty for a scalar selection).
pub struct SelectionNode {
    pub name: String,
    pub selections: Vec<SelectionNode>,
}

/// A value of the response sample. Only its shape and the lengths of its
/// lists matter to the analysis, so a scalar carries nothing. An object maps
/// response keys to values; a lookup takes the first entry of a key.
pub enum ResponseValue {
    Null,
    Scalar,
    List(Vec<ResponseValue>),
    Object(Vec<(String, ResponseValue)>),
}

/// The rate of a field, with an absent rate as zero.
pub open spec fn rate_of(f: FieldDefinition) -> int {
    match f.rate {
        Some(r) => r as int,
        None => 0,
    }
}

/// The first index at which `name` occurs in `names`.
pub open spec fn is_first_at(names: Seq<Seq<char>>, name: Seq<char>, i: int) -> bool {
    &&& 0 <= i < names.len()
    &&& names[i] == name
    &&& forall|k: int| 0 <= k < i ==> names[k] != name
}

/// Where `name` first occurs in `names`, if it does.
pub open spec fn first_index(names: Seq<Seq<char>>, name: Seq<char>) -> Option<int> {
    if exists|i: int| is_first_at(names, name, i) {
        Some(choose|i: int| is_first_at(names, name, i))
    } else {
        None
    }
}

pub proof fn lemma_first_index_unique(names: Seq<Seq<char>>, name: Seq<char>, i: int)
    requires
        is_first_at(names, name, i),
    ensures
        first_index(names, name) == Some(i),
{
    let j = choose|j: int| is_first_at(names, name, j);
    assert(is_first_at(names, name, j));
    if j < i {
        assert(names[j] != name);
    } else if i < j {
        assert(names[i] != name);
    }
}

pub proof fn lemma_first_index_none(names: Seq<Seq<char>>, name: Seq<char>)
    requires
        forall|k: int| 0 <= k < names.len() ==> names[k] != name,
    ensures
        first_index(names, name) == None::<int>,
{
}

pub open spec fn type_names(s: SchemaModel) -> Seq<Seq<char>> {
    s.types@.map_values(|t: TypeDefinition| t.name@)
}

pub open spec fn field_names(t: TypeDefinition) -> Seq<Seq<char>> {
    t.fields@.map_values(|f: FieldDefinition| f.name@)
}

pub open spec fn entry_keys(entries: Seq<(String, ResponseValue)>) -> Seq<Seq<char>> {
    entries.map_values(|e: (String, ResponseValue)| e.0@)
}

/// An index as a mathematical integer.
pub open spec fn index_of(r: Option<usize>) -> Option<int> {
    match r {
        Some(i) => Some(i as int),
        None => None,
    }
}

/// The object type of a schema that bears `name`, if any.
pub open spec fn object_type(s: SchemaModel, name: Seq<char>) -> Option<TypeDefinition> {
    match first_index(type_names(s), name) {
        Some(i) => Some(s.types@[i]),
        None => None,
    }
}

/// The field of a type that bears `name`, if any.
pub open spec fn field_of(t: TypeDefinition, name: Seq<char>) -> Option<FieldDefinition> {
    match first_index(field_names(t), name) {
        Some(i) => Some(t.fields@[i]),
        None => None,
    }
}

/// The value of an object's entry under `key`, if any.
pub open spec fn entry_value(entries: Seq<(String, ResponseValue)>, key: Seq<char>) -> Option<
    ResponseValue,
> {
    match first_index(entry_keys(entries), key) {
        Some(i) => Some(entries[i].1),
        None => None,
    }
}

impl SchemaModel {
    /// Looks up the object type named `name`.
    pub fn find_type(&self, name: &String) -> (r: Option<usize>)
        ensures
            index_of(r) == first_index(type_names(*self), name@),
    {
        let mut i: usize = 0;
        while i < self.types.len()
            invariant
                0 <= i <= self.types@.len(),
                forall|k: int| 0 <= k < i ==> type_names(*self)[k] != name@,
            decreases self.types@.len() - i,
        {
            if self.types[i].name == *name {
                proof {
                    lemma_first_index_unique(type_names(*self), name@, i as int);
                }
                return Some(i);
            }
            i = i + 1;
        }
        proof {
            lemma_first_index_none(type_names(*self), name@);
        }
        None
    }
}

impl TypeDefinition {
    /// Looks up the field named `name`.
    pub fn find_field(&self, name: &String) -> (r: Option<usize>)
        ensures
            index_of(r) == first_index(field_names(*self), name@),
    {
        let mut i: usize = 0;
        while i < self.fields.len()
            invariant
                0 <= i <= self.fields@.len(),
                forall|k: int| 0 <= k < i ==> field_names(*self)[k] != name@,
            decreases self.fields@.len() - i,
        {
            if self.fields[i].name == *name {
                proof {
                    lemma_first_index_unique(field_names(*self), name@, i as int);
                }
                return Some(i);
            }
            i = i + 1;
        }
        proof {
            lemma_first_index_none(field_names(*self), name@);
        }
        None
    }
}

/// Looks up the value of an object's entry under `key`.
pub fn find_entry(entries: &Vec<(String, ResponseValue)>, key: &String) -> (r: Option<usize>)
    ensures
        index_of(r) == first_index(entry_keys(entries@), key@),
{
    let mut i: usize = 0;
    while i < entries.len()
        invariant
            0 <= i <= entries@.len(),
            forall|k: int| 0 <= k < i ==> entry_keys(entries@)[k] != key@,
        decreases entries@.len() - i,
    {
        if entries[i].0 == *key {
            proof {
                lemma_first_index_unique(entry_keys(entries@), key@, i as int);
            }
            return Some(i);
        }
        i = i + 1;
    }
    proof {
        lemma_first_index_none(entry_keys(entries@), key@);
    }
    None
}

pub proof fn lemma_object_type_index(s: SchemaModel, name: Seq<char>)
    ensures
        match first_index(type_names(s), name) {
            Some(i) => 0 <= i < s.types@.len() && object_type(s, name) == Some(s.types@[i]),
            None => object_type(s, name) is None,
        },
{
    if let Some(i) = first_index(type_names(s), name) {
        let j = choose|j: int| is_first_at(type_names(s), name, j);
        assert(is_first_at(type_names(s), name, j));
    }
}

pub proof fn lemma_field_of_index(t: TypeDefinition, name: Seq<char>)
    ensures
        match first_index(field_names(t), name) {
            Some(i) => 0 <= i < t.fields@.len() && field_of(t, name) == Some(t.fields@[i]),
            None => field_of(t, name) is None,
        },
{
    if let Some(i) = first_index(field_names(t), name) {
        let j = choose|j: int| is_first_at(field_names(t), name, j);
        assert(is_first_at(field_names(t), name, j));
    }
}

pub proof fn lemma_entry_value_index(entries: Seq<(String, ResponseValue)>, key: Seq<char>)
    ensures
        match first_index(entry_keys(entries), key) {
            Some(i) => 0 <= i < entries.len() && entry_value(entries, key) == Some(entries[i].1),
            None => entry_value(entries, key) is None,
        },
{
    if let Some(i) = first_index(entry_keys(entries), key) {
        let j = choose|j: int| is_first_at(entry_keys(entries), key, j);
        assert(is_first_at(entry_keys(entries), key, j));
    }
}

} // verus!

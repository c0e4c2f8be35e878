//! Schemas: the name, timestamp flag and typed fields of an event kind, and
//! the registry that maps wire type ids to them.

use crate::types::{FieldType, WireTypeId};
use std::collections::HashMap;
use vstd::prelude::*;

verus! {

broadcast use vstd::std_specs::hash::group_hash_axioms;

/// A named, typed field of a schema.
#[derive(Debug, Clone, PartialEq)]
pub struct FieldDef {
    pub name: String,
    pub field_type: FieldType,
}

/// The contents of a field definition.
pub struct FieldDefV {
    pub name: Seq<char>,
    pub field_type: FieldType,
}

impl View for FieldDef {
    type V = FieldDefV;

    open spec fn view(&self) -> FieldDefV {
        FieldDefV { name: self.name@, field_type: self.field_type }
    }
}

/// Description of an event kind.
#[derive(Debug, Clone, PartialEq)]
pub struct SchemaEntry {
    pub name: String,
    pub has_timestamp: bool,
    pub fields: Vec<FieldDef>,
}

/// The contents of a schema.
pub struct SchemaV {
    pub name: Seq<char>,
    pub has_timestamp: bool,
    pub fields: Seq<FieldDefV>,
}

pub open spec fn fields_view(fs: Seq<FieldDef>) -> Seq<FieldDefV> {
    fs.map_values(|f: FieldDef| f@)
}

impl View for SchemaEntry {
    type V = SchemaV;

    open spec fn view(&self) -> SchemaV {
        SchemaV {
            name: self.name@,
            has_timestamp: self.has_timestamp,
            fields: fields_view(self.fields@),
        }
    }
}

/// The field types of a schema, in order.
pub open spec fn spec_field_types(s: SchemaV) -> Seq<FieldType> {
    s.fields.map_values(|f: FieldDefV| f.field_type)
}

impl FieldDef {
    /// A copy with the same contents.
    pub fn duplicate(&self) -> (r: FieldDef)
        ensures
            r@ == self@,
    {
        FieldDef { name: self.name.clone(), field_type: self.field_type }
    }
}

impl SchemaEntry {
    /// A copy with the same contents.
    pub fn duplicate(&self) -> (r: SchemaEntry)
        ensures
            r@ == self@,
    {
        let mut fields: Vec<FieldDef> = Vec::new();
        let mut i: usize = 0;
        while i < self.fields.len()
            invariant
                i <= self.fields.len(),
                fields.len() == i,
                fields_view(fields@) == fields_view(self.fields@).take(i as int),
            decreases self.fields.len() - i,
        {
            let f = self.fields[i].duplicate();
            let ghost before = fields@;
            fields.push(f);
            assert forall|j: int| 0 <= j < i + 1 implies fields_view(fields@)[j] == fields_view(
                self.fields@,
            )[j] by {
                if j < i {
                    assert(fields@[j] == before[j]);
                    assert(fields_view(before)[j] == fields_view(self.fields@).take(i as int)[j]);
                }
            }
            assert(fields_view(fields@) =~= fields_view(self.fields@).take(i + 1));
            i += 1;
        }
        assert(fields_view(self.fields@).take(i as int) =~= fields_view(self.fields@));
        SchemaEntry { name: self.name.clone(), has_timestamp: self.has_timestamp, fields }
    }

    /// Whether two schemas have the same contents.
    pub fn same_as(&self, other: &SchemaEntry) -> (r: bool)
        ensures
            r == (self@ == other@),
    {
        if self.name != other.name || self.has_timestamp != other.has_timestamp
            || self.fields.len() != other.fields.len() {
            proof {
                if self@ == other@ {
                    assert(fields_view(self.fields@).len() == self.fields.len());
                }
            }
            return false;
        }
        let mut i: usize = 0;
        while i < self.fields.len()
            invariant
                i <= self.fields.len(),
                self.fields.len() == other.fields.len(),
                forall|j: int| 0 <= j < i ==> self.fields@[j]@ == other.fields@[j]@,
            decreases self.fields.len() - i,
        {
            if self.fields[i].name != other.fields[i].name || self.fields[i].field_type
                != other.fields[i].field_type {
                proof {
                    if self@ == other@ {
                        assert(fields_view(self.fields@)[i as int] == fields_view(
                            other.fields@,
                        )[i as int]);
                    }
                }
                return false;
            }
            i += 1;
        }
        assert(fields_view(self.fields@) == fields_view(other.fields@));
        true
    }

    /// The field types, in order.
    pub fn field_types(&self) -> (r: Vec<FieldType>)
        ensures
            r@ == spec_field_types(self@),
    {
        let mut r: Vec<FieldType> = Vec::new();
        let mut i: usize = 0;
        while i < self.fields.len()
            invariant
                i <= self.fields.len(),
                r@ == spec_field_types(self@).take(i as int),
            decreases self.fields.len() - i,
        {
            r.push(self.fields[i].field_type);
            assert(r@ =~= spec_field_types(self@).take(i + 1));
            i += 1;
        }
        assert(spec_field_types(self@).take(i as int) =~= spec_field_types(self@));
        r
    }
}

/// The schemas known under each wire type id.
pub struct SchemaRegistry {
    entries: HashMap<u16, SchemaEntry>,
}

impl View for SchemaRegistry {
    type V = Map<u16, SchemaV>;

    closed spec fn view(&self) -> Map<u16, SchemaV> {
        self.entries@.map_values(|e: SchemaEntry| e@)
    }
}

impl SchemaRegistry {
    pub fn new() -> (r: SchemaRegistry)
        ensures
            r@ == Map::<u16, SchemaV>::empty(),
    {
        let r = SchemaRegistry { entries: HashMap::new() };
        assert(r@ =~= Map::<u16, SchemaV>::empty());
        r
    }

    /// Number of registered schemas.
    pub fn len(&self) -> (n: usize)
        ensures
            n == self@.len(),
    {
        proof {
            assert(self@.dom() =~= self.entries@.dom());
            vstd::std_specs::hash::axiom_hashmap_view_finite_dom(self.entries);
        }
        self.entries.len()
    }

    /// The schema registered under `type_id`.
    pub fn get(&self, type_id: WireTypeId) -> (r: Option<&SchemaEntry>)
        ensures
            match r {
                Some(e) => self@.contains_key(type_id.0) && self@[type_id.0] == e@,
                None => !self@.contains_key(type_id.0),
            },
    {
        self.entries.get(&type_id.0)
    }

    /// Register `entry` under `type_id`. Registering the same schema again is
    /// accepted and changes nothing; a different schema under a taken id is
    /// refused.
    pub fn register(&mut self, type_id: WireTypeId, entry: SchemaEntry) -> (r: Result<(), String>)
        ensures
            old(self)@.contains_key(type_id.0) ==> final(self)@ == old(self)@ && (r is Ok
                <==> old(self)@[type_id.0] == entry@),
            !old(self)@.contains_key(type_id.0) ==> r is Ok && final(self)@ == old(self)@.insert(
                type_id.0,
                entry@,
            ),
    {
        match self.entries.get(&type_id.0) {
            Some(existing) => {
                if existing.same_as(&entry) {
                    Ok(())
                } else {
                    Err("type_id already registered with a different schema".to_string())
                }
            },
            None => {
                self.entries.insert(type_id.0, entry);
                assert(self@ =~= old(self)@.insert(type_id.0, entry@));
                Ok(())
            },
        }
    }
}

} // verus!

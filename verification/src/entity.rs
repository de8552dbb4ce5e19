use vstd::prelude::*;

verus! {

/// Text as the contracts see it.
pub type Text = Seq<char>;

/// An ordered key-value mapping as the contracts see it: the pairs in
/// insertion order.
pub type Fields = Seq<(Seq<char>, Seq<char>)>;

/// The pairs of a vector of owned strings, each taken by its view.
pub open spec fn pairs_view(pairs: Seq<(String, String)>) -> Fields {
    pairs.map_values(|p: (String, String)| (p.0@, p.1@))
}

/// The keys of a mapping, in insertion order.
pub open spec fn keys_of(fields: Fields) -> Seq<Text> {
    fields.map_values(|f: (Text, Text)| f.0)
}

/// No key occurs twice.
pub open spec fn distinct_keys(fields: Fields) -> bool {
    keys_of(fields).no_duplicates()
}

/// Whether the mapping has a field with this key.
pub open spec fn has_key(fields: Fields, key: Text) -> bool {
    keys_of(fields).contains(key)
}

/// The value stored under `key`; arbitrary where the key is absent.
pub open spec fn value_of(fields: Fields, key: Text) -> Text {
    fields[keys_of(fields).index_of(key)].1
}

/// The value stored under `key`, where the mapping has that key.
pub open spec fn lookup(fields: Fields, key: Text) -> Option<Text> {
    if has_key(fields, key) {
        Some(value_of(fields, key))
    } else {
        None
    }
}

/// The mapping without its order.
pub open spec fn field_map(fields: Fields) -> Map<Text, Text> {
    Map::new(|k: Text| has_key(fields, k), |k: Text| value_of(fields, k))
}

/// The mapping after `key` is set to `value`: an existing key keeps its
/// place, a new key goes to the end.
pub open spec fn with_field(fields: Fields, key: Text, value: Text) -> Fields {
    if has_key(fields, key) {
        fields.update(keys_of(fields).index_of(key), (key, value))
    } else {
        fields.push((key, value))
    }
}

/// In a mapping without repeated keys, the pair at position `i` is the one
/// its key leads to.
pub proof fn lemma_value_at(fields: Fields, i: int)
    requires
        distinct_keys(fields),
        0 <= i < fields.len(),
    ensures
        has_key(fields, fields[i].0),
        keys_of(fields).index_of(fields[i].0) == i,
        value_of(fields, fields[i].0) == fields[i].1,
{
    let keys = keys_of(fields);
    assert(keys[i] == fields[i].0);
    let j = keys.index_of(fields[i].0);
    assert(0 <= j < keys.len() && keys[j] == fields[i].0);
}

/// One entity of a document, as the contracts see it.
pub struct EntityView {
    pub id: u64,
    pub fields: Fields,
    pub connections: Option<Fields>,
}

impl EntityView {
    /// The keys of the mapping are unique.
    pub open spec fn wf(self) -> bool {
        distinct_keys(self.fields)
    }
}

/// One entity of a document: its identifier, its key-value mapping in
/// insertion order, and its outbound connections where it has any.
#[derive(Debug)]
pub struct Entity {
    id: u64,
    key_values: Vec<(String, String)>,
    connections: Option<Vec<(String, String)>>,
}

impl View for Entity {
    type V = EntityView;

    closed spec fn view(&self) -> EntityView {
        EntityView {
            id: self.id,
            fields: pairs_view(self.key_values@),
            connections: match self.connections {
                Some(c) => Some(pairs_view(c@)),
                None => None,
            },
        }
    }
}

impl Entity {
    /// Every entity has a mapping with unique keys.
    #[verifier::type_invariant]
    pub open spec fn inv(&self) -> bool {
        self@.wf()
    }

    /// An entity with the given identifier, no fields and no connections.
    pub fn new(id: u64) -> (entity: Entity)
        ensures
            entity@ == (EntityView { id, fields: Seq::empty(), connections: None }),
    {
        let entity = Entity { id, key_values: Vec::new(), connections: None };
        assert(pairs_view(entity.key_values@) =~= Seq::empty());
        entity
    }

    /// The entity's identifier.
    pub fn id(&self) -> (id: u64)
        ensures
            id == self@.id,
    {
        self.id
    }

    /// The key-value pairs in insertion order.
    pub fn key_values(&self) -> (pairs: &Vec<(String, String)>)
        ensures
            pairs_view(pairs@) == self@.fields,
    {
        &self.key_values
    }

    /// The connection records in document order, where the entity has a
    /// connections block.
    pub fn connections(&self) -> (records: Option<&Vec<(String, String)>>)
        ensures
            match records {
                Some(c) => self@.connections == Some(pairs_view(c@)),
                None => self@.connections is None,
            },
    {
        self.connections.as_ref()
    }

    fn position_of(&self, key: &String) -> (found: Option<usize>)
        ensures
            match found {
                Some(i) => i < self@.fields.len() && self@.fields[i as int].0 == key@,
                None => !has_key(self@.fields, key@),
            },
    {
        let mut i: usize = 0;
        while i < self.key_values.len()
            invariant
                i <= self.key_values.len(),
                forall|j: int| 0 <= j < i ==> self@.fields[j].0 != key@,
            decreases self.key_values.len() - i,
        {
            if self.key_values[i].0 == *key {
                return Some(i);
            }
            i += 1;
        }
        None
    }

    /// The value stored under `key`, where the entity has that key.
    pub fn get(&self, key: &str) -> (value: Option<&String>)
        ensures
            match value {
                Some(v) => lookup(self@.fields, key@) == Some(v@),
                None => lookup(self@.fields, key@) is None,
            },
    {
        let owned = String::from_str(key);
        match self.position_of(&owned) {
            Some(i) => {
                proof {
                    use_type_invariant(self);
                    lemma_value_at(self@.fields, i as int);
                }
                Some(&self.key_values[i].1)
            },
            None => None,
        }
    }

    /// Whether the entity has a field with this key.
    pub fn contains_key(&self, key: &str) -> (present: bool)
        ensures
            present == has_key(self@.fields, key@),
    {
        let owned = String::from_str(key);
        let found = self.position_of(&owned);
        proof {
            if let Some(i) = found {
                assert(keys_of(self@.fields)[i as int] == key@);
            }
        }
        found.is_some()
    }

    /// Sets `key` to `value`. An existing key keeps its place and gets the
    /// new value; a new key is appended.
    pub fn set(&mut self, key: String, value: String)
        ensures
            final(self)@ == (EntityView {
                fields: with_field(old(self)@.fields, key@, value@),
                ..old(self)@
            }),
    {
        proof {
            use_type_invariant(&*self);
        }
        let ghost before = self@.fields;
        let found = self.position_of(&key);
        // The pairs leave the entity while they change, so that it holds a
        // mapping with unique keys at every moment.
        let mut pairs: Vec<(String, String)> = Vec::new();
        assert(pairs_view(pairs@) =~= Seq::empty());
        core::mem::swap(&mut self.key_values, &mut pairs);
        match found {
            Some(i) => {
                proof {
                    lemma_value_at(before, i as int);
                }
                pairs.set(i, (key, value));
                assert(pairs_view(pairs@) =~= before.update(i as int, (key@, value@)));
                assert(keys_of(pairs_view(pairs@)) =~= keys_of(before));
            },
            None => {
                pairs.push((key, value));
                assert(pairs_view(pairs@) =~= before.push((key@, value@)));
                assert(keys_of(pairs_view(pairs@)) =~= keys_of(before).push(key@));
            },
        }
        core::mem::swap(&mut self.key_values, &mut pairs);
    }

    /// Replaces the entity's connection records.
    pub fn set_connections(&mut self, connections: Option<Vec<(String, String)>>)
        ensures
            final(self)@ == (EntityView {
                connections: match connections {
                    Some(c) => Some(pairs_view(c@)),
                    None => None,
                },
                ..old(self)@
            }),
    {
        proof {
            use_type_invariant(&*self);
        }
        self.connections = connections;
    }

    /// Appends one connection record: the output's name and the raw value
    /// that packs its action fields.
    pub fn add_connection(&mut self, output: String, value: String)
        ensures
            final(self)@ == (EntityView {
                connections: Some(
                    match old(self)@.connections {
                        Some(c) => c.push((output@, value@)),
                        None => seq![(output@, value@)],
                    },
                ),
                ..old(self)@
            }),
    {
        proof {
            use_type_invariant(&*self);
        }
        let mut slot: Option<Vec<(String, String)>> = None;
        core::mem::swap(&mut self.connections, &mut slot);
        let mut records = match slot {
            Some(records) => records,
            None => Vec::new(),
        };
        let ghost before = records@;
        records.push((output, value));
        assert(pairs_view(records@) =~= pairs_view(before).push((output@, value@)));
        assert(pairs_view(Seq::<(String, String)>::empty()).push((output@, value@))
            =~= seq![(output@, value@)]);
        let mut slot = Some(records);
        core::mem::swap(&mut self.connections, &mut slot);
    }
}

/// A parsed document: its entities in document order.
#[derive(Debug)]
pub struct Document {
    pub entities: Vec<Entity>,
}

impl View for Document {
    type V = Seq<EntityView>;

    open spec fn view(&self) -> Seq<EntityView> {
        self.entities@.map_values(|e: Entity| e@)
    }
}

impl Document {
    /// A document of these entities, in this order.
    pub fn new(entities: Vec<Entity>) -> (document: Document)
        ensures
            document.entities == entities,
            document@ == entities@.map_values(|e: Entity| e@),
    {
        Document { entities }
    }
}

/// The identifiers of a document's entities, in document order.
pub open spec fn ids_of(entities: Seq<EntityView>) -> Seq<u64> {
    entities.map_values(|e: EntityView| e.id)
}

} // verus!

use crate::entity::{
    distinct_keys, has_key, keys_of, pairs_view, Document, Entity, EntityView,
};
use vstd::prelude::*;

verus! {

/// `vmf_forge::VmfFile`, a parsed file. The contracts see nothing inside
/// it but what `vmf_entities` names.
#[verifier::external_type_specification]
#[verifier::external_body]
pub struct ExVmfFile(vmf_forge::VmfFile);

/// What a parsed file holds in `entities`, in file order: for each entity
/// the identifier that `vmf_forge::Entity::id` reports, the pairs of its
/// `key_values` in the order of that map, and its `connections` where it
/// has any. Hidden entities are not among them.
pub uninterp spec fn vmf_entities(vmf: vmf_forge::VmfFile) -> Seq<
    (u64, Seq<(Seq<char>, Seq<char>)>, Option<Seq<(Seq<char>, Seq<char>)>>),
>;

/// `vmf_forge::Entity::id` of the entity at place `at` of the file's
/// `entities`, found with `Vec::get`. Nothing is claimed of the identifier
/// but that it is the one `vmf_entities` speaks of; past the last entity
/// there is none.
#[verifier::external_body]
fn entity_id(vmf: &vmf_forge::VmfFile, at: usize) -> (id: Option<u64>)
    ensures
        match id {
            Some(id) => at < vmf_entities(*vmf).len() && id == vmf_entities(*vmf)[at as int].0,
            None => at >= vmf_entities(*vmf).len(),
        },
{
    vmf.entities.vec.get(at).map(|entity| entity.id())
}

/// `IndexMap::get_index` on the `key_values` of the entity at place `at`:
/// a copy of the pair at `place`, or nothing past the last pair. A map
/// holds fewer pairs than `usize` can count, so a place with a pair is not
/// the largest one; and a map holds each key once, so the key of the pair
/// is not the key at any earlier place.
#[verifier::external_body]
fn entity_field(vmf: &vmf_forge::VmfFile, at: usize, place: usize) -> (field: Option<
    (String, String),
>)
    requires
        at < vmf_entities(*vmf).len(),
    ensures
        match field {
            Some(pair) => place < usize::MAX && place < vmf_entities(*vmf)[at as int].1.len() && (
                pair.0@,
                pair.1@,
            ) == vmf_entities(*vmf)[at as int].1[place as int],
            None => place >= vmf_entities(*vmf)[at as int].1.len(),
        },
        field matches Some(pair) ==> forall|earlier: int|
            0 <= earlier < place ==> (#[trigger] vmf_entities(*vmf)[at as int].1[earlier]).0
                != pair.0@,
{
    vmf.entities.vec[at].key_values.get_index(place).map(|(key, value)| (key.clone(), value.clone()))
}

/// A copy of the field `connections` of the entity at place `at`, made
/// with `Clone::clone`: the records as `vmf_entities` names them.
#[verifier::external_body]
fn entity_connections(vmf: &vmf_forge::VmfFile, at: usize) -> (records: Option<
    Vec<(String, String)>,
>)
    requires
        at < vmf_entities(*vmf).len(),
    ensures
        match records {
            Some(c) => vmf_entities(*vmf)[at as int].2 == Some(pairs_view(c@)),
            None => vmf_entities(*vmf)[at as int].2 is None,
        },
{
    vmf.entities.vec[at].connections.clone()
}

/// The entity that the library makes of what a file holds of one.
pub open spec fn entity_of(
    held: (u64, Seq<(Seq<char>, Seq<char>)>, Option<Seq<(Seq<char>, Seq<char>)>>),
) -> EntityView {
    EntityView { id: held.0, fields: held.1, connections: held.2 }
}

/// The document that the library makes of a parsed file.
pub open spec fn document_of(vmf: vmf_forge::VmfFile) -> Seq<EntityView> {
    vmf_entities(vmf).map_values(
        |held: (u64, Seq<(Seq<char>, Seq<char>)>, Option<Seq<(Seq<char>, Seq<char>)>>)|
            entity_of(held),
    )
}

/// Copies the entities of a parsed file into a document, in file order:
/// each with its identifier, its pairs as the file's map holds them, and
/// its connections. No entity of a parsed file holds a key twice.
pub fn document_from_vmf(vmf: &vmf_forge::VmfFile) -> (document: Document)
    ensures
        document@ == document_of(*vmf),
        forall|i: int| 0 <= i < document@.len() ==> (#[trigger] document@[i]).wf(),
{
    let ghost held = vmf_entities(*vmf);
    let mut entities: Vec<Entity> = Vec::new();
    let mut at: usize = 0;
    loop
        invariant
            held == vmf_entities(*vmf),
            at <= held.len(),
            entities@.len() == at,
            forall|i: int| 0 <= i < at ==> (#[trigger] entities@[i])@ == entity_of(held[i]),
            forall|i: int| 0 <= i < at ==> distinct_keys(#[trigger] held[i].1),
        ensures
            at == held.len(),
        decreases held.len() - at,
    {
        let id = match entity_id(vmf, at) {
            Some(id) => id,
            None => {
                break ;
            },
        };
        let mut entity = Entity::new(id);
        let mut place: usize = 0;
        loop
            invariant
                held == vmf_entities(*vmf),
                at < held.len(),
                place <= held[at as int].1.len(),
                entity@.id == id,
                entity@.connections is None,
                entity@.fields == held[at as int].1.take(place as int),
                distinct_keys(held[at as int].1.take(place as int)),
            ensures
                place == held[at as int].1.len(),
            decreases held[at as int].1.len() - place,
        {
            let pair = match entity_field(vmf, at, place) {
                Some(pair) => pair,
                None => {
                    break ;
                },
            };
            proof {
                let pairs = held[at as int].1;
                let seen = pairs.take(place as int);
                let next = pairs.take(place + 1);
                assert(next =~= seen.push(pairs[place as int]));
                assert(keys_of(next) =~= keys_of(seen).push(pair.0@));
                assert(!has_key(seen, pair.0@)) by {
                    if has_key(seen, pair.0@) {
                        let k = choose|k: int|
                            0 <= k < keys_of(seen).len() && keys_of(seen)[k] == pair.0@;
                        assert(pairs[k].0 == pair.0@);
                    }
                }
            }
            entity.set(pair.0, pair.1);
            place += 1;
        }
        assert(held[at as int].1.take(place as int) =~= held[at as int].1);
        entity.set_connections(entity_connections(vmf, at));
        entities.push(entity);
        assert(entities.len() == at + 1);
        at += 1;
    }
    let document = Document::new(entities);
    assert(document@ =~= document_of(*vmf));
    document
}

} // verus!

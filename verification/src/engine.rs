//! The boundary to the document engine and to the identifier generator.
//!
//! A document is modelled by what it shows at its root: a map from keys to
//! fields, the handles of the objects that sit there, and the set of changes
//! that make up its history. Nothing in this file is proved: each function
//! states what the engine is relied upon to do.

use automerge::transaction::Transactable;
use automerge::ReadDoc;
use vstd::prelude::*;

verus! {

/// `automerge::AutoCommit`, carried as an opaque value.
#[verifier::external_type_specification]
#[verifier::external_body]
pub struct ExAutoCommit(automerge::AutoCommit);

/// `automerge::ObjId`, the handle of an object inside a document.
#[verifier::external_type_specification]
#[verifier::external_body]
pub struct ExObjId(automerge::ObjId);

/// `automerge::AutomergeError`, carried as an opaque value.
#[verifier::external_type_specification]
#[verifier::external_body]
pub struct ExAutomergeError(automerge::AutomergeError);

/// What a document shows under one root key.
pub ghost enum Field {
    /// A string scalar.
    Str(Seq<char>),
    /// A text object with its current characters.
    Text(Seq<char>),
    /// Any other scalar or object.
    Other,
}

/// What a read of one root key hands back.
pub enum FieldRead {
    /// A string scalar.
    Str(String),
    /// A text object, by its handle.
    Text(automerge::ObjId),
    /// Any other scalar or object.
    Other,
}

/// The fields visible at the root of a document, pending operations included.
pub uninterp spec fn doc_fields(doc: automerge::AutoCommit) -> Map<Seq<char>, Field>;

/// For each object visible at the root of a document, the key it sits under.
pub uninterp spec fn doc_handles(doc: automerge::AutoCommit) -> Map<automerge::ObjId, Seq<char>>;

/// The hashes of the changes that a document has applied: its pending
/// operations count as the change they are committed as, and a change that
/// it has set aside for want of one it depends on does not count.
pub uninterp spec fn doc_changes(doc: automerge::AutoCommit) -> Set<Seq<u8>>;

/// The hashes of the changes that a document has committed to its history.
/// Operations that are still pending are not among them: they are committed
/// when the document is next saved or merged.
pub uninterp spec fn doc_settled(doc: automerge::AutoCommit) -> Set<Seq<u8>>;

/// What `AutoCommit::load` reads out of a byte string: the root fields and the
/// history of the document it builds, or `None` where it refuses the bytes.
pub uninterp spec fn decoded(bytes: Seq<u8>) -> Option<(Map<Seq<char>, Field>, Set<Seq<u8>>)>;

/// What `AutoCommit::merge` makes of a document when it joins another into
/// it: the fields that the document then shows and the history that it then
/// holds, or `None` where the merge is refused. The join is the engine's
/// affair; it depends on the two documents alone.
pub uninterp spec fn joined(ours: automerge::AutoCommit, theirs: automerge::AutoCommit) -> Option<
    (Map<Seq<char>, Field>, Set<Seq<u8>>),
>;

/// A lower-case hexadecimal digit.
pub open spec fn is_lower_hex(c: char) -> bool {
    ('0' <= c && c <= '9') || ('a' <= c && c <= 'f')
}

/// The shape of a note identifier: a hyphenated, lower-case UUID of version 7.
pub open spec fn is_note_id(s: Seq<char>) -> bool {
    &&& s.len() == 36
    &&& forall|i: int|
        0 <= i < 36 ==> if i == 8 || i == 13 || i == 18 || i == 23 {
            #[trigger] s[i] == '-'
        } else {
            is_lower_hex(s[i])
        }
    &&& s[14] == '7'
}

/// The fields of a new document: none.
pub open spec fn no_fields() -> Map<Seq<char>, Field> {
    Map::empty()
}

/// The history of a new document: no change.
pub open spec fn no_changes() -> Set<Seq<u8>> {
    Set::empty()
}

/// The characters of the text object behind `handle`, if it is one that the
/// document shows at its root.
pub open spec fn text_behind(doc: automerge::AutoCommit, handle: automerge::ObjId) -> Option<
    Seq<char>,
> {
    if doc_handles(doc).contains_key(handle) && doc_fields(doc).contains_key(
        doc_handles(doc)[handle],
    ) {
        match doc_fields(doc)[doc_handles(doc)[handle]] {
            Field::Text(t) => Some(t),
            _ => None,
        }
    } else {
        None
    }
}

/// `AutoCommit::new`: a document with no fields and no history.
#[verifier::external_body]
pub(crate) fn new_doc() -> (doc: automerge::AutoCommit)
    ensures
        doc_fields(doc) == no_fields(),
        doc_changes(doc) == no_changes(),
        doc_settled(doc) == no_changes(),
{
    automerge::AutoCommit::new()
}

/// `Transactable::put` at the root with a string value: the call succeeds,
/// since the root is a map and the key a string; the key then shows that
/// string and every other key shows what it did. The operation stays
/// pending: what was committed is as it was.
#[verifier::external_body]
pub(crate) fn put_str(doc: &mut automerge::AutoCommit, key: &str, value: &str) -> (r: Result<
    (),
    automerge::AutomergeError,
>)
    ensures
        r is Ok,
        r is Ok ==> doc_fields(*final(doc)) == doc_fields(*old(doc)).insert(
            key@,
            Field::Str(value@),
        ),
        doc_settled(*final(doc)) == doc_settled(*old(doc)),
{
    doc.put(automerge::ROOT, key, value)
}

/// `Transactable::put_object` at the root with `ObjType::Text`: the call
/// succeeds, since the root is a map and the key a string; the key then shows
/// an empty text object, every other key shows what it did, and the handle
/// returned is that of the new object. The operation stays pending: what was
/// committed is as it was.
#[verifier::external_body]
pub(crate) fn put_text(doc: &mut automerge::AutoCommit, key: &str) -> (r: Result<
    automerge::ObjId,
    automerge::AutomergeError,
>)
    ensures
        r is Ok,
        r matches Ok(handle) ==> {
            &&& doc_fields(*final(doc)) == doc_fields(*old(doc)).insert(
                key@,
                Field::Text(Seq::<char>::empty()),
            )
            &&& doc_handles(*final(doc)).contains_key(handle)
            &&& doc_handles(*final(doc))[handle] == key@
        },
        doc_settled(*final(doc)) == doc_settled(*old(doc)),
{
    doc.put_object(automerge::ROOT, key, automerge::ObjType::Text)
}

/// `Transactable::update_text`: for the handle of a text object that the
/// document shows at its root the call succeeds; the text object then holds
/// exactly the new characters, and the key it sits under and every other key
/// show what they did. The patch stays pending: what was committed is as it
/// was.
#[verifier::external_body]
pub(crate) fn update_text(doc: &mut automerge::AutoCommit, handle: &automerge::ObjId, text: &str) -> (r:
    Result<(), automerge::AutomergeError>)
    ensures
        text_behind(*old(doc), *handle) is Some ==> r is Ok,
        r is Ok && text_behind(*old(doc), *handle) is Some ==> doc_fields(*final(doc))
            == doc_fields(*old(doc)).insert(doc_handles(*old(doc))[*handle], Field::Text(text@)),
        doc_settled(*final(doc)) == doc_settled(*old(doc)),
{
    doc.update_text(handle, text)
}

/// `ReadDoc::get` at the root: the read succeeds, and tells a string scalar,
/// a text object and anything else apart exactly as the document shows them.
#[verifier::external_body]
pub(crate) fn get_field(doc: &automerge::AutoCommit, key: &str) -> (r: Result<
    Option<FieldRead>,
    automerge::AutomergeError,
>)
    ensures
        r is Ok,
        r matches Ok(None) ==> !doc_fields(*doc).contains_key(key@),
        r matches Ok(Some(read)) ==> doc_fields(*doc).contains_key(key@),
        r matches Ok(Some(FieldRead::Str(s))) ==> doc_fields(*doc)[key@] == Field::Str(s@),
        r matches Ok(Some(FieldRead::Text(handle))) ==> {
            &&& doc_fields(*doc)[key@] is Text
            &&& doc_handles(*doc).contains_key(handle)
            &&& doc_handles(*doc)[handle] == key@
        },
        r matches Ok(Some(FieldRead::Other)) ==> doc_fields(*doc)[key@] is Other,
{
    match doc.get(automerge::ROOT, key) {
        Ok(Some((automerge::Value::Scalar(v), _))) => match v.as_ref() {
            automerge::ScalarValue::Str(s) => Ok(Some(FieldRead::Str(s.to_string()))),
            _ => Ok(Some(FieldRead::Other)),
        },
        Ok(Some((automerge::Value::Object(automerge::ObjType::Text), id))) => Ok(
            Some(FieldRead::Text(id)),
        ),
        Ok(Some(_)) => Ok(Some(FieldRead::Other)),
        Ok(None) => Ok(None),
        Err(e) => Err(e),
    }
}

/// `ReadDoc::text`: for the handle of a text object that the document shows
/// at its root the read succeeds and returns that object's characters.
#[verifier::external_body]
pub(crate) fn get_text(doc: &automerge::AutoCommit, handle: &automerge::ObjId) -> (r: Result<
    String,
    automerge::AutomergeError,
>)
    ensures
        text_behind(*doc, *handle) is Some ==> r is Ok,
        text_behind(*doc, *handle) is Some ==> r.unwrap()@ == text_behind(*doc, *handle).unwrap(),
{
    doc.text(handle)
}

/// `AutoCommit::save`: the bytes are a saved document, which is never empty,
/// from which `AutoCommit::load` reads the same fields and history; saving
/// leaves both as they were. Saving commits what was pending: afterwards the
/// whole history is committed, and what was committed before still is.
#[verifier::external_body]
pub(crate) fn save(doc: &mut automerge::AutoCommit) -> (bytes: Vec<u8>)
    ensures
        doc_fields(*final(doc)) == doc_fields(*old(doc)),
        doc_changes(*final(doc)) == doc_changes(*old(doc)),
        decoded(bytes@) == Some((doc_fields(*old(doc)), doc_changes(*old(doc)))),
        bytes@.len() > 0,
        doc_settled(*final(doc)) == doc_changes(*final(doc)),
        doc_settled(*old(doc)).subset_of(doc_settled(*final(doc))),
{
    doc.save()
}

/// `AutoCommit::load`: a document with the fields and history that the bytes
/// decode to, all of it committed, or an error where they decode to nothing.
#[verifier::external_body]
pub(crate) fn load(bytes: &[u8]) -> (r: Result<automerge::AutoCommit, automerge::AutomergeError>)
    ensures
        match r {
            Ok(doc) => decoded(bytes@) == Some((doc_fields(doc), doc_changes(doc))),
            Err(_) => decoded(bytes@) is None,
        },
        r matches Ok(doc) ==> doc_settled(doc) == doc_changes(doc),
{
    automerge::AutoCommit::load(bytes)
}

/// `AutoCommit::merge`: applies the changes of `other` that `doc` lacks.
/// `other` shows what it did. On success the history of `doc` holds what both
/// histories held; it may hold more, since a change that `doc` had set aside
/// for want of one it depends on is applied once that one arrives. Where
/// `other` has no change that `doc` lacks, the merge succeeds and `doc` shows
/// what it did. Whether the merge succeeds, and what `doc` shows and holds
/// after it, is what `joined` names. Merging commits what was pending in
/// either document; after a merge that succeeds the whole history of `doc` is
/// committed, and what was committed before still is.
#[verifier::external_body]
pub(crate) fn merge(doc: &mut automerge::AutoCommit, other: &mut automerge::AutoCommit) -> (r:
    Result<(), automerge::AutomergeError>)
    ensures
        doc_fields(*final(other)) == doc_fields(*old(other)),
        doc_changes(*final(other)) == doc_changes(*old(other)),
        r is Ok ==> doc_changes(*old(doc)).union(doc_changes(*old(other))).subset_of(
            doc_changes(*final(doc)),
        ),
        doc_changes(*old(other)).subset_of(doc_changes(*old(doc))) ==> {
            &&& r is Ok
            &&& doc_fields(*final(doc)) == doc_fields(*old(doc))
        },
        match joined(*old(doc), *old(other)) {
            Some((fields, changes)) => r is Ok && doc_fields(*final(doc)) == fields
                && doc_changes(*final(doc)) == changes,
            None => r is Err,
        },
        r is Ok ==> doc_settled(*final(doc)) == doc_changes(*final(doc)),
        r is Ok ==> doc_settled(*old(doc)).subset_of(doc_settled(*final(doc))),
        doc_settled(*old(other)).subset_of(doc_settled(*final(other))),
{
    doc.merge(other).map(|_| ())
}

/// `Uuid::now_v7` in its `Display` form: 36 characters, hyphens after the
/// eighth, twelfth, sixteenth and twentieth digit, lower-case hexadecimal
/// digits elsewhere, and the version digit 7. Which identifier comes back
/// depends on the clock and on chance.
#[verifier::external_body]
pub(crate) fn fresh_id() -> (id: String)
    ensures
        is_note_id(id@),
{
    uuid::Uuid::now_v7().to_string()
}

/// `AutomergeError`'s `Display` text.
#[verifier::external_body]
pub(crate) fn error_text(e: &automerge::AutomergeError) -> (text: String) {
    e.to_string()
}

} // verus!

//! Reading the dependency tables of a `package.json` manifest.
use crate::framework::PackageManifest;
use crate::text::concat;
use crate::text_set::{copy_texts, texts_of};
use vstd::prelude::*;

verus! {

/// What `serde_json` makes of `source`: the top-level fields of a JSON object, each with the
/// keys of its value when that value is an object (`Ok(Some(..))`); `Ok(None)` for another JSON
/// value; or the message of the parse error.
pub uninterp spec fn json_fields(source: Seq<char>) -> Result<Option<Seq<(Seq<char>, Option<Seq<Seq<char>>>)>>, Seq<char>>;

/// The fields as plain values.
pub open spec fn field_views(v: Seq<(String, Option<Vec<String>>)>) -> Seq<(Seq<char>, Option<Seq<Seq<char>>>)> {
    v.map_values(
        |f: (String, Option<Vec<String>>)|
            (
                f.0@,
                match f.1 {
                    Some(keys) => Some(texts_of(keys@)),
                    None => None,
                },
            ),
    )
}

/// Parses `source` with `serde_json::from_str` into a `serde_json::Value`; of an object it
/// returns each top-level field with the keys of its value when that value is an object, in
/// the map's order. The contract claims only that the result is `json_fields` of the source.
#[verifier::external_body]
fn top_level_fields(source: &str) -> (r: Result<Option<Vec<(String, Option<Vec<String>>)>>, String>)
    ensures
        json_fields(source@) == match r {
            Ok(Some(v)) => Ok(Some(field_views(v@))),
            Ok(None) => Ok(None),
            Err(e) => Err(e@),
        },
{
    match serde_json::from_str::<serde_json::Value>(source) {
        Ok(serde_json::Value::Object(map)) => Ok(Some(
            map.iter().map(|(k, v)| (k.clone(), v.as_object().map(|o| o.keys().cloned().collect()))).collect(),
        )),
        Ok(_) => Ok(None),
        Err(error) => Err(error.to_string()),
    }
}

/// The keys of the object under the first field named `name`; `None` when there is no such
/// field or its value is not an object.
pub open spec fn table_of(fields: Seq<(Seq<char>, Option<Seq<Seq<char>>>)>, name: Seq<char>) -> Option<Seq<Seq<char>>>
    decreases fields.len(),
{
    if fields.len() == 0 {
        None
    } else if fields[0].0 == name {
        fields[0].1
    } else {
        table_of(fields.drop_first(), name)
    }
}

/// The keys of a manifest table, as plain values.
pub open spec fn table_view(t: Option<Vec<String>>) -> Option<Seq<Seq<char>>> {
    match t {
        Some(v) => Some(texts_of(v@)),
        None => None,
    }
}

/// The manifest that a parsed `package.json` gives: its dependency tables, each missing when
/// the document is not an object or lacks it as an object.
pub open spec fn manifest_tables(
    fields: Option<Seq<(Seq<char>, Option<Seq<Seq<char>>>)>>,
    name: Seq<char>,
) -> Option<Seq<Seq<char>>> {
    match fields {
        Some(f) => table_of(f, name),
        None => None,
    }
}

fn find_table(fields: &Vec<(String, Option<Vec<String>>)>, name: &str) -> (r: Option<Vec<String>>)
    ensures
        table_view(r) == table_of(field_views(fields@), name@),
{
    let mut i: usize = 0;
    proof {
        assert(field_views(fields@).skip(0) =~= field_views(fields@));
    }
    while i < fields.len()
        invariant
            i <= fields@.len(),
            table_of(field_views(fields@), name@) == table_of(field_views(fields@).skip(i as int), name@),
        decreases fields@.len() - i,
    {
        let ghost rest = field_views(fields@).skip(i as int);
        proof {
            assert(rest[0] == field_views(fields@)[i as int]);
            assert(rest.drop_first() =~= field_views(fields@).skip(i + 1));
        }
        if crate::text::text_equal(fields[i].0.as_str(), name) {
            return match &fields[i].1 {
                Some(keys) => Some(copy_texts(keys)),
                None => None,
            };
        }
        i = i + 1;
    }
    None
}

/// The dependency tables of the `package.json` at `path` whose text is `source`, or the message
/// for text that is not JSON.
pub fn manifest_from_json(path: &str, source: &str) -> (r: Result<PackageManifest, String>)
    ensures
        match json_fields(source@) {
            Err(e) => r matches Err(m) && m@ == "invalid JSON in `"@ + path@ + "`: "@ + e,
            Ok(f) => r matches Ok(m) && table_view(m.dependencies) == manifest_tables(f, "dependencies"@)
                && table_view(m.dev_dependencies) == manifest_tables(f, "devDependencies"@)
                && table_view(m.peer_dependencies) == manifest_tables(f, "peerDependencies"@),
        },
{
    match top_level_fields(source) {
        Err(error) => {
            let head = concat("invalid JSON in `", path);
            let head = concat(head.as_str(), "`: ");
            Err(concat(head.as_str(), error.as_str()))
        },
        Ok(None) => Ok(PackageManifest { dependencies: None, dev_dependencies: None, peer_dependencies: None }),
        Ok(Some(fields)) => Ok(
            PackageManifest {
                dependencies: find_table(&fields, "dependencies"),
                dev_dependencies: find_table(&fields, "devDependencies"),
                peer_dependencies: find_table(&fields, "peerDependencies"),
            },
        ),
    }
}

} // verus!

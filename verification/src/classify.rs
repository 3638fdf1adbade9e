use vstd::prelude::*;

use crate::json::{entries_view, EntryModel, FlatEntry, JsonValue};
use crate::paths::{
    array_child_key, has_cs_prefix, join_array_index, join_object_key, object_child_key,
    path_has_cs_prefix, strip_cs_marker, strip_cs_marker_spec,
};

verus! {

/// The text a boolean leaf is rendered as.
pub open spec fn bool_text(b: bool) -> Seq<char> {
    if b {
        "true"@
    } else {
        "false"@
    }
}

/// The two lists of entries that flattening `v` under the path `path`
/// appends: first the connection-strings list, then the general list.
///
/// A string leaf whose path begins with the connection-strings namespace is
/// routed into the first list with the marker stripped from its path; every
/// other leaf goes into the second list under its full path. Containers emit
/// nothing of their own.
pub open spec fn classify(v: JsonValue, path: Seq<char>) -> (Seq<EntryModel>, Seq<EntryModel>)
    decreases v,
{
    match v {
        JsonValue::Obj(fields) => classify_fields(fields@, path),
        JsonValue::Arr(elems) => classify_elems(elems@, path, 0),
        JsonValue::Str(s) => {
            if has_cs_prefix(path) {
                (
                    seq![
                        EntryModel {
                            name: strip_cs_marker_spec(path),
                            value: s@,
                            slot_setting: true,
                        },
                    ],
                    Seq::<EntryModel>::empty(),
                )
            } else {
                (
                    Seq::<EntryModel>::empty(),
                    seq![EntryModel { name: path, value: s@, slot_setting: true }],
                )
            }
        },
        JsonValue::Num(t) => (
            Seq::<EntryModel>::empty(),
            seq![EntryModel { name: path, value: t@, slot_setting: true }],
        ),
        JsonValue::Bool(b) => (
            Seq::<EntryModel>::empty(),
            seq![EntryModel { name: path, value: bool_text(b), slot_setting: true }],
        ),
        JsonValue::Null => (
            Seq::<EntryModel>::empty(),
            seq![EntryModel { name: path, value: "null"@, slot_setting: true }],
        ),
    }
}

/// Flattening of an object's members, in order.
pub open spec fn classify_fields(fs: Seq<(String, JsonValue)>, path: Seq<char>) -> (
    Seq<EntryModel>,
    Seq<EntryModel>,
)
    decreases fs,
{
    if fs.len() == 0 {
        (Seq::<EntryModel>::empty(), Seq::<EntryModel>::empty())
    } else {
        let head = classify(fs[0].1, join_object_key(path, fs[0].0@));
        let rest = classify_fields(fs.subrange(1, fs.len() as int), path);
        (head.0 + rest.0, head.1 + rest.1)
    }
}

/// Flattening of an array's elements, the first one carrying index `idx`.
pub open spec fn classify_elems(es: Seq<JsonValue>, path: Seq<char>, idx: nat) -> (
    Seq<EntryModel>,
    Seq<EntryModel>,
)
    decreases es,
{
    if es.len() == 0 {
        (Seq::<EntryModel>::empty(), Seq::<EntryModel>::empty())
    } else {
        let head = classify(es[0], join_array_index(path, idx));
        let rest = classify_elems(es.subrange(1, es.len() as int), path, idx + 1);
        (head.0 + rest.0, head.1 + rest.1)
    }
}

/// Walks `json_value` depth first and appends one entry for every scalar
/// leaf: connection-string entries to `connection_strings`, all others to
/// `env_vars`, exactly as `classify` lays them out.
pub fn traverse_json(
    json_value: &JsonValue,
    parent_key: &str,
    connection_strings: &mut Vec<FlatEntry>,
    env_vars: &mut Vec<FlatEntry>,
)
    ensures
        entries_view(final(connection_strings)@) == entries_view(old(connection_strings)@)
            + classify(*json_value, parent_key@).0,
        entries_view(final(env_vars)@) == entries_view(old(env_vars)@) + classify(
            *json_value,
            parent_key@,
        ).1,
    decreases *json_value,
{
    match json_value {
        JsonValue::Obj(fields) => {
            let ghost fs = fields@;
            let ghost p = parent_key@;
            let ghost cs0 = connection_strings@;
            let ghost env0 = env_vars@;
            let n = fields.len();
            let mut idx: usize = 0;
            proof {
                assert(fs.subrange(0, fs.len() as int) =~= fs);
            }
            while idx < n
                invariant
                    n == fs.len(),
                    fields@ == fs,
                    idx <= n,
                    p == parent_key@,
                    *json_value == JsonValue::Obj(*fields),
                    entries_view(connection_strings@) + classify_fields(
                        fs.subrange(idx as int, fs.len() as int),
                        p,
                    ).0 == entries_view(cs0) + classify_fields(fs, p).0,
                    entries_view(env_vars@) + classify_fields(
                        fs.subrange(idx as int, fs.len() as int),
                        p,
                    ).1 == entries_view(env0) + classify_fields(fs, p).1,
                decreases n - idx,
            {
                let ghost i = idx as int;
                let ghost cs_pre = connection_strings@;
                let ghost env_pre = env_vars@;
                let field = &fields[idx];
                let child_key = object_child_key(parent_key, field.0.as_str());
                proof {
                    assert(decreases_to!(*json_value => json_value->Obj_0));
                    assert(json_value->Obj_0 == *fields);
                    assert(decreases_to!(*fields => fields@));
                    assert(decreases_to!(fields@ => fields@[i]));
                    assert(decreases_to!(fields@[i] => fields@[i].1));
                }
                traverse_json(&field.1, child_key.as_str(), connection_strings, env_vars);
                proof {
                    let s = fs.subrange(i, fs.len() as int);
                    assert(s[0] == fs[i]);
                    assert(s.subrange(1, s.len() as int) =~= fs.subrange(i + 1, fs.len() as int));
                    let head = classify(fs[i].1, join_object_key(p, fs[i].0@));
                    let rest = classify_fields(fs.subrange(i + 1, fs.len() as int), p);
                    assert(classify_fields(s, p).0 == head.0 + rest.0);
                    assert(entries_view(connection_strings@) + rest.0 =~= (entries_view(cs_pre)
                        + head.0) + rest.0);
                    assert((entries_view(cs_pre) + head.0) + rest.0 =~= entries_view(cs_pre)
                        + classify_fields(s, p).0);
                    assert(entries_view(env_vars@) + rest.1 =~= (entries_view(env_pre) + head.1)
                        + rest.1);
                    assert((entries_view(env_pre) + head.1) + rest.1 =~= entries_view(env_pre)
                        + classify_fields(s, p).1);
                }
                idx = idx + 1;
            }
            proof {
                assert(fs.subrange(idx as int, fs.len() as int) =~= Seq::<(
                    String,
                    JsonValue,
                )>::empty());
                assert(entries_view(connection_strings@) =~= entries_view(connection_strings@)
                    + classify_fields(fs.subrange(idx as int, fs.len() as int), p).0);
                assert(entries_view(env_vars@) =~= entries_view(env_vars@) + classify_fields(
                    fs.subrange(idx as int, fs.len() as int),
                    p,
                ).1);
            }
        },
        JsonValue::Arr(elems) => {
            let ghost es = elems@;
            let ghost p = parent_key@;
            let ghost cs0 = connection_strings@;
            let ghost env0 = env_vars@;
            let n = elems.len();
            let mut idx: usize = 0;
            proof {
                assert(es.subrange(0, es.len() as int) =~= es);
            }
            while idx < n
                invariant
                    n == es.len(),
                    elems@ == es,
                    idx <= n,
                    p == parent_key@,
                    *json_value == JsonValue::Arr(*elems),
                    entries_view(connection_strings@) + classify_elems(
                        es.subrange(idx as int, es.len() as int),
                        p,
                        idx as nat,
                    ).0 == entries_view(cs0) + classify_elems(es, p, 0).0,
                    entries_view(env_vars@) + classify_elems(
                        es.subrange(idx as int, es.len() as int),
                        p,
                        idx as nat,
                    ).1 == entries_view(env0) + classify_elems(es, p, 0).1,
                decreases n - idx,
            {
                let ghost i = idx as int;
                let ghost cs_pre = connection_strings@;
                let ghost env_pre = env_vars@;
                let child_key = array_child_key(parent_key, idx);
                proof {
                    assert(decreases_to!(*json_value => json_value->Arr_0));
                    assert(json_value->Arr_0 == *elems);
                    assert(decreases_to!(*elems => elems@));
                    assert(decreases_to!(elems@ => elems@[i]));
                }
                traverse_json(&elems[idx], child_key.as_str(), connection_strings, env_vars);
                proof {
                    let s = es.subrange(i, es.len() as int);
                    assert(s[0] == es[i]);
                    assert(s.subrange(1, s.len() as int) =~= es.subrange(i + 1, es.len() as int));
                    let head = classify(es[i], join_array_index(p, i as nat));
                    let rest = classify_elems(es.subrange(i + 1, es.len() as int), p, (i + 1) as nat);
                    assert(classify_elems(s, p, i as nat).0 == head.0 + rest.0);
                    assert(entries_view(connection_strings@) + rest.0 =~= (entries_view(cs_pre)
                        + head.0) + rest.0);
                    assert((entries_view(cs_pre) + head.0) + rest.0 =~= entries_view(cs_pre)
                        + classify_elems(s, p, i as nat).0);
                    assert(entries_view(env_vars@) + rest.1 =~= (entries_view(env_pre) + head.1)
                        + rest.1);
                    assert((entries_view(env_pre) + head.1) + rest.1 =~= entries_view(env_pre)
                        + classify_elems(s, p, i as nat).1);
                }
                idx = idx + 1;
            }
            proof {
                assert(es.subrange(idx as int, es.len() as int) =~= Seq::<JsonValue>::empty());
                assert(entries_view(connection_strings@) =~= entries_view(connection_strings@)
                    + classify_elems(es.subrange(idx as int, es.len() as int), p, idx as nat).0);
                assert(entries_view(env_vars@) =~= entries_view(env_vars@) + classify_elems(
                    es.subrange(idx as int, es.len() as int),
                    p,
                    idx as nat,
                ).1);
            }
        },
        JsonValue::Str(s) => {
            let ghost cs0 = connection_strings@;
            let ghost env0 = env_vars@;
            if path_has_cs_prefix(parent_key) {
                let name = strip_cs_marker(parent_key);
                let entry = FlatEntry { name, value: s.clone(), slot_setting: true };
                connection_strings.push(entry);
                proof {
                    assert(entries_view(connection_strings@) =~= entries_view(cs0) + classify(
                        *json_value,
                        parent_key@,
                    ).0);
                    assert(entries_view(env_vars@) =~= entries_view(env0) + classify(
                        *json_value,
                        parent_key@,
                    ).1);
                }
            } else {
                let entry = FlatEntry {
                    name: String::from_str(parent_key),
                    value: s.clone(),
                    slot_setting: true,
                };
                env_vars.push(entry);
                proof {
                    assert(entries_view(connection_strings@) =~= entries_view(cs0) + classify(
                        *json_value,
                        parent_key@,
                    ).0);
                    assert(entries_view(env_vars@) =~= entries_view(env0) + classify(
                        *json_value,
                        parent_key@,
                    ).1);
                }
            }
        },
        JsonValue::Num(t) => {
            let ghost cs0 = connection_strings@;
            let ghost env0 = env_vars@;
            let entry = FlatEntry {
                name: String::from_str(parent_key),
                value: t.clone(),
                slot_setting: true,
            };
            env_vars.push(entry);
            proof {
                assert(entries_view(connection_strings@) =~= entries_view(cs0) + classify(
                    *json_value,
                    parent_key@,
                ).0);
                assert(entries_view(env_vars@) =~= entries_view(env0) + classify(
                    *json_value,
                    parent_key@,
                ).1);
            }
        },
        JsonValue::Bool(b) => {
            let ghost cs0 = connection_strings@;
            let ghost env0 = env_vars@;
            let text = if *b {
                "true"
            } else {
                "false"
            };
            let entry = FlatEntry {
                name: String::from_str(parent_key),
                value: String::from_str(text),
                slot_setting: true,
            };
            env_vars.push(entry);
            proof {
                assert(entries_view(connection_strings@) =~= entries_view(cs0) + classify(
                    *json_value,
                    parent_key@,
                ).0);
                assert(entries_view(env_vars@) =~= entries_view(env0) + classify(
                    *json_value,
                    parent_key@,
                ).1);
            }
        },
        JsonValue::Null => {
            let ghost cs0 = connection_strings@;
            let ghost env0 = env_vars@;
            let entry = FlatEntry {
                name: String::from_str(parent_key),
                value: String::from_str("null"),
                slot_setting: true,
            };
            env_vars.push(entry);
            proof {
                assert(entries_view(connection_strings@) =~= entries_view(cs0) + classify(
                    *json_value,
                    parent_key@,
                ).0);
                assert(entries_view(env_vars@) =~= entries_view(env0) + classify(
                    *json_value,
                    parent_key@,
                ).1);
            }
        },
    }
}

/// The number of scalar leaves (strings, numbers, booleans, nulls) in a
/// document.
pub open spec fn leaf_count(v: JsonValue) -> nat
    decreases v,
{
    match v {
        JsonValue::Obj(fields) => leaf_count_fields(fields@),
        JsonValue::Arr(elems) => leaf_count_elems(elems@),
        _ => 1,
    }
}

/// The number of scalar leaves under an object's members.
pub open spec fn leaf_count_fields(fs: Seq<(String, JsonValue)>) -> nat
    decreases fs,
{
    if fs.len() == 0 {
        0
    } else {
        leaf_count(fs[0].1) + leaf_count_fields(fs.subrange(1, fs.len() as int))
    }
}

/// The number of scalar leaves under an array's elements.
pub open spec fn leaf_count_elems(es: Seq<JsonValue>) -> nat
    decreases es,
{
    if es.len() == 0 {
        0
    } else {
        leaf_count(es[0]) + leaf_count_elems(es.subrange(1, es.len() as int))
    }
}

/// Flattening emits exactly one entry per scalar leaf: across both output
/// lists, the number of entries equals the number of leaves, under any path.
pub proof fn lemma_entry_count(v: JsonValue, path: Seq<char>)
    ensures
        classify(v, path).0.len() + classify(v, path).1.len() == leaf_count(v),
    decreases v,
{
    match v {
        JsonValue::Obj(fields) => lemma_entry_count_fields(fields@, path),
        JsonValue::Arr(elems) => lemma_entry_count_elems(elems@, path, 0),
        _ => {},
    }
}

proof fn lemma_entry_count_fields(fs: Seq<(String, JsonValue)>, path: Seq<char>)
    ensures
        classify_fields(fs, path).0.len() + classify_fields(fs, path).1.len()
            == leaf_count_fields(fs),
    decreases fs,
{
    if fs.len() > 0 {
        lemma_entry_count(fs[0].1, join_object_key(path, fs[0].0@));
        lemma_entry_count_fields(fs.subrange(1, fs.len() as int), path);
    }
}

proof fn lemma_entry_count_elems(es: Seq<JsonValue>, path: Seq<char>, idx: nat)
    ensures
        classify_elems(es, path, idx).0.len() + classify_elems(es, path, idx).1.len()
            == leaf_count_elems(es),
    decreases es,
{
    if es.len() > 0 {
        lemma_entry_count(es[0], join_array_index(path, idx));
        lemma_entry_count_elems(es.subrange(1, es.len() as int), path, idx + 1);
    }
}

/// Flattens a whole document: the two output lists, built from an empty
/// path, connection strings first.
pub fn convert(json_value: &JsonValue) -> (r: (Vec<FlatEntry>, Vec<FlatEntry>))
    ensures
        entries_view(r.0@) == classify(*json_value, Seq::<char>::empty()).0,
        entries_view(r.1@) == classify(*json_value, Seq::<char>::empty()).1,
{
    let mut connection_strings: Vec<FlatEntry> = Vec::new();
    let mut env_vars: Vec<FlatEntry> = Vec::new();
    let root = String::new();
    traverse_json(json_value, root.as_str(), &mut connection_strings, &mut env_vars);
    proof {
        assert(entries_view(Seq::<FlatEntry>::empty()) =~= Seq::<EntryModel>::empty());
        assert(entries_view(connection_strings@) =~= classify(*json_value, Seq::<char>::empty()).0);
        assert(entries_view(env_vars@) =~= classify(*json_value, Seq::<char>::empty()).1);
    }
    (connection_strings, env_vars)
}

} // verus!

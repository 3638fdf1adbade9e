use vstd::prelude::*;

use crate::classify::{bool_text, classify, classify_elems, classify_fields};
use crate::json::{EntryModel, JsonValue};
use crate::paths::{dec_digits, digit_char, has_cs_prefix, join_array_index, join_object_key};

verus! {

/// The text a scalar leaf is rendered as; nothing for a container.
pub open spec fn leaf_text(v: JsonValue) -> Option<Seq<char>> {
    match v {
        JsonValue::Str(s) => Some(s@),
        JsonValue::Num(t) => Some(t@),
        JsonValue::Bool(b) => Some(bool_text(b)),
        JsonValue::Null => Some("null"@),
        _ => None,
    }
}

/// A path segment that survives the joining: non-empty and free of the
/// separator.
pub open spec fn good_seg(s: Seq<char>) -> bool {
    s.len() > 0 && forall|i: int| 0 <= i < s.len() ==> s[i] != ':'
}

pub open spec fn good_segs(segs: Seq<Seq<char>>) -> bool {
    forall|i: int| 0 <= i < segs.len() ==> good_seg(#[trigger] segs[i])
}

/// No two members of one object share a key.
pub open spec fn keys_distinct(fs: Seq<(String, JsonValue)>) -> bool {
    forall|i: int, j: int| 0 <= i < j < fs.len() ==> fs[i].0@ != fs[j].0@
}

/// Every object key in the tree is non-empty, free of the separator, and
/// unique within its object: the keys on which a flattened name can be read
/// back unambiguously.
pub open spec fn good_keys(v: JsonValue) -> bool
    decreases v, 0nat,
{
    match v {
        JsonValue::Obj(fields) => good_fields(fields@),
        JsonValue::Arr(elems) => good_elems(elems@),
        _ => true,
    }
}

pub open spec fn good_fields(fs: Seq<(String, JsonValue)>) -> bool
    decreases fs, 1nat,
{
    keys_distinct(fs) && good_fields_each(fs)
}

pub open spec fn good_fields_each(fs: Seq<(String, JsonValue)>) -> bool
    decreases fs, 0nat,
{
    if fs.len() == 0 {
        true
    } else {
        good_seg(fs[0].0@) && good_keys(fs[0].1) && good_fields_each(
            fs.subrange(1, fs.len() as int),
        )
    }
}

pub open spec fn good_elems(es: Seq<JsonValue>) -> bool
    decreases es, 0nat,
{
    if es.len() == 0 {
        true
    } else {
        good_keys(es[0]) && good_elems(es.subrange(1, es.len() as int))
    }
}

/// The rendered text of the scalar that the segments lead to: object
/// members are entered by key (the first member that carries it), array
/// elements by decimal index.
pub open spec fn lookup(v: JsonValue, segs: Seq<Seq<char>>) -> Option<Seq<char>>
    decreases v,
{
    if segs.len() == 0 {
        leaf_text(v)
    } else {
        match v {
            JsonValue::Obj(fields) => lookup_fields(fields@, segs),
            JsonValue::Arr(elems) => lookup_elems(elems@, segs, 0),
            _ => None,
        }
    }
}

pub open spec fn lookup_elems(es: Seq<JsonValue>, segs: Seq<Seq<char>>, idx: nat) -> Option<
    Seq<char>,
>
    decreases es,
{
    if es.len() == 0 {
        None
    } else if segs[0] == dec_digits(idx) {
        lookup(es[0], segs.subrange(1, segs.len() as int))
    } else {
        lookup_elems(es.subrange(1, es.len() as int), segs, idx + 1)
    }
}

pub open spec fn lookup_fields(fs: Seq<(String, JsonValue)>, segs: Seq<Seq<char>>) -> Option<
    Seq<char>,
>
    decreases fs,
{
    if fs.len() == 0 {
        None
    } else if fs[0].0@ == segs[0] {
        lookup(fs[0].1, segs.subrange(1, segs.len() as int))
    } else {
        lookup_fields(fs.subrange(1, fs.len() as int), segs)
    }
}

/// The flattened name that the segments spell under a parent path: each one
/// joined with the object rule.
pub open spec fn append_path(p: Seq<char>, segs: Seq<Seq<char>>) -> Seq<char>
    decreases segs.len(),
{
    if segs.len() == 0 {
        p
    } else {
        append_path(join_object_key(p, segs[0]), segs.subrange(1, segs.len() as int))
    }
}

/// The position of the first separator at or after `i`, or -1 when there is
/// none.
pub open spec fn find_colon_from(s: Seq<char>, i: int) -> int
    decreases s.len() + 1 - i,
{
    if i >= s.len() {
        -1
    } else if s[i] == ':' {
        i
    } else {
        find_colon_from(s, i + 1)
    }
}

/// The name cut at every separator, the way a flattened name is read back
/// into its segments.
pub open spec fn split_colon(s: Seq<char>) -> Seq<Seq<char>>
    decreases s.len(),
    via split_colon_decreases
{
    let i = find_colon_from(s, 0);
    if i < 0 {
        seq![s]
    } else {
        seq![s.subrange(0, i)] + split_colon(s.subrange(i + 1, s.len() as int))
    }
}

proof fn lemma_find_colon_range(s: Seq<char>, i: int)
    requires
        0 <= i,
    ensures
        find_colon_from(s, i) == -1 || (i <= find_colon_from(s, i) < s.len() && s[find_colon_from(
            s,
            i,
        )] == ':'),
    decreases s.len() + 1 - i,
{
    if i < s.len() && s[i] != ':' {
        lemma_find_colon_range(s, i + 1);
    }
}

#[via_fn]
proof fn split_colon_decreases(s: Seq<char>) {
    lemma_find_colon_range(s, 0);
}

/// The segments written out with a separator between each two.
pub open spec fn joined(w: Seq<Seq<char>>) -> Seq<char>
    decreases w.len(),
{
    if w.len() <= 1 {
        w[0]
    } else {
        w[0] + seq![':'] + joined(w.subrange(1, w.len() as int))
    }
}

/// An entry can be read back from the tree: some well-formed segment list
/// spells the entry's name under `path` and leads to a scalar rendered as
/// the entry's value.
pub open spec fn recoverable(v: JsonValue, path: Seq<char>, e: EntryModel) -> bool {
    exists|segs: Seq<Seq<char>>|
        good_segs(segs) && e.name == append_path(path, segs) && lookup(v, segs) == Some(e.value)
}

// ---------------------------------------------------------------------------
// Small facts about decimal digits
// ---------------------------------------------------------------------------

proof fn lemma_dec_digits_len(n: nat)
    ensures
        dec_digits(n).len() >= 1,
    decreases n,
{
    if n >= 10 {
        lemma_dec_digits_len(n / 10);
    }
}

proof fn lemma_dec_digits_good(n: nat)
    ensures
        good_seg(dec_digits(n)),
    decreases n,
{
    if n < 10 {
        assert(digit_char(n) != ':');
    } else {
        lemma_dec_digits_good(n / 10);
        assert(digit_char(n % 10) != ':');
        assert forall|i: int| 0 <= i < dec_digits(n).len() implies dec_digits(n)[i] != ':' by {
            if i < dec_digits(n).len() - 1 {
                assert(dec_digits(n)[i] == dec_digits(n / 10)[i]);
            }
        }
        lemma_dec_digits_len(n / 10);
    }
}

proof fn lemma_dec_digits_injective(a: nat, b: nat)
    requires
        dec_digits(a) == dec_digits(b),
    ensures
        a == b,
    decreases a,
{
    lemma_dec_digits_len(a);
    lemma_dec_digits_len(b);
    if a < 10 && b < 10 {
        assert(dec_digits(a)[0] == digit_char(a));
        assert(dec_digits(b)[0] == digit_char(b));
    } else if a < 10 {
        lemma_dec_digits_len(b / 10);
        assert(dec_digits(b).len() >= 2);
        assert(dec_digits(a).len() == 1);
    } else if b < 10 {
        lemma_dec_digits_len(a / 10);
        assert(dec_digits(a).len() >= 2);
        assert(dec_digits(b).len() == 1);
    } else {
        let la = dec_digits(a).len() - 1;
        assert(dec_digits(a)[la] == digit_char(a % 10));
        assert(dec_digits(b)[la] == digit_char(b % 10));
        assert(a % 10 == b % 10);
        assert(dec_digits(a / 10) =~= dec_digits(a).subrange(0, la));
        assert(dec_digits(b / 10) =~= dec_digits(b).subrange(0, la));
        lemma_dec_digits_injective(a / 10, b / 10);
    }
}

// ---------------------------------------------------------------------------
// Extraction of the well-formedness facts
// ---------------------------------------------------------------------------

proof fn lemma_good_fields_each_at(fs: Seq<(String, JsonValue)>, m: int)
    requires
        good_fields_each(fs),
        0 <= m < fs.len(),
    ensures
        good_seg(fs[m].0@),
        good_keys(fs[m].1),
    decreases fs.len(),
{
    if m > 0 {
        assert(fs.subrange(1, fs.len() as int)[m - 1] == fs[m]);
        lemma_good_fields_each_at(fs.subrange(1, fs.len() as int), m - 1);
    }
}

proof fn lemma_good_elems_at(es: Seq<JsonValue>, m: int)
    requires
        good_elems(es),
        0 <= m < es.len(),
    ensures
        good_keys(es[m]),
    decreases es.len(),
{
    if m > 0 {
        assert(es.subrange(1, es.len() as int)[m - 1] == es[m]);
        lemma_good_elems_at(es.subrange(1, es.len() as int), m - 1);
    }
}

// ---------------------------------------------------------------------------
// Lookup reaches the member that carries the key
// ---------------------------------------------------------------------------

proof fn lemma_lookup_fields_skip(fs: Seq<(String, JsonValue)>, segs: Seq<Seq<char>>, m: int)
    requires
        0 <= m < fs.len(),
        segs.len() > 0,
        segs[0] == fs[m].0@,
        forall|i: int| 0 <= i < m ==> fs[i].0@ != segs[0],
    ensures
        lookup_fields(fs, segs) == lookup(fs[m].1, segs.subrange(1, segs.len() as int)),
    decreases m,
{
    if m > 0 {
        assert(fs[0].0@ != segs[0]);
        let tail = fs.subrange(1, fs.len() as int);
        assert(tail[m - 1] == fs[m]);
        assert forall|i: int| 0 <= i < m - 1 implies tail[i].0@ != segs[0] by {
            assert(tail[i] == fs[i + 1]);
        }
        lemma_lookup_fields_skip(tail, segs, m - 1);
    }
}

proof fn lemma_lookup_elems_skip(es: Seq<JsonValue>, segs: Seq<Seq<char>>, idx: nat, m: int)
    requires
        0 <= m < es.len(),
        segs.len() > 0,
        segs[0] == dec_digits((idx + m) as nat),
    ensures
        lookup_elems(es, segs, idx) == lookup(es[m], segs.subrange(1, segs.len() as int)),
    decreases m,
{
    if m > 0 {
        if segs[0] == dec_digits(idx) {
            lemma_dec_digits_injective(idx, (idx + m) as nat);
        }
        let tail = es.subrange(1, es.len() as int);
        assert(tail[m - 1] == es[m]);
        lemma_lookup_elems_skip(tail, segs, idx + 1, m - 1);
    }
}

// ---------------------------------------------------------------------------
// The round trip
// ---------------------------------------------------------------------------

/// Every entry of the general list emitted under `path` can be read back
/// from the tree: its name decodes to a segment list that leads to a scalar
/// rendered as the entry's value.
pub proof fn lemma_env_recoverable(v: JsonValue, path: Seq<char>)
    requires
        good_keys(v),
        path.len() > 0 || v is Obj,
    ensures
        forall|idx: int|
            0 <= idx < classify(v, path).1.len() ==> recoverable(
                v,
                path,
                #[trigger] classify(v, path).1[idx],
            ),
    decreases v, 0nat,
{
    match v {
        JsonValue::Obj(fields) => {
            assert(decreases_to!(v => v->Obj_0));
            assert(decreases_to!(v->Obj_0 => fields@));
            assert(fields@.subrange(0, fields@.len() as int) =~= fields@);
            lemma_env_recoverable_fields(v, fields@, 0, path);
            assert forall|idx: int| 0 <= idx < classify(v, path).1.len() implies recoverable(
                v,
                path,
                #[trigger] classify(v, path).1[idx],
            ) by {
                assert(classify(v, path).1[idx] == classify_fields(
                    fields@.subrange(0, fields@.len() as int),
                    path,
                ).1[idx]);
            }
        },
        JsonValue::Arr(elems) => {
            assert(decreases_to!(v => v->Arr_0));
            assert(decreases_to!(v->Arr_0 => elems@));
            assert(elems@.subrange(0, elems@.len() as int) =~= elems@);
            let m0: int = 0;
            lemma_env_recoverable_elems(v, elems@, m0, path);
            assert forall|idx: int| 0 <= idx < classify(v, path).1.len() implies recoverable(
                v,
                path,
                #[trigger] classify(v, path).1[idx],
            ) by {
                assert(classify(v, path).1[idx] == classify_elems(
                    elems@.subrange(m0, elems@.len() as int),
                    path,
                    m0 as nat,
                ).1[idx]);
            }
        },
        JsonValue::Str(_s) => {
            if !has_cs_prefix(path) {
                let e = classify(v, path).1[0];
                let w = Seq::<Seq<char>>::empty();
                assert(good_segs(w));
                assert(append_path(path, w) == path);
                assert(lookup(v, w) == Some(e.value));
                assert(recoverable(v, path, e));
            }
        },
        JsonValue::Num(_t) => {
            let e = classify(v, path).1[0];
            let w = Seq::<Seq<char>>::empty();
            assert(good_segs(w));
            assert(append_path(path, w) == path);
            assert(lookup(v, w) == Some(e.value));
            assert(recoverable(v, path, e));
        },
        JsonValue::Bool(_b) => {
            let e = classify(v, path).1[0];
            let w = Seq::<Seq<char>>::empty();
            assert(good_segs(w));
            assert(append_path(path, w) == path);
            assert(lookup(v, w) == Some(e.value));
            assert(recoverable(v, path, e));
        },
        JsonValue::Null => {
            let e = classify(v, path).1[0];
            let w = Seq::<Seq<char>>::empty();
            assert(good_segs(w));
            assert(append_path(path, w) == path);
            assert(lookup(v, w) == Some(e.value));
            assert(recoverable(v, path, e));
        },
    }
}

proof fn lemma_env_recoverable_fields(
    obj: JsonValue,
    allfs: Seq<(String, JsonValue)>,
    m: int,
    path: Seq<char>,
)
    requires
        obj is Obj,
        obj->Obj_0@ == allfs,
        good_fields(allfs),
        0 <= m <= allfs.len(),
    ensures
        forall|idx: int|
            0 <= idx < classify_fields(allfs.subrange(m, allfs.len() as int), path).1.len()
                ==> recoverable(
                obj,
                path,
                #[trigger] classify_fields(allfs.subrange(m, allfs.len() as int), path).1[idx],
            ),
    decreases allfs, allfs.len() - m,
{
    let suffix = allfs.subrange(m, allfs.len() as int);
    if m < allfs.len() {
        let key = allfs[m].0@;
        let child = allfs[m].1;
        let cp = join_object_key(path, key);
        lemma_good_fields_each_at(allfs, m);
        assert(cp.len() > 0);
        assert(decreases_to!(allfs => allfs[m]));
        assert(decreases_to!(allfs[m] => allfs[m].1));
        lemma_env_recoverable(child, cp);
        lemma_env_recoverable_fields(obj, allfs, m + 1, path);
        let head = classify(child, cp);
        let rest_entries = classify_fields(allfs.subrange(m + 1, allfs.len() as int), path);
        assert(suffix[0] == allfs[m]);
        assert(suffix.subrange(1, suffix.len() as int) =~= allfs.subrange(
            m + 1,
            allfs.len() as int,
        ));
        assert(classify_fields(suffix, path).1 == head.1 + rest_entries.1);
        assert forall|idx: int|
            0 <= idx < classify_fields(suffix, path).1.len() implies recoverable(
            obj,
            path,
            #[trigger] classify_fields(suffix, path).1[idx],
        ) by {
            let e = classify_fields(suffix, path).1[idx];
            if idx < head.1.len() {
                assert(e == head.1[idx]);
                assert(e == classify(child, cp).1[idx]);
                assert(recoverable(child, cp, e));
                let rest = choose|segs: Seq<Seq<char>>|
                    good_segs(segs) && e.name == append_path(cp, segs) && lookup(child, segs)
                        == Some(e.value);
                let w = seq![key] + rest;
                assert(w[0] == key);
                assert forall|i: int| 0 <= i < w.len() implies good_seg(#[trigger] w[i]) by {
                    if i > 0 {
                        assert(w[i] == rest[i - 1]);
                    }
                }
                assert(w.subrange(1, w.len() as int) =~= rest);
                assert(append_path(path, w) == append_path(cp, rest));
                assert forall|i: int| 0 <= i < m implies allfs[i].0@ != w[0] by {}
                lemma_lookup_fields_skip(allfs, w, m);
                assert(lookup(obj, w) == lookup_fields(allfs, w));
                assert(good_segs(w));
                assert(e.name == append_path(path, w));
                assert(lookup(obj, w) == Some(e.value));
                assert(recoverable(obj, path, e));
            } else {
                assert(e == rest_entries.1[idx - head.1.len()]);
                assert(recoverable(obj, path, e));
            }
        }
    }
}

proof fn lemma_env_recoverable_elems(
    arr: JsonValue,
    alles: Seq<JsonValue>,
    m: int,
    path: Seq<char>,
)
    requires
        arr is Arr,
        arr->Arr_0@ == alles,
        good_elems(alles),
        path.len() > 0,
        0 <= m <= alles.len(),
    ensures
        forall|idx: int|
            0 <= idx < classify_elems(alles.subrange(m, alles.len() as int), path, m as nat).1.len()
                ==> recoverable(
                arr,
                path,
                #[trigger] classify_elems(
                    alles.subrange(m, alles.len() as int),
                    path,
                    m as nat,
                ).1[idx],
            ),
    decreases alles, alles.len() - m,
{
    let suffix = alles.subrange(m, alles.len() as int);
    if m < alles.len() {
        let child = alles[m];
        let cp = join_array_index(path, m as nat);
        lemma_good_elems_at(alles, m);
        lemma_dec_digits_len(m as nat);
        assert(cp.len() > 0);
        assert(decreases_to!(alles => alles[m]));
        lemma_env_recoverable(child, cp);
        lemma_env_recoverable_elems(arr, alles, m + 1, path);
        let head = classify(child, cp);
        let rest_entries = classify_elems(
            alles.subrange(m + 1, alles.len() as int),
            path,
            (m + 1) as nat,
        );
        assert(suffix[0] == alles[m]);
        assert(suffix.subrange(1, suffix.len() as int) =~= alles.subrange(
            m + 1,
            alles.len() as int,
        ));
        assert(classify_elems(suffix, path, m as nat).1 == head.1 + rest_entries.1);
        assert forall|idx: int|
            0 <= idx < classify_elems(suffix, path, m as nat).1.len() implies recoverable(
            arr,
            path,
            #[trigger] classify_elems(suffix, path, m as nat).1[idx],
        ) by {
            let e = classify_elems(suffix, path, m as nat).1[idx];
            if idx < head.1.len() {
                assert(e == head.1[idx]);
                assert(e == classify(child, cp).1[idx]);
                assert(recoverable(child, cp, e));
                let rest = choose|segs: Seq<Seq<char>>|
                    good_segs(segs) && e.name == append_path(cp, segs) && lookup(child, segs)
                        == Some(e.value);
                let w = seq![dec_digits(m as nat)] + rest;
                assert(w[0] == dec_digits(m as nat));
                lemma_dec_digits_good(m as nat);
                assert forall|i: int| 0 <= i < w.len() implies good_seg(#[trigger] w[i]) by {
                    if i > 0 {
                        assert(w[i] == rest[i - 1]);
                    }
                }
                assert(join_object_key(path, dec_digits(m as nat)) == cp);
                assert(w.subrange(1, w.len() as int) =~= rest);
                assert(append_path(path, w) == append_path(cp, rest));
                lemma_lookup_elems_skip(alles, w, 0, m);
                assert(lookup(arr, w) == lookup_elems(alles, w, 0));
                assert(good_segs(w));
                assert(e.name == append_path(path, w));
                assert(lookup(arr, w) == Some(e.value));
                assert(recoverable(arr, path, e));
            } else {
                assert(e == rest_entries.1[idx - head.1.len()]);
                assert(recoverable(arr, path, e));
            }
        }
    }
}

// ---------------------------------------------------------------------------
// Splitting a joined name recovers its segments
// ---------------------------------------------------------------------------

proof fn lemma_find_colon_hits(s: Seq<char>, i: int, j: int)
    requires
        0 <= i <= j < s.len(),
        s[j] == ':',
        forall|k: int| i <= k < j ==> s[k] != ':',
    ensures
        find_colon_from(s, i) == j,
    decreases j - i,
{
    if i < j {
        lemma_find_colon_hits(s, i + 1, j);
    }
}

proof fn lemma_find_colon_misses(s: Seq<char>, i: int)
    requires
        0 <= i <= s.len(),
        forall|k: int| i <= k < s.len() ==> s[k] != ':',
    ensures
        find_colon_from(s, i) == -1,
    decreases s.len() - i,
{
    if i < s.len() {
        lemma_find_colon_misses(s, i + 1);
    }
}

proof fn lemma_split_colon_single(a: Seq<char>)
    requires
        forall|k: int| 0 <= k < a.len() ==> a[k] != ':',
    ensures
        split_colon(a) == seq![a],
{
    lemma_find_colon_misses(a, 0);
}

proof fn lemma_split_colon_step(a: Seq<char>, t: Seq<char>)
    requires
        forall|k: int| 0 <= k < a.len() ==> a[k] != ':',
    ensures
        split_colon(a + seq![':'] + t) == seq![a] + split_colon(t),
{
    let s = a + seq![':'] + t;
    assert(s[a.len() as int] == ':');
    assert forall|k: int| 0 <= k < a.len() implies s[k] != ':' by {
        assert(s[k] == a[k]);
    }
    lemma_find_colon_hits(s, 0, a.len() as int);
    assert(s.subrange(0, a.len() as int) =~= a);
    assert(s.subrange(a.len() as int + 1, s.len() as int) =~= t);
}

proof fn lemma_append_path_joined(p: Seq<char>, w: Seq<Seq<char>>)
    requires
        good_segs(w),
        w.len() >= 1,
    ensures
        p.len() == 0 ==> append_path(p, w) == joined(w),
        p.len() > 0 ==> append_path(p, w) == p + seq![':'] + joined(w),
    decreases w.len(),
{
    let w0 = w[0];
    assert(good_seg(w0));
    let rest = w.subrange(1, w.len() as int);
    let p2 = join_object_key(p, w0);
    if w.len() == 1 {
        assert(append_path(p2, rest) == p2);
    } else {
        assert forall|i: int| 0 <= i < rest.len() implies good_seg(#[trigger] rest[i]) by {
            assert(rest[i] == w[i + 1]);
        }
        assert(p2.len() > 0);
        lemma_append_path_joined(p2, rest);
        assert(joined(w) == w0 + seq![':'] + joined(rest));
        if p.len() == 0 {
            assert(p2 == w0);
        } else {
            assert(p2 == p + seq![':'] + w0);
            assert((p + seq![':'] + w0) + seq![':'] + joined(rest) =~= p + seq![':'] + (w0 + seq![
                ':',
            ] + joined(rest)));
        }
    }
}

proof fn lemma_split_joined(w: Seq<Seq<char>>)
    requires
        good_segs(w),
        w.len() >= 1,
    ensures
        split_colon(joined(w)) == w,
    decreases w.len(),
{
    let w0 = w[0];
    assert(good_seg(w0));
    if w.len() == 1 {
        lemma_split_colon_single(w0);
        assert(seq![w0] =~= w);
    } else {
        let rest = w.subrange(1, w.len() as int);
        assert forall|i: int| 0 <= i < rest.len() implies good_seg(#[trigger] rest[i]) by {
            assert(rest[i] == w[i + 1]);
        }
        lemma_split_joined(rest);
        lemma_split_colon_step(w0, joined(rest));
        assert(seq![w0] + rest =~= w);
    }
}

/// The round trip, read off the printed names themselves: for a document
/// whose root is an object and whose keys are non-empty, free of the
/// separator, and unique within their object, splitting any general-list
/// entry's name on the separator and walking the document along the pieces
/// reaches a scalar rendered exactly as the entry's value.
/// Connection-string entries are left out: the routing rewrites their names
/// on purpose.
pub proof fn lemma_split_name_round_trip(v: JsonValue)
    requires
        good_keys(v),
        v is Obj,
    ensures
        forall|idx: int|
            0 <= idx < classify(v, Seq::<char>::empty()).1.len() ==> lookup(
                v,
                split_colon((#[trigger] classify(v, Seq::<char>::empty()).1[idx]).name),
            ) == Some(classify(v, Seq::<char>::empty()).1[idx].value),
{
    lemma_env_recoverable(v, Seq::<char>::empty());
    let empty_path = Seq::<char>::empty();
    assert forall|idx: int|
        0 <= idx < classify(v, empty_path).1.len() implies lookup(
        v,
        split_colon((#[trigger] classify(v, empty_path).1[idx]).name),
    ) == Some(classify(v, empty_path).1[idx].value) by {
        let e = classify(v, empty_path).1[idx];
        assert(recoverable(v, empty_path, e));
        let w = choose|segs: Seq<Seq<char>>|
            good_segs(segs) && e.name == append_path(empty_path, segs) && lookup(v, segs) == Some(
                e.value,
            );
        if w.len() == 0 {
            assert(lookup(v, w) == leaf_text(v));
            assert(leaf_text(v) is None);
        }
        lemma_append_path_joined(empty_path, w);
        lemma_split_joined(w);
        assert(split_colon(e.name) == w);
    }
}

} // verus!

//! What reading, writing and merging documents gives, in terms of what is under their names.

use vstd::prelude::*;

use crate::common::json::{field, field_from, render, Json};
use crate::common::text::{int_text, text_before};
use crate::common::value::SqlValue;
use crate::sqlite3::expression_laws::answers;
use crate::sqlite3::functions::ScalarFunc;
use crate::sqlite3::json_functions::{array_from, object_from};
use crate::sqlite3::json_values::{
    container_for, document, fields_of, json_of_value, lookup, lookup_from, merged, merged_from,
    removed, step_at, stepped, value_of_json, with_field, with_field_from, without_field, written,
    written_from, JsonWriteMode, PathStep,
};
use crate::sqlite3::reals::{Facts, StopView};
use crate::sqlite3::strings::{is_digit, occurs_at, usize_of};
use crate::sqlite3::text_laws::{law_texts_of_integers_read_back, lemma_nat_text};

verus! {

// ---------------------------------------------------------------------------
// Fields

proof fn lemma_field_from(fields: Seq<(Seq<char>, Json)>, key: Seq<char>, i: int)
    requires
        0 <= i <= fields.len(),
    ensures
        match field_from(fields, key, i) {
            Some(k) => i <= k < fields.len() && fields[k].0 == key && forall|n: int|
                i <= n < k ==> (#[trigger] fields[n]).0 != key,
            None => forall|n: int| i <= n < fields.len() ==> (#[trigger] fields[n]).0 != key,
        },
    decreases fields.len() - i,
{
    if i < fields.len() && fields[i].0 != key {
        lemma_field_from(fields, key, i + 1);
    }
}

proof fn lemma_first_field(fields: Seq<(Seq<char>, Json)>, key: Seq<char>, i: int, k: int)
    requires
        0 <= i <= k < fields.len(),
        fields[k].0 == key,
        forall|n: int| i <= n < k ==> (#[trigger] fields[n]).0 != key,
    ensures
        field_from(fields, key, i) == Some(k),
    decreases k - i,
{
    if i < k {
        lemma_first_field(fields, key, i + 1, k);
    }
}

proof fn lemma_no_field(fields: Seq<(Seq<char>, Json)>, key: Seq<char>)
    requires
        forall|n: int| 0 <= n < fields.len() ==> (#[trigger] fields[n]).0 != key,
    ensures
        field(fields, key) is None,
{
    lemma_field_from(fields, key, 0);
}

/// Where a field was put: in its place, or between those before and behind it.
proof fn lemma_with_field_from(
    fields: Seq<(Seq<char>, Json)>,
    key: Seq<char>,
    j: Json,
    i: int,
) -> (k: int)
    requires
        0 <= i <= fields.len(),
        forall|n: int| 0 <= n < i ==> (#[trigger] fields[n]).0 != key,
    ensures
        i <= k <= fields.len(),
        forall|n: int| 0 <= n < k ==> (#[trigger] fields[n]).0 != key,
        with_field_from(fields, key, j, i) == if k < fields.len() && fields[k].0 == key {
            fields.update(k, (key, j))
        } else {
            fields.insert(k, (key, j))
        },
    decreases fields.len() - i,
{
    if i < fields.len() {
        if fields[i].0 == key || text_before(key, fields[i].0) {
            i
        } else {
            lemma_with_field_from(fields, key, j, i + 1)
        }
    } else {
        assert(fields.push((key, j)) =~= fields.insert(i, (key, j)));
        i
    }
}

/// A field that is put among others stands under its name, and the others stay.
pub proof fn law_fields_stand_under_their_names(
    fields: Seq<(Seq<char>, Json)>,
    key: Seq<char>,
    j: Json,
    other: Seq<char>,
)
    ensures
        field(with_field(fields, key, j), key) == Some(j),
        other != key ==> field(with_field(fields, key, j), other) == field(fields, other),
{
    let k = lemma_with_field_from(fields, key, j, 0);
    let all = with_field(fields, key, j);
    assert forall|n: int| 0 <= n < k implies (#[trigger] all[n]).0 != key by {
        assert(all[n] == fields[n]);
    }
    assert(all[k] == (key, j));
    lemma_first_field(all, key, 0, k);
    if other != key {
        lemma_field_from(fields, other, 0);
        let replaced = k < fields.len() && fields[k].0 == key;
        match field_from(fields, other, 0) {
            Some(n) => {
                let at = if !replaced && n >= k {
                    n + 1
                } else {
                    n
                };
                assert(all[at] == fields[n]);
                assert forall|x: int| 0 <= x < at implies (#[trigger] all[x]).0 != other by {
                    if x == k {
                    } else if replaced || x < k {
                        assert(all[x] == fields[x]);
                    } else {
                        assert(all[x] == fields[x - 1]);
                    }
                }
                lemma_first_field(all, other, 0, at);
            },
            None => {
                assert forall|x: int| 0 <= x < all.len() implies (#[trigger] all[x]).0 != other by {
                    if x == k {
                    } else if replaced || x < k {
                        assert(all[x] == fields[x]);
                    } else {
                        assert(all[x] == fields[x - 1]);
                    }
                }
                lemma_no_field(all, other);
            },
        }
    }
}

/// Whether no two fields have the same name.
pub open spec fn keys_apart(fields: Seq<(Seq<char>, Json)>) -> bool {
    forall|a: int, b: int|
        #![trigger fields[a], fields[b]]
        0 <= a < b < fields.len() ==> fields[a].0 != fields[b].0
}

/// A field that is taken out stands no longer under its name, and the others stay.
pub proof fn law_fields_are_taken_out(
    fields: Seq<(Seq<char>, Json)>,
    key: Seq<char>,
    other: Seq<char>,
)
    ensures
        keys_apart(fields) ==> field(without_field(fields, key), key) is None,
        other != key ==> field(without_field(fields, key), other) == field(fields, other),
{
    lemma_field_from(fields, key, 0);
    let all = without_field(fields, key);
    match field_from(fields, key, 0) {
        Some(k) => {
            if keys_apart(fields) {
                assert forall|x: int| 0 <= x < all.len() implies (#[trigger] all[x]).0 != key by {
                    if x < k {
                        assert(all[x] == fields[x]);
                    } else {
                        assert(all[x] == fields[x + 1]);
                    }
                }
                lemma_no_field(all, key);
            }
            if other != key {
                lemma_field_from(fields, other, 0);
                match field_from(fields, other, 0) {
                    Some(n) => {
                        let at = if n > k {
                            n - 1
                        } else {
                            n
                        };
                        assert(all[at] == fields[n]);
                        assert forall|x: int| 0 <= x < at implies (#[trigger] all[x]).0 != other by {
                            if x < k {
                                assert(all[x] == fields[x]);
                            } else {
                                assert(all[x] == fields[x + 1]);
                            }
                        }
                        lemma_first_field(all, other, 0, at);
                    },
                    None => {
                        assert forall|x: int| 0 <= x < all.len() implies (#[trigger] all[x]).0
                            != other by {
                            if x < k {
                                assert(all[x] == fields[x]);
                            } else {
                                assert(all[x] == fields[x + 1]);
                            }
                        }
                        lemma_no_field(all, other);
                    },
                }
            }
        },
        None => {
            lemma_no_field(fields, key);
        },
    }
}

// ---------------------------------------------------------------------------
// Paths

/// Whether a path has only names from a place on.
pub open spec fn only_names(s: Seq<char>, i: int) -> bool
    decreases s.len() - i,
{
    step_at(s, i) matches Ok((step, next)) && step is Key && i < next <= s.len() && (next < s.len()
        ==> only_names(s, next))
}

proof fn lemma_stepped(fields: Seq<(Seq<char>, Json)>, key: Seq<char>)
    ensures
        stepped(Json::Object(fields), PathStep::Key(key)) == Ok::<
            _,
            StopView,
        >(field(fields, key)),
{
}

proof fn lemma_written_from(j: Json, s: Seq<char>, i: int, value: Json, mode: JsonWriteMode)
    requires
        0 <= i,
        only_names(s, i),
    ensures
        written_from(j, s, i, value, mode) matches Ok(k) && {
            &&& mode is Put ==> lookup_from(k, s, i) == Ok::<_, StopView>(Some(value))
            &&& mode is Insert ==> lookup_from(k, s, i) == (match lookup_from(j, s, i) {
                Ok(Some(there)) => Ok::<_, StopView>(Some(there)),
                _ => Ok(Some(value)),
            })
            &&& mode is Replace ==> lookup_from(k, s, i) == (match lookup_from(j, s, i) {
                Ok(Some(_)) => Ok::<_, StopView>(Some(value)),
                _ => Ok(None),
            })
        },
    decreases s.len() - i,
{
    let (step, next) = step_at(s, i)->Ok_0;
    let key = step->Key_0;
    let fields = fields_of(j);
    let found = field_from(fields, key, 0);
    lemma_field_from(fields, key, 0);
    lemma_stepped(fields, key);
    if !(j is Object) && mode is Replace {
    } else if next == s.len() {
        law_fields_stand_under_their_names(fields, key, value, key);
        lemma_stepped(with_field(fields, key, value), key);
        assert(lookup_from(value, s, next) == Ok::<_, StopView>(Some(value)));
        if found is Some {
            let there = fields[found->Some_0].1;
            assert(lookup_from(there, s, next) == Ok::<_, StopView>(Some(there)));
        }
    } else if found is None && mode is Replace {
    } else {
        let child = match found {
            Some(k) => fields[k].1,
            None => container_for(s, next),
        };
        lemma_written_from(child, s, next, value, mode);
        let changed = written_from(child, s, next, value, mode)->Ok_0;
        law_fields_stand_under_their_names(fields, key, changed, key);
        lemma_stepped(with_field(fields, key, changed), key);
        if found is None {
            lemma_nothing_in_new(s, next);
        }
    }
}

proof fn lemma_nothing_in_new(s: Seq<char>, i: int)
    requires
        0 <= i < s.len(),
        only_names(s, i),
    ensures
        lookup_from(container_for(s, i), s, i) == Ok::<
            Option<Json>,
            StopView,
        >(None),
{
    let none = Seq::<(Seq<char>, Json)>::empty();
    let key = step_at(s, i)->Ok_0.0->Key_0;
    lemma_stepped(none, key);
    lemma_no_field(none, key);
}

/// What is written under a path of names is found there. Inserting leaves what was there already,
/// and replacing writes only where something was.
pub proof fn law_written_values_are_found(j: Json, s: Seq<char>, value: Json)
    ensures
        s.len() > 1 && s[0] == '$' && only_names(s, 1) ==> {
            &&& written(j, s, value, JsonWriteMode::Put) matches Ok(k) && lookup(k, s) == Ok::<
                _,
                StopView,
            >(Some(value))
            &&& written(j, s, value, JsonWriteMode::Insert) matches Ok(k) && lookup(k, s) == (
            match lookup(j, s) {
                Ok(Some(there)) => Ok::<_, StopView>(Some(there)),
                _ => Ok(Some(value)),
            })
            &&& written(j, s, value, JsonWriteMode::Replace) matches Ok(k) && lookup(k, s) == (
            match lookup(j, s) {
                Ok(Some(_)) => Ok::<_, StopView>(Some(value)),
                _ => Ok(None),
            })
        },
{
    if s.len() > 1 && s[0] == '$' && only_names(s, 1) {
        lemma_written_from(j, s, 1, value, JsonWriteMode::Put);
        lemma_written_from(j, s, 1, value, JsonWriteMode::Insert);
        lemma_written_from(j, s, 1, value, JsonWriteMode::Replace);
    }
}

/// What is removed from under a name is no longer there, and what is under other names stays.
pub proof fn law_removed_values_are_gone(
    fields: Seq<(Seq<char>, Json)>,
    s: Seq<char>,
    key: Seq<char>,
    other: Seq<char>,
)
    requires
        keys_apart(fields),
    ensures
        s.len() > 1 && s[0] == '$' && step_at(s, 1) == Ok::<_, StopView>(
            (PathStep::Key(key), s.len() as int),
        ) ==> (removed(Json::Object(fields), s) matches Ok(Json::Object(left)) && {
            &&& field(left, key) is None
            &&& other != key ==> field(left, other) == field(fields, other)
        }),
{
    law_fields_are_taken_out(fields, key, other);
    lemma_field_from(fields, key, 0);
    if field_from(fields, key, 0) is None {
        lemma_no_field(fields, key);
    }
}

// ---------------------------------------------------------------------------
// Patches

proof fn lemma_merged_from(fields: Seq<(Seq<char>, Json)>, patch: Json, i: int, other: Seq<char>)
    requires
        patch is Object,
        0 <= i <= patch->Object_0.len(),
        forall|n: int| i <= n < patch->Object_0.len() ==> (#[trigger] patch->Object_0[n]).0 != other,
    ensures
        field(merged_from(fields, patch, i), other) == field(fields, other),
    decreases patch->Object_0.len() - i,
{
    if i < patch->Object_0.len() {
        let (key, value) = patch->Object_0[i];
        assert(patch->Object_0[i].0 != other);
        let next = if value is Null {
            without_field(fields, key)
        } else {
            match field_from(fields, key, 0) {
                Some(k) => fields.update(k, (key, merged(fields[k].1, patch->Object_0[i].1))),
                None => with_field(fields, key, value),
            }
        };
        law_fields_are_taken_out(fields, key, other);
        law_fields_stand_under_their_names(fields, key, value, other);
        lemma_field_from(fields, key, 0);
        match field_from(fields, key, 0) {
            Some(k) => {
                let now = merged(fields[k].1, patch->Object_0[i].1);
                lemma_updated(fields, key, now, k, other);
            },
            None => {},
        }
        lemma_merged_from(next, patch, i + 1, other);
    }
}

proof fn lemma_updated(
    fields: Seq<(Seq<char>, Json)>,
    key: Seq<char>,
    j: Json,
    k: int,
    other: Seq<char>,
)
    requires
        0 <= k < fields.len(),
        fields[k].0 == key,
        forall|n: int| 0 <= n < k ==> (#[trigger] fields[n]).0 != key,
    ensures
        field(fields.update(k, (key, j)), key) == Some(j),
        other != key ==> field(fields.update(k, (key, j)), other) == field(fields, other),
{
    let all = fields.update(k, (key, j));
    assert forall|n: int| 0 <= n < k implies (#[trigger] all[n]).0 != key by {
        assert(all[n] == fields[n]);
    }
    lemma_first_field(all, key, 0, k);
    if other != key {
        lemma_field_from(fields, other, 0);
        match field_from(fields, other, 0) {
            Some(n) => {
                assert(all[n] == fields[n]);
                assert forall|x: int| 0 <= x < n implies (#[trigger] all[x]).0 != other by {
                    if x != k {
                        assert(all[x] == fields[x]);
                    }
                }
                lemma_first_field(all, other, 0, n);
            },
            None => {
                assert forall|x: int| 0 <= x < all.len() implies (#[trigger] all[x]).0 != other by {
                    if x != k {
                        assert(all[x] == fields[x]);
                    }
                }
                lemma_no_field(all, other);
            },
        }
    }
}

/// A patch that is no object takes the place of the document. One that is leaves all names that it
/// does not have; of those that it has, nothing takes a name out, and anything else stands under
/// it, merged with what was there.
pub proof fn law_patches_change_only_their_own_names(
    fields: Seq<(Seq<char>, Json)>,
    patch: Json,
    key: Seq<char>,
    value: Json,
    other: Seq<char>,
)
    ensures
        !(patch is Object) ==> merged(Json::Object(fields), patch) == patch,
        patch is Object && (forall|n: int|
            0 <= n < patch->Object_0.len() ==> (#[trigger] patch->Object_0[n]).0 != other) ==> (
        merged(Json::Object(fields), patch) matches Json::Object(now) && field(now, other) == field(
            fields,
            other,
        )),
        patch == Json::Object(seq![(key, value)]) ==> (merged(
            Json::Object(fields),
            patch,
        ) matches Json::Object(now) && {
            &&& value is Null && keys_apart(fields) ==> field(now, key) is None
            &&& !(value is Null) ==> field(now, key) == Some(
                match field(fields, key) {
                    Some(there) => merged(there, value),
                    None => value,
                },
            )
        }),
{
    if patch is Object && (forall|n: int|
        0 <= n < patch->Object_0.len() ==> (#[trigger] patch->Object_0[n]).0 != other) {
        lemma_merged_from(fields, patch, 0, other);
    }
    if patch == Json::Object(seq![(key, value)]) {
        let list = patch->Object_0;
        assert(list.len() == 1 && list[0] == (key, value));
        law_fields_are_taken_out(fields, key, key);
        law_fields_stand_under_their_names(fields, key, value, key);
        lemma_field_from(fields, key, 0);
        let next = if value is Null {
            without_field(fields, key)
        } else {
            match field_from(fields, key, 0) {
                Some(k) => fields.update(k, (key, merged(fields[k].1, list[0].1))),
                None => with_field(fields, key, value),
            }
        };
        match field_from(fields, key, 0) {
            Some(k) => {
                lemma_updated(fields, key, merged(fields[k].1, list[0].1), k, key);
            },
            None => {},
        }
        assert(merged_from(next, patch, 1) == next);
        assert(merged_from(fields, patch, 0) == next);
    }
}

// ---------------------------------------------------------------------------
// Values

/// An integer, a text and nothing survive in a document.
pub proof fn law_values_survive_in_documents(f: Facts, v: SqlValue)
    requires
        v is Null || v is Integer || v is Text,
    ensures
        json_of_value(f, v) matches Ok(j) && value_of_json(f, j) == Ok::<_, StopView>(v),
{
}

/// What is found under a path of a document is given as a value, and nothing where nothing is
/// found; an array is as long as it has items.
pub proof fn law_documents_give_what_is_found(
    f: Facts,
    t: Seq<char>,
    path: Seq<char>,
    j: Json,
    found: Json,
    v: SqlValue,
    cased: bool,
)
    ensures
        document(t) == Ok::<_, StopView>(j) && lookup(j, path) == Ok::<_, StopView>(Some(found))
            && value_of_json(f, found) == Ok::<_, StopView>(v) ==> answers(
            f,
            ScalarFunc::JsonExtract,
            seq![SqlValue::Text(t), SqlValue::Text(path)],
            cased,
            v,
        ),
        document(t) == Ok::<_, StopView>(j) && lookup(j, path) == Ok::<Option<Json>, StopView>(None)
            ==> answers(
            f,
            ScalarFunc::JsonExtract,
            seq![SqlValue::Text(t), SqlValue::Text(path)],
            cased,
            SqlValue::Null,
        ),
        document(t) == Ok::<_, StopView>(j) && (j matches Json::Array(items) && items.len()
            <= i64::MAX) ==> answers(
            f,
            ScalarFunc::JsonArrayLength,
            seq![SqlValue::Text(t)],
            cased,
            SqlValue::Integer(j->Array_0.len() as i64),
        ),
{
    let args = seq![SqlValue::Text(t), SqlValue::Text(path)];
    assert(args.len() == 2 && args[0] == SqlValue::Text(t) && args[1] == SqlValue::Text(path));
    let one = seq![SqlValue::Text(t)];
    assert(one.len() == 1 && one[0] == SqlValue::Text(t));
}

proof fn lemma_array_from(
    f: Facts,
    args: Seq<SqlValue>,
    i: int,
    out: Seq<Json>,
    items: Seq<Json>,
)
    requires
        0 <= i <= args.len(),
        items.len() == args.len(),
        out == items.take(i),
        forall|k: int|
            0 <= k < args.len() ==> json_of_value(f, #[trigger] args[k]) == Ok::<_, StopView>(
                items[k],
            ),
    ensures
        array_from(f, args, i, out) == Ok::<_, StopView>(SqlValue::Text(render(Json::Array(items)))),
    decreases args.len() - i,
{
    if i < args.len() {
        assert(json_of_value(f, args[i]) == Ok::<_, StopView>(items[i]));
        assert(out.push(items[i]) =~= items.take(i + 1));
        lemma_array_from(f, args, i + 1, out.push(items[i]), items);
    } else {
        assert(items.take(i) =~= items);
    }
}

/// An array of values has them in their order.
pub proof fn law_arrays_have_their_values_in_order(
    f: Facts,
    args: Seq<SqlValue>,
    items: Seq<Json>,
    cased: bool,
)
    requires
        items.len() == args.len(),
        forall|k: int|
            0 <= k < args.len() ==> json_of_value(f, #[trigger] args[k]) == Ok::<_, StopView>(
                items[k],
            ),
    ensures
        answers(
            f,
            ScalarFunc::JsonArray,
            args,
            cased,
            SqlValue::Text(render(Json::Array(items))),
        ),
{
    assert(items.take(0) =~= Seq::<Json>::empty());
    lemma_array_from(f, args, 0, Seq::empty(), items);
}

proof fn lemma_object_from(
    f: Facts,
    args: Seq<SqlValue>,
    i: int,
    out: Seq<(Seq<char>, Json)>,
    fields: Seq<(Seq<char>, Json)>,
)
    requires
        0 <= i <= fields.len(),
        args.len() == 2 * fields.len(),
        out == fields.take(i),
        forall|k: int|
            0 <= k < fields.len() ==> args[2 * k] == SqlValue::Text((#[trigger] fields[k]).0)
                && json_of_value(f, args[2 * k + 1]) == Ok::<_, StopView>(fields[k].1),
    ensures
        object_from(f, args, 2 * i, out) == Ok::<_, StopView>(
            SqlValue::Text(render(Json::Object(fields))),
        ),
    decreases fields.len() - i,
{
    if i < fields.len() {
        let (label, j) = fields[i];
        assert(args[2 * i] == SqlValue::Text(fields[i].0));
        assert(out.push((label, j)) =~= fields.take(i + 1));
        lemma_object_from(f, args, i + 1, out.push((label, j)), fields);
        assert(2 * i + 2 == 2 * (i + 1));
    } else {
        assert(fields.take(i) =~= fields);
    }
}

/// An object has the values under the names that stand before them.
pub proof fn law_objects_have_their_values_under_their_names(
    f: Facts,
    args: Seq<SqlValue>,
    fields: Seq<(Seq<char>, Json)>,
    cased: bool,
)
    requires
        args.len() == 2 * fields.len(),
        forall|k: int|
            0 <= k < fields.len() ==> args[2 * k] == SqlValue::Text((#[trigger] fields[k]).0)
                && json_of_value(f, args[2 * k + 1]) == Ok::<_, StopView>(fields[k].1),
    ensures
        answers(
            f,
            ScalarFunc::JsonObject,
            args,
            cased,
            SqlValue::Text(render(Json::Object(fields))),
        ),
{
    assert(fields.take(0) =~= Seq::<(Seq<char>, Json)>::empty());
    lemma_object_from(f, args, 0, Seq::empty(), fields);
}

/// An item of an array is found by its place, counted from zero, and nothing is found beyond the
/// last.
pub proof fn law_items_are_found_by_their_places(items: Seq<Json>, n: i64)
    requires
        0 <= n <= usize::MAX,
    ensures
        stepped(Json::Array(items), PathStep::Index(int_text(n as int))) == Ok::<_, StopView>(
            if n < items.len() {
                Some(items[n as int])
            } else {
                None
            },
        ),
{
    let t = int_text(n as int);
    law_texts_of_integers_read_back(n);
    lemma_nat_text(n as nat);
    assert(is_digit(t[0]));
    reveal_strlit("#");
    reveal_strlit("#-");
    assert(t != "#"@) by {
        assert("#"@[0] == '#');
    }
    assert(!occurs_at(t, "#-"@, 0)) by {
        if occurs_at(t, "#-"@, 0) {
            assert(t.subrange(0, 2)[0] == t[0]);
            assert("#-"@[0] == '#');
        }
    }
    assert(usize_of(t) == Some(n as usize));
}

} // verus!

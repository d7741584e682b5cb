//! Laws of configuration documents: what is a problem, how it is reported
//! and in which order, and what an emitted document holds.
use vstd::prelude::*;
use crate::config_model;
use crate::config_table;
use crate::config_table::{FieldDef, JsonType, Section};
use crate::json;
use crate::json::Json;
use crate::order;

verus! {

// ---------------------------------------------------------------------
// Dictionary order
// ---------------------------------------------------------------------

/// One text stands before another exactly where it is a proper beginning of
/// it, or has the smaller character at the first place where they differ.
pub proof fn law_dictionary_order(a: Seq<char>, b: Seq<char>, k: int)
    requires
        0 <= k <= a.len(),
        k <= b.len(),
        a.take(k) == b.take(k),
        k < a.len() && k < b.len() ==> a[k] != b[k],
    ensures
        k < a.len() && k < b.len() ==> (order::text_before(a, b) <==> a[k] < b[k]),
        k == a.len() && k < b.len() ==> order::text_before(a, b),
        k == b.len() ==> !order::text_before(a, b),
    decreases k,
{
    if k > 0 {
        assert(a[0] == a.take(k)[0] && b[0] == b.take(k)[0]);
        assert(a.skip(1).take(k - 1) =~= a.take(k).skip(1));
        assert(b.skip(1).take(k - 1) =~= b.take(k).skip(1));
        assert(k < a.len() ==> a.skip(1)[k - 1] == a[k]);
        assert(k < b.len() ==> b.skip(1)[k - 1] == b[k]);
        law_dictionary_order(a.skip(1), b.skip(1), k - 1);
    }
}

// ---------------------------------------------------------------------
// Problems
// ---------------------------------------------------------------------

/// The problems of an object of sections.
pub open spec fn found(m: Map<Seq<char>, Json>) -> Seq<Seq<char>> {
    config_model::value_problems(Json::Object(m))
}

/// An object with one entry.
pub open spec fn only(key: Seq<char>, j: Json) -> Map<Seq<char>, Json> {
    Map::<Seq<char>, Json>::empty().insert(key, j)
}

/// Every key of one object stands before every key of the other.
pub open spec fn keys_before(a: Map<Seq<char>, Json>, b: Map<Seq<char>, Json>) -> bool {
    forall|x: Seq<char>, y: Seq<char>|
        #[trigger] a.contains_key(x) && #[trigger] b.contains_key(y) ==> order::text_before(x, y)
}

/// A value that a field takes: a truth value, a whole number not below zero,
/// a whole number that 64 bits hold with a sign, a text, or the name of a
/// strategy.
pub open spec fn taken(t: JsonType, j: Json) -> bool {
    match j {
        Json::Bool(_) => t == JsonType::Bool,
        Json::PosInt(n) => t == JsonType::Int || t == JsonType::U32 || (t == JsonType::I32 && n
            <= 0x7fff_ffff_ffff_ffff),
        Json::NegInt(_) => t == JsonType::I32,
        Json::Str(s) => t == JsonType::Str || (t == JsonType::Strategy && (s == "epoll-busy-poll"@
            || s == "io-uring"@)),
        _ => false,
    }
}

/// The words for what a field takes.
pub open spec fn wanted(t: JsonType, w: Seq<char>) -> bool {
    &&& t == JsonType::Bool ==> w == "a boolean"@
    &&& t == JsonType::Int ==> w == "a non-negative integer"@
    &&& t == JsonType::U32 ==> w == "a non-negative integer"@
    &&& t == JsonType::I32 ==> w == "an integer"@
    &&& t == JsonType::Str ==> w == "a string"@
    &&& t == JsonType::Strategy ==> w == "\"epoll-busy-poll\" | \"io-uring\""@
}

proof fn lemma_one_key(key: Seq<char>, j: Json)
    ensures
        config_model::sorted_keys(only(key, j)) == seq![key],
{
    let m = only(key, j);
    config_model::lemma_sorted_keys(m);
    let one = seq![key];
    assert(order::strictly_sorted(one));
    assert(one.to_set() =~= m.dom()) by {
        assert(one[0] == key);
        assert(one.to_set().contains(key));
    }
    order::law_sorted_list_is_unique(one, config_model::sorted_keys(m));
}

proof fn lemma_joined_keys(a: Map<Seq<char>, Json>, b: Map<Seq<char>, Json>)
    requires
        a.dom().finite(),
        b.dom().finite(),
        keys_before(a, b),
    ensures
        config_model::sorted_keys(a.union_prefer_right(b)) == config_model::sorted_keys(a)
            + config_model::sorted_keys(b),
{
    let m = a.union_prefer_right(b);
    assert(m.dom() =~= a.dom().union(b.dom()));
    config_model::lemma_sorted_keys(a);
    config_model::lemma_sorted_keys(b);
    config_model::lemma_sorted_keys(m);
    let ka = config_model::sorted_keys(a);
    let kb = config_model::sorted_keys(b);
    let ks = ka + kb;
    assert forall|i: int, j: int| 0 <= i < j < ks.len() implies order::text_before(
        #[trigger] ks[i],
        #[trigger] ks[j],
    ) by {
        if j < ka.len() {
            assert(order::text_before(ka[i], ka[j]));
        } else if i >= ka.len() {
            assert(order::text_before(kb[i - ka.len()], kb[j - ka.len()]));
        } else {
            assert(a.contains_key(ka[i]) && b.contains_key(kb[j - ka.len()]));
        }
    }
    assert forall|k: Seq<char>| #[trigger] ks.to_set().contains(k) <==> m.dom().contains(k) by {
        if ks.to_set().contains(k) {
            let i = choose|i: int| 0 <= i < ks.len() && ks[i] == k;
            if i < ka.len() {
                assert(a.contains_key(ka[i]));
            } else {
                assert(b.contains_key(kb[i - ka.len()]));
            }
        }
        if a.dom().contains(k) {
            assert(ka.to_set().contains(k));
            let i = choose|i: int| 0 <= i < ka.len() && ka[i] == k;
            assert(ks[i] == k);
        }
        if b.dom().contains(k) {
            assert(kb.to_set().contains(k));
            let i = choose|i: int| 0 <= i < kb.len() && kb[i] == k;
            assert(ks[ka.len() + i] == k);
        }
    }
    assert(ks.to_set() =~= m.dom());
    order::law_sorted_list_is_unique(ks, config_model::sorted_keys(m));
}

proof fn lemma_document_same(
    m: Map<Seq<char>, Json>,
    n: Map<Seq<char>, Json>,
    names: Seq<Seq<char>>,
)
    requires
        forall|i: int| 0 <= i < names.len() ==> m[#[trigger] names[i]] == n[names[i]],
    ensures
        config_model::document_problems(m, names) == config_model::document_problems(n, names),
    decreases names.len(),
{
    if names.len() > 0 {
        lemma_document_same(m, n, names.drop_last());
        assert(m[names[names.len() - 1]] == n[names[names.len() - 1]]);
    }
}

proof fn lemma_document_joined(m: Map<Seq<char>, Json>, x: Seq<Seq<char>>, y: Seq<Seq<char>>)
    ensures
        config_model::document_problems(m, x + y) == config_model::document_problems(m, x)
            + config_model::document_problems(m, y),
    decreases y.len(),
{
    if y.len() == 0 {
        assert(x + y =~= x);
        assert(config_model::document_problems(m, x) + config_model::document_problems(m, y)
            =~= config_model::document_problems(m, x));
    } else {
        assert((x + y).drop_last() =~= x + y.drop_last());
        lemma_document_joined(m, x, y.drop_last());
        assert(config_model::document_problems(m, x + y) =~= config_model::document_problems(m, x)
            + config_model::document_problems(m, y));
    }
}

proof fn lemma_fields_same(
    s: Section,
    m: Map<Seq<char>, Json>,
    n: Map<Seq<char>, Json>,
    keys: Seq<Seq<char>>,
)
    requires
        forall|i: int| 0 <= i < keys.len() ==> m[#[trigger] keys[i]] == n[keys[i]],
    ensures
        config_model::field_problems(s, m, keys) == config_model::field_problems(s, n, keys),
    decreases keys.len(),
{
    if keys.len() > 0 {
        lemma_fields_same(s, m, n, keys.drop_last());
        assert(m[keys[keys.len() - 1]] == n[keys[keys.len() - 1]]);
    }
}

proof fn lemma_fields_joined(
    s: Section,
    m: Map<Seq<char>, Json>,
    x: Seq<Seq<char>>,
    y: Seq<Seq<char>>,
)
    ensures
        config_model::field_problems(s, m, x + y) == config_model::field_problems(s, m, x)
            + config_model::field_problems(s, m, y),
    decreases y.len(),
{
    if y.len() == 0 {
        assert(x + y =~= x);
        assert(config_model::field_problems(s, m, x) + config_model::field_problems(s, m, y)
            =~= config_model::field_problems(s, m, x));
    } else {
        assert((x + y).drop_last() =~= x + y.drop_last());
        lemma_fields_joined(s, m, x, y.drop_last());
        assert(config_model::field_problems(s, m, x + y) =~= config_model::field_problems(s, m, x)
            + config_model::field_problems(s, m, y));
    }
}

proof fn lemma_one_section(name: Seq<char>, j: Json)
    ensures
        found(only(name, j)) == config_model::section_problems(name, j),
{
    let m = only(name, j);
    lemma_one_key(name, j);
    let names = seq![name];
    assert(names.drop_last() =~= Seq::empty());
    assert(config_model::document_problems(m, names.drop_last()) =~= Seq::<Seq<char>>::empty());
    assert(found(m) =~= config_model::section_problems(name, j));
}

proof fn lemma_not_found(secs: Seq<Section>, name: Seq<char>)
    requires
        forall|i: int| 0 <= i < secs.len() ==> (#[trigger] secs[i]).name != name,
    ensures
        config_model::find_section(secs, name) is None,
    decreases secs.len(),
{
    if secs.len() > 0 {
        assert(secs[0].name != name);
        assert forall|i: int| 0 <= i < secs.skip(1).len() implies (#[trigger] secs.skip(1)[i]).name
            != name by {
            assert(secs[i + 1].name != name);
        }
        lemma_not_found(secs.skip(1), name);
    }
}

proof fn lemma_no_type(fields: Seq<FieldDef>, key: Seq<char>)
    requires
        forall|i: int| 0 <= i < fields.len() ==> (#[trigger] fields[i]).key@ != key,
    ensures
        config_model::find_type(fields, key) is None,
    decreases fields.len(),
{
    if fields.len() > 0 {
        assert(fields[0].key@ != key);
        assert forall|i: int| 0 <= i < fields.skip(1).len() implies (#[trigger] fields.skip(
            1,
        )[i]).key@ != key by {
            assert(fields[i + 1].key@ != key);
        }
        lemma_no_type(fields.skip(1), key);
    }
}

/// A document that cannot be read has one problem, the reader's; one that is
/// not an object has one, too.
pub proof fn law_documents_are_objects(doc: Seq<char>)
    ensures
        match json::json_read(doc) {
            json::Reading::Refused(e) => config_model::problems(doc) == seq!["config.json: "@ + e],
            json::Reading::Value(Json::Object(m)) => config_model::problems(doc) == found(m),
            json::Reading::Value(_) => config_model::problems(doc)
                == seq!["config.json: root must be an object"@],
        },
{
}

/// Sections are checked one by one in dictionary order: the problems of a
/// document are those of its earlier sections, then those of its later ones.
pub proof fn law_sections_are_checked_in_order(a: Map<Seq<char>, Json>, b: Map<Seq<char>, Json>)
    requires
        a.dom().finite(),
        b.dom().finite(),
        keys_before(a, b),
    ensures
        found(a.union_prefer_right(b)) == found(a) + found(b),
{
    let m = a.union_prefer_right(b);
    let ka = config_model::sorted_keys(a);
    let kb = config_model::sorted_keys(b);
    lemma_joined_keys(a, b);
    lemma_document_joined(m, ka, kb);
    config_model::lemma_sorted_keys(a);
    config_model::lemma_sorted_keys(b);
    assert forall|i: int| 0 <= i < ka.len() implies m[#[trigger] ka[i]] == a[ka[i]] by {
        assert(a.contains_key(ka[i]));
        if b.contains_key(ka[i]) {
            let x = ka[i];
            assert(order::text_before(x, x));
            assert(x.take(x.len() as int) == x.take(x.len() as int));
            law_dictionary_order(x, x, x.len() as int);
        }
    }
    assert forall|i: int| 0 <= i < kb.len() implies m[#[trigger] kb[i]] == b[kb[i]] by {
        assert(b.contains_key(kb[i]));
    }
    lemma_document_same(m, a, ka);
    lemma_document_same(m, b, kb);
}

/// The settings of a section are checked in dictionary order, too.
pub proof fn law_settings_are_checked_in_order(
    i: int,
    a: Map<Seq<char>, Json>,
    b: Map<Seq<char>, Json>,
)
    requires
        0 <= i < config_table::section_table().len(),
        a.dom().finite(),
        b.dom().finite(),
        keys_before(a, b),
    ensures
        ({
            let name = config_table::section_table()[i].name;
            found(only(name, Json::Object(a.union_prefer_right(b)))) == found(
                only(name, Json::Object(a)),
            ) + found(only(name, Json::Object(b)))
        }),
{
    let t = config_table::section_table();
    let s = t[i];
    let m = a.union_prefer_right(b);
    config_table::law_table_is_consistent();
    config_model::lemma_find_section(t, i);
    lemma_one_section(s.name, Json::Object(m));
    lemma_one_section(s.name, Json::Object(a));
    lemma_one_section(s.name, Json::Object(b));
    let ka = config_model::sorted_keys(a);
    let kb = config_model::sorted_keys(b);
    lemma_joined_keys(a, b);
    lemma_fields_joined(s, m, ka, kb);
    config_model::lemma_sorted_keys(a);
    config_model::lemma_sorted_keys(b);
    assert forall|k: int| 0 <= k < ka.len() implies m[#[trigger] ka[k]] == a[ka[k]] by {
        assert(a.contains_key(ka[k]));
        if b.contains_key(ka[k]) {
            let x = ka[k];
            assert(order::text_before(x, x));
            law_dictionary_order(x, x, x.len() as int);
        }
    }
    assert forall|k: int| 0 <= k < kb.len() implies m[#[trigger] kb[k]] == b[kb[k]] by {
        assert(b.contains_key(kb[k]));
    }
    lemma_fields_same(s, m, a, ka);
    lemma_fields_same(s, m, b, kb);
}

/// A section that the table does not hold is the one problem of a document
/// of that section, whatever it holds.
pub proof fn law_unknown_sections_are_reported(name: Seq<char>, j: Json)
    requires
        forall|i: int|
            0 <= i < config_table::section_table().len() ==> (
            #[trigger] config_table::section_table()[i]).name != name,
    ensures
        found(only(name, j)) == seq!["config.json: unknown section "@ + json::quoted(name)],
{
    lemma_one_section(name, j);
    lemma_not_found(config_table::section_table(), name);
}

/// A section of the table must be an object, which may be empty.
pub proof fn law_sections_are_objects(i: int, j: Json)
    requires
        0 <= i < config_table::section_table().len(),
    ensures
        ({
            let name = config_table::section_table()[i].name;
            &&& !(j is Object) ==> found(only(name, j)) == seq![
                "config.json: section "@ + json::quoted(name) + " must be an object"@,
            ]
            &&& found(only(name, Json::Object(Map::empty()))) == Seq::<Seq<char>>::empty()
        }),
{
    let t = config_table::section_table();
    let s = t[i];
    config_table::law_table_is_consistent();
    config_model::lemma_find_section(t, i);
    lemma_one_section(s.name, j);
    let e = Map::<Seq<char>, Json>::empty();
    lemma_one_section(s.name, Json::Object(e));
    config_model::lemma_sorted_keys(e);
    let none = Seq::<Seq<char>>::empty();
    assert(none.to_set() =~= e.dom());
    order::law_sorted_list_is_unique(none, config_model::sorted_keys(e));
}

proof fn lemma_one_setting(i: int, key: Seq<char>, j: Json)
    requires
        0 <= i < config_table::section_table().len(),
    ensures
        ({
            let s = config_table::section_table()[i];
            found(only(s.name, Json::Object(only(key, j)))) == match config_model::field_problem(
                s,
                key,
                j,
            ) {
                Some(p) => seq![p],
                None => Seq::<Seq<char>>::empty(),
            }
        }),
{
    let t = config_table::section_table();
    let s = t[i];
    let m = only(key, j);
    config_table::law_table_is_consistent();
    config_model::lemma_find_section(t, i);
    lemma_one_section(s.name, Json::Object(m));
    lemma_one_key(key, j);
    let keys = seq![key];
    assert(keys.drop_last() =~= Seq::empty());
    assert(config_model::field_problems(s, m, keys.drop_last()) =~= Seq::<Seq<char>>::empty());
    assert(found(only(s.name, Json::Object(m))) =~= match config_model::field_problem(s, key, j) {
        Some(p) => seq![p],
        None => Seq::<Seq<char>>::empty(),
    });
}

/// A key that its section does not have is the one problem of that setting.
pub proof fn law_unknown_keys_are_reported(i: int, key: Seq<char>, j: Json)
    requires
        0 <= i < config_table::section_table().len(),
        forall|k: int|
            0 <= k < config_table::section_table()[i].fields.len() ==> (
            #[trigger] config_table::section_table()[i].fields[k]).key@ != key,
    ensures
        ({
            let name = config_table::section_table()[i].name;
            found(only(name, Json::Object(only(key, j)))) == seq![
                "config.json: unknown key "@ + name + "."@ + key,
            ]
        }),
{
    lemma_one_setting(i, key, j);
    lemma_no_type(config_table::section_table()[i].fields, key);
}

/// A setting of the table has no problem exactly where its field takes the
/// value; else the one problem names the section, the key, what is wanted
/// and the value.
pub proof fn law_settings_have_their_type(i: int, k: int, j: Json, w: Seq<char>)
    requires
        0 <= i < config_table::section_table().len(),
        0 <= k < config_table::section_table()[i].fields.len(),
        wanted(config_table::section_table()[i].fields[k].json_type, w),
    ensures
        ({
            let s = config_table::section_table()[i];
            let f = s.fields[k];
            found(only(s.name, Json::Object(only(f.key@, j)))) == if taken(f.json_type, j) {
                Seq::<Seq<char>>::empty()
            } else {
                seq![
                    "config.json: "@ + s.name + "."@ + f.key@ + ": expected "@ + w + ", got "@
                        + json::json_compact(j),
                ]
            }
        }),
{
    let s = config_table::section_table()[i];
    let f = s.fields[k];
    config_table::law_table_is_consistent();
    assert(config_table::fields_fit(s.fields));
    config_model::lemma_find_type(s.fields, k);
    lemma_one_setting(i, f.key@, j);
}

// ---------------------------------------------------------------------
// The emitted document and the schema
// ---------------------------------------------------------------------

/// A derived socket buffer: 4 MiB up to a cache of 8 MiB, 8 MiB up to one of
/// 16 MiB, and 16 MiB above. An odd byte does not count.
pub proof fn law_buffer_sizes(l3: u64)
    ensures
        l3 / 2 <= 4 * 1024 * 1024 ==> config_model::buffer_for(l3) == 4 * 1024 * 1024,
        4 * 1024 * 1024 < l3 / 2 <= 8 * 1024 * 1024 ==> config_model::buffer_for(l3) == 8 * 1024
            * 1024,
        8 * 1024 * 1024 < l3 / 2 ==> config_model::buffer_for(l3) == 16 * 1024 * 1024,
{
    let half: u64 = l3 / 2;
    vstd::arithmetic::power2::lemma2_to64();
    config_model::lemma_least_power_bounds(half as nat, 22);
    config_model::lemma_least_power_bounds(half as nat, 23);
    if 4194304 < half <= 8388608 {
        config_model::lemma_least_power_between(half as nat, 22);
    }
    if 8388608 < half <= 16777216 {
        config_model::lemma_least_power_between(half as nat, 23);
    }
}

proof fn lemma_default_at(fields: Seq<FieldDef>, j: int)
    requires
        0 <= j < fields.len(),
        forall|a: int, b: int|
            0 <= a < b < fields.len() ==> (#[trigger] fields[a]).key@ != (#[trigger] fields[b]).key@,
    ensures
        config_model::defaults(fields).contains_key(fields[j].key@),
        config_model::defaults(fields)[fields[j].key@] == config_model::field_json(fields[j]),
    decreases fields.len(),
{
    if j < fields.len() - 1 {
        assert(fields[j].key@ != fields[fields.len() - 1].key@);
        lemma_default_at(fields.drop_last(), j);
    }
}

proof fn lemma_section_at(secs: Seq<Section>, l3: Option<u64>, i: int)
    requires
        0 <= i < secs.len(),
        forall|a: int, b: int|
            0 <= a < b < secs.len() ==> (#[trigger] secs[a]).name != (#[trigger] secs[b]).name,
    ensures
        config_model::sections_object(secs, l3).contains_key(secs[i].name),
        config_model::sections_object(secs, l3)[secs[i].name] == Json::Object(
            config_model::section_object(secs[i], l3),
        ),
    decreases secs.len(),
{
    if i < secs.len() - 1 {
        assert(secs[i].name != secs[secs.len() - 1].name);
        lemma_section_at(secs.drop_last(), l3, i);
    }
}

/// What stands in a document at a place.
pub open spec fn entry(j: Json, name: Seq<char>, key: Seq<char>) -> Option<Json> {
    match j {
        Json::Object(m) => if m.contains_key(name) {
            match m[name] {
                Json::Object(s) => if s.contains_key(key) {
                    Some(s[key])
                } else {
                    None
                },
                _ => None,
            }
        } else {
            None
        },
        _ => None,
    }
}

/// An emitted document holds every setting of the table with its default,
/// except that the two socket buffers of `udp` and `tcp` follow the cache
/// where its size is known.
pub proof fn law_emitted_settings(l3: Option<u64>, i: int, k: int)
    requires
        0 <= i < config_table::section_table().len(),
        0 <= k < config_table::section_table()[i].fields.len(),
    ensures
        ({
            let s = config_table::section_table()[i];
            let f = s.fields[k];
            let e = entry(config_model::config_json(l3), s.name, f.key@);
            if l3 is Some && (s.name == "udp"@ || s.name == "tcp"@) && (f.key@ == "rcvbuf"@
                || f.key@ == "sndbuf"@) {
                e == Some(Json::PosInt(config_model::buffer_for(l3->0) as nat))
            } else {
                &&& f.default_json@ == "true"@ && f.json_type == JsonType::Bool ==> e == Some(
                    Json::Bool(true),
                )
                &&& f.default_json@ == "false"@ && f.json_type == JsonType::Bool ==> e == Some(
                    Json::Bool(false),
                )
                &&& (f.json_type == JsonType::Int || f.json_type == JsonType::U32 || f.json_type
                    == JsonType::I32) ==> e == Some(
                    Json::PosInt(crate::text::digits_value(f.default_json@)),
                )
                &&& (f.json_type == JsonType::Str || f.json_type == JsonType::Strategy) ==> e
                    == Some(Json::Str(f.default_json@))
            }
        }),
{
    let t = config_table::section_table();
    config_table::law_table_is_consistent();
    assert(config_table::fields_fit(t[i].fields));
    lemma_section_at(t, l3, i);
    lemma_default_at(t[i].fields, k);
    reveal_strlit("true");
    reveal_strlit("false");
    assert("true"@.len() != "false"@.len());
}

/// The schema of a setting: the type's name, the default that is emitted
/// without a known cache, the table's texts, and for a strategy its names.
pub proof fn law_schema_of_a_setting(i: int, k: int)
    requires
        0 <= i < config_table::section_table().len(),
        0 <= k < config_table::section_table()[i].fields.len(),
    ensures
        ({
            let s = config_table::section_table()[i];
            let f = s.fields[k];
            let m = config_model::field_schema(f);
            &&& f.json_type == JsonType::Bool ==> m["type"@] == Json::Str("boolean"@)
            &&& f.json_type == JsonType::Int || f.json_type == JsonType::U32 || f.json_type
                == JsonType::I32 ==> m["type"@] == Json::Str("integer"@)
            &&& f.json_type == JsonType::Str || f.json_type == JsonType::Strategy ==> m["type"@]
                == Json::Str("string"@)
            &&& f.json_type != JsonType::Strategy ==> !m.contains_key("enum"@)
            &&& f.json_type == JsonType::Strategy ==> m["enum"@] == Json::Array(
                seq![Json::Str("epoll-busy-poll"@), Json::Str("io-uring"@)],
            )
            &&& entry(config_model::config_json(None), s.name, f.key@) == Some(m["default"@])
            &&& m["description"@] == Json::Str(f.description@)
            &&& m["x-trade-off"@] == Json::Str(f.trade_off@)
            &&& m["x-derived-from"@] == Json::Str(f.derived_from@)
        }),
{
    let t = config_table::section_table();
    config_table::law_table_is_consistent();
    assert(config_table::fields_fit(t[i].fields));
    lemma_section_at(t, None, i);
    lemma_default_at(t[i].fields, k);
    reveal_strlit("type");
    reveal_strlit("enum");
    reveal_strlit("default");
    reveal_strlit("description");
    reveal_strlit("x-trade-off");
    reveal_strlit("x-derived-from");
    assert("type"@[0] == 't' && "enum"@[0] == 'e');
    assert("type"@.len() == 4 && "enum"@.len() == 4 && "default"@.len() == 7);
    assert("description"@.len() == 11 && "x-trade-off"@.len() == 11);
    assert("description"@[0] == 'd' && "x-trade-off"@[0] == 'x');
    assert("x-derived-from"@.len() == 14);
}

} // verus!

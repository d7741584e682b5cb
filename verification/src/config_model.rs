//! What follows from the configuration table: the emitted configuration,
//! its JSON Schema and the validation of a document. One table drives all
//! three, so they cannot drift apart.
use vstd::arithmetic::power2::{lemma2_to64, lemma_pow2_pos, lemma_pow2_unfold};
use vstd::prelude::*;
use serde_json::{Map as JsonMap, Value};
use crate::config_table;
use crate::config_table::{sections, FieldDef, JsonType, Section, SectionDef};
use crate::json;
use crate::json::{Json, Reading};
use crate::order;
use crate::text;

verus! {

// ---------------------------------------------------------------------
// Socket buffers
// ---------------------------------------------------------------------

/// The least power of two that is not below `n`.
pub open spec fn least_power(n: nat) -> nat
    decreases n,
{
    if n <= 1 {
        1
    } else {
        2 * least_power(((n + 1) / 2) as nat)
    }
}

/// The smallest socket buffer, 4 MiB.
pub const MIN_BUFFER: u64 = 4194304;

/// The largest socket buffer, 16 MiB.
pub const MAX_BUFFER: u64 = 16777216;

/// The socket buffer for an L3 cache of `l3` bytes: half the cache, rounded
/// up to a power of two, within the limits.
pub open spec fn buffer_for(l3: u64) -> u64 {
    let p = least_power((l3 / 2) as nat);
    if p < MIN_BUFFER {
        MIN_BUFFER
    } else if p > MAX_BUFFER {
        MAX_BUFFER
    } else {
        p as u64
    }
}

pub proof fn lemma_least_power_bounds(n: nat, k: nat)
    ensures
        least_power(n) >= n,
        n <= vstd::arithmetic::power2::pow2(k) ==> least_power(n)
            <= vstd::arithmetic::power2::pow2(k),
    decreases n,
{
    lemma_pow2_pos(k);
    if n > 1 {
        let h = ((n + 1) / 2) as nat;
        if k > 0 {
            lemma_pow2_unfold(k);
            lemma_least_power_bounds(h, (k - 1) as nat);
        } else {
            lemma_least_power_bounds(h, 0);
            lemma2_to64();
        }
    }
}

proof fn lemma_least_power_is_power(n: nat)
    ensures
        exists|k: nat| least_power(n) == vstd::arithmetic::power2::pow2(k),
    decreases n,
{
    lemma2_to64();
    if n <= 1 {
        assert(least_power(n) == vstd::arithmetic::power2::pow2(0));
    } else {
        let h = ((n + 1) / 2) as nat;
        lemma_least_power_is_power(h);
        let k = choose|k: nat| least_power(h) == vstd::arithmetic::power2::pow2(k);
        lemma_pow2_unfold(k + 1);
        assert(least_power(n) == vstd::arithmetic::power2::pow2(k + 1));
    }
}

pub proof fn lemma_least_power_between(n: nat, k: nat)
    requires
        vstd::arithmetic::power2::pow2(k) < n <= vstd::arithmetic::power2::pow2(k + 1),
    ensures
        least_power(n) == vstd::arithmetic::power2::pow2(k + 1),
    decreases k,
{
    lemma_pow2_unfold(k + 1);
    lemma_pow2_pos(k);
    let h = ((n + 1) / 2) as nat;
    if k == 0 {
        lemma2_to64();
        assert(n == 2);
        assert(least_power(1) == 1);
    } else {
        lemma_pow2_unfold(k);
        lemma_least_power_between(h, (k - 1) as nat);
    }
}

/// The least power of two that is not below `n`.
pub fn next_power_of_two(n: u32) -> (r: u64)
    ensures
        r == least_power(n as nat),
        n <= r,
{
    let mut r: u64 = 1;
    let ghost mut k: nat = 0;
    proof {
        lemma2_to64();
        lemma_least_power_bounds(n as nat, 32);
    }
    while r < n as u64
        invariant
            1 <= r == vstd::arithmetic::power2::pow2(k),
            r <= least_power(n as nat) <= 0x1_0000_0000,
            k == 0 || vstd::arithmetic::power2::pow2((k - 1) as nat) < n,
            least_power(n as nat) >= n,
        decreases 0x1_0000_0000 - r,
    {
        proof {
            lemma_pow2_unfold(k + 1);
            lemma_least_power_above(n as nat, k);
            k = k + 1;
        }
        r = r * 2;
    }
    proof {
        if k > 0 {
            lemma_least_power_between(n as nat, (k - 1) as nat);
        }
    }
    r
}

/// Above a power of two the least power is the next one or a later one.
proof fn lemma_least_power_above(n: nat, k: nat)
    requires
        vstd::arithmetic::power2::pow2(k) < n,
    ensures
        vstd::arithmetic::power2::pow2(k + 1) <= least_power(n),
    decreases k,
{
    lemma_pow2_unfold(k + 1);
    lemma_pow2_pos(k);
    let h = ((n + 1) / 2) as nat;
    lemma_least_power_bounds(h, 0);
    if k == 0 {
        lemma2_to64();
    } else {
        lemma_pow2_unfold(k);
        lemma_least_power_above(h, (k - 1) as nat);
    }
}

/// The socket buffer size derived from the L3 cache size: a power of two,
/// so the kernel's doubled value and the ring layout stay aligned.
pub fn d1_socket_buffer_bytes(l3: u64) -> (r: u64)
    ensures
        r == buffer_for(l3),
{
    let half: u64 = l3 / 2;
    proof {
        lemma2_to64();
        lemma_least_power_bounds(half as nat, 22);
        lemma_least_power_bounds(half as nat, 23);
        if 4194304 < half <= 8388608 {
            lemma_least_power_between(half as nat, 22);
        }
        if 8388608 < half <= 16777216 {
            lemma_least_power_between(half as nat, 23);
        }
    }
    if half <= 4194304 {
        MIN_BUFFER
    } else if half <= 8388608 {
        8388608
    } else {
        MAX_BUFFER
    }
}

/// A derived buffer is a power of two between 4 and 16 MiB, and a larger
/// cache never gets a smaller one.
pub proof fn law_buffers_are_powers_in_range(a: u64, b: u64)
    requires
        a <= b,
    ensures
        MIN_BUFFER <= buffer_for(a) <= MAX_BUFFER,
        exists|k: nat| buffer_for(a) == vstd::arithmetic::power2::pow2(k),
        buffer_for(a) <= buffer_for(b),
{
    lemma2_to64();
    lemma_least_power_is_power((a / 2) as nat);
    lemma_least_power_monotone((a / 2) as nat, (b / 2) as nat);
    assert(MIN_BUFFER == vstd::arithmetic::power2::pow2(22));
    assert(MAX_BUFFER == vstd::arithmetic::power2::pow2(24));
}

proof fn lemma_least_power_monotone(a: nat, b: nat)
    requires
        a <= b,
    ensures
        least_power(a) <= least_power(b),
    decreases b,
{
    if b > 1 {
        lemma_least_power_bounds(((b + 1) / 2) as nat, 0);
        if a > 1 {
            lemma_least_power_monotone(((a + 1) / 2) as nat, ((b + 1) / 2) as nat);
        }
    }
}

// ---------------------------------------------------------------------
// Emission
// ---------------------------------------------------------------------

/// The default of a field as a JSON value.
pub open spec fn field_json(f: FieldDef) -> Json {
    match f.json_type {
        JsonType::Bool => Json::Bool(f.default_json@ == "true"@),
        JsonType::Int | JsonType::U32 | JsonType::I32 => Json::PosInt(
            text::digits_value(f.default_json@),
        ),
        JsonType::Str | JsonType::Strategy => Json::Str(f.default_json@),
    }
}

/// The default of a field: a literal is read, and stands as text where it
/// cannot be read; a text stands for itself.
pub fn field_value(f: &FieldDef) -> (v: Value)
    ensures
        json::value_json(v) == match f.json_type {
            JsonType::Str | JsonType::Strategy => Json::Str(f.default_json@),
            _ => match json::json_read(f.default_json@) {
                Reading::Value(j) => j,
                Reading::Refused(_) => Json::Str(f.default_json@),
            },
        },
        config_table::default_fits(*f) ==> json::value_json(v) == field_json(*f),
{
    proof {
        reveal_strlit("true");
        reveal_strlit("false");
        assert("true"@.len() != "false"@.len());
    }
    match f.json_type {
        JsonType::Str | JsonType::Strategy => json::string(f.default_json.to_string()),
        _ => match json::parse(f.default_json) {
            Ok(v) => v,
            Err(_) => json::string(f.default_json.to_string()),
        },
    }
}

/// The defaults of a list of fields.
pub open spec fn defaults(fields: Seq<FieldDef>) -> Map<Seq<char>, Json>
    decreases fields.len(),
{
    if fields.len() == 0 {
        Map::empty()
    } else {
        defaults(fields.drop_last()).insert(fields.last().key@, field_json(fields.last()))
    }
}

/// A section with socket buffers.
pub open spec fn has_buffers(name: Seq<char>) -> bool {
    name == "udp"@ || name == "tcp"@
}

/// An emitted section: its defaults, with the socket buffers derived from
/// the L3 size where that is known.
pub open spec fn section_object(s: Section, l3: Option<u64>) -> Map<Seq<char>, Json> {
    match l3 {
        Some(n) => if has_buffers(s.name) {
            defaults(s.fields).insert("rcvbuf"@, Json::PosInt(buffer_for(n) as nat)).insert(
                "sndbuf"@,
                Json::PosInt(buffer_for(n) as nat),
            )
        } else {
            defaults(s.fields)
        },
        None => defaults(s.fields),
    }
}

/// The emitted sections.
pub open spec fn sections_object(s: Seq<Section>, l3: Option<u64>) -> Map<Seq<char>, Json>
    decreases s.len(),
{
    if s.len() == 0 {
        Map::empty()
    } else {
        sections_object(s.drop_last(), l3).insert(
            s.last().name,
            Json::Object(section_object(s.last(), l3)),
        )
    }
}

/// The emitted configuration.
pub open spec fn config_json(l3: Option<u64>) -> Json {
    Json::Object(sections_object(config_table::section_table(), l3))
}

fn default_map(fields: &Vec<FieldDef>) -> (m: JsonMap<String, Value>)
    requires
        config_table::fields_fit(fields@),
    ensures
        json::map_json(m) == defaults(fields@),
{
    let mut m = json::new_map();
    let mut i: usize = 0;
    assert(json::map_json(m) =~= defaults(fields@.take(0)));
    while i < fields.len()
        invariant
            i <= fields@.len(),
            config_table::fields_fit(fields@),
            json::map_json(m) == defaults(fields@.take(i as int)),
        decreases fields@.len() - i,
    {
        proof {
            assert(fields@.take(i + 1).drop_last() =~= fields@.take(i as int));
        }
        let f: &FieldDef = &fields[i];
        let v = field_value(f);
        json::insert(&mut m, f.key.to_string(), v);
        i += 1;
    }
    assert(fields@.take(i as int) =~= fields@);
    m
}

fn section_map(s: &SectionDef, l3_bytes: Option<u64>) -> (m: JsonMap<String, Value>)
    requires
        config_table::fields_fit(s.fields@),
    ensures
        json::map_json(m) == section_object(
            (Section { name: s.name@, fields: s.fields@ }),
            l3_bytes,
        ),
{
    let mut m = default_map(&s.fields);
    if text::same_text(s.name, "udp") || text::same_text(s.name, "tcp") {
        if let Some(l3) = l3_bytes {
            let buf: u64 = d1_socket_buffer_bytes(l3);
            json::insert(&mut m, "rcvbuf".to_string(), json::number(buf));
            json::insert(&mut m, "sndbuf".to_string(), json::number(buf));
        }
    }
    m
}

fn config_value(l3_bytes: Option<u64>) -> (v: Value)
    ensures
        json::value_json(v) == config_json(l3_bytes),
{
    let secs = sections();
    let ghost sv = config_table::section_table();
    let mut root = json::new_map();
    let mut i: usize = 0;
    proof {
        config_table::law_table_is_consistent();
        assert(json::map_json(root) =~= sections_object(sv.take(0), l3_bytes));
    }
    while i < secs.len()
        invariant
            i <= secs@.len(),
            sv == config_table::section_views(secs@),
            forall|k: int| 0 <= k < sv.len() ==> config_table::fields_fit((#[trigger] sv[k]).fields),
            json::map_json(root) == sections_object(sv.take(i as int), l3_bytes),
        decreases secs@.len() - i,
    {
        proof {
            assert(sv.take(i + 1).drop_last() =~= sv.take(i as int));
            assert(sv[i as int] == (Section {
                name: secs@[i as int].name@,
                fields: secs@[i as int].fields@,
            }));
            assert(config_table::fields_fit(sv[i as int].fields));
        }
        let s: &SectionDef = &secs[i];
        let m = section_map(s, l3_bytes);
        json::insert(&mut root, s.name.to_string(), json::object(m));
        i += 1;
    }
    assert(sv.take(i as int) =~= sv);
    json::object(root)
}

/// The configuration document with all defaults, except that the socket
/// buffers follow the L3 size where it is known. Reading the document gives
/// the configuration back, and it has no problems.
pub fn emit_config(l3_bytes: Option<u64>) -> (s: String)
    ensures
        s@ == json::json_pretty(config_json(l3_bytes)).push('\n'),
        json::json_read(s@) == Reading::Value(config_json(l3_bytes)),
        problems(s@) == Seq::<Seq<char>>::empty(),
{
    let v = config_value(l3_bytes);
    proof {
        lemma_config_is_plain(l3_bytes);
        law_emitted_config_is_valid(l3_bytes);
        reveal_strlit("\n");
    }
    let mut s = json::pretty(&v);
    let ghost p = s@;
    s.append("\n");
    assert(s@ =~= p.push('\n'));
    s
}

// ---------------------------------------------------------------------
// Schema
// ---------------------------------------------------------------------

/// The JSON Schema name of a type.
pub open spec fn schema_type(t: JsonType) -> Seq<char> {
    match t {
        JsonType::Bool => "boolean"@,
        JsonType::Int | JsonType::U32 | JsonType::I32 => "integer"@,
        JsonType::Str | JsonType::Strategy => "string"@,
    }
}

/// The strategy names.
pub open spec fn strategy_names() -> Json {
    Json::Array(seq![Json::Str("epoll-busy-poll"@), Json::Str("io-uring"@)])
}

/// The schema of a field.
pub open spec fn field_schema(f: FieldDef) -> Map<Seq<char>, Json> {
    let typed = Map::<Seq<char>, Json>::empty().insert("type"@, Json::Str(schema_type(f.json_type)));
    let listed = if f.json_type == JsonType::Strategy {
        typed.insert("enum"@, strategy_names())
    } else {
        typed
    };
    listed.insert("default"@, field_json(f)).insert("description"@, Json::Str(f.description@)).insert(
        "x-trade-off"@,
        Json::Str(f.trade_off@),
    ).insert("x-derived-from"@, Json::Str(f.derived_from@))
}

/// The schemas of a list of fields.
pub open spec fn field_schemas(fields: Seq<FieldDef>) -> Map<Seq<char>, Json>
    decreases fields.len(),
{
    if fields.len() == 0 {
        Map::empty()
    } else {
        field_schemas(fields.drop_last()).insert(
            fields.last().key@,
            Json::Object(field_schema(fields.last())),
        )
    }
}

/// The schema of a section: an object of its fields and nothing else.
pub open spec fn section_schema(s: Section) -> Map<Seq<char>, Json> {
    Map::<Seq<char>, Json>::empty().insert("type"@, Json::Str("object"@)).insert(
        "additionalProperties"@,
        Json::Bool(false),
    ).insert("properties"@, Json::Object(field_schemas(s.fields)))
}

/// The schemas of a list of sections.
pub open spec fn section_schemas(s: Seq<Section>) -> Map<Seq<char>, Json>
    decreases s.len(),
{
    if s.len() == 0 {
        Map::empty()
    } else {
        section_schemas(s.drop_last()).insert(
            s.last().name,
            Json::Object(section_schema(s.last())),
        )
    }
}

/// The description of the whole schema.
pub const SCHEMA_DESCRIPTION: &'static str =
    "The single repo-root config.json consumed by the fds engine. Every field is optional: missing fields fall back to the engine defaults (crates/fds-core/src/config.rs). Hardware-derived defaults are produced by fds-detect (D-1 socket-buffer sizing from measured L3; worker count follows logical CPUs).";

/// The schema of the configuration.
pub open spec fn schema_json() -> Json {
    Json::Object(
        Map::<Seq<char>, Json>::empty().insert(
            "$schema"@,
            Json::Str("https://json-schema.org/draft/2020-12/schema"@),
        ).insert("$id"@, Json::Str("https://fds.local/schemas/config.schema.json"@)).insert(
            "title"@,
            Json::Str("FDS engine configuration"@),
        ).insert("description"@, Json::Str(SCHEMA_DESCRIPTION@)).insert(
            "type"@,
            Json::Str("object"@),
        ).insert("additionalProperties"@, Json::Bool(false)).insert(
            "properties"@,
            Json::Object(section_schemas(config_table::section_table())),
        ),
    )
}

fn put_text(m: &mut JsonMap<String, Value>, key: &str, s: &str)
    ensures
        json::map_json(*final(m)) == json::map_json(*old(m)).insert(key@, Json::Str(s@)),
{
    json::insert(m, key.to_string(), json::string(s.to_string()));
}

fn field_schema_map(f: &FieldDef) -> (m: JsonMap<String, Value>)
    requires
        config_table::default_fits(*f),
    ensures
        json::map_json(m) == field_schema(*f),
{
    let mut m = json::new_map();
    assert(json::map_json(m) =~= Map::<Seq<char>, Json>::empty());
    let name: &'static str = match f.json_type {
        JsonType::Bool => "boolean",
        JsonType::Int | JsonType::U32 | JsonType::I32 => "integer",
        JsonType::Str | JsonType::Strategy => "string",
    };
    put_text(&mut m, "type", name);
    if f.json_type == JsonType::Strategy {
        let names: Vec<Value> = vec![
            json::string("epoll-busy-poll".to_string()),
            json::string("io-uring".to_string()),
        ];
        let list = json::array(names);
        assert(json::value_json(list) == strategy_names()) by {
            assert(names@.map_values(|x: Value| json::value_json(x)) =~= seq![
                Json::Str("epoll-busy-poll"@),
                Json::Str("io-uring"@),
            ]);
        }
        json::insert(&mut m, "enum".to_string(), list);
    }
    json::insert(&mut m, "default".to_string(), field_value(f));
    put_text(&mut m, "description", f.description);
    put_text(&mut m, "x-trade-off", f.trade_off);
    put_text(&mut m, "x-derived-from", f.derived_from);
    m
}

fn section_schema_map(s: &SectionDef) -> (m: JsonMap<String, Value>)
    requires
        config_table::fields_fit(s.fields@),
    ensures
        json::map_json(m) == section_schema((Section { name: s.name@, fields: s.fields@ })),
{
    let fields: &Vec<FieldDef> = &s.fields;
    let mut props = json::new_map();
    let mut i: usize = 0;
    assert(json::map_json(props) =~= field_schemas(fields@.take(0)));
    while i < fields.len()
        invariant
            i <= fields@.len(),
            config_table::fields_fit(fields@),
            json::map_json(props) == field_schemas(fields@.take(i as int)),
        decreases fields@.len() - i,
    {
        proof {
            assert(fields@.take(i + 1).drop_last() =~= fields@.take(i as int));
            assert(config_table::default_fits(fields@[i as int]));
        }
        let f: &FieldDef = &fields[i];
        let fd = field_schema_map(f);
        json::insert(&mut props, f.key.to_string(), json::object(fd));
        i += 1;
    }
    assert(fields@.take(i as int) =~= fields@);
    let mut m = json::new_map();
    assert(json::map_json(m) =~= Map::<Seq<char>, Json>::empty());
    put_text(&mut m, "type", "object");
    json::insert(&mut m, "additionalProperties".to_string(), json::boolean(false));
    json::insert(&mut m, "properties".to_string(), json::object(props));
    m
}

fn schema_value() -> (v: Value)
    ensures
        json::value_json(v) == schema_json(),
{
    let secs = sections();
    let ghost sv = config_table::section_table();
    let mut props = json::new_map();
    let mut i: usize = 0;
    proof {
        config_table::law_table_is_consistent();
        assert(json::map_json(props) =~= section_schemas(sv.take(0)));
    }
    while i < secs.len()
        invariant
            i <= secs@.len(),
            sv == config_table::section_views(secs@),
            forall|k: int| 0 <= k < sv.len() ==> config_table::fields_fit((#[trigger] sv[k]).fields),
            json::map_json(props) == section_schemas(sv.take(i as int)),
        decreases secs@.len() - i,
    {
        proof {
            assert(sv.take(i + 1).drop_last() =~= sv.take(i as int));
            assert(sv[i as int] == (Section {
                name: secs@[i as int].name@,
                fields: secs@[i as int].fields@,
            }));
            assert(config_table::fields_fit(sv[i as int].fields));
        }
        let s: &SectionDef = &secs[i];
        let m = section_schema_map(s);
        json::insert(&mut props, s.name.to_string(), json::object(m));
        i += 1;
    }
    assert(sv.take(i as int) =~= sv);
    let mut m = json::new_map();
    assert(json::map_json(m) =~= Map::<Seq<char>, Json>::empty());
    put_text(&mut m, "$schema", "https://json-schema.org/draft/2020-12/schema");
    put_text(&mut m, "$id", "https://fds.local/schemas/config.schema.json");
    put_text(&mut m, "title", "FDS engine configuration");
    put_text(&mut m, "description", SCHEMA_DESCRIPTION);
    put_text(&mut m, "type", "object");
    json::insert(&mut m, "additionalProperties".to_string(), json::boolean(false));
    json::insert(&mut m, "properties".to_string(), json::object(props));
    json::object(m)
}

/// The JSON Schema (draft 2020-12) of the configuration, from the same
/// table that the emitter and the validator use.
pub fn generate_schema() -> (s: String)
    ensures
        s@ == json::json_pretty(schema_json()).push('\n'),
        json::json_read(s@) == Reading::Value(schema_json()),
{
    let v = schema_value();
    proof {
        lemma_schema_is_plain();
        reveal_strlit("\n");
    }
    let mut s = json::pretty(&v);
    let ghost p = s@;
    s.append("\n");
    assert(s@ =~= p.push('\n'));
    s
}

// ---------------------------------------------------------------------
// Nesting
// ---------------------------------------------------------------------

proof fn lemma_plain_deeper(j: Json, a: nat, b: nat)
    requires
        json::plain_within(j, a),
        a <= b,
    ensures
        json::plain_within(j, b),
    decreases b,
{
    match j {
        Json::Array(s) => {
            assert forall|i: int| 0 <= i < s.len() implies json::plain_within(
                #[trigger] s[i],
                (b - 1) as nat,
            ) by {
                lemma_plain_deeper(s[i], (a - 1) as nat, (b - 1) as nat);
            }
        },
        Json::Object(m) => {
            assert forall|k: Seq<char>| m.contains_key(k) implies json::plain_within(
                #[trigger] m[k],
                (b - 1) as nat,
            ) by {
                lemma_plain_deeper(m[k], (a - 1) as nat, (b - 1) as nat);
            }
        },
        _ => {},
    }
}

/// Every member is plain.
spec fn all_plain(m: Map<Seq<char>, Json>, depth: nat) -> bool {
    forall|k: Seq<char>| m.contains_key(k) ==> json::plain_within(#[trigger] m[k], depth)
}

proof fn lemma_object_plain(m: Map<Seq<char>, Json>, depth: nat)
    requires
        all_plain(m, depth),
    ensures
        json::plain_within(Json::Object(m), depth + 1),
{
    assert forall|k: Seq<char>| m.contains_key(k) implies json::plain_within(
        #[trigger] m[k],
        (depth + 1 - 1) as nat,
    ) by {
        assert(json::plain_within(m[k], depth));
    }
}

proof fn lemma_insert_plain(m: Map<Seq<char>, Json>, k: Seq<char>, j: Json, depth: nat)
    requires
        all_plain(m, depth),
        json::plain_within(j, depth),
    ensures
        all_plain(m.insert(k, j), depth),
{
    let n = m.insert(k, j);
    assert forall|x: Seq<char>| n.contains_key(x) implies json::plain_within(
        #[trigger] n[x],
        depth,
    ) by {
        if x != k {
            assert(m.contains_key(x));
            assert(json::plain_within(m[x], depth));
        }
    }
}

proof fn lemma_default_plain(f: FieldDef, depth: nat)
    requires
        config_table::default_fits(f),
    ensures
        json::plain_within(field_json(f), depth),
{
}

proof fn lemma_defaults_are_plain(fields: Seq<FieldDef>)
    requires
        forall|i: int| 0 <= i < fields.len() ==> config_table::default_fits(#[trigger] fields[i]),
    ensures
        all_plain(defaults(fields), 0),
    decreases fields.len(),
{
    if fields.len() > 0 {
        let rest = fields.drop_last();
        lemma_defaults_are_plain(rest);
        assert(config_table::default_fits(fields[fields.len() - 1]));
        lemma_default_plain(fields.last(), 0);
        lemma_insert_plain(defaults(rest), fields.last().key@, field_json(fields.last()), 0);
    }
}

proof fn lemma_sections_are_plain(s: Seq<Section>, l3: Option<u64>)
    requires
        forall|i: int| 0 <= i < s.len() ==> config_table::fields_fit((#[trigger] s[i]).fields),
    ensures
        all_plain(sections_object(s, l3), 1),
    decreases s.len(),
{
    if s.len() > 0 {
        let rest = s.drop_last();
        lemma_sections_are_plain(rest, l3);
        let last = s[s.len() - 1];
        assert(config_table::fields_fit(last.fields));
        lemma_defaults_are_plain(last.fields);
        if let Some(n) = l3 {
            let buf = Json::PosInt(buffer_for(n) as nat);
            lemma_insert_plain(defaults(last.fields), "rcvbuf"@, buf, 0);
            lemma_insert_plain(defaults(last.fields).insert("rcvbuf"@, buf), "sndbuf"@, buf, 0);
        }
        lemma_object_plain(section_object(last, l3), 0);
        lemma_insert_plain(
            sections_object(rest, l3),
            last.name,
            Json::Object(section_object(last, l3)),
            1,
        );
    }
}

proof fn lemma_config_is_plain(l3: Option<u64>)
    ensures
        json::plain_within(config_json(l3), 127),
{
    config_table::law_table_is_consistent();
    lemma_sections_are_plain(config_table::section_table(), l3);
    lemma_object_plain(sections_object(config_table::section_table(), l3), 1);
    lemma_plain_deeper(config_json(l3), 2, 127);
}

proof fn lemma_field_schema_is_plain(f: FieldDef)
    requires
        config_table::default_fits(f),
    ensures
        json::plain_within(Json::Object(field_schema(f)), 2),
{
    let e = Map::<Seq<char>, Json>::empty();
    let t = Json::Str(schema_type(f.json_type));
    let names = seq![Json::Str("epoll-busy-poll"@), Json::Str("io-uring"@)];
    assert forall|i: int| 0 <= i < names.len() implies json::plain_within(
        #[trigger] names[i],
        0,
    ) by {
    }
    assert(json::plain_within(strategy_names(), 1));
    lemma_default_plain(f, 1);
    lemma_insert_plain(e, "type"@, t, 1);
    lemma_insert_plain(e.insert("type"@, t), "enum"@, strategy_names(), 1);
    let listed = if f.json_type == JsonType::Strategy {
        e.insert("type"@, t).insert("enum"@, strategy_names())
    } else {
        e.insert("type"@, t)
    };
    let m1 = listed.insert("default"@, field_json(f));
    let m2 = m1.insert("description"@, Json::Str(f.description@));
    let m3 = m2.insert("x-trade-off"@, Json::Str(f.trade_off@));
    lemma_insert_plain(listed, "default"@, field_json(f), 1);
    lemma_insert_plain(m1, "description"@, Json::Str(f.description@), 1);
    lemma_insert_plain(m2, "x-trade-off"@, Json::Str(f.trade_off@), 1);
    lemma_insert_plain(m3, "x-derived-from"@, Json::Str(f.derived_from@), 1);
    lemma_object_plain(field_schema(f), 1);
}

proof fn lemma_field_schemas_are_plain(fields: Seq<FieldDef>)
    requires
        forall|i: int| 0 <= i < fields.len() ==> config_table::default_fits(#[trigger] fields[i]),
    ensures
        all_plain(field_schemas(fields), 2),
    decreases fields.len(),
{
    if fields.len() > 0 {
        let rest = fields.drop_last();
        lemma_field_schemas_are_plain(rest);
        assert(config_table::default_fits(fields[fields.len() - 1]));
        lemma_field_schema_is_plain(fields.last());
        lemma_insert_plain(
            field_schemas(rest),
            fields.last().key@,
            Json::Object(field_schema(fields.last())),
            2,
        );
    }
}

proof fn lemma_section_schemas_are_plain(s: Seq<Section>)
    requires
        forall|i: int| 0 <= i < s.len() ==> config_table::fields_fit((#[trigger] s[i]).fields),
    ensures
        all_plain(section_schemas(s), 4),
    decreases s.len(),
{
    if s.len() > 0 {
        let rest = s.drop_last();
        lemma_section_schemas_are_plain(rest);
        let last = s[s.len() - 1];
        assert(config_table::fields_fit(last.fields));
        lemma_field_schemas_are_plain(last.fields);
        lemma_object_plain(field_schemas(last.fields), 2);
        let e = Map::<Seq<char>, Json>::empty();
        let m1 = e.insert("type"@, Json::Str("object"@));
        let m2 = m1.insert("additionalProperties"@, Json::Bool(false));
        lemma_insert_plain(e, "type"@, Json::Str("object"@), 3);
        lemma_insert_plain(m1, "additionalProperties"@, Json::Bool(false), 3);
        lemma_insert_plain(m2, "properties"@, Json::Object(field_schemas(last.fields)), 3);
        lemma_object_plain(section_schema(last), 3);
        lemma_insert_plain(
            section_schemas(rest),
            last.name,
            Json::Object(section_schema(last)),
            4,
        );
    }
}

proof fn lemma_schema_is_plain()
    ensures
        json::plain_within(schema_json(), 127),
{
    let t = config_table::section_table();
    config_table::law_table_is_consistent();
    lemma_section_schemas_are_plain(t);
    lemma_object_plain(section_schemas(t), 4);
    let e = Map::<Seq<char>, Json>::empty();
    let draft = Json::Str("https://json-schema.org/draft/2020-12/schema"@);
    let id = Json::Str("https://fds.local/schemas/config.schema.json"@);
    let title = Json::Str("FDS engine configuration"@);
    let about = Json::Str(SCHEMA_DESCRIPTION@);
    let m1 = e.insert("$schema"@, draft);
    let m2 = m1.insert("$id"@, id);
    let m3 = m2.insert("title"@, title);
    let m4 = m3.insert("description"@, about);
    let m5 = m4.insert("type"@, Json::Str("object"@));
    let m6 = m5.insert("additionalProperties"@, Json::Bool(false));
    lemma_insert_plain(e, "$schema"@, draft, 5);
    lemma_insert_plain(m1, "$id"@, id, 5);
    lemma_insert_plain(m2, "title"@, title, 5);
    lemma_insert_plain(m3, "description"@, about, 5);
    lemma_insert_plain(m4, "type"@, Json::Str("object"@), 5);
    lemma_insert_plain(m5, "additionalProperties"@, Json::Bool(false), 5);
    lemma_insert_plain(m6, "properties"@, Json::Object(section_schemas(t)), 5);
    let m7 = m6.insert("properties"@, Json::Object(section_schemas(t)));
    lemma_object_plain(m7, 5);
    assert(schema_json() == Json::Object(m7));
    lemma_plain_deeper(schema_json(), 6, 127);
}

// ---------------------------------------------------------------------
// Validation
// ---------------------------------------------------------------------

/// The keys of a map in dictionary order.
pub open spec fn sorted_keys(m: Map<Seq<char>, Json>) -> Seq<Seq<char>> {
    choose|ks: Seq<Seq<char>>| order::strictly_sorted(ks) && #[trigger] ks.to_set() == m.dom()
}

/// The first section of a name.
pub open spec fn find_section(secs: Seq<Section>, name: Seq<char>) -> Option<Section>
    decreases secs.len(),
{
    if secs.len() == 0 {
        None
    } else if secs[0].name == name {
        Some(secs[0])
    } else {
        find_section(secs.skip(1), name)
    }
}

/// The type of the first field of a key.
pub open spec fn find_type(fields: Seq<FieldDef>, key: Seq<char>) -> Option<JsonType>
    decreases fields.len(),
{
    if fields.len() == 0 {
        None
    } else if fields[0].key@ == key {
        Some(fields[0].json_type)
    } else {
        find_type(fields.skip(1), key)
    }
}

/// Whether a value is of a type.
pub open spec fn accepts(t: JsonType, j: Json) -> bool {
    match t {
        JsonType::Bool => j is Bool,
        JsonType::Int | JsonType::U32 => j is PosInt,
        JsonType::I32 => match j {
            Json::PosInt(n) => n <= i64::MAX,
            Json::NegInt(_) => true,
            _ => false,
        },
        JsonType::Str => j is Str,
        JsonType::Strategy => match j {
            Json::Str(s) => s == "epoll-busy-poll"@ || s == "io-uring"@,
            _ => false,
        },
    }
}

/// What a type expects, in words.
pub open spec fn expected(t: JsonType) -> Seq<char> {
    match t {
        JsonType::Bool => "a boolean"@,
        JsonType::Int | JsonType::U32 => "a non-negative integer"@,
        JsonType::I32 => "an integer"@,
        JsonType::Str => "a string"@,
        JsonType::Strategy => "\"epoll-busy-poll\" | \"io-uring\""@,
    }
}

/// The problem with one field, if there is one.
pub open spec fn field_problem(s: Section, key: Seq<char>, j: Json) -> Option<Seq<char>> {
    match find_type(s.fields, key) {
        None => Some("config.json: unknown key "@ + s.name + "."@ + key),
        Some(t) => if accepts(t, j) {
            None
        } else {
            Some(
                "config.json: "@ + s.name + "."@ + key + ": expected "@ + expected(t) + ", got "@
                    + json::json_compact(j),
            )
        },
    }
}

/// The problems of the fields of a section, for the given keys.
pub open spec fn field_problems(
    s: Section,
    m: Map<Seq<char>, Json>,
    keys: Seq<Seq<char>>,
) -> Seq<Seq<char>>
    decreases keys.len(),
{
    if keys.len() == 0 {
        Seq::empty()
    } else {
        let before = field_problems(s, m, keys.drop_last());
        match field_problem(s, keys.last(), m[keys.last()]) {
            Some(p) => before.push(p),
            None => before,
        }
    }
}

/// The problems of one section.
pub open spec fn section_problems(name: Seq<char>, j: Json) -> Seq<Seq<char>> {
    match find_section(config_table::section_table(), name) {
        None => seq!["config.json: unknown section "@ + json::quoted(name)],
        Some(s) => match j {
            Json::Object(m) => field_problems(s, m, sorted_keys(m)),
            _ => seq!["config.json: section "@ + json::quoted(name) + " must be an object"@],
        },
    }
}

/// The problems of the sections of a document, for the given names.
pub open spec fn document_problems(
    m: Map<Seq<char>, Json>,
    names: Seq<Seq<char>>,
) -> Seq<Seq<char>>
    decreases names.len(),
{
    if names.len() == 0 {
        Seq::empty()
    } else {
        document_problems(m, names.drop_last()) + section_problems(names.last(), m[names.last()])
    }
}

/// The problems of a value: sections in dictionary order, and in each its
/// keys in dictionary order.
pub open spec fn value_problems(j: Json) -> Seq<Seq<char>> {
    match j {
        Json::Object(m) => document_problems(m, sorted_keys(m)),
        _ => seq!["config.json: root must be an object"@],
    }
}

/// The problems of a document.
pub open spec fn problems(doc: Seq<char>) -> Seq<Seq<char>> {
    match json::json_read(doc) {
        Reading::Value(j) => value_problems(j),
        Reading::Refused(e) => seq!["config.json: "@ + e],
    }
}

fn section_of<'a>(secs: &'a Vec<SectionDef>, name: &str) -> (r: Option<&'a SectionDef>)
    ensures
        match r {
            Some(s) => find_section(config_table::section_views(secs@), name@) == Some(
                (Section { name: s.name@, fields: s.fields@ }),
            ),
            None => find_section(config_table::section_views(secs@), name@) is None,
        },
{
    let ghost sv = config_table::section_views(secs@);
    let mut i: usize = 0;
    assert(sv.skip(0) =~= sv);
    while i < secs.len()
        invariant
            i <= secs@.len(),
            sv == config_table::section_views(secs@),
            find_section(sv.skip(i as int), name@) == find_section(sv, name@),
        decreases secs@.len() - i,
    {
        proof {
            assert(sv.skip(i as int).skip(1) =~= sv.skip(i + 1));
            assert(sv.skip(i as int)[0] == sv[i as int]);
            assert(sv[i as int] == (Section {
                name: secs@[i as int].name@,
                fields: secs@[i as int].fields@,
            }));
        }
        if text::same_text(secs[i].name, name) {
            return Some(&secs[i]);
        }
        i += 1;
    }
    None
}

fn type_of(fields: &Vec<FieldDef>, key: &str) -> (r: Option<JsonType>)
    ensures
        r == find_type(fields@, key@),
{
    let mut i: usize = 0;
    assert(fields@.skip(0) =~= fields@);
    while i < fields.len()
        invariant
            i <= fields@.len(),
            find_type(fields@.skip(i as int), key@) == find_type(fields@, key@),
        decreases fields@.len() - i,
    {
        proof {
            assert(fields@.skip(i as int).skip(1) =~= fields@.skip(i + 1));
            assert(fields@.skip(i as int)[0] == fields@[i as int]);
        }
        if text::same_text(fields[i].key, key) {
            return Some(fields[i].json_type);
        }
        i += 1;
    }
    None
}

fn accepts_value(t: JsonType, v: &Value) -> (r: bool)
    ensures
        r == accepts(t, json::value_json(*v)),
{
    match t {
        JsonType::Bool => json::is_boolean(v),
        JsonType::Int | JsonType::U32 => json::as_u64(v).is_some(),
        JsonType::I32 => json::as_i64(v).is_some(),
        JsonType::Str => json::as_str(v).is_some(),
        JsonType::Strategy => match json::as_str(v) {
            Some(s) => text::same_text(s, "epoll-busy-poll") || text::same_text(s, "io-uring"),
            None => false,
        },
    }
}

/// The problem with one field, if there is one.
fn check_field(s: &SectionDef, key: &str, v: &Value) -> (r: Option<String>)
    ensures
        match r {
            Some(p) => field_problem(
                (Section { name: s.name@, fields: s.fields@ }),
                key@,
                json::value_json(*v),
            ) == Some(p@),
            None => field_problem(
                (Section { name: s.name@, fields: s.fields@ }),
                key@,
                json::value_json(*v),
            ) is None,
        },
{
    match type_of(&s.fields, key) {
        None => {
            let mut p = "config.json: unknown key ".to_string();
            p.append(s.name);
            p.append(".");
            p.append(key);
            Some(p)
        },
        Some(t) => {
            if accepts_value(t, v) {
                return None;
            }
            let mut p = "config.json: ".to_string();
            p.append(s.name);
            p.append(".");
            p.append(key);
            p.append(": expected ");
            p.append(
                match t {
                    JsonType::Bool => "a boolean",
                    JsonType::Int | JsonType::U32 => "a non-negative integer",
                    JsonType::I32 => "an integer",
                    JsonType::Str => "a string",
                    JsonType::Strategy => "\"epoll-busy-poll\" | \"io-uring\"",
                },
            );
            p.append(", got ");
            p.append(json::compact(v).as_str());
            Some(p)
        },
    }
}

/// The problems of the fields of a section.
fn check_fields(s: &SectionDef, m: &JsonMap<String, Value>) -> (out: Vec<String>)
    ensures
        order::texts(out@) == field_problems(
            (Section { name: s.name@, fields: s.fields@ }),
            json::map_json(*m),
            sorted_keys(json::map_json(*m)),
        ),
{
    let list = json::entries(m);
    let ghost sec = (Section { name: s.name@, fields: s.fields@ });
    let ghost mj = json::map_json(*m);
    let ghost keys = json::entry_keys(list@);
    proof {
        assert(order::strictly_sorted(keys) && keys.to_set() == mj.dom());
        order::law_sorted_list_is_unique(keys, sorted_keys(mj));
    }
    let mut out: Vec<String> = Vec::new();
    let mut i: usize = 0;
    assert(order::texts(out@) =~= field_problems(sec, mj, keys.take(0)));
    while i < list.len()
        invariant
            i <= list@.len(),
            sec == (Section { name: s.name@, fields: s.fields@ }),
            mj == json::map_json(*m),
            keys == json::entry_keys(list@),
            forall|k: int|
                0 <= k < list@.len() ==> mj[(#[trigger] list@[k]).0@] == json::value_json(
                    *list@[k].1,
                ),
            order::texts(out@) == field_problems(sec, mj, keys.take(i as int)),
        decreases list@.len() - i,
    {
        let (key, v) = list[i];
        proof {
            assert(keys.take(i + 1).drop_last() =~= keys.take(i as int));
            assert(keys.take(i + 1).last() == list@[i as int].0@);
        }
        let ghost had = out@;
        if let Some(p) = check_field(s, key.as_str(), v) {
            out.push(p);
            assert(order::texts(out@) =~= order::texts(had).push(p@));
        }
        i += 1;
    }
    assert(keys.take(i as int) =~= keys);
    out
}

/// The problems of one section.
fn check_section(secs: &Vec<SectionDef>, name: &str, v: &Value) -> (out: Vec<String>)
    requires
        config_table::section_views(secs@) == config_table::section_table(),
    ensures
        order::texts(out@) == section_problems(name@, json::value_json(*v)),
{
    match section_of(secs, name) {
        None => {
            let mut p = "config.json: unknown section ".to_string();
            p.append(json::quote(name).as_str());
            let out: Vec<String> = vec![p];
            assert(order::texts(out@) =~= seq![p@]);
            out
        },
        Some(s) => match json::as_object(v) {
            Some(m) => {
                assert(s.name@ == name@) by {
                    lemma_found_name(config_table::section_table(), name@);
                }
                check_fields(s, m)
            },
            None => {
                let mut p = "config.json: section ".to_string();
                p.append(json::quote(name).as_str());
                p.append(" must be an object");
                let out: Vec<String> = vec![p];
                assert(order::texts(out@) =~= seq![p@]);
                out
            },
        },
    }
}

proof fn lemma_found_name(secs: Seq<Section>, name: Seq<char>)
    ensures
        find_section(secs, name) matches Some(s) ==> s.name == name,
    decreases secs.len(),
{
    if secs.len() > 0 {
        lemma_found_name(secs.skip(1), name);
    }
}

/// The problems of a configuration value.
pub fn validate_value(v: &Value) -> (out: Vec<String>)
    ensures
        order::texts(out@) == value_problems(json::value_json(*v)),
{
    let m = match json::as_object(v) {
        Some(m) => m,
        None => {
            let p = "config.json: root must be an object".to_string();
            let out: Vec<String> = vec![p];
            assert(order::texts(out@) =~= seq![p@]);
            return out;
        },
    };
    let secs = sections();
    let list = json::entries(m);
    let ghost mj = json::map_json(*m);
    let ghost keys = json::entry_keys(list@);
    proof {
        assert(order::strictly_sorted(keys) && keys.to_set() == mj.dom());
        order::law_sorted_list_is_unique(keys, sorted_keys(mj));
    }
    let mut out: Vec<String> = Vec::new();
    let mut i: usize = 0;
    assert(order::texts(out@) =~= document_problems(mj, keys.take(0)));
    while i < list.len()
        invariant
            i <= list@.len(),
            config_table::section_views(secs@) == config_table::section_table(),
            mj == json::map_json(*m),
            keys == json::entry_keys(list@),
            forall|k: int|
                0 <= k < list@.len() ==> mj[(#[trigger] list@[k]).0@] == json::value_json(
                    *list@[k].1,
                ),
            order::texts(out@) == document_problems(mj, keys.take(i as int)),
        decreases list@.len() - i,
    {
        let (name, val) = list[i];
        proof {
            assert(keys.take(i + 1).drop_last() =~= keys.take(i as int));
            assert(keys.take(i + 1).last() == list@[i as int].0@);
        }
        let ghost had = out@;
        let mut more = check_section(&secs, name.as_str(), val);
        let ghost added = more@;
        out.append(&mut more);
        proof {
            assert(out@ =~= had + added);
            assert(order::texts(out@) =~= order::texts(had) + order::texts(added));
        }
        i += 1;
    }
    assert(keys.take(i as int) =~= keys);
    out
}

/// The problems of a configuration document, in words. Missing sections and
/// fields are fine; unknown keys and values of another type are problems.
pub fn validate_config(doc: &str) -> (out: Vec<String>)
    ensures
        order::texts(out@) == problems(doc@),
{
    match json::parse(doc) {
        Ok(v) => validate_value(&v),
        Err(e) => {
            let mut p = "config.json: ".to_string();
            p.append(e.as_str());
            let out: Vec<String> = vec![p];
            assert(order::texts(out@) =~= seq![p@]);
            out
        },
    }
}

// ---------------------------------------------------------------------
// An emitted configuration is valid
// ---------------------------------------------------------------------

pub proof fn lemma_find_type(fields: Seq<FieldDef>, i: int)
    requires
        0 <= i < fields.len(),
        forall|a: int, b: int|
            0 <= a < b < fields.len() ==> (#[trigger] fields[a]).key@ != (#[trigger] fields[b]).key@,
    ensures
        find_type(fields, fields[i].key@) == Some(fields[i].json_type),
    decreases fields.len(),
{
    if i > 0 {
        assert(fields[0].key@ != fields[i].key@);
        let rest = fields.skip(1);
        assert forall|a: int, b: int| 0 <= a < b < rest.len() implies (#[trigger] rest[a]).key@
            != (#[trigger] rest[b]).key@ by {
            assert(fields[a + 1].key@ != fields[b + 1].key@);
        }
        lemma_find_type(rest, i - 1);
        assert(rest[i - 1] == fields[i]);
    }
}

pub proof fn lemma_find_section(secs: Seq<Section>, i: int)
    requires
        0 <= i < secs.len(),
        forall|a: int, b: int|
            0 <= a < b < secs.len() ==> (#[trigger] secs[a]).name != (#[trigger] secs[b]).name,
    ensures
        find_section(secs, secs[i].name) == Some(secs[i]),
    decreases secs.len(),
{
    if i > 0 {
        assert(secs[0].name != secs[i].name);
        let rest = secs.skip(1);
        assert forall|a: int, b: int| 0 <= a < b < rest.len() implies (#[trigger] rest[a]).name
            != (#[trigger] rest[b]).name by {
            assert(secs[a + 1].name != secs[b + 1].name);
        }
        lemma_find_section(rest, i - 1);
        assert(rest[i - 1] == secs[i]);
    }
}

proof fn lemma_default_of(fields: Seq<FieldDef>, key: Seq<char>) -> (i: int)
    requires
        defaults(fields).contains_key(key),
    ensures
        0 <= i < fields.len(),
        fields[i].key@ == key,
        defaults(fields)[key] == field_json(fields[i]),
    decreases fields.len(),
{
    if fields.last().key@ == key {
        fields.len() - 1
    } else {
        lemma_default_of(fields.drop_last(), key)
    }
}

proof fn lemma_defaults_finite(fields: Seq<FieldDef>)
    ensures
        defaults(fields).dom().finite(),
    decreases fields.len(),
{
    if fields.len() > 0 {
        lemma_defaults_finite(fields.drop_last());
    }
}

proof fn lemma_section_of(secs: Seq<Section>, l3: Option<u64>, name: Seq<char>) -> (i: int)
    requires
        sections_object(secs, l3).contains_key(name),
    ensures
        0 <= i < secs.len(),
        secs[i].name == name,
        sections_object(secs, l3)[name] == Json::Object(section_object(secs[i], l3)),
    decreases secs.len(),
{
    if secs.last().name == name {
        secs.len() - 1
    } else {
        lemma_section_of(secs.drop_last(), l3, name)
    }
}

proof fn lemma_sections_finite(secs: Seq<Section>, l3: Option<u64>)
    ensures
        sections_object(secs, l3).dom().finite(),
    decreases secs.len(),
{
    if secs.len() > 0 {
        lemma_sections_finite(secs.drop_last(), l3);
    }
}

pub proof fn lemma_sorted_keys(m: Map<Seq<char>, Json>)
    requires
        m.dom().finite(),
    ensures
        order::strictly_sorted(sorted_keys(m)),
        sorted_keys(m).to_set() == m.dom(),
        forall|i: int| 0 <= i < sorted_keys(m).len() ==> m.contains_key(#[trigger] sorted_keys(m)[i]),
{
    let ks = order::lemma_sorted_list_exists(m.dom());
    assert(order::strictly_sorted(ks) && ks.to_set() == m.dom());
    let s = sorted_keys(m);
    assert forall|i: int| 0 <= i < s.len() implies m.contains_key(#[trigger] s[i]) by {
        assert(s.to_set().contains(s[i]));
    }
}

proof fn lemma_no_field_problems(s: Section, m: Map<Seq<char>, Json>, keys: Seq<Seq<char>>)
    requires
        forall|i: int|
            0 <= i < keys.len() ==> field_problem(s, #[trigger] keys[i], m[keys[i]]) is None,
    ensures
        field_problems(s, m, keys) == Seq::<Seq<char>>::empty(),
    decreases keys.len(),
{
    if keys.len() > 0 {
        lemma_no_field_problems(s, m, keys.drop_last());
        assert(field_problem(s, keys[keys.len() - 1], m[keys[keys.len() - 1]]) is None);
    }
}

proof fn lemma_no_document_problems(m: Map<Seq<char>, Json>, names: Seq<Seq<char>>)
    requires
        forall|i: int|
            0 <= i < names.len() ==> section_problems(#[trigger] names[i], m[names[i]]) == Seq::<
                Seq<char>,
            >::empty(),
    ensures
        document_problems(m, names) == Seq::<Seq<char>>::empty(),
    decreases names.len(),
{
    if names.len() > 0 {
        lemma_no_document_problems(m, names.drop_last());
        assert(section_problems(names[names.len() - 1], m[names[names.len() - 1]]) == Seq::<
            Seq<char>,
        >::empty());
        assert(document_problems(m, names) =~= Seq::<Seq<char>>::empty());
    }
}

proof fn lemma_buffers_accept_numbers(i: int)
    requires
        0 <= i < config_table::section_table().len(),
        has_buffers(config_table::section_table()[i].name),
    ensures
        find_type(config_table::section_table()[i].fields, "rcvbuf"@) == Some(JsonType::Int),
        find_type(config_table::section_table()[i].fields, "sndbuf"@) == Some(JsonType::Int),
{
    config_table::law_table_is_consistent();
    let t = config_table::section_table();
    assert(config_table::fields_fit(t[2].fields));
    assert(config_table::fields_fit(t[3].fields));
    lemma_find_type(t[2].fields, 0);
    lemma_find_type(t[2].fields, 1);
    lemma_find_type(t[3].fields, 6);
    lemma_find_type(t[3].fields, 7);
    assert(t[2].name == "udp"@);
    assert(t[3].name == "tcp"@);
    if i != 2 && i != 3 {
        if t[i].name == "udp"@ {
            if i < 2 {
                assert(t[i].name != t[2].name);
            } else {
                assert(t[2].name != t[i].name);
            }
        } else {
            if i < 3 {
                assert(t[i].name != t[3].name);
            } else {
                assert(t[3].name != t[i].name);
            }
        }
    }
}

proof fn lemma_section_is_valid(i: int, l3: Option<u64>)
    requires
        0 <= i < config_table::section_table().len(),
    ensures
        ({
            let s = config_table::section_table()[i];
            section_problems(s.name, Json::Object(section_object(s, l3))) == Seq::<
                Seq<char>,
            >::empty()
        }),
{
    let t = config_table::section_table();
    let s = t[i];
    let m = section_object(s, l3);
    config_table::law_table_is_consistent();
    assert(config_table::fields_fit(s.fields));
    lemma_find_section(t, i);
    lemma_defaults_finite(s.fields);
    lemma_sorted_keys(m);
    if has_buffers(s.name) {
        lemma_buffers_accept_numbers(i);
    }
    assert forall|k: int| 0 <= k < sorted_keys(m).len() implies field_problem(
        s,
        #[trigger] sorted_keys(m)[k],
        m[sorted_keys(m)[k]],
    ) is None by {
        let key = sorted_keys(m)[k];
        assert(m.contains_key(key));
        if l3 is Some && has_buffers(s.name) && (key == "rcvbuf"@ || key == "sndbuf"@) {
        } else {
            let f = lemma_default_of(s.fields, key);
            lemma_find_type(s.fields, f);
            assert(config_table::default_fits(s.fields[f]));
        }
    }
    lemma_no_field_problems(s, m, sorted_keys(m));
}

/// An emitted configuration has no problems, whatever the L3 size.
pub proof fn law_emitted_config_is_valid(l3: Option<u64>)
    ensures
        value_problems(config_json(l3)) == Seq::<Seq<char>>::empty(),
{
    let t = config_table::section_table();
    let m = sections_object(t, l3);
    lemma_sections_finite(t, l3);
    lemma_sorted_keys(m);
    assert forall|k: int| 0 <= k < sorted_keys(m).len() implies section_problems(
        #[trigger] sorted_keys(m)[k],
        m[sorted_keys(m)[k]],
    ) == Seq::<Seq<char>>::empty() by {
        let name = sorted_keys(m)[k];
        assert(m.contains_key(name));
        let i = lemma_section_of(t, l3, name);
        lemma_section_is_valid(i, l3);
    }
    lemma_no_document_problems(m, sorted_keys(m));
}

/// The empty document has no problems: every section may be missing.
pub proof fn law_empty_object_is_valid()
    ensures
        value_problems(Json::Object(Map::empty())) == Seq::<Seq<char>>::empty(),
{
    let m = Map::<Seq<char>, Json>::empty();
    lemma_sorted_keys(m);
    lemma_no_document_problems(m, sorted_keys(m));
}

/// Every field of the table appears in the schema, with its type, default,
/// description, trade-off and origin.
pub proof fn law_schema_covers_every_field(i: int, j: int)
    requires
        0 <= i < config_table::section_table().len(),
        0 <= j < config_table::section_table()[i].fields.len(),
    ensures
        ({
            let t = config_table::section_table();
            let s = t[i];
            let f = s.fields[j];
            &&& section_schemas(t).contains_key(s.name)
            &&& section_schemas(t)[s.name] == Json::Object(section_schema(s))
            &&& section_schema(s)["properties"@] == Json::Object(field_schemas(s.fields))
            &&& field_schemas(s.fields).contains_key(f.key@)
            &&& field_schemas(s.fields)[f.key@] == Json::Object(field_schema(f))
            &&& field_schema(f).contains_key("type"@)
            &&& field_schema(f).contains_key("default"@)
            &&& field_schema(f).contains_key("description"@)
            &&& field_schema(f).contains_key("x-trade-off"@)
            &&& field_schema(f).contains_key("x-derived-from"@)
        }),
{
    let t = config_table::section_table();
    config_table::law_table_is_consistent();
    assert(config_table::fields_fit(t[i].fields));
    lemma_section_schema_at(t, i);
    lemma_field_schema_at(t[i].fields, j);
}

proof fn lemma_section_schema_at(secs: Seq<Section>, i: int)
    requires
        0 <= i < secs.len(),
        forall|a: int, b: int|
            0 <= a < b < secs.len() ==> (#[trigger] secs[a]).name != (#[trigger] secs[b]).name,
    ensures
        section_schemas(secs).contains_key(secs[i].name),
        section_schemas(secs)[secs[i].name] == Json::Object(section_schema(secs[i])),
    decreases secs.len(),
{
    if i < secs.len() - 1 {
        let rest = secs.drop_last();
        assert(secs[i].name != secs[secs.len() - 1].name);
        assert forall|a: int, b: int| 0 <= a < b < rest.len() implies (#[trigger] rest[a]).name
            != (#[trigger] rest[b]).name by {
            assert(secs[a].name != secs[b].name);
        }
        lemma_section_schema_at(rest, i);
    }
}

proof fn lemma_field_schema_at(fields: Seq<FieldDef>, i: int)
    requires
        0 <= i < fields.len(),
        forall|a: int, b: int|
            0 <= a < b < fields.len() ==> (#[trigger] fields[a]).key@ != (#[trigger] fields[b]).key@,
    ensures
        field_schemas(fields).contains_key(fields[i].key@),
        field_schemas(fields)[fields[i].key@] == Json::Object(field_schema(fields[i])),
    decreases fields.len(),
{
    if i < fields.len() - 1 {
        let rest = fields.drop_last();
        assert(fields[i].key@ != fields[fields.len() - 1].key@);
        assert forall|a: int, b: int| 0 <= a < b < rest.len() implies (#[trigger] rest[a]).key@
            != (#[trigger] rest[b]).key@ by {
            assert(fields[a].key@ != fields[b].key@);
        }
        lemma_field_schema_at(rest, i);
    }
}

} // verus!

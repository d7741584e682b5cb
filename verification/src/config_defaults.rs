//! The configuration table and the engine's own defaults agree, but for one
//! setting: the table has workers busy-poll, while an engine without a
//! configuration file does not.
use vstd::prelude::*;
use crate::config::{
    AfXdpConfig, Config, CoreConfig, EngineConfig, MetricsConfig, ReactorConfig, ReactorStrategy,
    SctpConfig, TcpConfig, UdpConfig, ZeroCopyConfig,
};
use crate::config_model;
use crate::config_table;
use crate::json::Json;

verus! {

/// A whole number as a JSON value.
pub open spec fn whole(n: int) -> Json {
    if n >= 0 {
        Json::PosInt(n as nat)
    } else {
        Json::NegInt(n)
    }
}

/// A polling strategy by its name.
pub open spec fn strategy_name(s: ReactorStrategy) -> Seq<char> {
    match s {
        ReactorStrategy::EpollBusyPoll => "epoll-busy-poll"@,
        ReactorStrategy::IoUring => "io-uring"@,
    }
}

/// A setting of `core` by its key.
pub open spec fn core_setting(c: CoreConfig, key: Seq<char>) -> Option<Json> {
    if key == "pin_cores"@ {
        Some(Json::Bool(c.pin_cores))
    } else if key == "threads"@ {
        Some(whole(c.threads as int))
    } else if key == "stack_bytes"@ {
        Some(whole(c.stack_bytes as int))
    } else {
        None
    }
}

/// A setting of `reactor` by its key.
pub open spec fn reactor_setting(c: ReactorConfig, key: Seq<char>) -> Option<Json> {
    if key == "strategy"@ {
        Some(Json::Str(strategy_name(c.strategy)))
    } else if key == "max_events"@ {
        Some(whole(c.max_events as int))
    } else if key == "busy_poll"@ {
        Some(Json::Bool(c.busy_poll))
    } else if key == "timeout_ms"@ {
        Some(whole(c.timeout_ms as int))
    } else if key == "io_uring_entries"@ {
        Some(whole(c.io_uring_entries as int))
    } else if key == "io_uring_sq_thread"@ {
        Some(whole(c.io_uring_sq_thread as int))
    } else {
        None
    }
}

/// A setting of `udp` by its key.
pub open spec fn udp_setting(c: UdpConfig, key: Seq<char>) -> Option<Json> {
    if key == "rcvbuf"@ {
        Some(whole(c.rcvbuf as int))
    } else if key == "sndbuf"@ {
        Some(whole(c.sndbuf as int))
    } else if key == "gso_segment_size"@ {
        Some(whole(c.gso_segment_size as int))
    } else if key == "gro"@ {
        Some(Json::Bool(c.gro))
    } else if key == "zerocopy"@ {
        Some(Json::Bool(c.zerocopy))
    } else if key == "reuseport"@ {
        Some(Json::Bool(c.reuseport))
    } else if key == "incoming_cpu"@ {
        Some(Json::Bool(c.incoming_cpu))
    } else {
        None
    }
}

/// A setting of `tcp` by its key.
pub open spec fn tcp_setting(c: TcpConfig, key: Seq<char>) -> Option<Json> {
    if key == "nodelay"@ {
        Some(Json::Bool(c.nodelay))
    } else if key == "quickack"@ {
        Some(Json::Bool(c.quickack))
    } else if key == "defer_accept"@ {
        Some(Json::Bool(c.defer_accept))
    } else if key == "fastopen"@ {
        Some(whole(c.fastopen as int))
    } else if key == "cork"@ {
        Some(Json::Bool(c.cork))
    } else if key == "reuseport"@ {
        Some(Json::Bool(c.reuseport))
    } else if key == "rcvbuf"@ {
        Some(whole(c.rcvbuf as int))
    } else if key == "sndbuf"@ {
        Some(whole(c.sndbuf as int))
    } else {
        None
    }
}

/// A setting of `sctp` by its key.
pub open spec fn sctp_setting(c: SctpConfig, key: Seq<char>) -> Option<Json> {
    if key == "nodelay"@ {
        Some(Json::Bool(c.nodelay))
    } else if key == "init_max_streams"@ {
        Some(whole(c.init_max_streams as int))
    } else if key == "partial_delivery_point"@ {
        Some(whole(c.partial_delivery_point as int))
    } else if key == "max_burst"@ {
        Some(whole(c.max_burst as int))
    } else if key == "reuseport"@ {
        Some(Json::Bool(c.reuseport))
    } else {
        None
    }
}

/// A setting of `metrics` by its key.
pub open spec fn metrics_setting(c: MetricsConfig, key: Seq<char>) -> Option<Json> {
    if key == "socket_path"@ {
        Some(Json::Str(c.socket_path@))
    } else {
        None
    }
}

/// A setting of `zero_copy` by its key.
pub open spec fn zero_copy_setting(c: ZeroCopyConfig, key: Seq<char>) -> Option<Json> {
    if key == "splice"@ {
        Some(Json::Bool(c.splice))
    } else if key == "registered_buffers"@ {
        Some(Json::Bool(c.registered_buffers))
    } else if key == "udp_zerocopy"@ {
        Some(Json::Bool(c.udp_zerocopy))
    } else {
        None
    }
}

/// A setting of `af_xdp` by its key.
pub open spec fn af_xdp_setting(c: AfXdpConfig, key: Seq<char>) -> Option<Json> {
    if key == "device"@ {
        Some(Json::Str(c.device@))
    } else if key == "queue"@ {
        Some(whole(c.queue as int))
    } else {
        None
    }
}

/// A setting of `engine` by its key.
pub open spec fn engine_setting(c: EngineConfig, key: Seq<char>) -> Option<Json> {
    if key == "udp_bind"@ {
        Some(Json::Str(c.udp_bind@))
    } else if key == "tcp_bind"@ {
        Some(Json::Str(c.tcp_bind@))
    } else {
        None
    }
}

/// The setting of a configuration that a section and a key of the table
/// name.
pub open spec fn setting(c: Config, section: Seq<char>, key: Seq<char>) -> Option<Json> {
    if section == "core"@ {
        core_setting(c.core, key)
    } else if section == "reactor"@ {
        reactor_setting(c.reactor, key)
    } else if section == "udp"@ {
        udp_setting(c.udp, key)
    } else if section == "tcp"@ {
        tcp_setting(c.tcp, key)
    } else if section == "sctp"@ {
        sctp_setting(c.sctp, key)
    } else if section == "metrics"@ {
        metrics_setting(c.metrics, key)
    } else if section == "zero_copy"@ {
        zero_copy_setting(c.zero_copy, key)
    } else if section == "af_xdp"@ {
        af_xdp_setting(c.af_xdp, key)
    } else if section == "engine"@ {
        engine_setting(c.engine, key)
    } else {
        None
    }
}

proof fn lemma_core_defaults(c: CoreConfig, i: int)
    requires
        call_ensures(CoreConfig::default, (), c),
        0 <= i < config_table::core_table().len(),
    ensures
        ({
            let f = config_table::core_table()[i];
            core_setting(c, f.key@) == Some(config_model::field_json(f))
        }),
{
    config_table::law_table_is_consistent();
    let t = config_table::core_table();
    assert(config_table::section_table()[0].fields == t);
    assert(config_table::fields_fit(t));
    reveal_strlit("true");
    reveal_strlit("false");
    assert("true"@.len() != "false"@.len());
    reveal_strlit("0");
    assert("0"@ =~= seq!['0']);
    config_table::lemma_digit("0"@, '0');
    config_table::lemma_number_1048576();
}

proof fn lemma_reactor_defaults(c: ReactorConfig, i: int)
    requires
        call_ensures(ReactorConfig::default, (), c),
        0 <= i < config_table::reactor_table().len(),
        config_table::reactor_table()[i].key@ != "busy_poll"@,
    ensures
        ({
            let f = config_table::reactor_table()[i];
            reactor_setting(c, f.key@) == Some(config_model::field_json(f))
        }),
{
    config_table::law_table_is_consistent();
    let t = config_table::reactor_table();
    assert(config_table::section_table()[1].fields == t);
    assert(config_table::fields_fit(t));
    reveal_strlit("true");
    reveal_strlit("false");
    assert("true"@.len() != "false"@.len());
    reveal_strlit("0");
    assert("0"@ =~= seq!['0']);
    config_table::lemma_digit("0"@, '0');
    config_table::lemma_number_256();
}

proof fn lemma_udp_defaults(c: UdpConfig, i: int)
    requires
        call_ensures(UdpConfig::default, (), c),
        0 <= i < config_table::udp_table().len(),
    ensures
        ({
            let f = config_table::udp_table()[i];
            udp_setting(c, f.key@) == Some(config_model::field_json(f))
        }),
{
    config_table::law_table_is_consistent();
    let t = config_table::udp_table();
    assert(config_table::section_table()[2].fields == t);
    assert(config_table::fields_fit(t));
    reveal_strlit("true");
    reveal_strlit("false");
    assert("true"@.len() != "false"@.len());
    reveal_strlit("0");
    assert("0"@ =~= seq!['0']);
    config_table::lemma_digit("0"@, '0');
    config_table::lemma_number_4194304();
}

proof fn lemma_tcp_defaults(c: TcpConfig, i: int)
    requires
        call_ensures(TcpConfig::default, (), c),
        0 <= i < config_table::tcp_table().len(),
    ensures
        ({
            let f = config_table::tcp_table()[i];
            tcp_setting(c, f.key@) == Some(config_model::field_json(f))
        }),
{
    config_table::law_table_is_consistent();
    let t = config_table::tcp_table();
    assert(config_table::section_table()[3].fields == t);
    assert(config_table::fields_fit(t));
    reveal_strlit("true");
    reveal_strlit("false");
    assert("true"@.len() != "false"@.len());
    reveal_strlit("0");
    assert("0"@ =~= seq!['0']);
    config_table::lemma_digit("0"@, '0');
    config_table::lemma_number_4194304();
}

proof fn lemma_sctp_defaults(c: SctpConfig, i: int)
    requires
        call_ensures(SctpConfig::default, (), c),
        0 <= i < config_table::sctp_table().len(),
    ensures
        ({
            let f = config_table::sctp_table()[i];
            sctp_setting(c, f.key@) == Some(config_model::field_json(f))
        }),
{
    config_table::law_table_is_consistent();
    let t = config_table::sctp_table();
    assert(config_table::section_table()[4].fields == t);
    assert(config_table::fields_fit(t));
    reveal_strlit("true");
    reveal_strlit("false");
    assert("true"@.len() != "false"@.len());
    reveal_strlit("0");
    assert("0"@ =~= seq!['0']);
    config_table::lemma_digit("0"@, '0');
    config_table::lemma_number_10();
}

proof fn lemma_metrics_defaults(c: MetricsConfig, i: int)
    requires
        call_ensures(MetricsConfig::default, (), c),
        0 <= i < config_table::metrics_table().len(),
    ensures
        ({
            let f = config_table::metrics_table()[i];
            metrics_setting(c, f.key@) == Some(config_model::field_json(f))
        }),
{
    config_table::law_table_is_consistent();
    let t = config_table::metrics_table();
    assert(config_table::section_table()[5].fields == t);
    assert(config_table::fields_fit(t));
}

proof fn lemma_zero_copy_defaults(c: ZeroCopyConfig, i: int)
    requires
        call_ensures(ZeroCopyConfig::default, (), c),
        0 <= i < config_table::zero_copy_table().len(),
    ensures
        ({
            let f = config_table::zero_copy_table()[i];
            zero_copy_setting(c, f.key@) == Some(config_model::field_json(f))
        }),
{
    config_table::law_table_is_consistent();
    let t = config_table::zero_copy_table();
    assert(config_table::section_table()[6].fields == t);
    assert(config_table::fields_fit(t));
    reveal_strlit("true");
    reveal_strlit("false");
    assert("true"@.len() != "false"@.len());
}

proof fn lemma_af_xdp_defaults(c: AfXdpConfig, i: int)
    requires
        call_ensures(AfXdpConfig::default, (), c),
        0 <= i < config_table::af_xdp_table().len(),
    ensures
        ({
            let f = config_table::af_xdp_table()[i];
            af_xdp_setting(c, f.key@) == Some(config_model::field_json(f))
        }),
{
    config_table::law_table_is_consistent();
    let t = config_table::af_xdp_table();
    assert(config_table::section_table()[7].fields == t);
    assert(config_table::fields_fit(t));
    reveal_strlit("0");
    assert("0"@ =~= seq!['0']);
    config_table::lemma_digit("0"@, '0');
}

proof fn lemma_engine_defaults(c: EngineConfig, i: int)
    requires
        call_ensures(EngineConfig::default, (), c),
        0 <= i < config_table::engine_table().len(),
    ensures
        ({
            let f = config_table::engine_table()[i];
            engine_setting(c, f.key@) == Some(config_model::field_json(f))
        }),
{
    config_table::law_table_is_consistent();
    let t = config_table::engine_table();
    assert(config_table::section_table()[8].fields == t);
    assert(config_table::fields_fit(t));
}

/// Every default of the table but that of `reactor.busy_poll` is the
/// engine's own: the setting that the section and the key name in the
/// default configuration.
pub proof fn law_table_holds_the_engine_defaults(c: Config, i: int, j: int)
    requires
        call_ensures(Config::default, (), c),
        0 <= i < config_table::section_table().len(),
        0 <= j < config_table::section_table()[i].fields.len(),
        config_table::section_table()[i].name != "reactor"@
            || config_table::section_table()[i].fields[j].key@ != "busy_poll"@,
    ensures
        ({
            let s = config_table::section_table()[i];
            let f = s.fields[j];
            setting(c, s.name, f.key@) == Some(config_model::field_json(f))
        }),
{
    config_table::law_table_is_consistent();
    let t = config_table::section_table();
    if i == 0 {
        lemma_core_defaults(c.core, j);
    } else if i == 1 {
        assert(t[0].name != t[1].name);
        lemma_reactor_defaults(c.reactor, j);
    } else if i == 2 {
        assert(t[0].name != t[2].name);
        assert(t[1].name != t[2].name);
        lemma_udp_defaults(c.udp, j);
    } else if i == 3 {
        assert(t[0].name != t[3].name);
        assert(t[1].name != t[3].name);
        assert(t[2].name != t[3].name);
        lemma_tcp_defaults(c.tcp, j);
    } else if i == 4 {
        assert(t[0].name != t[4].name);
        assert(t[1].name != t[4].name);
        assert(t[2].name != t[4].name);
        assert(t[3].name != t[4].name);
        lemma_sctp_defaults(c.sctp, j);
    } else if i == 5 {
        assert(t[0].name != t[5].name);
        assert(t[1].name != t[5].name);
        assert(t[2].name != t[5].name);
        assert(t[3].name != t[5].name);
        assert(t[4].name != t[5].name);
        lemma_metrics_defaults(c.metrics, j);
    } else if i == 6 {
        assert(t[0].name != t[6].name);
        assert(t[1].name != t[6].name);
        assert(t[2].name != t[6].name);
        assert(t[3].name != t[6].name);
        assert(t[4].name != t[6].name);
        assert(t[5].name != t[6].name);
        lemma_zero_copy_defaults(c.zero_copy, j);
    } else if i == 7 {
        assert(t[0].name != t[7].name);
        assert(t[1].name != t[7].name);
        assert(t[2].name != t[7].name);
        assert(t[3].name != t[7].name);
        assert(t[4].name != t[7].name);
        assert(t[5].name != t[7].name);
        assert(t[6].name != t[7].name);
        lemma_af_xdp_defaults(c.af_xdp, j);
    } else if i == 8 {
        assert(t[0].name != t[8].name);
        assert(t[1].name != t[8].name);
        assert(t[2].name != t[8].name);
        assert(t[3].name != t[8].name);
        assert(t[4].name != t[8].name);
        assert(t[5].name != t[8].name);
        assert(t[6].name != t[8].name);
        assert(t[7].name != t[8].name);
        lemma_engine_defaults(c.engine, j);
    }
}

/// What is emitted without a measured cache is the engine's own default
/// configuration, field by field, but for `reactor.busy_poll`.
pub proof fn law_emitted_config_holds_the_engine_defaults(c: Config, i: int, j: int)
    requires
        call_ensures(Config::default, (), c),
        0 <= i < config_table::section_table().len(),
        0 <= j < config_table::section_table()[i].fields.len(),
        config_table::section_table()[i].name != "reactor"@
            || config_table::section_table()[i].fields[j].key@ != "busy_poll"@,
    ensures
        ({
            let s = config_table::section_table()[i];
            let f = s.fields[j];
            let root = config_model::config_json(None)->Object_0;
            &&& config_model::config_json(None) is Object
            &&& root.contains_key(s.name)
            &&& root[s.name] is Object
            &&& root[s.name]->Object_0.contains_key(f.key@)
            &&& setting(c, s.name, f.key@) == Some(root[s.name]->Object_0[f.key@])
        }),
{
    config_table::law_table_is_consistent();
    let t = config_table::section_table();
    law_table_holds_the_engine_defaults(c, i, j);
    assert(config_table::fields_fit(t[i].fields));
    lemma_section_at(t, i);
    lemma_default_at(t[i].fields, j);
}

proof fn lemma_section_at(t: Seq<config_table::Section>, i: int)
    requires
        0 <= i < t.len(),
        forall|a: int, b: int|
            0 <= a < b < t.len() ==> (#[trigger] t[a]).name != (#[trigger] t[b]).name,
    ensures
        config_model::sections_object(t, None).contains_key(t[i].name),
        config_model::sections_object(t, None)[t[i].name] == Json::Object(
            config_model::section_object(t[i], None),
        ),
    decreases t.len(),
{
    if i < t.len() - 1 {
        let front = t.drop_last();
        assert(t[i].name != t[t.len() - 1].name);
        assert forall|a: int, b: int| 0 <= a < b < front.len() implies (#[trigger] front[a]).name
            != (#[trigger] front[b]).name by {
            assert(t[a].name != t[b].name);
        }
        lemma_section_at(front, i);
    }
}

proof fn lemma_default_at(fields: Seq<config_table::FieldDef>, j: int)
    requires
        0 <= j < fields.len(),
        forall|a: int, b: int|
            0 <= a < b < fields.len() ==> (#[trigger] fields[a]).key@ != (
            #[trigger] fields[b]).key@,
    ensures
        config_model::defaults(fields).contains_key(fields[j].key@),
        config_model::defaults(fields)[fields[j].key@] == config_model::field_json(fields[j]),
    decreases fields.len(),
{
    if j < fields.len() - 1 {
        let front = fields.drop_last();
        assert(fields[j].key@ != fields[fields.len() - 1].key@);
        assert forall|a: int, b: int| 0 <= a < b < front.len() implies (#[trigger] front[a]).key@
            != (#[trigger] front[b]).key@ by {
            assert(fields[a].key@ != fields[b].key@);
        }
        lemma_default_at(front, j);
    }
}

} // verus!

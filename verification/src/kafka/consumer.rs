use vstd::prelude::*;
use super::types::KafkaConfig;
use crate::utils::kafka::{
    configure_security, put, put_all, security_settings, settings_view, Setting,
};

verus! {

/// The settings that every consumer of this reader gets, whatever its security: where to
/// connect, a fixed group, no commits and no stored offsets, short timeouts so that
/// partitions are reassigned quickly, and fetches tuned for browsing.
pub open spec fn base_settings(broker: Seq<char>) -> Seq<(Seq<char>, Seq<char>)> {
    seq![
        ("bootstrap.servers"@, broker),
        ("group.id"@, "rkui-consumer"@),
        ("enable.partition.eof"@, "false"@),
        ("enable.auto.commit"@, "false"@),
        ("socket.timeout.ms"@, "10000"@),
        ("session.timeout.ms"@, "10000"@),
        ("metadata.max.age.ms"@, "10000"@),
        ("connections.max.idle.ms"@, "30000"@),
        ("fetch.wait.max.ms"@, "100"@),
        ("fetch.min.bytes"@, "1"@),
        ("fetch.max.bytes"@, "52428800"@),
        ("enable.auto.offset.store"@, "false"@),
        ("auto.offset.reset"@, "earliest"@),
        ("queued.min.messages"@, "1000"@),
        ("queued.max.messages.kbytes"@, "51200"@),
        ("reconnect.backoff.ms"@, "100"@),
        ("reconnect.backoff.max.ms"@, "10000"@),
        ("allow.auto.create.topics"@, "false"@),
    ]
}

/// Lists the settings of the consumer for `config`: the base settings, then those of its
/// security type. `ca_location` is the path that the CA source of the settings led to, if
/// it led to one. No name occurs twice among the base settings.
pub fn consumer_settings(config: &KafkaConfig, ca_location: Option<&str>) -> (r: Vec<Setting>)
    ensures
        settings_view(r@) == base_settings(config.broker@) + security_settings(
            *config,
            match ca_location {
                Some(p) => Some(p@),
                None => None,
            },
        ),
{
    let mut out: Vec<Setting> = Vec::new();
    assert(settings_view(out@) =~= Seq::<(Seq<char>, Seq<char>)>::empty());
    put(&mut out, "bootstrap.servers", config.broker.as_str());
    put(&mut out, "group.id", "rkui-consumer");
    put(&mut out, "enable.partition.eof", "false");
    put(&mut out, "enable.auto.commit", "false");
    put(&mut out, "socket.timeout.ms", "10000");
    put(&mut out, "session.timeout.ms", "10000");
    put(&mut out, "metadata.max.age.ms", "10000");
    put(&mut out, "connections.max.idle.ms", "30000");
    put(&mut out, "fetch.wait.max.ms", "100");
    put(&mut out, "fetch.min.bytes", "1");
    put(&mut out, "fetch.max.bytes", "52428800");
    put(&mut out, "enable.auto.offset.store", "false");
    put(&mut out, "auto.offset.reset", "earliest");
    put(&mut out, "queued.min.messages", "1000");
    put(&mut out, "queued.max.messages.kbytes", "51200");
    put(&mut out, "reconnect.backoff.ms", "100");
    put(&mut out, "reconnect.backoff.max.ms", "10000");
    put(&mut out, "allow.auto.create.topics", "false");
    assert(settings_view(out@) =~= base_settings(config.broker@));
    put_all(&mut out, configure_security(config, ca_location));
    out
}

} // verus!

//! The settings that a worker process reads at start.
//!
//! The settings come as a properties text: `rpc.port`, `server.id`,
//! `server.size`, `network.servers` and `graph.vineyard.object.id` must all
//! be there. Where a key stands more than once, the last value counts.

use vstd::prelude::*;
use vstd::string::StringExecFns;
use crate::error::{ConfigError, SettingKey};
use crate::text::{
    parse_signed, parse_unsigned, signed_decimal, split, split_text, texts, unsigned_decimal,
};

verus! {

/// The network address of one worker process.
#[derive(Clone, Debug, PartialEq, Eq)]
pub struct ServerAddress {
    pub hostname: String,
    pub port: u16,
}

/// What a worker process needs to know at start.
#[derive(Clone, Debug, PartialEq, Eq)]
pub struct ServerSettings {
    /// The port on which the process serves queries.
    pub rpc_port: u16,
    /// The identifier of the process within the cluster.
    pub server_id: u64,
    /// The number of processes of the cluster.
    pub server_size: usize,
    /// The addresses of all processes; there are `server_size` of them.
    pub servers: Vec<ServerAddress>,
    /// The identifier of the graph in the store.
    pub graph_object_id: i64,
}

/// Settings as plain values.
pub ghost struct SettingsView {
    pub rpc_port: u16,
    pub server_id: u64,
    pub server_size: usize,
    pub servers: Seq<(Seq<char>, u16)>,
    pub graph_object_id: i64,
}

impl View for ServerAddress {
    type V = (Seq<char>, u16);

    open spec fn view(&self) -> (Seq<char>, u16) {
        (self.hostname@, self.port)
    }
}

impl View for ServerSettings {
    type V = SettingsView;

    open spec fn view(&self) -> SettingsView {
        SettingsView {
            rpc_port: self.rpc_port,
            server_id: self.server_id,
            server_size: self.server_size,
            servers: self.servers@.map_values(|a: ServerAddress| a@),
            graph_object_id: self.graph_object_id,
        }
    }
}

/// Key and value texts of a list of properties.
pub open spec fn properties_view(properties: Seq<(String, String)>) -> Seq<(Seq<char>, Seq<char>)> {
    properties.map_values(|p: (String, String)| (p.0@, p.1@))
}

/// The name under which a setting stands in the properties.
pub open spec fn key_name(key: SettingKey) -> Seq<char> {
    match key {
        SettingKey::RpcPort => "rpc.port"@,
        SettingKey::ServerId => "server.id"@,
        SettingKey::ServerSize => "server.size"@,
        SettingKey::NetworkServers => "network.servers"@,
        SettingKey::GraphObjectId => "graph.vineyard.object.id"@,
    }
}

/// The value of `key`: that of the last pair with this key, if there is one.
pub open spec fn lookup(properties: Seq<(Seq<char>, Seq<char>)>, key: Seq<char>) -> Option<
    Seq<char>,
>
    decreases properties.len(),
{
    if properties.len() == 0 {
        None
    } else if properties.last().0 == key {
        Some(properties.last().1)
    } else {
        lookup(properties.drop_last(), key)
    }
}

/// The number that setting `key` holds, where it is there and writes a
/// decimal number of at most `max`.
pub open spec fn unsigned_setting(
    properties: Seq<(Seq<char>, Seq<char>)>,
    key: SettingKey,
    max: nat,
) -> Result<nat, ConfigError> {
    match lookup(properties, key_name(key)) {
        None => Err(ConfigError::Missing(key)),
        Some(text) => match unsigned_decimal(text, max) {
            None => Err(ConfigError::Malformed(key)),
            Some(value) => Ok(value),
        },
    }
}

/// The number that setting `key` holds, where it is there and writes a
/// decimal number that fits 64 bits with a sign.
pub open spec fn signed_setting(properties: Seq<(Seq<char>, Seq<char>)>, key: SettingKey) -> Result<
    int,
    ConfigError,
> {
    match lookup(properties, key_name(key)) {
        None => Err(ConfigError::Missing(key)),
        Some(text) => match signed_decimal(text, i64::MIN as int, i64::MAX as int) {
            None => Err(ConfigError::Malformed(key)),
            Some(value) => Ok(value),
        },
    }
}

/// The address that `text` writes as `host:port`. The host is what stands
/// before the first colon; the port is what follows, up to a second colon
/// if there is one, and must be a decimal number of at most 65535.
pub open spec fn address_of(text: Seq<char>) -> Option<(Seq<char>, u16)> {
    let parts = split(text, ':');
    if parts.len() >= 2 {
        match unsigned_decimal(parts[1], u16::MAX as nat) {
            Some(port) => Some((parts[0], port as u16)),
            None => None,
        }
    } else {
        None
    }
}

/// The addresses that `hosts` write, where each of them writes one.
pub open spec fn addresses_of(hosts: Seq<Seq<char>>) -> Option<Seq<(Seq<char>, u16)>> {
    if forall|i: int| 0 <= i < hosts.len() ==> (#[trigger] address_of(hosts[i])) is Some {
        Some(Seq::new(hosts.len(), |i: int| address_of(hosts[i])->0))
    } else {
        None
    }
}

/// The error with which the properties parser refuses a text. It says nothing
/// more than that the text was refused.
#[verifier::external_type_specification]
#[verifier::external_body]
pub struct ExPropertiesError(dotproperties::Error);

/// The key and value pairs that the properties parser reads out of `input`,
/// in the order of the text, or `None` where it refuses the text.
pub uninterp spec fn parsed_properties(input: Seq<u8>) -> Option<Seq<(Seq<char>, Seq<char>)>>;

/// What loading settings from a properties text yields.
pub open spec fn loaded_settings(input: Seq<u8>) -> Result<SettingsView, ConfigError> {
    match parsed_properties(input) {
        Some(properties) => settings_of(properties),
        None => Err(ConfigError::Unreadable),
    }
}

/// The text of `value`, or `default` where there is none.
pub open spec fn text_or(value: Option<&str>, default: Seq<char>) -> Seq<char> {
    match value {
        Some(text) => text@,
        None => default,
    }
}

/// The address under which the storage engine opens the partitioned graph.
pub open spec fn connection_uri_of(
    endpoint: Option<&str>,
    read_epoch: Option<&str>,
    meta_prefix: Option<&str>,
) -> Seq<char> {
    "gart://"@ + text_or(endpoint, "127.0.0.1:2379"@) + "?read_epoch="@ + text_or(
        read_epoch,
        "0"@,
    ) + "&meta_prefix="@ + text_or(meta_prefix, "gart_meta_"@)
}

/// The settings that a list of properties holds, or the first thing that is
/// wrong with it. The settings are read in this order: `rpc.port`,
/// `server.id`, `server.size`, `network.servers` (that it is there),
/// `graph.vineyard.object.id`; then the addresses are counted, then read.
pub open spec fn settings_of(properties: Seq<(Seq<char>, Seq<char>)>) -> Result<
    SettingsView,
    ConfigError,
> {
    match unsigned_setting(properties, SettingKey::RpcPort, u16::MAX as nat) {
        Err(e) => Err(e),
        Ok(rpc_port) => match unsigned_setting(properties, SettingKey::ServerId, u64::MAX as nat) {
            Err(e) => Err(e),
            Ok(server_id) => match unsigned_setting(
                properties,
                SettingKey::ServerSize,
                usize::MAX as nat,
            ) {
                Err(e) => Err(e),
                Ok(server_size) => match lookup(
                    properties,
                    key_name(SettingKey::NetworkServers),
                ) {
                    None => Err(ConfigError::Missing(SettingKey::NetworkServers)),
                    Some(servers) => match signed_setting(properties, SettingKey::GraphObjectId) {
                        Err(e) => Err(e),
                        Ok(graph_object_id) => if split(servers, ',').len() != server_size {
                            Err(ConfigError::ServerCountMismatch)
                        } else {
                            match addresses_of(split(servers, ',')) {
                                None => Err(ConfigError::Malformed(SettingKey::NetworkServers)),
                                Some(addresses) => Ok(
                                    SettingsView {
                                        rpc_port: rpc_port as u16,
                                        server_id: server_id as u64,
                                        server_size: server_size as usize,
                                        servers: addresses,
                                        graph_object_id: graph_object_id as i64,
                                    },
                                ),
                            }
                        },
                    },
                },
            },
        },
    }
}

impl SettingKey {
    /// The name under which the setting stands in the properties.
    pub fn name(&self) -> (r: &'static str)
        ensures
            r@ == key_name(*self),
    {
        match self {
            SettingKey::RpcPort => "rpc.port",
            SettingKey::ServerId => "server.id",
            SettingKey::ServerSize => "server.size",
            SettingKey::NetworkServers => "network.servers",
            SettingKey::GraphObjectId => "graph.vineyard.object.id",
        }
    }
}

/// The position of the pair that gives `key` its value.
fn find(properties: &Vec<(String, String)>, key: &str) -> (r: Option<usize>)
    ensures
        match r {
            Some(at) => at < properties.len() && lookup(properties_view(properties@), key@)
                == Some(properties@[at as int].1@),
            None => lookup(properties_view(properties@), key@) is None,
        },
{
    let wanted = String::from_str(key);
    let ghost all = properties_view(properties@);
    let mut i: usize = properties.len();
    proof {
        assert(all.take(i as int) =~= all);
    }
    while i > 0
        invariant
            i <= properties.len(),
            all == properties_view(properties@),
            wanted@ == key@,
            lookup(all, key@) == lookup(all.take(i as int), key@),
        decreases i,
    {
        i = i - 1;
        proof {
            let upto = all.take(i + 1);
            assert(upto.last() == all[i as int]);
            assert(upto.drop_last() =~= all.take(i as int));
            assert(all[i as int] == (properties@[i as int].0@, properties@[i as int].1@));
        }
        if properties[i].0 == wanted {
            return Some(i);
        }
    }
    None
}

/// Reads the setting `key` as a decimal number of at most `max`.
fn read_unsigned(properties: &Vec<(String, String)>, key: SettingKey, max: u64) -> (r: Result<
    u64,
    ConfigError,
>)
    ensures
        match r {
            Ok(value) => unsigned_setting(properties_view(properties@), key, max as nat) == Ok::<
                nat,
                ConfigError,
            >(value as nat),
            Err(e) => unsigned_setting(properties_view(properties@), key, max as nat) == Err::<
                nat,
                ConfigError,
            >(e),
        },
{
    match find(properties, key.name()) {
        None => Err(ConfigError::Missing(key)),
        Some(at) => match parse_unsigned(properties[at].1.as_str(), max) {
            None => Err(ConfigError::Malformed(key)),
            Some(value) => Ok(value),
        },
    }
}

/// Reads one address, written as `host:port`.
fn read_address(text: &str) -> (r: Option<ServerAddress>)
    ensures
        match r {
            Some(address) => address_of(text@) == Some(address@),
            None => address_of(text@) is None,
        },
{
    let mut parts = split_text(text, ':');
    if parts.len() < 2 {
        return None;
    }
    proof {
        assert(texts(parts@)[0] == parts@[0]@);
        assert(texts(parts@)[1] == parts@[1]@);
    }
    match parse_unsigned(parts[1].as_str(), 0xffff) {
        None => None,
        Some(port) => {
            let hostname = String::from_str(parts[0].as_str());
            Some(ServerAddress { hostname, port: port as u16 })
        },
    }
}

/// Reads the settings of a worker process from a list of properties.
///
/// The result is the first thing that is wrong in the order in which the
/// settings are read, or the settings where nothing is.
#[verifier::loop_isolation(false)]
pub fn server_settings(properties: &Vec<(String, String)>) -> (r: Result<
    ServerSettings,
    ConfigError,
>)
    ensures
        match r {
            Ok(settings) => settings_of(properties_view(properties@)) == Ok::<
                SettingsView,
                ConfigError,
            >(settings@),
            Err(e) => settings_of(properties_view(properties@)) == Err::<
                SettingsView,
                ConfigError,
            >(e),
        },
{
    let rpc_port = match read_unsigned(properties, SettingKey::RpcPort, 0xffff) {
        Ok(value) => value as u16,
        Err(e) => {
            return Err(e);
        },
    };
    let server_id = match read_unsigned(properties, SettingKey::ServerId, u64::MAX) {
        Ok(value) => value,
        Err(e) => {
            return Err(e);
        },
    };
    let server_size = match read_unsigned(properties, SettingKey::ServerSize, usize::MAX as u64) {
        Ok(value) => value as usize,
        Err(e) => {
            return Err(e);
        },
    };
    let hosts = match find(properties, SettingKey::NetworkServers.name()) {
        Some(at) => split_text(properties[at].1.as_str(), ','),
        None => {
            return Err(ConfigError::Missing(SettingKey::NetworkServers));
        },
    };
    let graph_object_id = match find(properties, SettingKey::GraphObjectId.name()) {
        None => {
            return Err(ConfigError::Missing(SettingKey::GraphObjectId));
        },
        Some(at) => match parse_signed(properties[at].1.as_str()) {
            None => {
                return Err(ConfigError::Malformed(SettingKey::GraphObjectId));
            },
            Some(value) => value,
        },
    };
    if hosts.len() != server_size {
        return Err(ConfigError::ServerCountMismatch);
    }
    let ghost host_texts = texts(hosts@);
    let mut servers: Vec<ServerAddress> = Vec::new();
    let mut i: usize = 0;
    while i < hosts.len()
        invariant
            i <= hosts.len(),
            host_texts == texts(hosts@),
            servers@.len() == i,
            forall|j: int|
                0 <= j < i ==> address_of(host_texts[j]) == Some((#[trigger] servers@[j])@),
        decreases hosts.len() - i,
    {
        proof {
            assert(host_texts[i as int] == hosts@[i as int]@);
        }
        match read_address(hosts[i].as_str()) {
            None => {
                return Err(ConfigError::Malformed(SettingKey::NetworkServers));
            },
            Some(address) => {
                servers.push(address);
            },
        }
        i = i + 1;
    }
    let settings = ServerSettings { rpc_port, server_id, server_size, servers, graph_object_id };
    proof {
        assert forall|j: int| 0 <= j < host_texts.len() implies (#[trigger] address_of(
            host_texts[j],
        )) == Some(settings@.servers[j]) by {
            assert(address_of(host_texts[j]) == Some(servers@[j]@));
        }
        assert(settings@.servers =~= Seq::new(
            host_texts.len(),
            |i: int| address_of(host_texts[i])->0,
        ));
    }
    Ok(settings)
}

/// Calls `dotproperties::parse_from_slice`, which reads a properties text in
/// the format of Java's `Properties` class. It returns for every text: the
/// pairs in the order of the text, where a key may stand more than once, or
/// its error. The result depends on the bytes alone; what it is for given
/// bytes is not stated here, only named, and nothing about it is proved.
#[verifier::external_body]
fn parse_properties(input: &[u8]) -> (r: Result<Vec<(String, String)>, dotproperties::Error>)
    ensures
        match r {
            Ok(pairs) => parsed_properties(input@) == Some(properties_view(pairs@)),
            Err(_) => parsed_properties(input@) is None,
        },
{
    dotproperties::parse_from_slice(input)
}

/// Reads the settings of a worker process from a properties text.
///
/// A text that the parser refuses gives [`ConfigError::Unreadable`];
/// otherwise the outcome is that of [`server_settings`] on the pairs read.
pub fn load_server_settings(input: &[u8]) -> (r: Result<ServerSettings, ConfigError>)
    ensures
        match r {
            Ok(settings) => loaded_settings(input@) == Ok::<SettingsView, ConfigError>(settings@),
            Err(e) => loaded_settings(input@) == Err::<SettingsView, ConfigError>(e),
        },
{
    match parse_properties(input) {
        Ok(properties) => server_settings(&properties),
        Err(_) => Err(ConfigError::Unreadable),
    }
}

/// The address under which the storage engine opens the partitioned graph:
/// `gart://` and the endpoint of the metadata service, then the epoch from
/// which to read and the prefix of the metadata keys. What is not given
/// takes its default: `127.0.0.1:2379`, `0` and `gart_meta_`.
pub fn connection_uri(
    endpoint: Option<&str>,
    read_epoch: Option<&str>,
    meta_prefix: Option<&str>,
) -> (r: String)
    ensures
        r@ == connection_uri_of(endpoint, read_epoch, meta_prefix),
{
    let mut uri = String::from_str("gart://");
    uri.append(
        match endpoint {
            Some(text) => text,
            None => "127.0.0.1:2379",
        },
    );
    uri.append("?read_epoch=");
    uri.append(
        match read_epoch {
            Some(text) => text,
            None => "0",
        },
    );
    uri.append("&meta_prefix=");
    uri.append(
        match meta_prefix {
            Some(text) => text,
            None => "gart_meta_",
        },
    );
    uri
}

} // verus!

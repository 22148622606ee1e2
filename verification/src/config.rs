//! Converts a bounded TOML file into listener settings and validated routing.
//!
//! Runtime modules receive domain values rather than configuration tables, and
//! startup fails if any route is invalid.
use crate::address::{self, parse_address, SocketAddress};
use crate::dns::error::ParseError;
use crate::dns::name::{self, DomainName};
use crate::document::{
    self, read_document, Block, BlockView, Document, Field, FieldView, Key, KeyView, Leaf, LeafView,
    Section,
};
use crate::routing::{
    self, Route, RouteError, RouteErrorView, RouteView, RoutingTable, TableView, UpstreamAddress,
    UpstreamGroup,
};
use crate::text::{self, concat, debug_text, decimal_text, same_text};
use vstd::prelude::*;

verus! {

pub const DEFAULT_CONFIG: &'static str = "/etc/sederial/sederial.toml";

pub const MAX_CONFIG_BYTES: usize = 1048576;

pub const MAX_ROUTES: usize = 4096;

/// Why a configuration is refused.
pub enum ConfigFault {
    Syntax(toml::de::Error),
    Invalid(Seq<char>),
    ForwardingLoop,
    Routing(RouteErrorView),
}

/// Distinguishes TOML syntax and domain validation failures.
#[derive(Debug)]
pub enum ConfigError {
    Syntax(toml::de::Error),
    Invalid(String),
    ForwardingLoop,
    Routing(RouteError),
}

impl View for ConfigError {
    type V = ConfigFault;

    open spec fn view(&self) -> ConfigFault {
        match self {
            ConfigError::Syntax(error) => ConfigFault::Syntax(*error),
            ConfigError::Invalid(text) => ConfigFault::Invalid(text@),
            ConfigError::ForwardingLoop => ConfigFault::ForwardingLoop,
            ConfigError::Routing(error) => ConfigFault::Routing(error@),
        }
    }
}

impl ConfigError {
    /// Explains the failure; a syntax error is explained by the TOML reader.
    pub fn message(&self) -> (r: String)
        ensures
            match self {
                ConfigError::Syntax(error) => vstd::string::to_string_from_display_ensures(
                    error,
                    r,
                ),
                ConfigError::Invalid(text) => r@ == text@,
                ConfigError::ForwardingLoop => r@
                    == "upstream points to the listener (forwarding loop)"@,
                ConfigError::Routing(error) => r@ == error@.text(),
            },
    {
        match self {
            ConfigError::Syntax(error) => error.to_string(),
            ConfigError::Invalid(text) => text.clone(),
            ConfigError::ForwardingLoop => String::from_str(
                "upstream points to the listener (forwarding loop)",
            ),
            ConfigError::Routing(error) => error.message(),
        }
    }
}

/// A list of entries by their keys.
pub open spec fn keys_of<T>(entries: Seq<(Key, T)>) -> Seq<KeyView> {
    entries.map_values(|entry: (Key, T)| entry.0@)
}

/// The keys of a list of viewed entries.
pub open spec fn view_keys<T>(entries: Seq<(KeyView, T)>) -> Seq<KeyView> {
    entries.map_values(|entry: (KeyView, T)| entry.0)
}

/// The first place of a key.
pub open spec fn key_place(keys: Seq<KeyView>, key: Seq<char>, from: int) -> Option<int>
    decreases keys.len() - from,
{
    if from >= keys.len() {
        None
    } else if keys[from].name == key {
        Some(from)
    } else {
        key_place(keys, key, from + 1)
    }
}

/// The value of a key in a table.
pub open spec fn value_at<T>(entries: Seq<(KeyView, T)>, key: Seq<char>) -> Option<T> {
    match key_place(view_keys(entries), key, 0) {
        Some(at) => Some(entries[at].1),
        None => None,
    }
}

/// The first key that is none of the allowed ones.
pub open spec fn unknown_key(keys: Seq<KeyView>, allowed: Seq<Seq<char>>, from: int) -> Option<
    KeyView,
>
    decreases keys.len() - from,
{
    if from >= keys.len() {
        None
    } else if !allowed.contains(keys[from].name) {
        Some(keys[from])
    } else {
        unknown_key(keys, allowed, from + 1)
    }
}

/// The complaint about a key that is not known, with its place in the text.
pub open spec fn unknown_text(context: Seq<char>, key: KeyView) -> Seq<char> {
    context + ": unknown key Spanned { span: "@ + text::decimal(key.start as nat) + ".."@
        + text::decimal(key.end as nat) + ", value: "@ + text::debug_form(key.name) + " }"@
}

/// The endpoints of a list of settings from an element on.
///
/// Each must be the text of a unicast endpoint that is not the listener itself,
/// in whichever spelling.
pub open spec fn servers_from(
    leaves: Seq<LeafView>,
    listen: SocketAddress,
    from: int,
) -> Result<Seq<SocketAddress>, ConfigFault>
    decreases leaves.len() - from,
{
    if from >= leaves.len() {
        Ok(Seq::empty())
    } else {
        match leaves[from] {
            LeafView::Other => Err(ConfigFault::Invalid("server address must be a string"@)),
            LeafView::Text(raw) => match address::endpoint_text(raw) {
                None => Err(
                    ConfigFault::Invalid("invalid upstream address "@ + text::debug_form(raw)),
                ),
                Some(endpoint) => if endpoint.meets(listen) {
                    Err(ConfigFault::ForwardingLoop)
                } else {
                    match routing::upstream_of(endpoint) {
                        None => Err(ConfigFault::Routing(RouteErrorView::InvalidAddress)),
                        Some(server) => match servers_from(leaves, listen, from + 1) {
                            Ok(rest) => Ok(seq![server] + rest),
                            Err(fault) => Err(fault),
                        },
                    }
                },
            },
        }
    }
}

/// The upstream group of a table of settings.
pub open spec fn group_of(entries: Seq<(KeyView, FieldView)>, listen: SocketAddress) -> Result<
    Seq<SocketAddress>,
    ConfigFault,
> {
    match value_at(entries, "servers"@) {
        Some(FieldView::List(leaves)) => match servers_from(leaves, listen, 0) {
            Ok(servers) => match routing::group_fault(servers) {
                None => Ok(servers),
                Some(fault) => Err(ConfigFault::Routing(fault)),
            },
            Err(fault) => Err(fault),
        },
        _ => Err(
            ConfigFault::Invalid(
                "servers: expected an array of IP address strings with optional ports"@,
            ),
        ),
    }
}

/// The name of a route in complaints.
pub open spec fn route_label(index: int) -> Seq<char> {
    "route "@ + text::decimal(index as nat)
}

/// One route.
pub open spec fn route_of(
    element: Option<Seq<(KeyView, FieldView)>>,
    listen: SocketAddress,
    index: int,
) -> Result<RouteView, ConfigFault> {
    match element {
        None => Err(ConfigFault::Invalid(route_label(index) + ": expected a table"@)),
        Some(entries) => match unknown_key(view_keys(entries), seq!["domain"@, "servers"@], 0) {
            Some(key) => Err(ConfigFault::Invalid(unknown_text(route_label(index), key))),
            None => match value_at(entries, "domain"@) {
                Some(FieldView::Text(domain)) => match name::text_name(domain) {
                    Err(error) => Err(
                        ConfigFault::Invalid(route_label(index) + " domain: "@ + error.text()),
                    ),
                    Ok(suffix) => match group_of(entries, listen) {
                        Ok(upstreams) => Ok(RouteView { suffix, upstreams }),
                        Err(fault) => Err(fault),
                    },
                },
                _ => Err(ConfigFault::Invalid("domain: expected a string"@)),
            },
        },
    }
}

/// The routes of an array from an element on.
pub open spec fn routes_from(
    elements: Seq<Option<Seq<(KeyView, FieldView)>>>,
    listen: SocketAddress,
    from: int,
) -> Result<Seq<RouteView>, ConfigFault>
    decreases elements.len() - from,
{
    if from >= elements.len() {
        Ok(Seq::empty())
    } else {
        match route_of(elements[from], listen, from) {
            Ok(route) => match routes_from(elements, listen, from + 1) {
                Ok(rest) => Ok(seq![route] + rest),
                Err(fault) => Err(fault),
            },
            Err(fault) => Err(fault),
        }
    }
}

/// The routes of a file; it may have none.
pub open spec fn routes_of(block: Option<BlockView>, listen: SocketAddress) -> Result<
    Seq<RouteView>,
    ConfigFault,
> {
    match block {
        None => Ok(Seq::empty()),
        Some(BlockView::Sections(elements)) => if elements.len() > MAX_ROUTES {
            Err(ConfigFault::Invalid("at most 4096 routes are supported"@))
        } else {
            routes_from(elements, listen, 0)
        },
        Some(_) => Err(ConfigFault::Invalid("route must be an array of tables"@)),
    }
}

/// The listener of a file: a unicast endpoint in its canonical spelling.
pub open spec fn listener_of(block: Option<BlockView>) -> Result<SocketAddress, ConfigFault> {
    match block {
        Some(BlockView::Text(raw)) => match address::endpoint_text(raw) {
            None => Err(
                ConfigFault::Invalid(
                    "listen must be an IP address with an optional port (IPv6 with port: [address]:port)"@,
                ),
            ),
            Some(endpoint) => match routing::upstream_of(endpoint) {
                None => Err(
                    ConfigFault::Invalid("listen: "@ + RouteErrorView::InvalidAddress.text()),
                ),
                Some(listen) => Ok(listen),
            },
        },
        _ => Err(ConfigFault::Invalid("listen: expected a string"@)),
    }
}

/// The default group of a file.
pub open spec fn default_of(block: Option<BlockView>, listen: SocketAddress) -> Result<
    Seq<SocketAddress>,
    ConfigFault,
> {
    match block {
        Some(BlockView::Table(entries)) => match unknown_key(
            view_keys(entries),
            seq!["servers"@],
            0,
        ) {
            Some(key) => Err(ConfigFault::Invalid(unknown_text("default"@, key))),
            None => group_of(entries, listen),
        },
        _ => Err(ConfigFault::Invalid("missing [default] table"@)),
    }
}

/// A listener and the policy for its queries.
pub struct ConfigView {
    pub listen: SocketAddress,
    pub routing: TableView,
}

/// The configuration in a file of settings, or the first fault in it.
pub open spec fn config_of(entries: Seq<(KeyView, BlockView)>) -> Result<ConfigView, ConfigFault> {
    match unknown_key(view_keys(entries), seq!["listen"@, "default"@, "route"@], 0) {
        Some(key) => Err(ConfigFault::Invalid(unknown_text("configuration"@, key))),
        None => match listener_of(value_at(entries, "listen"@)) {
            Err(fault) => Err(fault),
            Ok(listen) => match default_of(value_at(entries, "default"@), listen) {
                Err(fault) => Err(fault),
                Ok(default) => match routes_of(value_at(entries, "route"@), listen) {
                    Err(fault) => Err(fault),
                    Ok(routes) => match routing::first_repeat(routes, 0) {
                        Some(i) => Err(
                            ConfigFault::Routing(RouteErrorView::DuplicateRoute(routes[i].suffix)),
                        ),
                        None => Ok(
                            ConfigView {
                                listen,
                                routing: TableView {
                                    default,
                                    routes: routing::by_specificity(routes),
                                },
                            },
                        ),
                    },
                },
            },
        },
    }
}

/// The configuration in the text of a file.
pub open spec fn config_text(text: Seq<char>) -> Result<ConfigView, ConfigFault> {
    match document::toml_root(text) {
        Ok(table) => config_of(document::document_of(table)),
        Err(error) => Err(ConfigFault::Syntax(error)),
    }
}

/// The value of a key in a table.
fn get<'a, T>(entries: &'a Vec<(Key, T)>, key: &str) -> (r: Option<&'a T>)
    ensures
        match key_place(keys_of(entries@), key@, 0) {
            Some(at) => 0 <= at < entries@.len() && r == Some(&entries@[at].1),
            None => r is None,
        },
{
    let ghost keys = keys_of(entries@);
    let mut i: usize = 0;
    while i < entries.len()
        invariant
            i <= entries@.len(),
            keys == keys_of(entries@),
            key_place(keys, key@, 0) == key_place(keys, key@, i as int),
        decreases entries@.len() - i,
    {
        assert(keys[i as int] == entries@[i as int].0@);
        if same_text(entries[i].0.name.as_str(), key) {
            return Some(&entries[i].1);
        }
        i += 1;
    }
    None
}

/// Whether a text is among others.
fn listed(texts: &[&str], wanted: &str) -> (r: bool)
    ensures
        r == texts@.map_values(|text: &str| text@).contains(wanted@),
{
    let ghost views = texts@.map_values(|text: &str| text@);
    let mut i: usize = 0;
    while i < texts.len()
        invariant
            i <= texts@.len(),
            views == texts@.map_values(|text: &str| text@),
            forall|k: int| 0 <= k < i ==> views[k] != wanted@,
        decreases texts@.len() - i,
    {
        assert(views[i as int] == texts@[i as int]@);
        if same_text(texts[i], wanted) {
            return true;
        }
        i += 1;
    }
    false
}

/// Complains about the first key that is none of the allowed ones.
fn reject_unknown_keys<T>(entries: &Vec<(Key, T)>, allowed: &[&str], context: &str) -> (r: Result<
    (),
    ConfigError,
>)
    ensures
        match unknown_key(keys_of(entries@), allowed@.map_values(|text: &str| text@), 0) {
            Some(key) => r is Err && r->Err_0@ == ConfigFault::Invalid(unknown_text(context@, key)),
            None => r is Ok,
        },
{
    let ghost keys = keys_of(entries@);
    let ghost known = allowed@.map_values(|text: &str| text@);
    let mut i: usize = 0;
    while i < entries.len()
        invariant
            i <= entries@.len(),
            keys == keys_of(entries@),
            known == allowed@.map_values(|text: &str| text@),
            unknown_key(keys, known, 0) == unknown_key(keys, known, i as int),
        decreases entries@.len() - i,
    {
        let key = &entries[i].0;
        assert(keys[i as int] == key@);
        if !listed(allowed, key.name.as_str()) {
            let mut out: String = String::from_str(context);
            out.append(": unknown key Spanned { span: ");
            out.append(decimal_text(key.start as u64).as_str());
            out.append("..");
            out.append(decimal_text(key.end as u64).as_str());
            out.append(", value: ");
            out.append(debug_text(key.name.as_str()).as_str());
            out.append(" }");
            return Err(ConfigError::Invalid(out));
        }
        i += 1;
    }
    Ok(())
}

/// Fails with a complaint.
fn invalid<T>(text: &str) -> (r: Result<T, ConfigError>)
    ensures
        r is Err,
        r->Err_0@ == ConfigFault::Invalid(text@),
{
    Err(ConfigError::Invalid(String::from_str(text)))
}

/// The value of a key in a table of settings.
fn field<'a>(section: &'a Section, key: &str) -> (r: Option<&'a Field>)
    ensures
        match (value_at(section@, key@), r) {
            (Some(value), Some(field)) => field@ == value,
            (None, None) => true,
            _ => false,
        },
{
    assert(view_keys(section@) =~= keys_of(section.entries@));
    get(&section.entries, key)
}

/// The value of a key at the top of a file.
fn block<'a>(document: &'a Document, key: &str) -> (r: Option<&'a Block>)
    ensures
        match (value_at(document@, key@), r) {
            (Some(value), Some(block)) => block@ == value,
            (None, None) => true,
            _ => false,
        },
{
    assert(view_keys(document@) =~= keys_of(document.entries@));
    get(&document.entries, key)
}

/// One endpoint of a group.
fn parse_server(leaf: &Leaf, listen: SocketAddress) -> (r: Result<UpstreamAddress, ConfigError>)
    ensures
        match servers_from(seq![leaf@], listen, 0) {
            Ok(servers) => r is Ok && servers == seq![r->Ok_0@],
            Err(fault) => r is Err && r->Err_0@ == fault,
        },
{
    proof {
        reveal_with_fuel(servers_from, 2);
    }
    let raw = match leaf {
        Leaf::Other => {
            return invalid("server address must be a string");
        },
        Leaf::Text(raw) => raw,
    };
    let endpoint = match parse_address(raw.as_str()) {
        None => {
            return Err(
                ConfigError::Invalid(
                    concat("invalid upstream address ", debug_text(raw.as_str()).as_str()),
                ),
            );
        },
        Some(endpoint) => endpoint,
    };
    // Compare canonical IPs so an IPv4-mapped spelling cannot hide a direct
    // loop. Loops through other resolvers are outside local validation.
    if endpoint.same_endpoint(listen) {
        return Err(ConfigError::ForwardingLoop);
    }
    match UpstreamAddress::new(endpoint) {
        Ok(server) => {
            assert(seq![server@] + Seq::<SocketAddress>::empty() =~= seq![server@]);
            Ok(server)
        },
        Err(error) => Err(ConfigError::Routing(error)),
    }
}

/// A list of endpoints, one element at a time.
proof fn next_server(leaves: Seq<LeafView>, listen: SocketAddress, from: int)
    requires
        0 <= from < leaves.len(),
    ensures
        servers_from(leaves, listen, from) == (match servers_from(seq![leaves[from]], listen, 0) {
            Ok(first) => match servers_from(leaves, listen, from + 1) {
                Ok(rest) => Ok(first + rest),
                Err(fault) => Err(fault),
            },
            Err(fault) => Err::<Seq<SocketAddress>, ConfigFault>(fault),
        }),
{
    reveal_with_fuel(servers_from, 2);
    match leaves[from] {
        LeafView::Text(raw) => match address::endpoint_text(raw) {
            Some(endpoint) => match routing::upstream_of(endpoint) {
                Some(server) => {
                    assert(seq![server] + Seq::<SocketAddress>::empty() =~= seq![server]);
                },
                None => {},
            },
            None => {},
        },
        LeafView::Other => {},
    }
}

/// Preserves configured failover order while validating endpoints and self-loops.
fn parse_upstream_group(section: &Section, listen: SocketAddress) -> (r: Result<
    UpstreamGroup,
    ConfigError,
>)
    ensures
        match group_of(section@, listen) {
            Ok(servers) => r is Ok && r->Ok_0@ == servers,
            Err(fault) => r is Err && r->Err_0@ == fault,
        },
{
    let leaves = match field(section, "servers") {
        Some(Field::List(leaves)) => leaves,
        _ => {
            return invalid("servers: expected an array of IP address strings with optional ports");
        },
    };
    let ghost listed = leaves@.map_values(|leaf: Leaf| leaf@);
    let mut addresses: Vec<UpstreamAddress> = Vec::new();
    let mut i: usize = 0;
    proof {
        match servers_from(listed, listen, 0) {
            Ok(all) => {
                assert(routing::sockets(addresses@) + all =~= all);
            },
            Err(_) => {},
        }
    }
    while i < leaves.len()
        invariant
            i <= leaves@.len(),
            listed == leaves@.map_values(|leaf: Leaf| leaf@),
            value_at(section@, "servers"@) == Some(FieldView::List(listed)),
            servers_from(listed, listen, 0) == (match servers_from(listed, listen, i as int) {
                Ok(rest) => Ok(routing::sockets(addresses@) + rest),
                Err(fault) => Err::<Seq<SocketAddress>, ConfigFault>(fault),
            }),
        decreases leaves@.len() - i,
    {
        let ghost before = routing::sockets(addresses@);
        assert(listed[i as int] == leaves@[i as int]@);
        proof {
            next_server(listed, listen, i as int);
        }
        let server = parse_server(&leaves[i], listen)?;
        let ghost endpoint = server@;
        addresses.push(server);
        proof {
            assert(routing::sockets(addresses@) =~= before.push(endpoint));
            match servers_from(listed, listen, i + 1) {
                Ok(rest) => {
                    assert(before + (seq![endpoint] + rest) =~= before.push(endpoint) + rest);
                },
                Err(_) => {},
            }
        }
        i += 1;
    }
    assert(routing::sockets(addresses@) + Seq::<SocketAddress>::empty() =~= routing::sockets(
        addresses@,
    ));
    match UpstreamGroup::new(addresses) {
        Ok(group) => Ok(group),
        Err(error) => Err(ConfigError::Routing(error)),
    }
}

/// The name of a route in complaints.
fn route_text(index: usize) -> (r: String)
    ensures
        r@ == route_label(index as int),
{
    concat("route ", decimal_text(index as u64).as_str())
}

/// One route.
fn parse_route(element: &Option<Section>, listen: SocketAddress, index: usize) -> (r: Result<
    Route,
    ConfigError,
>)
    ensures
        match route_of(document::section_view(*element), listen, index as int) {
            Ok(route) => r is Ok && r->Ok_0@ == route,
            Err(fault) => r is Err && r->Err_0@ == fault,
        },
{
    let label = route_text(index);
    let section = match element {
        None => {
            return Err(ConfigError::Invalid(concat(label.as_str(), ": expected a table")));
        },
        Some(section) => section,
    };
    let allowed = ["domain", "servers"];
    assert(allowed@.map_values(|text: &str| text@) =~= seq!["domain"@, "servers"@]);
    assert(view_keys(section@) =~= keys_of(section.entries@));
    reject_unknown_keys(&section.entries, allowed.as_slice(), label.as_str())?;
    let domain = match field(section, "domain") {
        Some(Field::Text(domain)) => domain,
        _ => {
            return invalid("domain: expected a string");
        },
    };
    let suffix = match DomainName::from_text(domain.as_str()) {
        Ok(suffix) => suffix,
        Err(error) => {
            let head = concat(label.as_str(), " domain: ");
            return Err(ConfigError::Invalid(concat(head.as_str(), error.message())));
        },
    };
    let upstreams = parse_upstream_group(section, listen)?;
    Ok(Route { suffix, upstreams })
}

/// The routes of a file.
fn parse_routes(value: Option<&Block>, listen: SocketAddress) -> (r: Result<
    Vec<Route>,
    ConfigError,
>)
    ensures
        match routes_of(
            match value {
                Some(block) => Some(block@),
                None => None,
            },
            listen,
        ) {
            Ok(routes) => r is Ok && routing::route_views(r->Ok_0@) == routes,
            Err(fault) => r is Err && r->Err_0@ == fault,
        },
{
    let mut routes: Vec<Route> = Vec::new();
    let elements = match value {
        None => {
            assert(routing::route_views(routes@) =~= Seq::empty());
            return Ok(routes);
        },
        Some(Block::Sections(elements)) => elements,
        Some(_) => {
            return invalid("route must be an array of tables");
        },
    };
    let ghost listed = elements@.map_values(
        |section: Option<Section>| document::section_view(section),
    );
    if elements.len() > MAX_ROUTES {
        return invalid("at most 4096 routes are supported");
    }
    let mut i: usize = 0;
    proof {
        match routes_from(listed, listen, 0) {
            Ok(all) => {
                assert(routing::route_views(routes@) + all =~= all);
            },
            Err(_) => {},
        }
    }
    while i < elements.len()
        invariant
            i <= elements@.len() == listed.len() <= 4096,
            listed == elements@.map_values(
                |section: Option<Section>| document::section_view(section),
            ),
            value is Some,
            value->0@ == BlockView::Sections(listed),
            routes_from(listed, listen, 0) == (match routes_from(listed, listen, i as int) {
                Ok(rest) => Ok(routing::route_views(routes@) + rest),
                Err(fault) => Err::<Seq<RouteView>, ConfigFault>(fault),
            }),
        decreases elements@.len() - i,
    {
        let ghost before = routing::route_views(routes@);
        assert(listed[i as int] == document::section_view(elements@[i as int]));
        let route = parse_route(&elements[i], listen, i)?;
        let ghost held = route@;
        routes.push(route);
        proof {
            assert(routing::route_views(routes@) =~= before.push(held));
            match routes_from(listed, listen, i + 1) {
                Ok(rest) => {
                    assert(before + (seq![held] + rest) =~= before.push(held) + rest);
                },
                Err(_) => {},
            }
        }
        i += 1;
    }
    assert(routing::route_views(routes@) + Seq::<RouteView>::empty() =~= routing::route_views(
        routes@,
    ));
    Ok(routes)
}

/// The listener of a file.
///
/// Listeners share the concrete unicast/nonzero-port restriction with upstreams,
/// including IPv4-mapped normalization. Wildcard binding would require
/// destination-address tracking to send UDP replies from the address the client
/// originally queried.
fn parse_listener(value: Option<&Block>) -> (r: Result<SocketAddress, ConfigError>)
    ensures
        match listener_of(
            match value {
                Some(block) => Some(block@),
                None => None,
            },
        ) {
            Ok(listen) => r is Ok && r->Ok_0 == listen,
            Err(fault) => r is Err && r->Err_0@ == fault,
        },
{
    let raw = match value {
        Some(Block::Text(raw)) => raw,
        _ => {
            return invalid("listen: expected a string");
        },
    };
    let endpoint = match parse_address(raw.as_str()) {
        None => {
            return invalid(
                "listen must be an IP address with an optional port (IPv6 with port: [address]:port)",
            );
        },
        Some(endpoint) => endpoint,
    };
    match UpstreamAddress::new(endpoint) {
        Ok(listen) => Ok(listen.socket()),
        Err(error) => Err(ConfigError::Invalid(concat("listen: ", error.message().as_str()))),
    }
}

/// Startup settings produced by whole-file validation before listeners bind.
#[derive(Debug)]
pub struct Config {
    pub listen: SocketAddress,
    pub routing: RoutingTable,
}

impl View for Config {
    type V = ConfigView;

    open spec fn view(&self) -> ConfigView {
        ConfigView { listen: self.listen, routing: self.routing@ }
    }
}

impl Config {
    /// Validates the text of a configuration file, of which the caller reads one
    /// octet beyond the limit at most: that octet distinguishes an exactly full
    /// file from an oversized one.
    pub fn load(text: &str) -> (r: Result<Config, ConfigError>)
        ensures
            match (if vstd::utf8::encode_utf8(text@).len() > MAX_CONFIG_BYTES {
                Err(ConfigFault::Invalid("configuration exceeds 1 MiB"@))
            } else {
                config_text(text@)
            }) {
                Ok(config) => r is Ok && r->Ok_0@ == config,
                Err(fault) => r is Err && r->Err_0@ == fault,
            },
    {
        if text.as_bytes().len() > MAX_CONFIG_BYTES {
            return invalid("configuration exceeds 1 MiB");
        }
        Config::parse(text)
    }

    /// Validates the complete configuration; no partially valid table escapes.
    pub fn parse(text: &str) -> (r: Result<Config, ConfigError>)
        ensures
            match config_text(text@) {
                Ok(config) => r is Ok && r->Ok_0@ == config,
                Err(fault) => r is Err && r->Err_0@ == fault,
            },
    {
        match read_document(text) {
            Ok(document) => Config::from_document(&document),
            Err(error) => Err(ConfigError::Syntax(error)),
        }
    }

    /// Validates the settings of a parsed file.
    pub fn from_document(document: &Document) -> (r: Result<Config, ConfigError>)
        ensures
            match config_of(document@) {
                Ok(config) => r is Ok && r->Ok_0@ == config,
                Err(fault) => r is Err && r->Err_0@ == fault,
            },
    {
        let allowed = ["listen", "default", "route"];
        assert(allowed@.map_values(|text: &str| text@) =~= seq![
            "listen"@,
            "default"@,
            "route"@,
        ]);
        assert(view_keys(document@) =~= keys_of(document.entries@));
        reject_unknown_keys(&document.entries, allowed.as_slice(), "configuration")?;
        let listen = parse_listener(block(document, "listen"))?;
        let section = match block(document, "default") {
            Some(Block::Table(section)) => section,
            _ => {
                return invalid("missing [default] table");
            },
        };
        let known = ["servers"];
        assert(known@.map_values(|text: &str| text@) =~= seq!["servers"@]);
        assert(view_keys(section@) =~= keys_of(section.entries@));
        reject_unknown_keys(&section.entries, known.as_slice(), "default")?;
        let default = parse_upstream_group(section, listen)?;
        let routes = parse_routes(block(document, "route"), listen)?;
        match RoutingTable::new(default, routes) {
            Ok(routing) => Ok(Config { listen, routing }),
            Err(error) => Err(ConfigError::Routing(error)),
        }
    }
}

/// Whether endpoints form a group that never leads back to the listener.
pub open spec fn group_ok(servers: Seq<SocketAddress>, listen: SocketAddress) -> bool {
    &&& routing::group_fault(servers) is None
    &&& forall|i: int|
        0 <= i < servers.len() ==> {
            &&& routing::upstream_of(#[trigger] servers[i]) == Some(servers[i])
            &&& !servers[i].meets(listen)
        }
}

proof fn upstreams_keep_their_endpoint(endpoint: SocketAddress, listen: SocketAddress)
    ensures
        routing::upstream_of(endpoint) matches Some(server) ==> {
            &&& routing::upstream_of(server) == Some(server)
            &&& server.meets(listen) == endpoint.meets(listen)
        },
{
}

proof fn servers_are_ok(leaves: Seq<LeafView>, listen: SocketAddress, from: int)
    ensures
        servers_from(leaves, listen, from) matches Ok(servers) ==> forall|i: int|
            0 <= i < servers.len() ==> {
                &&& routing::upstream_of(#[trigger] servers[i]) == Some(servers[i])
                &&& !servers[i].meets(listen)
            },
    decreases leaves.len() - from,
{
    if from < leaves.len() {
        servers_are_ok(leaves, listen, from + 1);
        match leaves[from] {
            LeafView::Text(raw) => match address::endpoint_text(raw) {
                Some(endpoint) => {
                    upstreams_keep_their_endpoint(endpoint, listen);
                },
                None => {},
            },
            LeafView::Other => {},
        }
    }
}

proof fn group_is_ok(entries: Seq<(KeyView, FieldView)>, listen: SocketAddress)
    ensures
        group_of(entries, listen) matches Ok(servers) ==> group_ok(servers, listen),
{
    match value_at(entries, "servers"@) {
        Some(FieldView::List(leaves)) => {
            servers_are_ok(leaves, listen, 0);
        },
        _ => {},
    }
}

proof fn routes_are_ok(
    elements: Seq<Option<Seq<(KeyView, FieldView)>>>,
    listen: SocketAddress,
    from: int,
)
    ensures
        routes_from(elements, listen, from) matches Ok(routes) ==> forall|i: int|
            0 <= i < routes.len() ==> group_ok((#[trigger] routes[i]).upstreams, listen),
    decreases elements.len() - from,
{
    if from < elements.len() {
        routes_are_ok(elements, listen, from + 1);
        match elements[from] {
            Some(entries) => {
                group_is_ok(entries, listen);
            },
            None => {},
        }
    }
}

/// An accepted configuration listens on a unicast endpoint in its canonical
/// spelling, and none of its groups leads back to that endpoint; all groups and
/// the table of suffixes are valid.
pub proof fn accepted_configuration_is_sound(entries: Seq<(KeyView, BlockView)>)
    ensures
        config_of(entries) matches Ok(config) ==> {
            &&& routing::upstream_of(config.listen) == Some(config.listen)
            &&& group_ok(config.routing.default, config.listen)
            &&& config.routing.valid()
            &&& forall|i: int|
                0 <= i < config.routing.routes.len() ==> group_ok(
                    (#[trigger] config.routing.routes[i]).upstreams,
                    config.listen,
                )
        },
{
    match config_of(entries) {
        Ok(config) => {
            let listen = config.listen;
            match value_at(entries, "listen"@) {
                Some(BlockView::Text(raw)) => {
                    upstreams_keep_their_endpoint(address::endpoint_text(raw)->0, listen);
                },
                _ => {},
            }
            match value_at(entries, "default"@) {
                Some(BlockView::Table(table)) => {
                    group_is_ok(table, listen);
                },
                _ => {},
            }
            let routes = routes_of(value_at(entries, "route"@), listen)->Ok_0;
            match value_at(entries, "route"@) {
                Some(BlockView::Sections(elements)) => {
                    routes_are_ok(elements, listen, 0);
                },
                _ => {},
            }
            routing::lookup_order_is_valid(routes);
        },
        Err(_) => {},
    }
}

/// Whether an entry is the first of its table with a key.
pub open spec fn holds<T>(entries: Seq<(KeyView, T)>, key: Seq<char>, at: int) -> bool {
    &&& 0 <= at < entries.len()
    &&& entries[at].0.name == key
    &&& forall|j: int| 0 <= j < at ==> (#[trigger] entries[j]).0.name != key
}

proof fn value_is_held<T>(entries: Seq<(KeyView, T)>, key: Seq<char>)
    ensures
        match value_at(entries, key) {
            Some(value) => exists|i: int| #[trigger] holds(entries, key, i) && entries[i].1 == value,
            None => forall|i: int| 0 <= i < entries.len() ==> (#[trigger] entries[i]).0.name != key,
        },
        forall|i: int| #[trigger] holds(entries, key, i) ==> value_at(entries, key) == Some(
            entries[i].1,
        ),
{
    let keys = view_keys(entries);
    key_is_placed(keys, key, 0);
    match key_place(keys, key, 0) {
        Some(at) => {
            assert forall|j: int| 0 <= j < at implies (#[trigger] entries[j]).0.name != key by {
                assert(keys[j] == entries[j].0);
            }
            assert(keys[at] == entries[at].0);
            assert(holds(entries, key, at));
            assert forall|i: int| #[trigger] holds(entries, key, i) implies i == at by {
                assert(keys[i] == entries[i].0);
                if i < at {
                    assert(keys[i].name != key);
                }
            }
        },
        None => {
            assert forall|i: int| 0 <= i < entries.len() implies (#[trigger] entries[i]).0.name
                != key by {
                assert(keys[i] == entries[i].0);
            }
        },
    }
}

proof fn key_is_placed(keys: Seq<KeyView>, key: Seq<char>, from: int)
    requires
        0 <= from,
    ensures
        match key_place(keys, key, from) {
            Some(at) => from <= at < keys.len() && keys[at].name == key && forall|j: int|
                from <= j < at ==> (#[trigger] keys[j]).name != key,
            None => forall|j: int| from <= j < keys.len() ==> (#[trigger] keys[j]).name != key,
        },
    decreases keys.len() - from,
{
    if from < keys.len() && keys[from].name != key {
        key_is_placed(keys, key, from + 1);
    }
}

proof fn unknown_keys_are_found(keys: Seq<KeyView>, allowed: Seq<Seq<char>>, from: int)
    requires
        0 <= from,
    ensures
        unknown_key(keys, allowed, from) is None <==> forall|j: int|
            from <= j < keys.len() ==> allowed.contains((#[trigger] keys[j]).name),
    decreases keys.len() - from,
{
    if from < keys.len() && allowed.contains(keys[from].name) {
        unknown_keys_are_found(keys, allowed, from + 1);
    }
}

/// Whether an element of a list is the text of an endpoint.
#[verifier::opaque]
pub open spec fn writes_endpoint(leaf: LeafView, server: SocketAddress) -> bool {
    leaf matches LeafView::Text(raw) && (address::endpoint_text(raw) matches Some(endpoint)
        && routing::upstream_of(endpoint) == Some(server))
}

/// Whether a table lists the servers of a group: as many as the group has, and each at
/// its own place.
#[verifier::opaque]
pub open spec fn writes_group(
    section: Seq<(KeyView, FieldView)>,
    servers: Seq<SocketAddress>,
) -> bool {
    exists|at: int| #[trigger]
        holds(section, "servers"@, at) && (section[at].1 matches FieldView::List(leaves) && {
            &&& leaves.len() == servers.len()
            &&& forall|i: int|
                0 <= i < servers.len() ==> writes_endpoint(leaves[i], #[trigger] servers[i])
        })
}

/// Whether a table is that of a route: it names the suffix as its domain and lists the
/// servers.
#[verifier::opaque]
pub open spec fn writes_route(section: Seq<(KeyView, FieldView)>, route: RouteView) -> bool {
    &&& exists|at: int| #[trigger]
        holds(section, "domain"@, at) && (section[at].1 matches FieldView::Text(domain)
            && name::text_name(domain) == Ok::<Seq<Seq<u8>>, ParseError>(route.suffix))
    &&& writes_group(section, route.upstreams)
}

/// The endpoints of a list, as they are read.
#[verifier::opaque]
spec fn server_list(leaves: Seq<LeafView>, listen: SocketAddress, from: int) -> Result<
    Seq<SocketAddress>,
    ConfigFault,
> {
    servers_from(leaves, listen, from)
}

proof fn server_was_written(leaves: Seq<LeafView>, listen: SocketAddress, from: int) -> (server:
    SocketAddress)
    requires
        0 <= from < leaves.len(),
        server_list(leaves, listen, from) is Ok,
    ensures
        writes_endpoint(leaves[from], server),
        server_list(leaves, listen, from + 1) is Ok,
        server_list(leaves, listen, from)->Ok_0 == seq![server] + server_list(
            leaves,
            listen,
            from + 1,
        )->Ok_0,
{
    reveal(writes_endpoint);
    reveal(server_list);
    servers_from(leaves, listen, from)->Ok_0[0]
}

proof fn server_list_ends(leaves: Seq<LeafView>, listen: SocketAddress)
    ensures
        server_list(leaves, listen, leaves.len() as int) == Ok::<Seq<SocketAddress>, ConfigFault>(
            Seq::empty(),
        ),
{
    reveal(server_list);
}

proof fn servers_were_written(leaves: Seq<LeafView>, listen: SocketAddress, from: int)
    requires
        0 <= from <= leaves.len(),
        server_list(leaves, listen, from) is Ok,
    ensures
        ({
            let servers = server_list(leaves, listen, from)->Ok_0;
            &&& servers.len() == leaves.len() - from
            &&& forall|i: int|
                from <= i < leaves.len() ==> writes_endpoint(
                    #[trigger] leaves[i],
                    servers[i - from],
                )
        }),
    decreases leaves.len() - from,
{
    if from < leaves.len() {
        let server = server_was_written(leaves, listen, from);
        servers_were_written(leaves, listen, from + 1);
        let servers = server_list(leaves, listen, from)->Ok_0;
        let rest = server_list(leaves, listen, from + 1)->Ok_0;
        assert forall|i: int| from <= i < leaves.len() implies writes_endpoint(
            #[trigger] leaves[i],
            servers[i - from],
        ) by {
            if i > from {
                assert(servers[i - from] == rest[i - from - 1]);
            }
        }
    } else {
        server_list_ends(leaves, listen);
    }
}

proof fn group_is_its_list(
    section: Seq<(KeyView, FieldView)>,
    listen: SocketAddress,
    leaves: Seq<LeafView>,
) -> (servers: Seq<SocketAddress>)
    requires
        value_at(section, "servers"@) == Some(FieldView::List(leaves)),
        group_of(section, listen) is Ok,
    ensures
        server_list(leaves, listen, 0) == Ok::<Seq<SocketAddress>, ConfigFault>(servers),
        group_of(section, listen) == Ok::<Seq<SocketAddress>, ConfigFault>(servers),
{
    reveal(server_list);
    group_of(section, listen)->Ok_0
}

proof fn list_writes_group(
    section: Seq<(KeyView, FieldView)>,
    at: int,
    leaves: Seq<LeafView>,
    servers: Seq<SocketAddress>,
)
    requires
        holds(section, "servers"@, at),
        section[at].1 == FieldView::List(leaves),
        leaves.len() == servers.len(),
        forall|i: int|
            0 <= i < leaves.len() ==> writes_endpoint(#[trigger] leaves[i], servers[i - 0]),
    ensures
        writes_group(section, servers),
{
    reveal(writes_group);
    assert forall|i: int| 0 <= i < servers.len() implies writes_endpoint(
        leaves[i],
        #[trigger] servers[i],
    ) by {
        assert(writes_endpoint(leaves[i], servers[i - 0]));
    }
}

proof fn group_was_written(section: Seq<(KeyView, FieldView)>, listen: SocketAddress)
    ensures
        group_of(section, listen) matches Ok(servers) ==> writes_group(section, servers),
{
    value_is_held(section, "servers"@);
    match value_at(section, "servers"@) {
        Some(FieldView::List(leaves)) => {
            if group_of(section, listen) is Ok {
                let at = choose|i: int| #[trigger]
                    holds(section, "servers"@, i) && section[i].1 == FieldView::List(leaves);
                let servers = group_is_its_list(section, listen, leaves);
                servers_were_written(leaves, listen, 0);
                list_writes_group(section, at, leaves, servers);
            }
        },
        _ => {},
    }
}

proof fn route_was_written(
    element: Option<Seq<(KeyView, FieldView)>>,
    listen: SocketAddress,
    index: int,
)
    ensures
        route_of(element, listen, index) matches Ok(route) ==> (element matches Some(section)
            && writes_route(section, route)),
{
    match element {
        Some(section) => {
            group_was_written(section, listen);
            value_is_held(section, "domain"@);
            match value_at(section, "domain"@) {
                Some(FieldView::Text(domain)) => {
                    let at = choose|i: int| #[trigger]
                        holds(section, "domain"@, i) && section[i].1 == FieldView::Text(domain);
                    assert(holds(section, "domain"@, at));
                    reveal(writes_route);
                },
                _ => {},
            }
        },
        None => {},
    }
}

/// The routes of an array, as they are read.
#[verifier::opaque]
spec fn route_list(
    elements: Seq<Option<Seq<(KeyView, FieldView)>>>,
    listen: SocketAddress,
    from: int,
) -> Result<Seq<RouteView>, ConfigFault> {
    routes_from(elements, listen, from)
}

proof fn route_list_ends(
    elements: Seq<Option<Seq<(KeyView, FieldView)>>>,
    listen: SocketAddress,
)
    ensures
        route_list(elements, listen, elements.len() as int) == Ok::<Seq<RouteView>, ConfigFault>(
            Seq::empty(),
        ),
{
    reveal(route_list);
}

proof fn first_route_was_written(
    elements: Seq<Option<Seq<(KeyView, FieldView)>>>,
    listen: SocketAddress,
    from: int,
) -> (route: RouteView)
    requires
        0 <= from < elements.len(),
        route_list(elements, listen, from) is Ok,
    ensures
        elements[from] is Some,
        writes_route(elements[from]->0, route),
        route_list(elements, listen, from + 1) is Ok,
        route_list(elements, listen, from)->Ok_0 == seq![route] + route_list(
            elements,
            listen,
            from + 1,
        )->Ok_0,
{
    reveal(route_list);
    route_was_written(elements[from], listen, from);
    route_of(elements[from], listen, from)->Ok_0
}

proof fn routes_were_written(
    elements: Seq<Option<Seq<(KeyView, FieldView)>>>,
    listen: SocketAddress,
    from: int,
)
    requires
        0 <= from <= elements.len(),
        route_list(elements, listen, from) is Ok,
    ensures
        ({
            let routes = route_list(elements, listen, from)->Ok_0;
            &&& routes.len() == elements.len() - from
            &&& forall|i: int|
                from <= i < elements.len() ==> (#[trigger] elements[i]) is Some && writes_route(
                    elements[i]->0,
                    routes[i - from],
                )
        }),
    decreases elements.len() - from,
{
    if from < elements.len() {
        let route = first_route_was_written(elements, listen, from);
        routes_were_written(elements, listen, from + 1);
        let routes = route_list(elements, listen, from)->Ok_0;
        let rest = route_list(elements, listen, from + 1)->Ok_0;
        assert forall|i: int| from <= i < elements.len() implies (#[trigger] elements[i]) is Some
            && writes_route(elements[i]->0, routes[i - from]) by {
            if i > from {
                assert(routes[i - from] == rest[i - from - 1]);
            }
        }
    } else {
        route_list_ends(elements, listen);
    }
}

/// Whether an array of tables is that of some routes: each table is that of one of them,
/// and there are no others.
pub open spec fn writes_routes(
    elements: Seq<Option<Seq<(KeyView, FieldView)>>>,
    routes: Seq<RouteView>,
) -> bool {
    &&& routes.len() == elements.len()
    &&& forall|i: int|
        0 <= i < elements.len() ==> (#[trigger] elements[i]) is Some && exists|route: RouteView|
            routes.contains(route) && #[trigger] writes_route(elements[i]->0, route)
    &&& forall|route: RouteView| #[trigger]
        routes.contains(route) ==> exists|i: int|
            0 <= i < elements.len() && (#[trigger] elements[i]) is Some && writes_route(
                elements[i]->0,
                route,
            )
}

proof fn ordered_routes_were_written(
    elements: Seq<Option<Seq<(KeyView, FieldView)>>>,
    listen: SocketAddress,
)
    requires
        route_list(elements, listen, 0) is Ok,
    ensures
        writes_routes(elements, routing::by_specificity(route_list(elements, listen, 0)->Ok_0)),
{
    let listed = route_list(elements, listen, 0)->Ok_0;
    let routes = routing::by_specificity(listed);
    routes_were_written(elements, listen, 0);
    routing::lookup_order_is_by_specificity(listed);
    routing::lookup_order_holds_the_same(listed);
    assert forall|i: int| 0 <= i < elements.len() implies (#[trigger] elements[i]) is Some
        && exists|route: RouteView|
        routes.contains(route) && #[trigger] writes_route(elements[i]->0, route) by {
        assert(listed.contains(listed[i]));
        assert(routes.contains(listed[i]));
        assert(writes_route(elements[i]->0, listed[i - 0]));
    }
    assert forall|route: RouteView| #[trigger] routes.contains(route) implies exists|i: int|
        0 <= i < elements.len() && (#[trigger] elements[i]) is Some && writes_route(
            elements[i]->0,
            route,
        ) by {
        assert(listed.contains(route));
        let j = choose|j: int| 0 <= j < listed.len() && listed[j] == route;
        assert(elements[j] is Some);
        assert(writes_route(elements[j]->0, listed[j - 0]));
    }
}

/// An accepted configuration is the one that was written. Its listener and its default
/// group are those of the file. Every route of the file is in the table, with its suffix
/// and with its servers in the order of the file, and no other route is.
pub proof fn accepted_configuration_is_what_was_written(entries: Seq<(KeyView, BlockView)>)
    requires
        config_of(entries) is Ok,
    ensures
        ({
            let config = config_of(entries)->Ok_0;
            let routes = config.routing.routes;
            &&& exists|l: int| #[trigger]
                holds(entries, "listen"@, l) && (entries[l].1 matches BlockView::Text(raw)
                    && writes_endpoint(LeafView::Text(raw), config.listen))
            &&& exists|d: int| #[trigger]
                holds(entries, "default"@, d) && (entries[d].1 matches BlockView::Table(section)
                    && writes_group(section, config.routing.default))
            &&& forall|r: int| #[trigger]
                holds(entries, "route"@, r) ==> (entries[r].1 matches BlockView::Sections(elements)
                    && writes_routes(elements, routes))
            &&& (forall|i: int|
                0 <= i < entries.len() ==> (#[trigger] entries[i]).0.name != "route"@)
                ==> routes.len() == 0
        }),
{
    value_is_held(entries, "listen"@);
    value_is_held(entries, "default"@);
    value_is_held(entries, "route"@);
    accepted_parts(entries);
}

/// The parts of an accepted configuration.
proof fn accepted_parts(entries: Seq<(KeyView, BlockView)>)
    requires
        config_of(entries) is Ok,
    ensures
        ({
            let config = config_of(entries)->Ok_0;
            &&& value_at(entries, "listen"@) matches Some(BlockView::Text(raw)) && writes_endpoint(
                LeafView::Text(raw),
                config.listen,
            )
            &&& value_at(entries, "default"@) matches Some(BlockView::Table(section))
                && writes_group(section, config.routing.default)
            &&& match value_at(entries, "route"@) {
                None => config.routing.routes.len() == 0,
                Some(BlockView::Sections(elements)) => writes_routes(
                    elements,
                    config.routing.routes,
                ),
                Some(_) => false,
            }
        }),
{
    let config = config_of(entries)->Ok_0;
    let listen = config.listen;
    assert(listener_of(value_at(entries, "listen"@)) == Ok::<SocketAddress, ConfigFault>(listen));
    listener_was_written(value_at(entries, "listen"@));
    match value_at(entries, "default"@) {
        Some(BlockView::Table(section)) => {
            group_was_written(section, listen);
        },
        _ => {},
    }
    let listed = routes_of(value_at(entries, "route"@), listen)->Ok_0;
    match value_at(entries, "route"@) {
        Some(BlockView::Sections(elements)) => {
            reveal(route_list);
            ordered_routes_were_written(elements, listen);
        },
        _ => {
            routing::lookup_order_is_by_specificity(listed);
        },
    }
}

proof fn listener_was_written(block: Option<BlockView>)
    requires
        listener_of(block) is Ok,
    ensures
        block matches Some(BlockView::Text(raw)) && writes_endpoint(
            LeafView::Text(raw),
            listener_of(block)->Ok_0,
        ),
{
    reveal(writes_endpoint);
}

/// Whether a table has no other keys than some.
pub open spec fn only_keys<T>(entries: Seq<(KeyView, T)>, allowed: Seq<Seq<char>>) -> bool {
    forall|i: int| 0 <= i < entries.len() ==> allowed.contains((#[trigger] entries[i]).0.name)
}

/// Whether endpoints can serve as a group: one to eight of them, no two the same, and
/// none of them the listener.
pub open spec fn can_serve(servers: Seq<SocketAddress>, listen: SocketAddress) -> bool {
    &&& 1 <= servers.len() <= 8
    &&& forall|i: int, j: int| 0 <= i < j < servers.len() ==> servers[i] != servers[j]
    &&& forall|i: int|
        0 <= i < servers.len() ==> (#[trigger] servers[i]).port != listen.port || servers[i].ip
            != listen.ip
}

proof fn written_server_is_read(
    leaves: Seq<LeafView>,
    listen: SocketAddress,
    from: int,
    server: SocketAddress,
)
    requires
        0 <= from < leaves.len(),
        writes_endpoint(leaves[from], server),
        routing::upstream_of(listen) == Some(listen),
        server.port != listen.port || server.ip != listen.ip,
    ensures
        server_list(leaves, listen, from) == (match server_list(leaves, listen, from + 1) {
            Ok(rest) => Ok(seq![server] + rest),
            Err(fault) => Err::<Seq<SocketAddress>, ConfigFault>(fault),
        }),
{
    reveal(writes_endpoint);
    reveal(server_list);
    match leaves[from] {
        LeafView::Text(raw) => {
            let endpoint = address::endpoint_text(raw)->0;
            endpoints_meet_alike(endpoint, server, listen);
        },
        LeafView::Other => {},
    }
}

proof fn endpoints_meet_alike(
    endpoint: SocketAddress,
    server: SocketAddress,
    listen: SocketAddress,
)
    requires
        routing::upstream_of(endpoint) == Some(server),
        routing::upstream_of(listen) == Some(listen),
    ensures
        endpoint.meets(listen) <==> server.port == listen.port && server.ip == listen.ip,
{
}

proof fn written_servers_are_read(
    leaves: Seq<LeafView>,
    listen: SocketAddress,
    from: int,
    servers: Seq<SocketAddress>,
)
    requires
        0 <= from <= leaves.len(),
        servers.len() == leaves.len(),
        routing::upstream_of(listen) == Some(listen),
        forall|i: int|
            0 <= i < servers.len() ==> writes_endpoint(leaves[i], #[trigger] servers[i]),
        forall|i: int|
            0 <= i < servers.len() ==> (#[trigger] servers[i]).port != listen.port || servers[i].ip
                != listen.ip,
    ensures
        server_list(leaves, listen, from) == Ok::<Seq<SocketAddress>, ConfigFault>(
            servers.skip(from),
        ),
    decreases leaves.len() - from,
{
    if from < leaves.len() {
        written_servers_are_read(leaves, listen, from + 1, servers);
        assert(writes_endpoint(leaves[from], servers[from]));
        written_server_is_read(leaves, listen, from, servers[from]);
        assert(seq![servers[from]] + servers.skip(from + 1) =~= servers.skip(from));
    } else {
        server_list_ends(leaves, listen);
        assert(servers.skip(from) =~= Seq::empty());
    }
}

proof fn written_group_is_read(
    section: Seq<(KeyView, FieldView)>,
    listen: SocketAddress,
    servers: Seq<SocketAddress>,
)
    requires
        writes_group(section, servers),
        can_serve(servers, listen),
        routing::upstream_of(listen) == Some(listen),
    ensures
        group_of(section, listen) == Ok::<Seq<SocketAddress>, ConfigFault>(servers),
{
    reveal(writes_group);
    value_is_held(section, "servers"@);
    let at = choose|at: int| #[trigger]
        holds(section, "servers"@, at) && (section[at].1 matches FieldView::List(leaves) && {
            &&& leaves.len() == servers.len()
            &&& forall|i: int|
                0 <= i < servers.len() ==> writes_endpoint(leaves[i], #[trigger] servers[i])
        });
    let leaves = section[at].1->List_0;
    written_servers_are_read(leaves, listen, 0, servers);
    assert(servers.skip(0) =~= servers);
    listed_group_is_read(section, listen, leaves, servers);
}

proof fn listed_group_is_read(
    section: Seq<(KeyView, FieldView)>,
    listen: SocketAddress,
    leaves: Seq<LeafView>,
    servers: Seq<SocketAddress>,
)
    requires
        value_at(section, "servers"@) == Some(FieldView::List(leaves)),
        server_list(leaves, listen, 0) == Ok::<Seq<SocketAddress>, ConfigFault>(servers),
        can_serve(servers, listen),
    ensures
        group_of(section, listen) == Ok::<Seq<SocketAddress>, ConfigFault>(servers),
{
    reveal(server_list);
    assert(routing::distinct(servers));
}

proof fn known_keys<T>(entries: Seq<(KeyView, T)>, allowed: Seq<Seq<char>>)
    requires
        only_keys(entries, allowed),
    ensures
        unknown_key(view_keys(entries), allowed, 0) is None,
{
    let keys = view_keys(entries);
    assert forall|j: int| 0 <= j < keys.len() implies allowed.contains(
        (#[trigger] keys[j]).name,
    ) by {
        assert(keys[j] == entries[j].0);
    }
    unknown_keys_are_found(keys, allowed, 0);
}

/// Whether a table is that of a route, and has nothing else in it.
pub open spec fn good_route(
    element: Option<Seq<(KeyView, FieldView)>>,
    route: RouteView,
    listen: SocketAddress,
) -> bool {
    element matches Some(section) && {
        &&& only_keys(section, seq!["domain"@, "servers"@])
        &&& writes_route(section, route)
        &&& can_serve(route.upstreams, listen)
    }
}

proof fn written_route_is_read(
    element: Option<Seq<(KeyView, FieldView)>>,
    listen: SocketAddress,
    index: int,
    route: RouteView,
)
    requires
        good_route(element, route, listen),
        routing::upstream_of(listen) == Some(listen),
    ensures
        route_of(element, listen, index) == Ok::<RouteView, ConfigFault>(route),
{
    reveal(writes_route);
    let section = element->0;
    known_keys(section, seq!["domain"@, "servers"@]);
    value_is_held(section, "domain"@);
    written_group_is_read(section, listen, route.upstreams);
}

proof fn route_list_goes_on(
    elements: Seq<Option<Seq<(KeyView, FieldView)>>>,
    listen: SocketAddress,
    from: int,
    route: RouteView,
)
    requires
        0 <= from < elements.len(),
        route_of(elements[from], listen, from) == Ok::<RouteView, ConfigFault>(route),
    ensures
        route_list(elements, listen, from) == (match route_list(elements, listen, from + 1) {
            Ok(rest) => Ok(seq![route] + rest),
            Err(fault) => Err::<Seq<RouteView>, ConfigFault>(fault),
        }),
{
    reveal(route_list);
}

proof fn written_routes_are_read(
    elements: Seq<Option<Seq<(KeyView, FieldView)>>>,
    listen: SocketAddress,
    from: int,
    routes: Seq<RouteView>,
)
    requires
        0 <= from <= elements.len(),
        routes.len() == elements.len(),
        routing::upstream_of(listen) == Some(listen),
        forall|i: int|
            0 <= i < routes.len() ==> good_route(elements[i], #[trigger] routes[i], listen),
    ensures
        route_list(elements, listen, from) == Ok::<Seq<RouteView>, ConfigFault>(routes.skip(from)),
    decreases elements.len() - from,
{
    if from < elements.len() {
        written_routes_are_read(elements, listen, from + 1, routes);
        assert(good_route(elements[from], routes[from], listen));
        written_route_is_read(elements[from], listen, from, routes[from]);
        route_list_goes_on(elements, listen, from, routes[from]);
        assert(seq![routes[from]] + routes.skip(from + 1) =~= routes.skip(from));
    } else {
        route_list_ends(elements, listen);
        assert(routes.skip(from) =~= Seq::empty());
    }
}

/// A configuration that is written as it should be is accepted, and means what it says:
/// a unicast listener, a default table with servers, and up to 4096 routes with a domain
/// and servers each, no two for the same domain; nothing else in any table.
pub proof fn well_written_configuration_is_accepted(
    entries: Seq<(KeyView, BlockView)>,
    l: int,
    d: int,
    listen: SocketAddress,
    default: Seq<SocketAddress>,
    elements: Seq<Option<Seq<(KeyView, FieldView)>>>,
    routes: Seq<RouteView>,
)
    requires
        only_keys(entries, seq!["listen"@, "default"@, "route"@]),
        holds(entries, "listen"@, l),
        entries[l].1 matches BlockView::Text(raw) && writes_endpoint(LeafView::Text(raw), listen),
        holds(entries, "default"@, d),
        entries[d].1 matches BlockView::Table(section) && only_keys(section, seq!["servers"@])
            && writes_group(section, default),
        can_serve(default, listen),
        routes.len() == elements.len() <= 4096,
        forall|i: int|
            0 <= i < routes.len() ==> good_route(elements[i], #[trigger] routes[i], listen),
        forall|i: int, j: int|
            0 <= i < j < routes.len() ==> !name::same_name(
                (#[trigger] routes[i]).suffix,
                (#[trigger] routes[j]).suffix,
            ),
        (exists|r: int| #[trigger]
            holds(entries, "route"@, r) && entries[r].1 == BlockView::Sections(elements))
            || elements.len() == 0 && forall|i: int|
            0 <= i < entries.len() ==> (#[trigger] entries[i]).0.name != "route"@,
    ensures
        config_of(entries) matches Ok(config) && {
            &&& config.listen == listen
            &&& config.routing.default == default
            &&& config.routing.routes.to_multiset() == routes.to_multiset()
        },
{
    known_keys(entries, seq!["listen"@, "default"@, "route"@]);
    value_is_held(entries, "listen"@);
    value_is_held(entries, "default"@);
    value_is_held(entries, "route"@);
    let raw = entries[l].1->Text_0;
    written_listener_is_read(raw, listen);
    let section = entries[d].1->Table_0;
    known_keys(section, seq!["servers"@]);
    written_group_is_read(section, listen, default);
    written_routes_are_read(elements, listen, 0, routes);
    assert(routes.skip(0) =~= routes);
    reveal(route_list);
    routing::distinct_suffixes_are_no_repeat(routes);
    routing::lookup_order_is_by_specificity(routes);
    if elements.len() == 0 {
        assert(routes =~= Seq::empty());
    }
    accepted_from_parts(entries, listen, default, routes);
}

proof fn written_listener_is_read(raw: Seq<char>, listen: SocketAddress)
    requires
        writes_endpoint(LeafView::Text(raw), listen),
    ensures
        listener_of(Some(BlockView::Text(raw))) == Ok::<SocketAddress, ConfigFault>(listen),
        routing::upstream_of(listen) == Some(listen),
{
    reveal(writes_endpoint);
    upstreams_keep_their_endpoint(address::endpoint_text(raw)->0, listen);
}

proof fn accepted_from_parts(
    entries: Seq<(KeyView, BlockView)>,
    listen: SocketAddress,
    default: Seq<SocketAddress>,
    routes: Seq<RouteView>,
)
    requires
        unknown_key(view_keys(entries), seq!["listen"@, "default"@, "route"@], 0) is None,
        listener_of(value_at(entries, "listen"@)) == Ok::<SocketAddress, ConfigFault>(listen),
        default_of(value_at(entries, "default"@), listen) == Ok::<Seq<SocketAddress>, ConfigFault>(
            default,
        ),
        routes_of(value_at(entries, "route"@), listen) == Ok::<Seq<RouteView>, ConfigFault>(routes),
        routing::first_repeat(routes, 0) is None,
    ensures
        config_of(entries) == Ok::<ConfigView, ConfigFault>(
            (ConfigView {
                listen,
                routing: TableView { default, routes: routing::by_specificity(routes) },
            }),
        ),
{
}

/// A configuration is accepted only with known keys, with groups that can serve, with at
/// most 4096 routes and no two of them for the same domain.
pub proof fn accepted_configuration_can_serve(entries: Seq<(KeyView, BlockView)>)
    requires
        config_of(entries) is Ok,
    ensures
        ({
            let config = config_of(entries)->Ok_0;
            let routes = config.routing.routes;
            &&& only_keys(entries, seq!["listen"@, "default"@, "route"@])
            &&& can_serve(config.routing.default, config.listen)
            &&& routes.len() <= 4096
            &&& forall|i: int|
                0 <= i < routes.len() ==> can_serve((#[trigger] routes[i]).upstreams, config.listen)
            &&& forall|i: int, j: int|
                0 <= i < j < routes.len() ==> !name::same_name(
                    (#[trigger] routes[i]).suffix,
                    (#[trigger] routes[j]).suffix,
                )
        }),
{
    let config = config_of(entries)->Ok_0;
    let routes = config.routing.routes;
    let keys = view_keys(entries);
    accepted_configuration_is_sound(entries);
    unknown_keys_are_found(keys, seq!["listen"@, "default"@, "route"@], 0);
    assert forall|i: int| 0 <= i < entries.len() implies seq![
        "listen"@,
        "default"@,
        "route"@,
    ].contains((#[trigger] entries[i]).0.name) by {
        assert(keys[i] == entries[i].0);
    }
    sound_groups_can_serve(config.routing.default, config.listen);
    assert forall|i: int| 0 <= i < routes.len() implies can_serve(
        (#[trigger] routes[i]).upstreams,
        config.listen,
    ) by {
        sound_groups_can_serve(routes[i].upstreams, config.listen);
    }
    assert forall|i: int, j: int| 0 <= i < j < routes.len() implies !name::same_name(
        (#[trigger] routes[i]).suffix,
        (#[trigger] routes[j]).suffix,
    ) by {
        assert(!routing::repeats(routes, j));
    }
    accepted_routes_are_few(entries);
}

proof fn sound_groups_can_serve(servers: Seq<SocketAddress>, listen: SocketAddress)
    requires
        group_ok(servers, listen),
        routing::upstream_of(listen) == Some(listen),
    ensures
        can_serve(servers, listen),
{
    assert forall|i: int| 0 <= i < servers.len() implies (#[trigger] servers[i]).port
        != listen.port || servers[i].ip != listen.ip by {
        assert(!servers[i].meets(listen));
    }
}

proof fn accepted_routes_are_few(entries: Seq<(KeyView, BlockView)>)
    requires
        config_of(entries) is Ok,
    ensures
        config_of(entries)->Ok_0.routing.routes.len() <= 4096,
{
    let config = config_of(entries)->Ok_0;
    let listed = routes_of(value_at(entries, "route"@), config.listen)->Ok_0;
    routing::lookup_order_is_by_specificity(listed);
    match value_at(entries, "route"@) {
        Some(BlockView::Sections(elements)) => {
            reveal(route_list);
            routes_were_written(elements, config.listen, 0);
        },
        _ => {},
    }
}

} // verus!

//! Validated upstream groups and pure longest-label-suffix selection.
//!
//! Routing depends only on the question name. Record types, network failures
//! and upstream health do not change which group is eligible for a query.
use crate::address::{IpAddress, SocketAddress};
use crate::dns::name::{self, DomainName};
use crate::text::concat;
use vstd::prelude::*;

verus! {

pub const MAX_UPSTREAMS: usize = 8;

/// Violations of endpoint, upstream-group or routing-table invariants.
pub enum RouteErrorView {
    InvalidAddress,
    InvalidGroupSize,
    DuplicateServer,
    DuplicateRoute(Seq<Seq<u8>>),
}

impl RouteErrorView {
    pub open spec fn text(self) -> Seq<char> {
        match self {
            RouteErrorView::InvalidAddress => {
                "expected a unicast IP address with a nonzero port"@
            },
            RouteErrorView::InvalidGroupSize => "each upstream group needs 1..=8 servers"@,
            RouteErrorView::DuplicateServer => "duplicate upstream server"@,
            RouteErrorView::DuplicateRoute(labels) => "duplicate route for "@ + name::shown(labels),
        }
    }
}

/// Violations of endpoint, upstream-group or routing-table invariants.
#[derive(Debug)]
pub enum RouteError {
    InvalidAddress,
    InvalidGroupSize,
    DuplicateServer,
    DuplicateRoute(DomainName),
}

impl View for RouteError {
    type V = RouteErrorView;

    open spec fn view(&self) -> RouteErrorView {
        match self {
            RouteError::InvalidAddress => RouteErrorView::InvalidAddress,
            RouteError::InvalidGroupSize => RouteErrorView::InvalidGroupSize,
            RouteError::DuplicateServer => RouteErrorView::DuplicateServer,
            RouteError::DuplicateRoute(name) => RouteErrorView::DuplicateRoute(name@),
        }
    }
}

impl RouteError {
    pub fn message(&self) -> (r: String)
        ensures
            r@ == self@.text(),
    {
        match self {
            RouteError::InvalidAddress => String::from_str(
                "expected a unicast IP address with a nonzero port",
            ),
            RouteError::InvalidGroupSize => String::from_str(
                "each upstream group needs 1..=8 servers",
            ),
            RouteError::DuplicateServer => String::from_str("duplicate upstream server"),
            RouteError::DuplicateRoute(name) => concat(
                "duplicate route for ",
                name.to_string().as_str(),
            ),
        }
    }
}

/// The endpoint that an address stands for as an upstream: IPv4-mapped IPv6 in
/// its IPv4 form, and only unicast with a nonzero port.
pub open spec fn upstream_of(address: SocketAddress) -> Option<SocketAddress> {
    let ip = address.ip.canonical();
    if address.port == 0 || !ip.unicast() {
        None
    } else if ip is V4 {
        Some(SocketAddress { ip, port: address.port, scope_id: 0 })
    } else {
        Some(address)
    }
}

/// A concrete unicast endpoint with a nonzero port and canonical IPv4 spelling.
#[derive(Debug, Clone, Copy, PartialEq, Eq, Structural)]
pub struct UpstreamAddress {
    address: SocketAddress,
}

impl View for UpstreamAddress {
    type V = SocketAddress;

    closed spec fn view(&self) -> SocketAddress {
        self.address
    }
}

impl UpstreamAddress {
    #[verifier::type_invariant]
    spec fn well_formed(self) -> bool {
        upstream_of(self@) == Some(self@)
    }

    /// Normalizes IPv4-mapped IPv6 while retaining native IPv6 scope information.
    pub fn new(address: SocketAddress) -> (r: Result<UpstreamAddress, RouteError>)
        ensures
            match upstream_of(address) {
                Some(endpoint) => r is Ok && r->Ok_0@ == endpoint,
                None => r is Err && r->Err_0 is InvalidAddress,
            },
    {
        // IPv4-mapped IPv6 denotes the same endpoint as its IPv4 form.
        let ip = address.ip.to_canonical();
        if address.port == 0 || !ip.is_unicast() {
            return Err(RouteError::InvalidAddress);
        }
        let address = match ip {
            IpAddress::V4(_) => SocketAddress { ip, port: address.port, scope_id: 0 },
            IpAddress::V6(_) => address,  // Preserve scope IDs for native IPv6 endpoints.
        };
        Ok(UpstreamAddress { address })
    }

    pub fn socket(self) -> (r: SocketAddress)
        ensures
            r == self@,
            upstream_of(r) == Some(r),
    {
        proof {
            use_type_invariant(&self);
        }
        self.address
    }
}

/// The endpoints of a list.
pub open spec fn sockets(addresses: Seq<UpstreamAddress>) -> Seq<SocketAddress> {
    addresses.map_values(|address: UpstreamAddress| address@)
}

/// Whether no endpoint occurs twice.
pub open spec fn distinct(servers: Seq<SocketAddress>) -> bool {
    forall|i: int, j: int| 0 <= i < j < servers.len() ==> servers[i] != servers[j]
}

/// Why a list of endpoints is no upstream group.
pub open spec fn group_fault(servers: Seq<SocketAddress>) -> Option<RouteErrorView> {
    if servers.len() == 0 || servers.len() > MAX_UPSTREAMS {
        Some(RouteErrorView::InvalidGroupSize)
    } else if !distinct(servers) {
        Some(RouteErrorView::DuplicateServer)
    } else {
        None
    }
}

/// A nonempty, bounded list of distinct endpoints in configured failover order.
#[derive(Debug)]
pub struct UpstreamGroup {
    servers: Vec<UpstreamAddress>,
}

impl View for UpstreamGroup {
    type V = Seq<SocketAddress>;

    closed spec fn view(&self) -> Seq<SocketAddress> {
        sockets(self.servers@)
    }
}

impl UpstreamGroup {
    #[verifier::type_invariant]
    spec fn well_formed(self) -> bool {
        group_fault(self@) is None
    }

    /// Validates group size and uniqueness without reordering endpoints.
    pub fn new(addresses: Vec<UpstreamAddress>) -> (r: Result<UpstreamGroup, RouteError>)
        ensures
            match group_fault(sockets(addresses@)) {
                None => r is Ok && r->Ok_0@ == sockets(addresses@),
                Some(fault) => r is Err && r->Err_0@ == fault,
            },
    {
        let ghost listed = sockets(addresses@);
        if addresses.len() == 0 || addresses.len() > MAX_UPSTREAMS {
            return Err(RouteError::InvalidGroupSize);
        }
        let mut i: usize = 0;
        while i < addresses.len()
            invariant
                i <= addresses@.len(),
                listed == sockets(addresses@),
                0 < listed.len() <= 8,
                forall|a: int, b: int| 0 <= a < b < i ==> listed[a] != listed[b],
            decreases addresses@.len() - i,
        {
            let mut k: usize = 0;
            while k < i
                invariant
                    k <= i < addresses@.len(),
                    listed == sockets(addresses@),
                    0 < listed.len() <= 8,
                    forall|a: int| 0 <= a < k ==> listed[a] != listed[i as int],
                decreases i - k,
            {
                if addresses[k].socket() == addresses[i].socket() {
                    assert(listed[k as int] == listed[i as int]);
                    return Err(RouteError::DuplicateServer);
                }
                k += 1;
            }
            i += 1;
        }
        Ok(UpstreamGroup { servers: addresses })
    }

    /// Returns endpoints in the order in which forwarding should try them.
    pub fn servers(&self) -> (r: &[UpstreamAddress])
        ensures
            sockets(r@) == self@,
            group_fault(self@) is None,
    {
        proof {
            use_type_invariant(self);
        }
        self.servers.as_slice()
    }
}

/// A suffix and the endpoints that serve it.
pub struct RouteView {
    pub suffix: Seq<Seq<u8>>,
    pub upstreams: Seq<SocketAddress>,
}

/// A suffix policy covering both the suffix itself and all its subdomains.
#[derive(Debug)]
pub struct Route {
    pub suffix: DomainName,
    pub upstreams: UpstreamGroup,
}

impl View for Route {
    type V = RouteView;

    open spec fn view(&self) -> RouteView {
        RouteView { suffix: self.suffix@, upstreams: self.upstreams@ }
    }
}

/// The routes of a list.
pub open spec fn route_views(routes: Seq<Route>) -> Seq<RouteView> {
    routes.map_values(|route: Route| route@)
}

/// Whether an earlier route has the suffix of route `i`.
pub open spec fn repeats(routes: Seq<RouteView>, i: int) -> bool {
    exists|j: int|
        0 <= j < i && name::same_name((#[trigger] routes[j]).suffix, routes[i].suffix)
}

/// Whether no two routes have the same suffix.
pub open spec fn unique_suffixes(routes: Seq<RouteView>) -> bool {
    forall|i: int| 0 <= i < routes.len() ==> !(#[trigger] repeats(routes, i))
}

/// The first route whose suffix an earlier one has.
pub open spec fn first_repeat(routes: Seq<RouteView>, from: int) -> Option<int>
    decreases routes.len() - from,
{
    if from >= routes.len() {
        None
    } else if repeats(routes, from) {
        Some(from)
    } else {
        first_repeat(routes, from + 1)
    }
}

/// How many routes at the front have at least `labels` labels.
pub open spec fn place(ordered: Seq<RouteView>, labels: nat, from: int) -> int
    decreases ordered.len() - from,
{
    if from >= ordered.len() || ordered[from].suffix.len() < labels {
        from
    } else {
        place(ordered, labels, from + 1)
    }
}

/// Routes from most to least specific; equally specific ones keep their order.
pub open spec fn by_specificity(routes: Seq<RouteView>) -> Seq<RouteView>
    decreases routes.len(),
{
    if routes.len() == 0 {
        Seq::empty()
    } else {
        let ordered = by_specificity(routes.drop_last());
        ordered.insert(place(ordered, routes.last().suffix.len(), 0), routes.last())
    }
}

/// The first route whose suffix a name is at or below.
pub open spec fn first_match(routes: Seq<RouteView>, name: Seq<Seq<u8>>, from: int) -> Option<int>
    decreases routes.len() - from,
{
    if from >= routes.len() {
        None
    } else if name::within(name, routes[from].suffix) {
        Some(from)
    } else {
        first_match(routes, name, from + 1)
    }
}

/// A routing policy: routes in lookup order, and the group for other names.
pub struct TableView {
    pub default: Seq<SocketAddress>,
    pub routes: Seq<RouteView>,
}

/// Which group a query belongs to.
pub enum SelectionView {
    Default(Seq<SocketAddress>),
    Routed(RouteView),
}

impl SelectionView {
    pub open spec fn servers(self) -> Seq<SocketAddress> {
        match self {
            SelectionView::Default(servers) => servers,
            SelectionView::Routed(route) => route.upstreams,
        }
    }
}

impl TableView {
    /// Suffixes are unique and ordered from most to least specific.
    pub open spec fn valid(self) -> bool {
        &&& forall|i: int, j: int|
            0 <= i < j < self.routes.len() ==> self.routes[i].suffix.len()
                >= self.routes[j].suffix.len()
        &&& unique_suffixes(self.routes)
    }

    pub open spec fn selected(self, name: Seq<Seq<u8>>) -> SelectionView {
        match first_match(self.routes, name, 0) {
            Some(at) => SelectionView::Routed(self.routes[at]),
            None => SelectionView::Default(self.default),
        }
    }
}

proof fn place_is_the_border(ordered: Seq<RouteView>, labels: nat, from: int)
    requires
        0 <= from <= ordered.len(),
    ensures
        from <= place(ordered, labels, from) <= ordered.len(),
        forall|k: int|
            from <= k < place(ordered, labels, from) ==> (#[trigger] ordered[k]).suffix.len()
                >= labels,
        place(ordered, labels, from) < ordered.len() ==> ordered[place(
            ordered,
            labels,
            from,
        )].suffix.len() < labels,
    decreases ordered.len() - from,
{
    if from < ordered.len() && ordered[from].suffix.len() >= labels {
        place_is_the_border(ordered, labels, from + 1);
    }
}

/// The lookup order holds the same routes, from most to least specific.
pub proof fn lookup_order_is_by_specificity(routes: Seq<RouteView>)
    ensures
        by_specificity(routes).len() == routes.len(),
        by_specificity(routes).to_multiset() == routes.to_multiset(),
        forall|i: int, j: int|
            0 <= i < j < routes.len() ==> by_specificity(routes)[i].suffix.len()
                >= by_specificity(routes)[j].suffix.len(),
    decreases routes.len(),
{
    broadcast use vstd::seq_lib::group_to_multiset_ensures;

    if routes.len() == 0 {
        assert(by_specificity(routes) =~= routes);
    } else {
        let less = routes.drop_last();
        let route = routes.last();
        lookup_order_is_by_specificity(less);
        let ordered = by_specificity(less);
        let at = place(ordered, route.suffix.len(), 0);
        place_is_the_border(ordered, route.suffix.len(), 0);
        assert(routes =~= less.push(route));
        assert(by_specificity(routes) == ordered.insert(at, route));
        let result = by_specificity(routes);
        assert forall|i: int, j: int| 0 <= i < j < routes.len() implies result[i].suffix.len()
            >= result[j].suffix.len() by {
            if i < at {
                assert(result[i] == ordered[i]);
                assert(ordered[i].suffix.len() >= route.suffix.len());
            } else if i > at {
                assert(result[i] == ordered[i - 1]);
            }
            if j < at {
                assert(result[j] == ordered[j]);
            } else if j > at {
                assert(result[j] == ordered[j - 1]);
                assert(ordered[at].suffix.len() >= ordered[j - 1].suffix.len());
            }
        }
    }
}

proof fn first_repeat_is_complete(routes: Seq<RouteView>, from: int)
    requires
        0 <= from,
    ensures
        first_repeat(routes, from) is None <==> forall|i: int|
            from <= i < routes.len() ==> !(#[trigger] repeats(routes, i)),
        first_repeat(routes, from) matches Some(i) ==> from <= i < routes.len() && repeats(
            routes,
            i,
        ),
    decreases routes.len() - from,
{
    if from < routes.len() && !repeats(routes, from) {
        first_repeat_is_complete(routes, from + 1);
    }
}

proof fn unique_in_any_order(routes: Seq<RouteView>)
    requires
        unique_suffixes(routes),
    ensures
        unique_suffixes(by_specificity(routes)),
    decreases routes.len(),
{
    if routes.len() > 0 {
        let less = routes.drop_last();
        let route = routes.last();
        assert forall|i: int| 0 <= i < less.len() implies !(#[trigger] repeats(less, i)) by {
            if repeats(less, i) {
                let j = choose|j: int|
                    0 <= j < i && name::same_name((#[trigger] less[j]).suffix, less[i].suffix);
                assert(routes[j] == less[j] && routes[i] == less[i]);
                assert(repeats(routes, i));
            }
        }
        unique_in_any_order(less);
        let ordered = by_specificity(less);
        place_is_the_border(ordered, route.suffix.len(), 0);
        let at = place(ordered, route.suffix.len(), 0);
        let result = by_specificity(routes);
        holds_the_same(less);
        assert forall|k: int| 0 <= k < ordered.len() implies !name::same_name(
            (#[trigger] ordered[k]).suffix,
            route.suffix,
        ) by {
            let j = choose|j: int| 0 <= j < less.len() && less[j] == ordered[k];
            if name::same_name(ordered[k].suffix, route.suffix) {
                assert(routes[j] == less[j]);
                assert(repeats(routes, routes.len() - 1));
            }
        }
        assert forall|i: int| 0 <= i < result.len() implies !(#[trigger] repeats(result, i)) by {
            if repeats(result, i) {
                let j = choose|j: int|
                    0 <= j < i && name::same_name((#[trigger] result[j]).suffix, result[i].suffix);
                let a = if j < at {
                    j
                } else {
                    j - 1
                };
                let b = if i < at {
                    i
                } else {
                    i - 1
                };
                if i == at {
                    assert(result[j] == ordered[j]);
                } else if j == at {
                    assert(result[i] == ordered[i - 1]);
                    name::same_name_is_an_equivalence(
                        route.suffix,
                        ordered[i - 1].suffix,
                        route.suffix,
                    );
                } else {
                    assert(result[j] == ordered[a] && result[i] == ordered[b]);
                    assert(repeats(ordered, b));
                }
            }
        }
    }
}

/// Every route in lookup order is one of the routes.
proof fn holds_the_same(routes: Seq<RouteView>)
    ensures
        by_specificity(routes).len() == routes.len(),
        forall|k: int|
            0 <= k < by_specificity(routes).len() ==> exists|j: int|
                0 <= j < routes.len() && routes[j] == #[trigger] by_specificity(routes)[k],
    decreases routes.len(),
{
    if routes.len() > 0 {
        let less = routes.drop_last();
        let route = routes.last();
        holds_the_same(less);
        let ordered = by_specificity(less);
        place_is_the_border(ordered, route.suffix.len(), 0);
        let at = place(ordered, route.suffix.len(), 0);
        let result = by_specificity(routes);
        assert forall|k: int| 0 <= k < result.len() implies exists|j: int|
            0 <= j < routes.len() && routes[j] == #[trigger] result[k] by {
            if k == at {
                assert(routes[routes.len() - 1] == result[k]);
            } else {
                let b = if k < at {
                    k
                } else {
                    k - 1
                };
                assert(result[k] == ordered[b]);
                let j = choose|j: int| 0 <= j < less.len() && less[j] == ordered[b];
                assert(routes[j] == result[k]);
            }
        }
    }
}

/// Immutable policy with unique suffixes ordered from most to least specific.
#[derive(Debug)]
pub struct RoutingTable {
    default: UpstreamGroup,
    routes: Vec<Route>,
}

impl View for RoutingTable {
    type V = TableView;

    closed spec fn view(&self) -> TableView {
        TableView { default: self.default@, routes: route_views(self.routes@) }
    }
}

/// A borrowed route decision, retaining whether an explicit suffix matched.
#[derive(Debug)]
pub enum Selection<'a> {
    Default(&'a UpstreamGroup),
    Routed(&'a Route),
}

impl<'a> View for Selection<'a> {
    type V = SelectionView;

    open spec fn view(&self) -> SelectionView {
        match self {
            Selection::Default(group) => SelectionView::Default(group@),
            Selection::Routed(route) => SelectionView::Routed(route@),
        }
    }
}

impl<'a> Selection<'a> {
    /// Returns the only group eligible for this query, including during failover.
    pub fn upstreams(&self) -> (r: &'a UpstreamGroup)
        ensures
            r@ == self@.servers(),
    {
        match self {
            Selection::Default(group) => group,
            Selection::Routed(route) => &route.upstreams,
        }
    }
}

impl RoutingTable {
    #[verifier::type_invariant]
    spec fn well_formed(self) -> bool {
        self@.valid()
    }

    /// Rejects duplicate suffixes and prepares longest-suffix lookup order.
    ///
    /// Suffixes are duplicates where they differ only in ASCII case.
    pub fn new(default: UpstreamGroup, routes: Vec<Route>) -> (r: Result<RoutingTable, RouteError>)
        ensures
            match first_repeat(route_views(routes@), 0) {
                None => r is Ok && r->Ok_0@ == (TableView {
                    default: default@,
                    routes: by_specificity(route_views(routes@)),
                }),
                Some(i) => r is Err && r->Err_0@ == RouteErrorView::DuplicateRoute(
                    route_views(routes@)[i].suffix,
                ),
            },
    {
        let ghost listed = route_views(routes@);
        let mut i: usize = 0;
        while i < routes.len()
            invariant
                i <= routes@.len(),
                listed == route_views(routes@),
                first_repeat(listed, 0) == first_repeat(listed, i as int),
            decreases routes@.len() - i,
        {
            if has_suffix(&routes, i) {
                assert(listed[i as int] == routes@[i as int]@);
                return Err(RouteError::DuplicateRoute(routes[i].suffix.clone()));
            }
            i += 1;
        }
        // With complete-label matching, specificity is the number of labels,
        // not the number of bytes. The first matching route is then sufficient.
        let ordered = sort_routes(routes);
        proof {
            first_repeat_is_complete(listed, 0);
            lookup_order_is_by_specificity(listed);
            unique_in_any_order(listed);
        }
        Ok(RoutingTable { default, routes: ordered })
    }

    /// Selects the longest suffix, or the default only when no suffix matches.
    ///
    /// Exhausting a routed group never authorizes use of the default group;
    /// otherwise private names could leak to a public resolver during outages.
    pub fn select(&self, name: &DomainName) -> (r: Selection<'_>)
        ensures
            r@ == self@.selected(name@),
    {
        let ghost listed = self@.routes;
        let mut i: usize = 0;
        while i < self.routes.len()
            invariant
                i <= self.routes@.len(),
                listed == route_views(self.routes@),
                first_match(listed, name@, 0) == first_match(listed, name@, i as int),
            decreases self.routes@.len() - i,
        {
            assert(listed[i as int] == self.routes@[i as int]@);
            if name.is_subdomain_of(&self.routes[i].suffix) {
                return Selection::Routed(&self.routes[i]);
            }
            i += 1;
        }
        Selection::Default(&self.default)
    }

    /// Returns explicit routes in lookup order, rather than configuration order.
    pub fn routes(&self) -> (r: &[Route])
        ensures
            route_views(r@) == self@.routes,
            self@.valid(),
    {
        proof {
            use_type_invariant(self);
        }
        self.routes.as_slice()
    }

    pub fn default(&self) -> (r: &UpstreamGroup)
        ensures
            r@ == self@.default,
    {
        &self.default
    }
}

/// Whether an earlier route has the suffix of route `i`.
fn has_suffix(routes: &Vec<Route>, i: usize) -> (r: bool)
    requires
        i < routes@.len(),
    ensures
        r == repeats(route_views(routes@), i as int),
{
    let ghost listed = route_views(routes@);
    let mut k: usize = 0;
    while k < i
        invariant
            k <= i < routes@.len(),
            listed == route_views(routes@),
            forall|j: int|
                0 <= j < k ==> !name::same_name(
                    (#[trigger] listed[j]).suffix,
                    listed[i as int].suffix,
                ),
        decreases i - k,
    {
        if routes[k].suffix == routes[i].suffix {
            assert(name::same_name(listed[k as int].suffix, listed[i as int].suffix));
            return true;
        }
        assert(listed[k as int] == routes@[k as int]@);
        k += 1;
    }
    false
}

/// Puts routes into lookup order.
fn sort_routes(routes: Vec<Route>) -> (r: Vec<Route>)
    ensures
        route_views(r@) == by_specificity(route_views(routes@)),
{
    let ghost listed = route_views(routes@);
    let total: usize = routes.len();
    let mut waiting: Vec<Route> = routes;
    let mut ordered: Vec<Route> = Vec::new();
    let mut done: usize = 0;
    assert(listed.skip(0) =~= listed);
    assert(route_views(ordered@) =~= by_specificity(listed.take(0)));
    while done < total
        invariant
            done <= total == listed.len(),
            route_views(waiting@) == listed.skip(done as int),
            route_views(ordered@) == by_specificity(listed.take(done as int)),
        decreases total - done,
    {
        let ghost before = route_views(ordered@);
        let ghost rest = route_views(waiting@);
        assert(waiting@.len() == rest.len());
        let route = waiting.remove(0);
        assert(route_views(waiting@) =~= rest.skip(1));
        assert(rest.skip(1) =~= listed.skip(done + 1));
        assert(rest[0] == listed[done as int]);
        let labels: usize = route.suffix.label_count();
        let mut at: usize = 0;
        while at < ordered.len() && ordered[at].suffix.label_count() >= labels
            invariant
                at <= ordered@.len(),
                before == route_views(ordered@),
                place(before, labels as nat, 0) == place(before, labels as nat, at as int),
            decreases ordered@.len() - at,
        {
            assert(before[at as int] == ordered@[at as int]@);
            at += 1;
        }
        assert(at < ordered@.len() ==> before[at as int] == ordered@[at as int]@);
        let ghost placed = route@;
        ordered.insert(at, route);
        assert(route_views(ordered@) =~= before.insert(at as int, placed));
        assert(listed.take(done + 1).drop_last() =~= listed.take(done as int));
        done += 1;
    }
    assert(listed.take(total as int) =~= listed);
    ordered
}

/// Routes without a repeated suffix make a valid table in lookup order, and every
/// route of the table is one of them.
pub proof fn lookup_order_is_valid(routes: Seq<RouteView>)
    requires
        first_repeat(routes, 0) is None,
    ensures
        forall|default: Seq<SocketAddress>|
            #[trigger] (TableView { default, routes: by_specificity(routes) }).valid(),
        forall|k: int|
            0 <= k < by_specificity(routes).len() ==> exists|j: int|
                0 <= j < routes.len() && routes[j] == #[trigger] by_specificity(routes)[k],
{
    first_repeat_is_complete(routes, 0);
    lookup_order_is_by_specificity(routes);
    unique_in_any_order(routes);
    holds_the_same(routes);
}

proof fn first_match_is_first(routes: Seq<RouteView>, name: Seq<Seq<u8>>, from: int)
    requires
        0 <= from,
    ensures
        match first_match(routes, name, from) {
            Some(at) => {
                &&& from <= at < routes.len()
                &&& name::within(name, routes[at].suffix)
                &&& forall|i: int|
                    from <= i < at ==> !name::within(name, (#[trigger] routes[i]).suffix)
            },
            None => forall|i: int|
                from <= i < routes.len() ==> !name::within(name, (#[trigger] routes[i]).suffix),
        },
    decreases routes.len() - from,
{
    if from < routes.len() && !name::within(name, routes[from].suffix) {
        first_match_is_first(routes, name, from + 1);
    }
}

/// The default group serves a name exactly where no suffix matches it, and a
/// selected route matches with strictly more labels than any other that does.
pub proof fn selection_is_the_longest_suffix(table: TableView, name: Seq<Seq<u8>>)
    requires
        table.valid(),
    ensures
        match first_match(table.routes, name, 0) {
            None => {
                &&& table.selected(name) == SelectionView::Default(table.default)
                &&& forall|i: int|
                    0 <= i < table.routes.len() ==> !name::within(
                        name,
                        (#[trigger] table.routes[i]).suffix,
                    )
            },
            Some(at) => {
                &&& 0 <= at < table.routes.len()
                &&& table.selected(name) == SelectionView::Routed(table.routes[at])
                &&& name::within(name, table.routes[at].suffix)
                &&& forall|i: int|
                    0 <= i < table.routes.len() && i != at && name::within(
                        name,
                        (#[trigger] table.routes[i]).suffix,
                    ) ==> table.routes[i].suffix.len() < table.routes[at].suffix.len()
            },
        },
{
    first_match_is_first(table.routes, name, 0);
    match first_match(table.routes, name, 0) {
        None => {},
        Some(at) => {
            assert forall|i: int|
                0 <= i < table.routes.len() && i != at && name::within(
                    name,
                    (#[trigger] table.routes[i]).suffix,
                ) implies table.routes[i].suffix.len() < table.routes[at].suffix.len() by {
                assert(i > at);
                let a = table.routes[at].suffix;
                let b = table.routes[i].suffix;
                if a.len() == b.len() {
                    assert(name::same_name(a, b));
                    assert(repeats(table.routes, i));
                }
            }
        },
    }
}

/// Names that differ only in the case of their letters belong to the same group.
pub proof fn selection_ignores_case(table: TableView, a: Seq<Seq<u8>>, b: Seq<Seq<u8>>)
    requires
        a.len() == b.len(),
        forall|i: int|
            #![trigger a[i]]
            0 <= i < a.len() ==> name::spelled_alike(a[i], b[i]),
    ensures
        table.selected(a) == table.selected(b),
{
    name::same_names_are_spelled_alike(a, b);
    matches_ignore_case(table.routes, a, b, 0);
}

proof fn matches_ignore_case(routes: Seq<RouteView>, a: Seq<Seq<u8>>, b: Seq<Seq<u8>>, from: int)
    requires
        name::same_name(a, b),
        0 <= from,
    ensures
        first_match(routes, a, from) == first_match(routes, b, from),
    decreases routes.len() - from,
{
    if from < routes.len() {
        let suffix = routes[from].suffix;
        name::within_each_other_is_sameness(a, b);
        if name::within(a, suffix) {
            name::within_is_transitive(b, a, suffix);
        }
        if name::within(b, suffix) {
            name::within_is_transitive(a, b, suffix);
        }
        matches_ignore_case(routes, a, b, from + 1);
    }
}

/// A name in capital letters, and the name itself, belong to the same group.
pub proof fn selection_ignores_capitals(table: TableView, name: Seq<Seq<u8>>)
    ensures
        table.selected(name::capitalised(name)) == table.selected(name),
{
    selection_ignores_case(table, name, name::capitalised(name));
}

/// A name whose last labels spell the suffix of some route is never served by the
/// default group, and a name that ends with no suffix of the table always is.
pub proof fn selection_goes_by_whole_labels(table: TableView, name: Seq<Seq<u8>>)
    requires
        table.valid(),
    ensures
        table.selected(name) is Routed <==> exists|r: int|
            0 <= r < table.routes.len() && name.len() >= (#[trigger] table.routes[r]).suffix.len()
                && forall|i: int|
                #![trigger table.routes[r].suffix[i]]
                0 <= i < table.routes[r].suffix.len() ==> name::spelled_alike(
                    name[name.len() - table.routes[r].suffix.len() + i],
                    table.routes[r].suffix[i],
                ),
{
    selection_is_the_longest_suffix(table, name);
    assert forall|r: int| 0 <= r < table.routes.len() implies name::within(
        name,
        (#[trigger] table.routes[r]).suffix,
    ) == (name.len() >= table.routes[r].suffix.len() && forall|i: int|
        #![trigger table.routes[r].suffix[i]]
        0 <= i < table.routes[r].suffix.len() ==> name::spelled_alike(
            name[name.len() - table.routes[r].suffix.len() + i],
            table.routes[r].suffix[i],
        )) by {
        name::names_below_a_suffix_end_with_it(name, table.routes[r].suffix);
    }
}

/// The lookup order holds exactly the routes of a list.
pub proof fn lookup_order_holds_the_same(routes: Seq<RouteView>)
    ensures
        forall|route: RouteView| #[trigger]
            by_specificity(routes).contains(route) <==> routes.contains(route),
{
    broadcast use vstd::seq_lib::group_to_multiset_ensures;

    lookup_order_is_by_specificity(routes);
    assert forall|route: RouteView| #[trigger]
        by_specificity(routes).contains(route) <==> routes.contains(route) by {
        assert(by_specificity(routes).to_multiset().count(route) == routes.to_multiset().count(
            route,
        ));
    }
}

/// The endpoint of an address is the address itself, but for an IPv4-mapped IPv6
/// address, which is its IPv4 address. It is one that reaches a single host: not the
/// unspecified address, no multicast and not the IPv4 broadcast, on a port other than
/// zero.
pub proof fn upstreams_are_unicast_endpoints(address: SocketAddress)
    ensures
        ({
            let mapped = 0xffff_0000_0000u128;
            let v4 = |bits: int|
                bits != 0 && !(0xe000_0000 <= bits <= 0xefff_ffff) && bits != 0xffff_ffff;
            match address.ip {
                IpAddress::V4(bits) => upstream_of(address) == (if address.port != 0 && v4(
                    bits as int,
                ) {
                    Some(SocketAddress { scope_id: 0, ..address })
                } else {
                    None
                }),
                IpAddress::V6(bits) => if mapped <= bits <= mapped + 0xffff_ffff {
                    upstream_of(address) == (if address.port != 0 && v4(bits - mapped) {
                        Some(
                            SocketAddress {
                                ip: IpAddress::V4((bits - mapped) as u32),
                                port: address.port,
                                scope_id: 0,
                            },
                        )
                    } else {
                        None
                    })
                } else {
                    upstream_of(address) == (if address.port != 0 && bits != 0 && bits
                        < 0xff00_0000_0000_0000_0000_0000_0000_0000u128 {
                        Some(address)
                    } else {
                        None
                    })
                },
            }
        }),
{
}

/// Routes of which no two have the same suffix are no repetition.
pub proof fn distinct_suffixes_are_no_repeat(routes: Seq<RouteView>)
    requires
        forall|i: int, j: int|
            0 <= i < j < routes.len() ==> !name::same_name(
                (#[trigger] routes[i]).suffix,
                (#[trigger] routes[j]).suffix,
            ),
    ensures
        first_repeat(routes, 0) is None,
{
    first_repeat_is_complete(routes, 0);
}

/// Routes with equally many labels keep their order in the lookup order.
pub proof fn equally_specific_routes_keep_their_order(routes: Seq<RouteView>, i: int, j: int)
    requires
        0 <= i < j < routes.len(),
        routes[i].suffix.len() == routes[j].suffix.len(),
    ensures
        exists|p: int, q: int|
            0 <= p < q < routes.len() && #[trigger] by_specificity(routes)[p] == routes[i]
                && #[trigger] by_specificity(routes)[q] == routes[j],
    decreases routes.len(),
{
    let less = routes.drop_last();
    let route = routes.last();
    let ordered = by_specificity(less);
    let at = place(ordered, route.suffix.len(), 0);
    lookup_order_is_by_specificity(less);
    lookup_order_is_by_specificity(routes);
    place_is_the_border(ordered, route.suffix.len(), 0);
    let result = by_specificity(routes);
    assert(result == ordered.insert(at, route));
    if j < routes.len() - 1 {
        equally_specific_routes_keep_their_order(less, i, j);
        let (p, q) = choose|p: int, q: int|
            0 <= p < q < less.len() && #[trigger] ordered[p] == less[i] && #[trigger] ordered[q]
                == less[j];
        let after = |k: int|
            if k < at {
                k
            } else {
                k + 1
            };
        assert(result[after(p)] == routes[i]);
        assert(result[after(q)] == routes[j]);
        assert(0 <= after(p) < after(q) < routes.len());
    } else {
        lookup_order_holds_the_same(less);
        assert(less[i] == routes[i]);
        assert(less.contains(routes[i]));
        assert(ordered.contains(routes[i]));
        let p = choose|p: int| 0 <= p < ordered.len() && ordered[p] == routes[i];
        assert(p < at);
        assert(result[p] == routes[i]);
        assert(result[at] == routes[j]);
    }
}

} // verus!

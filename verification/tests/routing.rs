use sederial::address::{IpAddress, SocketAddress};
use sederial::dns::name::DomainName;
use sederial::routing::{
    Route, RouteError, RoutingTable, Selection, UpstreamAddress, UpstreamGroup,
};

fn endpoint(port: u16) -> SocketAddress {
    SocketAddress {
        ip: IpAddress::V4(0x7f00_0001),
        port,
        scope_id: 0,
    }
}

fn group(port: u16) -> UpstreamGroup {
    UpstreamGroup::new(vec![
        UpstreamAddress::new(endpoint(port)).unwrap(),
    ])
    .unwrap()
}
#[test]
fn exact_subdomain_longest_boundary_default_and_reverse() {
    let routes = [
        "exceeds.test",
        "ad.lab.exceeds.test",
        "lab.exceeds.test",
        "100.168.192.in-addr.arpa",
    ]
    .iter()
    .enumerate()
    .map(|(i, name)| Route {
        suffix: name.parse().unwrap(),
        upstreams: group(100 + i as u16),
    })
    .collect();
    let table = RoutingTable::new(group(53), routes).unwrap();
    for (name, port) in [
        ("ad.lab.exceeds.test", 101),
        ("HOST.AD.LAB.EXCEEDS.TEST.", 101),
        ("_ldap._tcp.dc._msdcs.ad.lab.exceeds.test", 101),
        ("lab.exceeds.test", 102),
        ("host.exceeds.test", 100),
        ("badexceeds.test", 53),
        ("example.com", 53),
        ("github.com", 53),
        ("1.100.168.192.in-addr.arpa", 103),
        (".", 53),
    ] {
        assert_eq!(
            table.select(&name.parse().unwrap()).upstreams().servers()[0]
                .socket()
                .port,
            port,
            "{name}"
        );
    }
}
#[test]
fn root_route_and_duplicate_normalization() {
    let table = RoutingTable::new(
        group(53),
        vec![Route {
            suffix: ".".parse().unwrap(),
            upstreams: group(54),
        }],
    )
    .unwrap();
    assert!(matches!(
        table.select(&"anything.test".parse().unwrap()),
        Selection::Routed(_)
    ));
    assert!(
        RoutingTable::new(
            group(53),
            vec![
                Route {
                    suffix: "EXAMPLE.COM".parse().unwrap(),
                    upstreams: group(54)
                },
                Route {
                    suffix: "example.com.".parse().unwrap(),
                    upstreams: group(55)
                }
            ]
        )
        .is_err()
    );
}

#[test]
fn groups_are_bounded_distinct_and_keep_their_order() {
    let server = |port| UpstreamAddress::new(endpoint(port)).unwrap();
    let group = UpstreamGroup::new(vec![server(3), server(1), server(2)]).unwrap();
    let ports: Vec<u16> = group.servers().iter().map(|s| s.socket().port).collect();
    assert_eq!(ports, [3, 1, 2]);
    assert!(matches!(
        UpstreamGroup::new(vec![]),
        Err(RouteError::InvalidGroupSize)
    ));
    assert!(UpstreamGroup::new((1..=8).map(server).collect()).is_ok());
    assert!(matches!(
        UpstreamGroup::new((1..=9).map(server).collect()),
        Err(RouteError::InvalidGroupSize)
    ));
    assert!(matches!(
        UpstreamGroup::new(vec![server(3), server(1), server(3)]),
        Err(RouteError::DuplicateServer)
    ));
}

#[test]
fn upstreams_are_normalized_and_keep_their_scope() {
    let mapped = SocketAddress {
        ip: IpAddress::V6(0xffff_c000_0201),
        port: 53,
        scope_id: 9,
    };
    assert_eq!(
        UpstreamAddress::new(mapped).unwrap().socket(),
        SocketAddress {
            ip: IpAddress::V4(0xc000_0201),
            port: 53,
            scope_id: 0
        }
    );
    let scoped = SocketAddress {
        ip: IpAddress::V6(0xfe80 << 112 | 1),
        port: 53,
        scope_id: 9,
    };
    assert_eq!(UpstreamAddress::new(scoped).unwrap().socket(), scoped);
    assert!(matches!(
        UpstreamAddress::new(endpoint(0)),
        Err(RouteError::InvalidAddress)
    ));
}

#[test]
fn lookup_order_is_by_labels_and_otherwise_stable() {
    let route = |name: &str, port| Route {
        suffix: name.parse().unwrap(),
        upstreams: group(port),
    };
    let table = RoutingTable::new(
        group(53),
        vec![
            route("b.test", 1),
            route("test", 2),
            route("x.a.test", 3),
            route("a.test", 4),
        ],
    )
    .unwrap();
    let ports: Vec<u16> = table
        .routes()
        .iter()
        .map(|route| route.upstreams.servers()[0].socket().port)
        .collect();
    assert_eq!(ports, [3, 1, 4, 2]);
    let error = RoutingTable::new(group(53), vec![route("a.b", 1), route("A.B", 2)]).unwrap_err();
    assert!(matches!(&error, RouteError::DuplicateRoute(_)));
    assert_eq!(error.message(), "duplicate route for A.B.");
}

#[test]
fn suffixes_match_whole_labels_and_nest() {
    let name = |text: &str| text.parse::<DomainName>().unwrap();
    let host = name("a.b.example.test");
    let middle = name("B.Example.Test");
    let top = name("example.test.");
    assert!(host.is_subdomain_of(&host));
    assert!(host.is_subdomain_of(&name(".")));
    assert!(host.is_subdomain_of(&middle) && middle.is_subdomain_of(&top));
    assert!(host.is_subdomain_of(&top));
    assert!(!top.is_subdomain_of(&middle));
    assert!(!name("notexample.test").is_subdomain_of(&top));
    assert!(name("EXAMPLE.test") == top && top == name("Example.TEST."));
}

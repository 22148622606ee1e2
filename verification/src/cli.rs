//! The command line, and what is reported about a loaded configuration.
use crate::config::{Config, ConfigView, DEFAULT_CONFIG};
use crate::dns::name;
use crate::routing::RouteView;
use crate::text::{self, concat, decimal_text, same_text};
use vstd::prelude::*;

verus! {

/// Cap on the routes that are reported one by one, so that a full split-DNS file
/// cannot write one journal entry per route.
pub const ROUTE_LOG_LIMIT: usize = 8;

/// What the arguments ask for.
#[derive(Debug, Clone, Copy, PartialEq, Eq, Structural)]
pub enum Invocation {
    Help,
    Version,
    /// `config` is the place of the argument that names the configuration file.
    Run { config: Option<usize>, check: bool },
    /// `--config` is the last argument.
    MissingPath,
    /// The argument at this place is unknown, or was given before.
    Unknown(usize),
}

/// What arguments from a place on ask for, after some were read.
///
/// An argument that is not text matches no option. Help and version end the
/// reading; everything else is checked to the end.
pub open spec fn invocation_from(
    args: Seq<Option<Seq<char>>>,
    at: int,
    config: Option<usize>,
    check: bool,
) -> Invocation
    decreases args.len() - at,
{
    if at >= args.len() {
        Invocation::Run { config, check }
    } else if args[at] == Some("--help"@) || args[at] == Some("-h"@) {
        Invocation::Help
    } else if args[at] == Some("--version"@) || args[at] == Some("-V"@) {
        Invocation::Version
    } else if args[at] == Some("--config"@) && config is None {
        if at + 1 < args.len() {
            invocation_from(args, at + 2, Some((at + 1) as usize), check)
        } else {
            Invocation::MissingPath
        }
    } else if args[at] == Some("--check"@) && !check {
        invocation_from(args, at + 1, config, true)
    } else {
        Invocation::Unknown(at as usize)
    }
}

/// The texts of a list of arguments.
pub open spec fn argument_views(args: Seq<Option<String>>) -> Seq<Option<Seq<char>>> {
    args.map_values(|arg: Option<String>| match arg {
        Some(text) => Some(text@),
        None => None,
    })
}

/// Whether an argument is an option.
fn is_option(arg: &Option<String>, option: &str) -> (r: bool)
    ensures
        r == ((match *arg {
            Some(text) => Some(text@),
            None => None,
        }) == Some(option@)),
{
    match arg {
        Some(text) => same_text(text.as_str(), option),
        None => false,
    }
}

/// Reads the arguments behind the program's name; one that is not text is `None`.
pub fn read_arguments(args: &Vec<Option<String>>) -> (r: Invocation)
    ensures
        r == invocation_from(argument_views(args@), 0, None, false),
{
    let ghost views = argument_views(args@);
    let count: usize = args.len();
    let mut config: Option<usize> = None;
    let mut check = false;
    let mut at: usize = 0;
    while at < count
        invariant
            count == args@.len(),
            at <= count,
            views == argument_views(args@),
            invocation_from(views, 0, None, false) == invocation_from(
                views,
                at as int,
                config,
                check,
            ),
        decreases count - at,
    {
        let arg = &args[at];
        if is_option(arg, "--help") || is_option(arg, "-h") {
            return Invocation::Help;
        } else if is_option(arg, "--version") || is_option(arg, "-V") {
            return Invocation::Version;
        } else if is_option(arg, "--config") && config.is_none() {
            if count - at < 2 {
                return Invocation::MissingPath;
            }
            config = Some(at + 1);
            at = at + 2;
        } else if is_option(arg, "--check") && !check {
            check = true;
            at = at + 1;
        } else {
            return Invocation::Unknown(at);
        }
    }
    Invocation::Run { config, check }
}

/// The text that explains the options.
pub open spec fn help_of(version: Seq<char>) -> Seq<char> {
    "Sederial "@ + version + "\nUsage: sederial [--config PATH] [--check]\n\nDefault config: "@
        + DEFAULT_CONFIG@
        + "\n--check validates configuration without opening listeners.\nUse SIGTERM or SIGINT for graceful shutdown."@
}

pub fn help_text(version: &str) -> (r: String)
    ensures
        r@ == help_of(version@),
{
    let mut out: String = String::from_str("Sederial ");
    out.append(version);
    out.append("\nUsage: sederial [--config PATH] [--check]\n\nDefault config: ");
    out.append(DEFAULT_CONFIG);
    out.append(
        "\n--check validates configuration without opening listeners.\nUse SIGTERM or SIGINT for graceful shutdown.",
    );
    out
}

/// A count of endpoints.
pub open spec fn upstreams_of(count: nat) -> Seq<char> {
    text::decimal(count) + " upstream(s)"@
}

/// The report on one route.
pub open spec fn route_line(route: RouteView) -> Seq<char> {
    "route "@ + name::shown(route.suffix) + ": "@ + upstreams_of(route.upstreams.len())
}

/// The reports on the first routes in lookup order.
pub open spec fn route_lines(routes: Seq<RouteView>) -> Seq<Seq<char>> {
    let shown = if routes.len() <= ROUTE_LOG_LIMIT {
        routes.len()
    } else {
        ROUTE_LOG_LIMIT as nat
    };
    routes.take(shown as int).map_values(|route: RouteView| route_line(route))
}

/// The report on a loaded configuration.
pub open spec fn report_of(path: Seq<char>, config: ConfigView) -> Seq<Seq<char>> {
    let routes = config.routing.routes;
    let head = seq![
        "configuration loaded from "@ + path,
        "default: "@ + upstreams_of(config.routing.default.len()),
        text::decimal(routes.len()) + " route(s)"@,
    ];
    let omitted = if routes.len() > ROUTE_LOG_LIMIT {
        seq![
            text::decimal((routes.len() - ROUTE_LOG_LIMIT) as nat)
                + " additional route(s) omitted from startup log"@,
        ]
    } else {
        Seq::empty()
    };
    head + route_lines(routes) + omitted
}

fn upstreams_text(count: usize) -> (r: String)
    ensures
        r@ == upstreams_of(count as nat),
{
    concat(decimal_text(count as u64).as_str(), " upstream(s)")
}

/// The texts of a list of lines.
pub open spec fn line_views(lines: Seq<String>) -> Seq<Seq<char>> {
    lines.map_values(|line: String| line@)
}

/// Reports what was loaded, with the longest suffixes first.
pub fn startup_report(path: &str, config: &Config) -> (r: Vec<String>)
    ensures
        line_views(r@) == report_of(path@, config@),
{
    let routes = config.routing.routes();
    let servers = config.routing.default().servers();
    let ghost listed = config@.routing.routes;
    let mut lines: Vec<String> = Vec::new();
    lines.push(concat("configuration loaded from ", path));
    lines.push(concat("default: ", upstreams_text(servers.len()).as_str()));
    lines.push(concat(decimal_text(routes.len() as u64).as_str(), " route(s)"));
    let ghost head = line_views(lines@);
    assert(head =~= seq![
        "configuration loaded from "@ + path@,
        "default: "@ + upstreams_of(config@.routing.default.len()),
        text::decimal(listed.len()) + " route(s)"@,
    ]);
    let shown: usize = if routes.len() <= ROUTE_LOG_LIMIT {
        routes.len()
    } else {
        ROUTE_LOG_LIMIT
    };
    let mut i: usize = 0;
    assert(line_views(lines@) =~= head + listed.take(0).map_values(
        |route: RouteView| route_line(route),
    ));
    while i < shown
        invariant
            i <= shown <= routes@.len() == listed.len(),
            listed == crate::routing::route_views(routes@),
            line_views(lines@) == head + listed.take(i as int).map_values(
                |route: RouteView| route_line(route),
            ),
        decreases shown - i,
    {
        let ghost before = line_views(lines@);
        assert(listed[i as int] == routes@[i as int]@);
        let group = routes[i].upstreams.servers();
        let mut line: String = concat("route ", routes[i].suffix.to_string().as_str());
        line.append(": ");
        line.append(upstreams_text(group.len()).as_str());
        assert(line@ =~= route_line(listed[i as int]));
        let ghost text = line@;
        lines.push(line);
        assert(line_views(lines@) =~= before.push(text));
        assert(line_views(lines@) =~= head + listed.take(i + 1).map_values(
            |route: RouteView| route_line(route),
        ));
        i += 1;
    }
    let ghost before = line_views(lines@);
    if routes.len() > ROUTE_LOG_LIMIT {
        let line = concat(
            decimal_text((routes.len() - ROUTE_LOG_LIMIT) as u64).as_str(),
            " additional route(s) omitted from startup log",
        );
        let ghost text = line@;
        lines.push(line);
        assert(line_views(lines@) =~= before.push(text));
    }
    assert(line_views(lines@) =~= report_of(path@, config@));
    lines
}

/// However many routes a configuration has, its report stays short.
pub proof fn report_is_bounded(path: Seq<char>, config: ConfigView)
    ensures
        report_of(path, config).len() <= 12,
{
}

proof fn arguments_are_read_on(
    args: Seq<Option<Seq<char>>>,
    more: Seq<Option<Seq<char>>>,
    at: int,
    config: Option<usize>,
    check: bool,
)
    requires
        0 <= at,
    ensures
        invocation_from(args, at, config, check) matches Invocation::Run {
            config: path,
            check: checked,
        } ==> invocation_from(args + more, at, config, check) == invocation_from(
            args + more,
            if at > args.len() {
                at
            } else {
                args.len() as int
            },
            path,
            checked,
        ),
    decreases args.len() - at,
{
    let whole = args + more;
    if at < args.len() {
        assert(whole[at] == args[at]);
        if args[at] == Some("--config"@) && config is None {
            if at + 1 < args.len() {
                arguments_are_read_on(args, more, at + 2, Some((at + 1) as usize), check);
            }
        } else if args[at] == Some("--check"@) && !check {
            arguments_are_read_on(args, more, at + 1, config, true);
        }
    }
}

proof fn options_differ()
    ensures
        "--check"@ != "--help"@,
        "--check"@ != "-h"@,
        "--check"@ != "--version"@,
        "--check"@ != "-V"@,
        "--check"@ != "--config"@,
        "--config"@ != "--help"@,
        "--config"@ != "-h"@,
        "--config"@ != "--version"@,
        "--config"@ != "-V"@,
        "--version"@ != "--help"@,
        "--version"@ != "-h"@,
        "-V"@ != "--help"@,
        "-V"@ != "-h"@,
{
    reveal_strlit("--check");
    reveal_strlit("--help");
    reveal_strlit("-h");
    reveal_strlit("--version");
    reveal_strlit("-V");
    reveal_strlit("--config");
    assert("--check"@[2] != "--config"@[2] || "--check"@.len() == 7);
    assert("--config"@.len() == 8);
    assert("--version"@.len() == 9);
    assert("--help"@.len() == 6);
    assert("-V"@[1] == 'V' && "-h"@[1] == 'h');
}

/// Without arguments the service runs with the default file. To arguments with which it
/// runs, each further one adds what it says: `--check` once, `--config` with a path once,
/// help and version at any time. Anything else is unknown.
pub proof fn arguments_add_up(
    args: Seq<Option<Seq<char>>>,
    next: Option<Seq<char>>,
    path: Option<Seq<char>>,
)
    requires
        invocation_from(args, 0, None, false) is Run,
        args.len() + 2 <= usize::MAX,
    ensures
        invocation_from(Seq::empty(), 0, None, false) == (Invocation::Run {
            config: None,
            check: false,
        }),
        ({
            let config = invocation_from(args, 0, None, false)->config;
            let check = invocation_from(args, 0, None, false)->check;
            let one = invocation_from(args.push(next), 0, None, false);
            let two = invocation_from(args.push(next).push(path), 0, None, false);
            &&& config matches Some(at) ==> at < args.len()
            &&& next == Some("--help"@) || next == Some("-h"@) ==> one is Help
            &&& next == Some("--version"@) || next == Some("-V"@) ==> one is Version
            &&& next == Some("--check"@) && !check ==> one == Invocation::Run {
                config,
                check: true,
            }
            &&& next == Some("--check"@) && check ==> one == Invocation::Unknown(
                args.len() as usize,
            )
            &&& next == Some("--config"@) && config is None ==> one is MissingPath && two
                == Invocation::Run { config: Some((args.len() + 1) as usize), check }
            &&& next == Some("--config"@) && config is Some ==> one == Invocation::Unknown(
                args.len() as usize,
            )
            &&& next != Some("--help"@) && next != Some("-h"@) && next != Some("--version"@) && next
                != Some("-V"@) && next != Some("--check"@) && next != Some("--config"@) ==> one
                == Invocation::Unknown(args.len() as usize)
        }),
{
    options_differ();
    let config = invocation_from(args, 0, None, false)->config;
    let check = invocation_from(args, 0, None, false)->check;
    let n = args.len() as int;
    arguments_are_read_on(args, seq![next], 0, None, false);
    assert(args + seq![next] =~= args.push(next));
    arguments_are_read_on(args, seq![next, path], 0, None, false);
    assert(args + seq![next, path] =~= args.push(next).push(path));
    assert(args.push(next)[n] == next);
    assert(args.push(next).push(path)[n] == next);
    config_is_an_argument(args, 0, None, false);
    let two = args.push(next).push(path);
    assert(invocation_from(two, n + 2, Some((n + 1) as usize), check) == Invocation::Run {
        config: Some((n + 1) as usize),
        check,
    });
    assert(invocation_from(args.push(next), n + 1, config, true) == Invocation::Run {
        config,
        check: true,
    });
}

proof fn config_is_an_argument(
    args: Seq<Option<Seq<char>>>,
    at: int,
    config: Option<usize>,
    check: bool,
)
    requires
        0 <= at,
        args.len() <= usize::MAX,
        config matches Some(place) ==> place < args.len(),
    ensures
        invocation_from(args, at, config, check) matches Invocation::Run {
            config: Some(place),
            ..
        } ==> place < args.len(),
    decreases args.len() - at,
{
    if at < args.len() {
        if at + 1 < args.len() {
            config_is_an_argument(args, at + 2, Some((at + 1) as usize), check);
        }
        config_is_an_argument(args, at + 1, config, true);
    }
}

/// A report has three lines on the whole, one on each of the first eight routes in lookup
/// order, and one more where there are others.
pub proof fn report_covers_the_first_routes(path: Seq<char>, config: ConfigView, i: int)
    ensures
        ({
            let n = config.routing.routes.len();
            let report = report_of(path, config);
            &&& report.len() == 3 + (if n <= 8 {
                n as int
            } else {
                9
            })
            &&& 0 <= i < n && i < 8 ==> report[3 + i] == route_line(config.routing.routes[i])
        }),
{
}

} // verus!

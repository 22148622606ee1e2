//! Diagnostics, job delivery, command line and shutdown.
use sederial::cli::{help_text, read_arguments, startup_report, Invocation};
use sederial::config::Config;
use sederial::logging::{emit, error, info, warn, WarningWindow};
use sederial::pool::{next_job, JobPoll, Jobs};
use sederial::server::{reports_client_failure, service_end, ListenerEnd};
use sederial::transport::IoErrorKind;

const SECOND: u64 = 1_000_000_000;

fn arguments(list: &[&str]) -> Vec<Option<String>> {
    list.iter().map(|arg| Some(arg.to_string())).collect()
}

#[test]
fn lines_carry_their_level_and_lane() {
    let line = info("shutdown complete");
    assert_eq!(line.text, "INFO shutdown complete");
    assert!(line.important);
    let line = error("thread panicked; service will stop");
    assert_eq!(line.text, "ERROR thread panicked; service will stop");
    assert!(line.important);
    let line = emit("WARN", "x", false);
    assert_eq!(line.text, "WARN x");
    assert!(!line.important);
}

#[test]
fn long_lines_are_cut_between_characters() {
    let line = emit("INFO", &"a".repeat(5000), true);
    assert_eq!(line.text.len(), 2048);
    let line = emit("INFO", &"a".repeat(2043), true);
    assert_eq!(line.text.len(), 2048);
    // Five octets of level and space, then characters of two, three and four octets.
    for (c, fits) in [("é", 1021), ("€", 681), ("😀", 510)] {
        let line = emit("INFO", &c.repeat(3000), true);
        assert_eq!(line.text, format!("INFO {}", c.repeat(fits)));
    }
}

#[test]
fn warnings_are_limited_per_window_and_the_rest_is_counted() {
    let mut window: Option<WarningWindow> = None;
    for i in 0..20 {
        let lines = warn(&mut window, SECOND + i, "again");
        assert_eq!(lines.len(), 1);
        assert_eq!(lines[0].text, "WARN again");
        assert!(!lines[0].important);
    }
    for i in 0..3 {
        assert!(warn(&mut window, 2 * SECOND + i, "again").is_empty());
    }
    assert!(warn(&mut window, 6 * SECOND - 1, "again").is_empty());
    let lines = warn(&mut window, 6 * SECOND, "new");
    assert_eq!(lines.len(), 2);
    assert_eq!(lines[0].text, "WARN suppressed 4 repeated diagnostics");
    assert_eq!(lines[1].text, "WARN new");
    assert_eq!(
        window,
        Some(WarningWindow {
            started_at: 6 * SECOND,
            emitted: 1,
            suppressed: 0
        })
    );
}

#[test]
fn the_count_of_suppressed_warnings_saturates() {
    let mut window = Some(WarningWindow {
        started_at: 0,
        emitted: 20,
        suppressed: u64::MAX,
    });
    assert!(warn(&mut window, 1, "x").is_empty());
    assert_eq!(window.unwrap().suppressed, u64::MAX);
}

#[test]
fn jobs_are_bounded_and_come_out_in_order() {
    let mut jobs = Jobs::new(2);
    assert!(matches!(next_job(&mut jobs, false), JobPoll::Idle));
    assert!(jobs.submit('a'));
    assert!(jobs.submit('b'));
    assert!(!jobs.submit('c'));
    assert!(matches!(next_job(&mut jobs, false), JobPoll::Ready('a')));
    assert!(jobs.submit('d'));
    assert!(matches!(next_job(&mut jobs, true), JobPoll::Stopped));
    assert!(matches!(next_job(&mut jobs, false), JobPoll::Ready('b')));
    assert!(matches!(next_job(&mut jobs, false), JobPoll::Ready('d')));
    assert!(matches!(next_job(&mut jobs, false), JobPoll::Idle));
}

#[test]
fn a_closed_queue_discards_and_stops() {
    let mut jobs = Jobs::new(4);
    assert!(jobs.submit(1));
    assert!(!jobs.is_idle(true, false));
    jobs.close();
    assert!(!jobs.submit(2));
    assert!(matches!(next_job(&mut jobs, false), JobPoll::Stopped));
    assert!(!jobs.is_idle(true, false));
    let empty: Jobs<u8> = Jobs::new(1);
    assert!(empty.is_idle(true, false));
    assert!(!empty.is_idle(false, false));
    assert!(!empty.is_idle(true, true));
    let mut none: Jobs<u8> = Jobs::new(0);
    assert!(!none.submit(1));
}

#[test]
fn arguments_are_checked_one_by_one() {
    for (list, expected) in [
        (
            &[][..],
            Invocation::Run {
                config: None,
                check: false,
            },
        ),
        (&["--help"][..], Invocation::Help),
        (&["--check", "-h"][..], Invocation::Help),
        (&["--version"][..], Invocation::Version),
        (&["-V", "--unknown"][..], Invocation::Version),
        (&["--unknown"][..], Invocation::Unknown(0)),
        (&["--config"][..], Invocation::MissingPath),
        (
            &["--config", "--help"][..],
            Invocation::Run {
                config: Some(1),
                check: false,
            },
        ),
        (
            &["--check", "--config", "x.toml"][..],
            Invocation::Run {
                config: Some(2),
                check: true,
            },
        ),
        (&["--check", "--check"][..], Invocation::Unknown(1)),
        (
            &["--config", "a", "--config", "b"][..],
            Invocation::Unknown(2),
        ),
        (&["--config", "a", "--config"][..], Invocation::Unknown(2)),
    ] {
        assert_eq!(read_arguments(&arguments(list)), expected, "{list:?}");
    }
    let mut odd = arguments(&["--config"]);
    odd.push(None);
    assert_eq!(
        read_arguments(&odd),
        Invocation::Run {
            config: Some(1),
            check: false
        }
    );
    assert_eq!(read_arguments(&vec![None]), Invocation::Unknown(0));
}

#[test]
fn help_names_the_default_configuration() {
    assert_eq!(
        help_text("0.1.0"),
        "Sederial 0.1.0\nUsage: sederial [--config PATH] [--check]\n\nDefault config: /etc/sederial/sederial.toml\n--check validates configuration without opening listeners.\nUse SIGTERM or SIGINT for graceful shutdown."
    );
}

#[test]
fn startup_reports_routes_up_to_a_cap() {
    let mut text = "listen='127.0.0.1'\n[default]\nservers=['192.0.2.1','192.0.2.2']\n".to_string();
    text.push_str("[[route]]\ndomain='b.a'\nservers=['192.0.2.3']\n");
    text.push_str("[[route]]\ndomain='c.b.a'\nservers=['192.0.2.4','192.0.2.5']\n");
    let config = Config::parse(&text).unwrap();
    assert_eq!(
        startup_report("x.toml", &config),
        [
            "configuration loaded from x.toml",
            "default: 2 upstream(s)",
            "2 route(s)",
            "route c.b.a.: 2 upstream(s)",
            "route b.a.: 1 upstream(s)",
        ]
    );
    for i in 0..10 {
        text.push_str(&format!(
            "[[route]]\ndomain='r{i}'\nservers=['192.0.2.3']\n"
        ));
    }
    let report = startup_report("x.toml", &Config::parse(&text).unwrap());
    assert_eq!(report.len(), 12);
    assert_eq!(report[2], "12 route(s)");
    assert_eq!(report[10], "route r5.: 1 upstream(s)");
    assert_eq!(
        report[11],
        "4 additional route(s) omitted from startup log"
    );
}

#[test]
fn the_service_ends_with_the_first_failure() {
    let end = service_end(Ok(()), ListenerEnd::Joined(Ok(())));
    assert!(end.complete && end.result.is_ok());
    let end = service_end(Err("udp".to_string()), ListenerEnd::Joined(Ok(())));
    assert!(end.complete);
    assert_eq!(end.result.unwrap_err(), "udp");
    let end = service_end(Ok(()), ListenerEnd::Joined(Err("tcp".to_string())));
    assert!(!end.complete);
    assert_eq!(end.result.unwrap_err(), "tcp");
    let end = service_end(Ok(()), ListenerEnd::Panicked);
    assert_eq!(
        end.result.unwrap_err(),
        "TCP listener terminated unexpectedly"
    );
    let end = service_end(Ok(()), ListenerEnd::TimedOut { wake: Ok(()) });
    assert_eq!(
        end.result.unwrap_err(),
        "TCP listener shutdown timed out: local wake connection succeeded"
    );
    let end = service_end(
        Err("udp".to_string()),
        ListenerEnd::TimedOut {
            wake: Err("refused".to_string()),
        },
    );
    assert!(!end.complete);
    assert_eq!(end.result.unwrap_err(), "udp");
    let end = service_end(
        Ok(()),
        ListenerEnd::TimedOut {
            wake: Err("refused".to_string()),
        },
    );
    assert_eq!(
        end.result.unwrap_err(),
        "TCP listener shutdown timed out: local wake connection failed: refused"
    );
}

#[test]
fn idle_clients_and_shutdown_are_no_failures() {
    assert!(reports_client_failure(IoErrorKind::InvalidData, false));
    assert!(!reports_client_failure(IoErrorKind::TimedOut, false));
    assert!(!reports_client_failure(IoErrorKind::InvalidData, true));
}

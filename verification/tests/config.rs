use std::time::Duration;

use rustmetrics::config::{Arg, Config, ConfigError, ListenAddr, USAGE};

/// An IPv4 address and a port, where the word reads as one.
fn address(word: &str) -> Option<ListenAddr> {
    let (ip, port) = word.split_once(':')?;
    let parts: Vec<&str> = ip.split('.').collect();
    if parts.len() != 4 || parts.iter().any(|p| p.parse::<u8>().is_err()) {
        return None;
    }
    Some(ListenAddr {
        ip: ip.to_string(),
        port: port.parse().ok()?,
    })
}

fn parse(args: &[&str]) -> Result<Config, ConfigError> {
    let args: Vec<Arg> = args
        .iter()
        .map(|s| Arg {
            text: s.to_string(),
            addr: address(s),
        })
        .collect();
    Config::parse(&args)
}

#[test]
fn defaults_with_no_args() {
    let cfg = parse(&[]).unwrap();
    assert_eq!(cfg, Config::default());
}

#[test]
fn parses_all_flags() {
    let cfg = parse(&[
        "--listen",
        "0.0.0.0:8000",
        "--scrape",
        "http://a:1/metrics",
        "--scrape",
        "http://b:2/metrics",
        "--scrape-interval",
        "5",
        "--data-dir",
        "/tmp/rmx",
        "--snapshot-interval",
        "30",
        "--retention",
        "3600",
        "--no-snapshot",
    ])
    .unwrap();
    assert_eq!(cfg.listen.port, 8000);
    assert_eq!(cfg.scrape_targets.len(), 2);
    assert_eq!(Duration::from_secs(cfg.scrape_interval), Duration::from_secs(5));
    assert_eq!(cfg.data_dir, "/tmp/rmx");
    assert_eq!(Duration::from_secs(cfg.snapshot_interval), Duration::from_secs(30));
    assert_eq!(Duration::from_secs(cfg.retention), Duration::from_secs(3600));
    assert!(!cfg.snapshots_enabled);
}

#[test]
fn rejects_bad_input() {
    assert_eq!(
        parse(&["--bogus"]),
        Err(ConfigError::UnknownFlag("--bogus".to_string()))
    );
    assert_eq!(
        parse(&["--listen"]),
        Err(ConfigError::MissingValue("--listen"))
    );
    assert!(matches!(
        parse(&["--listen", "not-an-addr"]),
        Err(ConfigError::InvalidValue("--listen", _))
    ));
    assert!(matches!(
        parse(&["--scrape", "ftp://x/"]),
        Err(ConfigError::InvalidValue("--scrape", _))
    ));
    assert!(matches!(
        parse(&["--retention", "0"]),
        Err(ConfigError::InvalidValue("--retention", _))
    ));
    assert_eq!(parse(&["--help"]), Err(ConfigError::HelpRequested));
}

#[test]
fn default_values() {
    let cfg = Config::default();
    assert_eq!(cfg.listen, ListenAddr { ip: "127.0.0.1".to_string(), port: 9090 });
    assert_eq!(cfg.scrape_interval, 15);
    assert_eq!(cfg.data_dir, "./rustmetrics-data");
    assert_eq!(cfg.snapshot_interval, 60);
    assert_eq!(cfg.retention, 86_400);
    assert!(cfg.snapshots_enabled);
    assert_eq!(cfg.retention_ms(), 86_400_000);
    assert_eq!(cfg.clone(), cfg);
}

#[test]
fn messages() {
    assert_eq!(parse(&["-h"]).unwrap_err().message(), USAGE);
    assert_eq!(
        parse(&["-x\""]).unwrap_err().message(),
        "Config: unknown flag \"-x\\\"\""
    );
    assert_eq!(
        parse(&["--no-snapshot", "--data-dir"]).unwrap_err().message(),
        "Config: --data-dir requires a value"
    );
    assert_eq!(
        parse(&["--snapshot-interval", "-1"]).unwrap_err().message(),
        "Config: invalid value for --snapshot-interval: -1"
    );
    assert_eq!(
        parse(&["--scrape", "http://"]).unwrap_err().message(),
        "Config: invalid value for --scrape: ScrapeUrl: missing host in \"http://\""
    );
}

#[test]
fn retention_wraps_in_64_bits() {
    let cfg = parse(&["--retention", "18446744073709551615"]).unwrap();
    assert_eq!(
        cfg.retention_ms(),
        Duration::from_secs(u64::MAX).as_millis() as i64
    );
}

#[test]
fn accepted_arguments_are_sound() {
    let cfg = parse(&["--scrape", "http://a", "--retention", "+07", "--retention", "9"]).unwrap();
    assert_eq!(cfg.retention, 9);
    assert!(cfg.scrape_interval > 0 && cfg.snapshot_interval > 0);
    assert_eq!(cfg.scrape_targets[0].as_str(), "http://a");
    for flag in ["--scrape-interval", "--snapshot-interval", "--retention"] {
        for value in ["0", "00", "+0", "x", "", "18446744073709551616"] {
            assert_eq!(
                parse(&[flag, value]).unwrap_err().message(),
                format!("Config: invalid value for {flag}: {value}")
            );
        }
    }
}

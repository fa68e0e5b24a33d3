//! CLI argument boundary parser -> typed Config.

use vstd::prelude::*;

use crate::http::client::{
    client_error_text, law_parsed_url, url_of, ClientErrorSpec, ScrapeUrl, UrlSpec,
};
use crate::numeral::{as_signed, read_unsigned, to_signed, unsigned_upto};
use crate::text::{debug_string, debug_text, str_eq, to_chars};

verus! {

pub const USAGE: &'static str = "\
rustmetrics — minimalist metrics collection & dashboard in one binary

USAGE:
    rustmetrics [OPTIONS]

OPTIONS:
    --listen <addr>             Listen address (default: 127.0.0.1:9090)
    --scrape <url>              Scrape target, repeatable (http:// only)
    --scrape-interval <secs>    Scrape interval (default: 15)
    --data-dir <path>           Snapshot directory (default: ./rustmetrics-data)
    --snapshot-interval <secs>  Snapshot interval (default: 60)
    --retention <secs>          Sample retention window (default: 86400)
    --no-snapshot               Disable snapshot persistence
    --help                      Show this help
";

/// A socket address.
#[derive(Debug, PartialEq, Eq)]
pub struct ListenAddr {
    pub ip: String,
    pub port: u16,
}

/// The contents of a socket address.
pub struct AddrSpec {
    pub ip: Seq<char>,
    pub port: nat,
}

impl View for ListenAddr {
    type V = AddrSpec;

    open spec fn view(&self) -> AddrSpec {
        AddrSpec { ip: self.ip@, port: self.port as nat }
    }
}

impl Clone for ListenAddr {
    fn clone(&self) -> (r: Self)
        ensures
            r@ == self@,
    {
        ListenAddr { ip: self.ip.clone(), port: self.port }
    }
}

/// A command-line argument, with the socket address that it denotes, if any.
#[derive(Debug, PartialEq, Eq)]
pub struct Arg {
    pub text: String,
    pub addr: Option<ListenAddr>,
}

/// The contents of an argument.
pub struct ArgSpec {
    pub text: Seq<char>,
    pub addr: Option<AddrSpec>,
}

impl View for Arg {
    type V = ArgSpec;

    open spec fn view(&self) -> ArgSpec {
        ArgSpec {
            text: self.text@,
            addr: match self.addr {
                Some(a) => Some(a@),
                None => None,
            },
        }
    }
}

/// The contents of a configuration.
pub struct ConfigSpec {
    pub listen: AddrSpec,
    pub scrape_targets: Seq<UrlSpec>,
    pub scrape_interval: nat,
    pub data_dir: Seq<char>,
    pub snapshot_interval: nat,
    pub retention: nat,
    pub snapshots_enabled: bool,
}

/// The settings of a run; intervals and retention in seconds.
#[derive(Debug, PartialEq)]
pub struct Config {
    pub listen: ListenAddr,
    pub scrape_targets: Vec<ScrapeUrl>,
    pub scrape_interval: u64,
    pub data_dir: String,
    pub snapshot_interval: u64,
    pub retention: u64,
    pub snapshots_enabled: bool,
}

pub open spec fn url_views(s: Seq<ScrapeUrl>) -> Seq<UrlSpec> {
    s.map_values(|u: ScrapeUrl| u@)
}

impl View for Config {
    type V = ConfigSpec;

    open spec fn view(&self) -> ConfigSpec {
        ConfigSpec {
            listen: self.listen@,
            scrape_targets: url_views(self.scrape_targets@),
            scrape_interval: self.scrape_interval as nat,
            data_dir: self.data_dir@,
            snapshot_interval: self.snapshot_interval as nat,
            retention: self.retention as nat,
            snapshots_enabled: self.snapshots_enabled,
        }
    }
}

pub open spec fn default_config() -> ConfigSpec {
    ConfigSpec {
        listen: AddrSpec { ip: "127.0.0.1"@, port: 9090 },
        scrape_targets: seq![],
        scrape_interval: 15,
        data_dir: "./rustmetrics-data"@,
        snapshot_interval: 60,
        retention: 86_400,
        snapshots_enabled: true,
    }
}

impl Default for Config {
    fn default() -> (r: Self)
        ensures
            r@ == default_config(),
    {
        let r = Config {
            listen: ListenAddr { ip: "127.0.0.1".to_owned(), port: 9090 },
            scrape_targets: Vec::new(),
            scrape_interval: 15,
            data_dir: "./rustmetrics-data".to_owned(),
            snapshot_interval: 60,
            retention: 86_400,
            snapshots_enabled: true,
        };
        assert(r@.scrape_targets =~= seq![]);
        r
    }
}

impl Clone for Config {
    fn clone(&self) -> (r: Self)
        ensures
            r@ == self@,
    {
        let mut scrape_targets: Vec<ScrapeUrl> = Vec::new();
        let ghost all = url_views(self.scrape_targets@);
        for i in 0..self.scrape_targets.len()
            invariant
                all == url_views(self.scrape_targets@),
                url_views(scrape_targets@) == all.take(i as int),
        {
            let ghost before = url_views(scrape_targets@);
            let url = self.scrape_targets[i].clone();
            let ghost view = url@;
            scrape_targets.push(url);
            assert(url_views(scrape_targets@) =~= before.push(view));
            assert(all.take(i + 1) =~= all.take(i as int).push(all[i as int]));
        }
        assert(all.take(self.scrape_targets@.len() as int) =~= all);
        Config {
            listen: self.listen.clone(),
            scrape_targets,
            scrape_interval: self.scrape_interval,
            data_dir: self.data_dir.clone(),
            snapshot_interval: self.snapshot_interval,
            retention: self.retention,
            snapshots_enabled: self.snapshots_enabled,
        }
    }
}

/// What is wrong with the arguments.
pub enum ConfigErrorSpec {
    HelpRequested,
    UnknownFlag(Seq<char>),
    MissingValue(Seq<char>),
    InvalidValue(Seq<char>, Seq<char>),
}

#[derive(Debug, PartialEq)]
pub enum ConfigError {
    HelpRequested,
    UnknownFlag(String),
    MissingValue(&'static str),
    InvalidValue(&'static str, String),
}

impl View for ConfigError {
    type V = ConfigErrorSpec;

    open spec fn view(&self) -> ConfigErrorSpec {
        match self {
            ConfigError::HelpRequested => ConfigErrorSpec::HelpRequested,
            ConfigError::UnknownFlag(s) => ConfigErrorSpec::UnknownFlag(s@),
            ConfigError::MissingValue(f) => ConfigErrorSpec::MissingValue(f@),
            ConfigError::InvalidValue(f, v) => ConfigErrorSpec::InvalidValue(f@, v@),
        }
    }
}

impl Clone for ConfigError {
    fn clone(&self) -> (r: Self)
        ensures
            r@ == self@,
    {
        match self {
            ConfigError::HelpRequested => ConfigError::HelpRequested,
            ConfigError::UnknownFlag(s) => ConfigError::UnknownFlag(s.clone()),
            ConfigError::MissingValue(f) => ConfigError::MissingValue(f),
            ConfigError::InvalidValue(f, v) => ConfigError::InvalidValue(f, v.clone()),
        }
    }
}

/// The text of an error.
pub open spec fn config_error_text(e: ConfigErrorSpec) -> Seq<char> {
    match e {
        ConfigErrorSpec::HelpRequested => USAGE@,
        ConfigErrorSpec::UnknownFlag(s) => "Config: unknown flag "@ + debug_text(s),
        ConfigErrorSpec::MissingValue(f) => "Config: "@ + f + " requires a value"@,
        ConfigErrorSpec::InvalidValue(f, v) => "Config: invalid value for "@ + f + ": "@ + v,
    }
}

impl ConfigError {
    pub fn message(&self) -> (r: String)
        ensures
            r@ == config_error_text(self@),
    {
        let mut out = String::new();
        match self {
            ConfigError::HelpRequested => {
                out.append(USAGE);
            },
            ConfigError::UnknownFlag(s) => {
                out.append("Config: unknown flag ");
                out.append(debug_string(s.as_str()).as_str());
            },
            ConfigError::MissingValue(f) => {
                out.append("Config: ");
                out.append(f);
                out.append(" requires a value");
            },
            ConfigError::InvalidValue(f, v) => {
                out.append("Config: invalid value for ");
                out.append(f);
                out.append(": ");
                out.append(v.as_str());
            },
        }
        assert(out@ =~= config_error_text(self@));
        out
    }
}

/// The number of seconds that a text denotes: a positive number.
pub open spec fn seconds_of(s: Seq<char>) -> Option<nat> {
    match unsigned_upto(s, u64::MAX as nat) {
        Some(n) => if n == 0 {
            None
        } else {
            Some(n)
        },
        None => None,
    }
}

/// The flags that a value follows.
pub open spec fn takes_value(flag: Seq<char>) -> bool {
    flag == "--listen"@ || flag == "--scrape"@ || flag == "--scrape-interval"@ || flag
        == "--data-dir"@ || flag == "--snapshot-interval"@ || flag == "--retention"@
}

/// What a flag with a value makes of a configuration.
pub open spec fn with_setting(cfg: ConfigSpec, flag: Seq<char>, value: ArgSpec) -> Result<
    ConfigSpec,
    ConfigErrorSpec,
> {
    let invalid = Err(ConfigErrorSpec::InvalidValue(flag, value.text));
    if flag == "--listen"@ {
        match value.addr {
            Some(listen) => Ok(ConfigSpec { listen, ..cfg }),
            None => invalid,
        }
    } else if flag == "--scrape"@ {
        match url_of(value.text) {
            Ok(url) => Ok(ConfigSpec { scrape_targets: cfg.scrape_targets.push(url), ..cfg }),
            Err(e) => Err(ConfigErrorSpec::InvalidValue(flag, client_error_text(e))),
        }
    } else if flag == "--data-dir"@ {
        Ok(ConfigSpec { data_dir: value.text, ..cfg })
    } else {
        match seconds_of(value.text) {
            None => invalid,
            Some(n) => if flag == "--scrape-interval"@ {
                Ok(ConfigSpec { scrape_interval: n, ..cfg })
            } else if flag == "--snapshot-interval"@ {
                Ok(ConfigSpec { snapshot_interval: n, ..cfg })
            } else {
                Ok(ConfigSpec { retention: n, ..cfg })
            },
        }
    }
}

/// What the arguments make of a configuration.
pub open spec fn configured(cfg: ConfigSpec, args: Seq<ArgSpec>) -> Result<
    ConfigSpec,
    ConfigErrorSpec,
>
    decreases args.len(),
{
    if args.len() == 0 {
        Ok(cfg)
    } else {
        let flag = args[0].text;
        if flag == "--help"@ || flag == "-h"@ {
            Err(ConfigErrorSpec::HelpRequested)
        } else if flag == "--no-snapshot"@ {
            configured(ConfigSpec { snapshots_enabled: false, ..cfg }, args.skip(1))
        } else if !takes_value(flag) {
            Err(ConfigErrorSpec::UnknownFlag(flag))
        } else if args.len() == 1 {
            Err(ConfigErrorSpec::MissingValue(flag))
        } else {
            match with_setting(cfg, flag, args[1]) {
                Ok(next) => configured(next, args.skip(2)),
                Err(e) => Err(e),
            }
        }
    }
}

pub open spec fn arg_views(s: Seq<Arg>) -> Seq<ArgSpec> {
    s.map_values(|a: Arg| a@)
}

/// The flag that takes a value, as it stands in errors.
fn value_flag(s: &str) -> (r: Option<&'static str>)
    ensures
        match r {
            Some(f) => takes_value(s@) && f@ == s@,
            None => !takes_value(s@),
        },
{
    if str_eq(s, "--listen") {
        Some("--listen")
    } else if str_eq(s, "--scrape") {
        Some("--scrape")
    } else if str_eq(s, "--scrape-interval") {
        Some("--scrape-interval")
    } else if str_eq(s, "--data-dir") {
        Some("--data-dir")
    } else if str_eq(s, "--snapshot-interval") {
        Some("--snapshot-interval")
    } else if str_eq(s, "--retention") {
        Some("--retention")
    } else {
        None
    }
}

/// Reads a positive number of seconds.
fn parse_secs(flag: &'static str, value: &Arg) -> (r: Result<u64, ConfigError>)
    ensures
        match seconds_of(value@.text) {
            Some(n) => r matches Ok(x) && x == n,
            None => r matches Err(e) && e@ == ConfigErrorSpec::InvalidValue(
                flag@,
                value@.text,
            ),
        },
{
    let chars = to_chars(value.text.as_str());
    match read_unsigned(chars.as_slice(), u64::MAX) {
        Some(n) => if n == 0 {
            Err(ConfigError::InvalidValue(flag, value.text.clone()))
        } else {
            Ok(n)
        },
        None => Err(ConfigError::InvalidValue(flag, value.text.clone())),
    }
}

/// A retention in seconds as milliseconds in 64 bits.
pub open spec fn retention_millis(seconds: nat) -> int {
    as_signed((seconds * 1000) % 0x1_0000_0000_0000_0000)
}

impl Config {
    /// Takes a flag and its value.
    fn set(&mut self, flag: &'static str, value: &Arg) -> (r: Result<(), ConfigError>)
        requires
            takes_value(flag@),
        ensures
            match with_setting(old(self)@, flag@, value@) {
                Ok(next) => r is Ok && final(self)@ == next,
                Err(e) => r matches Err(x) && x@ == e,
            },
    {
        if str_eq(flag, "--listen") {
            match &value.addr {
                Some(a) => {
                    self.listen = a.clone();
                    Ok(())
                },
                None => Err(ConfigError::InvalidValue(flag, value.text.clone())),
            }
        } else if str_eq(flag, "--scrape") {
            match ScrapeUrl::parse(value.text.as_str()) {
                Ok(url) => {
                    let ghost before = self@.scrape_targets;
                    let ghost view = url@;
                    self.scrape_targets.push(url);
                    assert(self@.scrape_targets =~= before.push(view));
                    Ok(())
                },
                Err(e) => Err(ConfigError::InvalidValue(flag, e.message())),
            }
        } else if str_eq(flag, "--data-dir") {
            self.data_dir = value.text.clone();
            Ok(())
        } else {
            let secs: u64 = match parse_secs(flag, value) {
                Ok(n) => n,
                Err(e) => {
                    return Err(e);
                },
            };
            if str_eq(flag, "--scrape-interval") {
                self.scrape_interval = secs;
            } else if str_eq(flag, "--snapshot-interval") {
                self.snapshot_interval = secs;
            } else {
                self.retention = secs;
            }
            Ok(())
        }
    }

    pub fn parse(args: &[Arg]) -> (r: Result<Self, ConfigError>)
        ensures
            match configured(default_config(), arg_views(args@)) {
                Ok(c) => r matches Ok(x) && x@ == c,
                Err(e) => r matches Err(x) && x@ == e,
            },
    {
        let mut cfg = Config::default();
        let ghost all = arg_views(args@);
        let mut i: usize = 0;
        assert(all.skip(0) =~= all);
        while i < args.len()
            invariant
                all == arg_views(args@),
                i <= args@.len(),
                configured(default_config(), all) == configured(cfg@, all.skip(i as int)),
            decreases args@.len() - i,
        {
            let ghost rest = all.skip(i as int);
            let arg = args[i].text.as_str();
            assert(rest[0] == args@[i as int]@);
            assert(rest.skip(1) =~= all.skip(i + 1));
            if str_eq(arg, "--help") || str_eq(arg, "-h") {
                return Err(ConfigError::HelpRequested);
            }
            if str_eq(arg, "--no-snapshot") {
                cfg.snapshots_enabled = false;
                i += 1;
            } else {
                let flag = match value_flag(arg) {
                    Some(f) => f,
                    None => {
                        return Err(ConfigError::UnknownFlag(arg.to_owned()));
                    },
                };
                if i + 1 == args.len() {
                    return Err(ConfigError::MissingValue(flag));
                }
                assert(rest[1] == args@[i + 1]@);
                assert(rest.skip(2) =~= all.skip(i + 2));
                match cfg.set(flag, &args[i + 1]) {
                    Ok(()) => {},
                    Err(e) => {
                        return Err(e);
                    },
                }
                i += 2;
            }
        }
        Ok(cfg)
    }

    /// The retention in milliseconds, in 64 bits.
    pub fn retention_ms(&self) -> (r: i64)
        ensures
            r == as_signed((self@.retention * 1000) % 0x1_0000_0000_0000_0000),
            r == retention_millis(self@.retention),
    {
        let ms: u128 = self.retention as u128 * 1000;
        to_signed((ms % 0x1_0000_0000_0000_0000) as u64)
    }
}

/// The intervals and the retention are positive, and every target is a URL.
pub open spec fn is_sound(cfg: ConfigSpec) -> bool {
    &&& cfg.scrape_interval > 0
    &&& cfg.snapshot_interval > 0
    &&& cfg.retention > 0
    &&& forall|i: int|
        0 <= i < cfg.scrape_targets.len() ==> url_of((#[trigger] cfg.scrape_targets[i]).original)
            == Ok::<UrlSpec, ClientErrorSpec>(cfg.scrape_targets[i])
}

proof fn lemma_arguments_keep_soundness(cfg: ConfigSpec, args: Seq<ArgSpec>)
    requires
        is_sound(cfg),
    ensures
        configured(cfg, args) matches Ok(next) ==> is_sound(next),
    decreases args.len(),
{
    if args.len() > 0 {
        let flag = args[0].text;
        if flag == "--no-snapshot"@ {
            lemma_arguments_keep_soundness(
                ConfigSpec { snapshots_enabled: false, ..cfg },
                args.skip(1),
            );
        } else if args.len() > 1 {
            if flag == "--scrape"@ && url_of(args[1].text) is Ok {
                law_parsed_url(args[1].text);
            }
            if let Ok(next) = with_setting(cfg, flag, args[1]) {
                lemma_arguments_keep_soundness(next, args.skip(2));
            }
        }
    }
}

/// Arguments that are accepted give positive intervals, a positive retention and
/// targets that are URLs.
pub proof fn law_accepted_arguments(args: Seq<ArgSpec>)
    ensures
        configured(default_config(), args) matches Ok(cfg) ==> is_sound(cfg),
{
    lemma_arguments_keep_soundness(default_config(), args);
}

} // verus!

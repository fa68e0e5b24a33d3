//! Laws of the command line: each setting has the value behind its last flag, or
//! its default, and the first fault is reported.

use vstd::prelude::*;

use crate::config::{configured, default_config, AddrSpec, ArgSpec, ConfigErrorSpec, ConfigSpec};
use crate::http::client::{client_error_text, url_of, UrlSpec};
use crate::numeral::unsigned_value;

verus! {

/// A flag, with the argument behind it if it takes one.
pub struct Setting {
    pub flag: Seq<char>,
    pub value: Option<ArgSpec>,
}

/// The number of seconds that an argument gives.
pub open spec fn seconds(value: ArgSpec) -> nat {
    unsigned_value(value.text)->0
}

/// The flags that a number of seconds follows.
pub open spec fn takes_seconds(flag: Seq<char>) -> bool {
    flag == "--scrape-interval"@ || flag == "--snapshot-interval"@ || flag == "--retention"@
}

/// The argument can stand behind the flag: an address, a URL, a positive number
/// of seconds in 64 bits, or any text.
pub open spec fn is_fitting(flag: Seq<char>, value: ArgSpec) -> bool {
    if flag == "--listen"@ {
        value.addr is Some
    } else if flag == "--scrape"@ {
        url_of(value.text) is Ok
    } else if takes_seconds(flag) {
        unsigned_value(value.text) matches Some(n) && 0 < n <= u64::MAX
    } else {
        flag == "--data-dir"@
    }
}

pub open spec fn is_good(w: Setting) -> bool {
    match w.value {
        Some(v) => is_fitting(w.flag, v),
        None => w.flag == "--no-snapshot"@,
    }
}

pub open spec fn all_good(ws: Seq<Setting>) -> bool {
    forall|i: int| 0 <= i < ws.len() ==> is_good(#[trigger] ws[i])
}

/// The arguments that a setting is written with.
pub open spec fn words_of(w: Setting, flag: ArgSpec) -> Seq<ArgSpec> {
    match w.value {
        Some(v) => seq![flag, v],
        None => seq![flag],
    }
}

/// The argument that a text makes.
pub open spec fn plain(text: Seq<char>) -> ArgSpec {
    ArgSpec { text, addr: None }
}

/// The arguments that settings are written with, in their order.
pub open spec fn line_of(ws: Seq<Setting>) -> Seq<ArgSpec>
    decreases ws.len(),
{
    if ws.len() == 0 {
        seq![]
    } else {
        line_of(ws.drop_last()) + words_of(ws.last(), plain(ws.last().flag))
    }
}

/// The argument behind the last occurrence of a flag.
pub open spec fn last_value(ws: Seq<Setting>, flag: Seq<char>) -> Option<ArgSpec>
    decreases ws.len(),
{
    if ws.len() == 0 {
        None
    } else if ws.last().flag == flag {
        ws.last().value
    } else {
        last_value(ws.drop_last(), flag)
    }
}

/// The URLs behind the `--scrape` flags, in their order.
pub open spec fn targets_of(ws: Seq<Setting>) -> Seq<UrlSpec>
    decreases ws.len(),
{
    if ws.len() == 0 {
        seq![]
    } else if ws.last().flag == "--scrape"@ {
        targets_of(ws.drop_last()).push(url_of((ws.last().value->0).text)->Ok_0)
    } else {
        targets_of(ws.drop_last())
    }
}

/// The seconds behind the last occurrence of a flag, or the default.
pub open spec fn seconds_or(ws: Seq<Setting>, flag: Seq<char>, default: nat) -> nat {
    match last_value(ws, flag) {
        Some(v) => seconds(v),
        None => default,
    }
}

/// The configuration has each setting from its last flag, or the default.
pub open spec fn is_set_by(cfg: ConfigSpec, ws: Seq<Setting>) -> bool {
    &&& cfg.listen == match last_value(ws, "--listen"@) {
        Some(v) => v.addr->0,
        None => AddrSpec { ip: "127.0.0.1"@, port: 9090 },
    }
    &&& cfg.scrape_targets == targets_of(ws)
    &&& cfg.scrape_interval == seconds_or(ws, "--scrape-interval"@, 15)
    &&& cfg.data_dir == match last_value(ws, "--data-dir"@) {
        Some(v) => v.text,
        None => "./rustmetrics-data"@,
    }
    &&& cfg.snapshot_interval == seconds_or(ws, "--snapshot-interval"@, 60)
    &&& cfg.retention == seconds_or(ws, "--retention"@, 86_400)
    &&& cfg.snapshots_enabled <==> forall|i: int|
        0 <= i < ws.len() ==> (#[trigger] ws[i]).flag != "--no-snapshot"@
}

/// The flags are different words.
proof fn lemma_flags()
    ensures
        "--listen"@.len() == 8,
        "--scrape"@.len() == 8,
        "--listen"@ != "--scrape"@,
        "--scrape-interval"@.len() == 17,
        "--data-dir"@.len() == 10,
        "--snapshot-interval"@.len() == 19,
        "--retention"@.len() == 11,
        "--no-snapshot"@.len() == 13,
        "--help"@.len() == 6,
        "-h"@.len() == 2,
{
    reveal_strlit("--listen");
    reveal_strlit("--scrape");
    reveal_strlit("--scrape-interval");
    reveal_strlit("--data-dir");
    reveal_strlit("--snapshot-interval");
    reveal_strlit("--retention");
    reveal_strlit("--no-snapshot");
    reveal_strlit("--help");
    reveal_strlit("-h");
    assert("--listen"@[2] == 'l' && "--scrape"@[2] == 's');
}

/// One more setting.
proof fn lemma_one_setting(cfg: ConfigSpec, ws: Seq<Setting>, rest: Seq<ArgSpec>)
    requires
        ws.len() > 0,
        is_good(ws.last()),
        is_set_by(cfg, ws.drop_last()),
    ensures
        exists|next: ConfigSpec|
            is_set_by(next, ws) && #[trigger] configured(next, rest) == configured(
                cfg,
                words_of(ws.last(), plain(ws.last().flag)) + rest,
            ),
{
    lemma_flags();
    let w = ws.last();
    let front = ws.drop_last();
    let args = words_of(w, plain(w.flag)) + rest;
    let flag = w.flag;
    assert(args[0].text == flag);
    let off = flag == "--no-snapshot"@;
    assert(forall|i: int| 0 <= i < front.len() ==> front[i] == #[trigger] ws[i]);
    assert(ws[ws.len() - 1] == w);
    let enabled = forall|i: int|
        0 <= i < ws.len() ==> (#[trigger] ws[i]).flag != "--no-snapshot"@;
    assert(enabled <==> cfg.snapshots_enabled && !off) by {
        if cfg.snapshots_enabled && !off {
            assert forall|i: int| 0 <= i < ws.len() implies (#[trigger] ws[i]).flag
                != "--no-snapshot"@ by {
                if i < front.len() {
                    assert(front[i].flag != "--no-snapshot"@);
                }
            }
        }
        if enabled {
            assert forall|i: int| 0 <= i < front.len() implies (#[trigger] front[i]).flag
                != "--no-snapshot"@ by {
                assert(ws[i].flag != "--no-snapshot"@);
            }
        }
    }
    if off {
        let next = ConfigSpec { snapshots_enabled: false, ..cfg };
        assert(args.skip(1) =~= rest);
        assert(configured(next, rest) == configured(cfg, args));
        assert(is_set_by(next, ws));
    } else {
        let v = w.value->0;
        assert(args[1] == v);
        assert(args.skip(2) =~= rest);
        let next = ConfigSpec {
            listen: if flag == "--listen"@ {
                v.addr->0
            } else {
                cfg.listen
            },
            scrape_targets: targets_of(ws),
            scrape_interval: seconds_or(ws, "--scrape-interval"@, 15),
            data_dir: if flag == "--data-dir"@ {
                v.text
            } else {
                cfg.data_dir
            },
            snapshot_interval: seconds_or(ws, "--snapshot-interval"@, 60),
            retention: seconds_or(ws, "--retention"@, 86_400),
            snapshots_enabled: cfg.snapshots_enabled,
        };
        assert(is_set_by(next, ws));
        assert(configured(cfg, args) == configured(next, rest));
    }
}

proof fn lemma_settings(ws: Seq<Setting>, rest: Seq<ArgSpec>)
    requires
        all_good(ws),
    ensures
        exists|cfg: ConfigSpec|
            is_set_by(cfg, ws) && #[trigger] configured(cfg, rest) == configured(
                default_config(),
                line_of(ws) + rest,
            ),
    decreases ws.len(),
{
    if ws.len() == 0 {
        assert(line_of(ws) + rest =~= rest);
        assert(is_set_by(default_config(), ws));
    } else {
        let front = ws.drop_last();
        let words = words_of(ws.last(), plain(ws.last().flag));
        assert forall|i: int| 0 <= i < front.len() implies is_good(#[trigger] front[i]) by {
            assert(front[i] == ws[i]);
        }
        lemma_settings(front, words + rest);
        assert(line_of(front) + (words + rest) =~= line_of(ws) + rest);
        let cfg = choose|cfg: ConfigSpec|
            is_set_by(cfg, front) && #[trigger] configured(cfg, words + rest) == configured(
                default_config(),
                line_of(front) + (words + rest),
            );
        assert(is_good(ws[ws.len() - 1]));
        lemma_one_setting(cfg, ws, rest);
    }
}

/// Arguments that are made of flags, each with an argument that fits it where it
/// takes one, are accepted. Each setting is then exactly the argument behind its
/// last flag, the address whole, and the default where its flag does not occur;
/// every target is kept, in order.
pub proof fn law_settings_are_taken_over(ws: Seq<Setting>)
    requires
        all_good(ws),
    ensures
        configured(default_config(), line_of(ws)) matches Ok(cfg) && is_set_by(cfg, ws),
{
    lemma_settings(ws, seq![]);
    assert(line_of(ws) + seq![] =~= line_of(ws));
    let cfg = choose|cfg: ConfigSpec|
        is_set_by(cfg, ws) && #[trigger] configured(cfg, seq![]) == configured(
            default_config(),
            line_of(ws) + seq![],
        );
    assert(configured(cfg, seq![]) == Ok::<ConfigSpec, ConfigErrorSpec>(cfg));
}

/// The flags that an argument follows.
pub open spec fn is_value_flag(s: Seq<char>) -> bool {
    s == "--listen"@ || s == "--scrape"@ || s == "--data-dir"@ || takes_seconds(s)
}

/// The first fault behind settings that are good is reported: a call for help,
/// an unknown flag, a flag without its argument, or an argument that does not
/// fit, which is named itself unless it is a URL.
pub proof fn law_first_fault_is_reported(ws: Seq<Setting>, rest: Seq<ArgSpec>)
    requires
        all_good(ws),
        rest.len() > 0,
        rest[0].text != "--no-snapshot"@,
        is_value_flag(rest[0].text) && rest.len() > 1 ==> !is_fitting(rest[0].text, rest[1]),
    ensures
        configured(default_config(), line_of(ws) + rest) == Err::<ConfigSpec, ConfigErrorSpec>(
            if rest[0].text == "--help"@ || rest[0].text == "-h"@ {
                ConfigErrorSpec::HelpRequested
            } else if !is_value_flag(rest[0].text) {
                ConfigErrorSpec::UnknownFlag(rest[0].text)
            } else if rest.len() == 1 {
                ConfigErrorSpec::MissingValue(rest[0].text)
            } else if rest[0].text == "--scrape"@ {
                ConfigErrorSpec::InvalidValue(
                    rest[0].text,
                    client_error_text(url_of(rest[1].text)->Err_0),
                )
            } else {
                ConfigErrorSpec::InvalidValue(rest[0].text, rest[1].text)
            },
        ),
{
    lemma_settings(ws, rest);
    lemma_flags();
}

} // verus!

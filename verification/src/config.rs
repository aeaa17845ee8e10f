//! Configuration model: the probing parameters, the host list and the
//! presentation preferences, all as plain values.  Intervals and timeouts
//! are whole milliseconds; the unverified shell converts to and from its
//! own configuration format at the boundary.

use vstd::prelude::*;

verus! {

/// Global probing parameters.
#[derive(Debug, Clone, Copy, PartialEq, Eq, Structural)]
pub struct PingConfig {
    /// Default probe interval in milliseconds.
    pub interval_ms: u64,
    /// Per-probe timeout in milliseconds.
    pub timeout_ms: u64,
    /// Number of history entries each tracker keeps.
    pub history_size: usize,
    /// Probe payload size in bytes (accepted, not load-bearing here).
    pub packet_size: u16,
}

/// One configured host.
#[derive(Debug)]
pub struct Host {
    /// Display name.
    pub name: String,
    /// Hostname or address literal.
    pub address: String,
    /// Whether this host is probed.
    pub enabled: bool,
    /// Per-host interval override in milliseconds.
    pub interval_ms: Option<u64>,
}

impl Host {
    /// The interval this host is probed at: its own override if present,
    /// else the global default.
    pub fn effective_interval_ms(&self, ping: &PingConfig) -> (r: u64)
        ensures
            r == (match self.interval_ms {
                Some(ms) => ms,
                None => ping.interval_ms,
            }),
    {
        match self.interval_ms {
            Some(ms) => ms,
            None => ping.interval_ms,
        }
    }
}

impl Clone for Host {
    fn clone(&self) -> (res: Self)
        ensures
            res == *self,
    {
        Host {
            name: self.name.clone(),
            address: self.address.clone(),
            enabled: self.enabled,
            interval_ms: self.interval_ms,
        }
    }
}

/// The animation kinds the presentation layer can show.  Carried here as
/// plain configuration data; choosing one at random and rendering it belong
/// to the presentation layer outside this crate.
#[derive(Debug, Clone, Copy, PartialEq, Eq, Structural)]
pub enum AnimationType {
    Plasma,
    Globe,
    BouncingLogo,
    Matrix,
    Dna,
    Waveform,
}

/// Presentation preferences, owned by the shell around this crate.
#[derive(Debug)]
pub struct UiConfig {
    /// Refresh rate in milliseconds.
    pub refresh_rate: u64,
    /// Color theme name.
    pub theme: String,
    /// Whether detailed statistics are shown by default.
    pub show_details: bool,
    /// Graph height in terminal rows.
    pub graph_height: u16,
}

impl Clone for UiConfig {
    fn clone(&self) -> (res: Self)
        ensures
            res == *self,
    {
        UiConfig {
            refresh_rate: self.refresh_rate,
            theme: self.theme.clone(),
            show_details: self.show_details,
            graph_height: self.graph_height,
        }
    }
}

/// The whole configuration.
#[derive(Debug)]
pub struct Config {
    pub ping: PingConfig,
    pub hosts: Vec<Host>,
    pub ui: UiConfig,
}

impl Clone for Config {
    fn clone(&self) -> (res: Self)
        ensures
            res.ping == self.ping,
            res.hosts@ == self.hosts@,
            res.ui == self.ui,
    {
        let hosts = self.hosts.clone();
        proof {
            assert forall|i: int| 0 <= i < self.hosts@.len() implies hosts@[i]
                == self.hosts@[i] by {
                assert(cloned::<Host>(self.hosts@[i], hosts@[i]));
            }
            assert(hosts@ =~= self.hosts@);
        }
        Config { ping: self.ping, hosts, ui: self.ui.clone() }
    }
}

/// Serde-style default used by the shell's configuration format: flags that
/// are absent from a configuration file count as set.
pub fn default_true() -> (b: bool)
    ensures
        b,
{
    true
}

/// A character an address literal may consist of for the purposes of
/// display-name derivation: a decimal digit or a dot.
pub open spec fn digit_or_dot(c: char) -> bool {
    ('0' <= c && c <= '9') || c == '.'
}

/// Whether every character of an address is a digit or a dot, so that the
/// derived display name marks it as a plain address.
pub open spec fn numeric_address(s: Seq<char>) -> bool {
    forall|i: int| 0 <= i < s.len() ==> digit_or_dot(#[trigger] s[i])
}

fn is_numeric_address(s: &str) -> (b: bool)
    ensures
        b == numeric_address(s@),
{
    broadcast use vstd::string::group_string_axioms;

    if !s.is_ascii() {
        proof {
            let ghost cs = s@;
            assert(exists|i: int| 0 <= i < cs.len() && !('\0' <= #[trigger] cs[i] <= '\u{7f}'));
            let i = choose|i: int| 0 <= i < cs.len() && !('\0' <= #[trigger] cs[i] <= '\u{7f}');
            assert(!digit_or_dot(cs[i]));
        }
        return false;
    }
    let len = s.unicode_len();
    let mut i: usize = 0;
    while i < len
        invariant
            i <= len,
            len == s@.len(),
            s.is_ascii(),
            forall|j: int| 0 <= j < i ==> digit_or_dot(#[trigger] s@[j]),
        decreases len - i,
    {
        let b = s.get_ascii(i);
        if !((b >= 48 && b <= 57) || b == 46) {
            proof {
                assert('\0' <= s@[i as int] <= '\u{7f}');
                assert(!digit_or_dot(s@[i as int]));
            }
            return false;
        }
        proof {
            assert('\0' <= s@[i as int] <= '\u{7f}');
            assert(digit_or_dot(s@[i as int]));
        }
        i = i + 1;
    }
    true
}

/// The display name `add_host` derives for an address: addresses that are
/// all digits and dots are labelled, anything else names itself.
pub open spec fn derived_name(address: Seq<char>) -> Seq<char> {
    if numeric_address(address) {
        "IP "@ + address
    } else {
        address
    }
}

impl Config {
    /// Append a host for `address`, enabled and without an interval
    /// override, under its derived display name.
    pub fn add_host(&mut self, address: String)
        ensures
            final(self).hosts@.len() == old(self).hosts@.len() + 1,
            final(self).hosts@.drop_last() == old(self).hosts@,
            ({
                let h = final(self).hosts@.last();
                &&& h.name@ == derived_name(address@)
                &&& h.address == address
                &&& h.enabled
                &&& h.interval_ms is None
            }),
            final(self).ping == old(self).ping,
            final(self).ui == old(self).ui,
    {
        let name = if is_numeric_address(address.as_str()) {
            let mut n = "IP ".to_owned();
            n.append(address.as_str());
            n
        } else {
            address.clone()
        };
        self.hosts.push(Host { name, address, enabled: true, interval_ms: None });
        proof {
            assert(final(self).hosts@.drop_last() =~= old(self).hosts@);
        }
    }

    /// Replace the global probe interval.
    pub fn set_interval(&mut self, interval_ms: u64)
        ensures
            final(self).ping == (PingConfig { interval_ms, ..old(self).ping }),
            final(self).hosts@ == old(self).hosts@,
            final(self).ui == old(self).ui,
    {
        self.ping.interval_ms = interval_ms;
    }

    /// The enabled hosts, in configuration order.
    pub fn enabled_hosts(&self) -> (r: Vec<Host>)
        ensures
            r@ == self.hosts@.filter(|h: Host| h.enabled),
    {
        let mut r: Vec<Host> = Vec::new();
        let ghost pred = |h: Host| h.enabled;
        let mut i: usize = 0;
        proof {
            assert(self.hosts@.take(0) =~= Seq::<Host>::empty());
            assert(r@ =~= self.hosts@.take(0).filter(pred));
        }
        while i < self.hosts.len()
            invariant
                i <= self.hosts@.len(),
                r@ == self.hosts@.take(i as int).filter(pred),
                pred == (|h: Host| h.enabled),
            decreases self.hosts@.len() - i,
        {
            let h = &self.hosts[i];
            if h.enabled {
                r.push(h.clone());
            }
            proof {
                let taken = self.hosts@.take(i as int);
                assert(self.hosts@.take(i + 1) =~= taken.push(self.hosts@[i as int]));
                assert(self.hosts@.take(i + 1).drop_last() =~= taken);
                taken.lemma_filter_push(self.hosts@[i as int], pred);
                assert(r@ == self.hosts@.take(i + 1).filter(pred));
            }
            i = i + 1;
        }
        proof {
            assert(self.hosts@.take(self.hosts@.len() as int) =~= self.hosts@);
        }
        r
    }
}

impl Default for Config {
    /// The built-in configuration: one-second probes with a three-second
    /// timeout, five minutes of history, and a small default host list.
    fn default() -> (c: Self)
        ensures
            c.ping == (PingConfig {
                interval_ms: 1000,
                timeout_ms: 3000,
                history_size: 300,
                packet_size: 32,
            }),
            c.hosts@.len() == 3,
            c.hosts@[0].name@ == "Google DNS"@,
            c.hosts@[0].address@ == "8.8.8.8"@,
            c.hosts@[0].enabled,
            c.hosts@[0].interval_ms is None,
            c.hosts@[1].name@ == "Cloudflare DNS"@,
            c.hosts@[1].address@ == "1.1.1.1"@,
            c.hosts@[1].enabled,
            c.hosts@[1].interval_ms is None,
            c.hosts@[2].name@ == "Google"@,
            c.hosts@[2].address@ == "google.com"@,
            c.hosts@[2].enabled,
            c.hosts@[2].interval_ms is None,
            c.ui.refresh_rate == 100,
            c.ui.theme@ == "auto"@,
            c.ui.show_details,
            c.ui.graph_height == 10,
    {
        let mut hosts: Vec<Host> = Vec::new();
        hosts.push(
            Host {
                name: "Google DNS".to_owned(),
                address: "8.8.8.8".to_owned(),
                enabled: true,
                interval_ms: None,
            },
        );
        hosts.push(
            Host {
                name: "Cloudflare DNS".to_owned(),
                address: "1.1.1.1".to_owned(),
                enabled: true,
                interval_ms: None,
            },
        );
        hosts.push(
            Host {
                name: "Google".to_owned(),
                address: "google.com".to_owned(),
                enabled: true,
                interval_ms: None,
            },
        );
        Config {
            ping: PingConfig {
                interval_ms: 1000,
                timeout_ms: 3000,
                history_size: 300,
                packet_size: 32,
            },
            hosts,
            ui: UiConfig {
                refresh_rate: 100,
                theme: "auto".to_owned(),
                show_details: true,
                graph_height: 10,
            },
        }
    }
}

} // verus!

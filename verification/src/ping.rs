//! The probing engine: stable host identifiers, probe events, and the
//! per-host statistics map that the aggregation path feeds and the
//! presentation layer reads.

use crate::config::{Host, PingConfig};
use crate::stats::{fresh_stats, record_step, PingStats, StatsView};
use vstd::prelude::*;

verus! {

/// The name-based (SHA-1) UUID, rendered in hyphenated lower-case form,
/// that the DNS namespace assigns to a byte string.  A function of its
/// argument alone.
pub uninterp spec fn uuid_v5_dns_of(name: Seq<u8>) -> Seq<char>;

/// Relies on `uuid::Uuid::new_v5`, which computes the RFC 9562 name-based
/// UUID (a SHA-1 hash of namespace and name, so a function of its arguments
/// alone), and on `Display for Uuid`, which renders exactly the 36-character
/// hyphenated lower-case form.
#[verifier::external_body]
fn uuid_v5_dns_string(name: &[u8]) -> (r: String)
    ensures
        r@ == uuid_v5_dns_of(name@),
        r@.len() == 36,
{
    uuid::Uuid::new_v5(&uuid::Uuid::NAMESPACE_DNS, name).to_string()
}

/// The stable identifier derived from a host address: a fixed prefix plus
/// the name-based UUID of the address bytes.
pub open spec fn host_id_of(address: Seq<char>) -> Seq<char> {
    "host_"@ + uuid_v5_dns_of(vstd::utf8::encode_utf8(address))
}

/// Law: host identifiers are derived deterministically, so the same address
/// reproduces the same identifier on every run.
pub proof fn lemma_host_id_deterministic(a: Seq<char>, b: Seq<char>)
    requires
        a == b,
    ensures
        host_id_of(a) == host_id_of(b),
{
}

/// One probe outcome paired with the host it belongs to.
#[derive(Debug)]
pub struct PingEvent {
    pub host_id: String,
    pub host_name: String,
    pub result: crate::stats::PingResult,
}

impl Clone for PingEvent {
    fn clone(&self) -> (res: Self)
        ensures
            res == *self,
    {
        PingEvent {
            host_id: self.host_id.clone(),
            host_name: self.host_name.clone(),
            result: self.result.clone(),
        }
    }
}

/// The map view of a sequence of keyed trackers; later entries win, though
/// a well-formed engine keeps its keys distinct.
pub open spec fn entries_map(s: Seq<(String, PingStats)>) -> Map<Seq<char>, StatsView>
    decreases s.len(),
{
    if s.len() == 0 {
        Map::empty()
    } else {
        entries_map(s.drop_last()).insert(s.last().0@, s.last().1@)
    }
}

/// No two entries share a key.
pub open spec fn distinct_keys(s: Seq<(String, PingStats)>) -> bool {
    forall|i: int, j: int| 0 <= i < j < s.len() ==> s[i].0@ != s[j].0@
}

proof fn lemma_entries_map_index(s: Seq<(String, PingStats)>, i: int)
    requires
        distinct_keys(s),
        0 <= i < s.len(),
    ensures
        entries_map(s).contains_key(s[i].0@),
        entries_map(s)[s[i].0@] == s[i].1@,
    decreases s.len(),
{
    if i < s.len() - 1 {
        lemma_entries_map_index(s.drop_last(), i);
    }
}

proof fn lemma_entries_map_domain(s: Seq<(String, PingStats)>, k: Seq<char>)
    ensures
        entries_map(s).contains_key(k) <==> exists|i: int| 0 <= i < s.len() && s[i].0@ == k,
    decreases s.len(),
{
    if s.len() > 0 {
        lemma_entries_map_domain(s.drop_last(), k);
        if entries_map(s).contains_key(k) && s.last().0@ != k {
            let i = choose|i: int| 0 <= i < s.drop_last().len() && s.drop_last()[i].0@ == k;
            assert(s[i].0@ == k);
        }
        if exists|i: int| 0 <= i < s.len() && s[i].0@ == k {
            let i = choose|i: int| 0 <= i < s.len() && s[i].0@ == k;
            if i < s.len() - 1 {
                assert(s.drop_last()[i].0@ == k);
            }
        }
    }
}

proof fn lemma_entries_map_update(s: Seq<(String, PingStats)>, i: int, p: (String, PingStats))
    requires
        distinct_keys(s),
        0 <= i < s.len(),
        p.0@ == s[i].0@,
    ensures
        entries_map(s.update(i, p)) =~= entries_map(s).insert(p.0@, p.1@),
    decreases s.len(),
{
    let t = s.update(i, p);
    if i == s.len() - 1 {
        assert(t.drop_last() =~= s.drop_last());
    } else {
        assert(t.drop_last() =~= s.drop_last().update(i, p));
        assert(t.last() == s.last());
        lemma_entries_map_update(s.drop_last(), i, p);
    }
}

proof fn lemma_entries_map_congruent(a: Seq<(String, PingStats)>, b: Seq<(String, PingStats)>)
    requires
        a.len() == b.len(),
        forall|i: int| 0 <= i < a.len() ==> a[i].0@ == b[i].0@ && a[i].1@ == b[i].1@,
    ensures
        entries_map(a) =~= entries_map(b),
    decreases a.len(),
{
    if a.len() > 0 {
        lemma_entries_map_congruent(a.drop_last(), b.drop_last());
    }
}

/// The engine's per-host state: the configured hosts, the probing
/// parameters, and one statistics tracker per host identifier.
#[derive(Debug)]
pub struct PingEngine {
    hosts: Vec<Host>,
    ping_config: PingConfig,
    stats: Vec<(String, PingStats)>,
}

fn find_key(stats: &Vec<(String, PingStats)>, id: &String) -> (r: Option<usize>)
    ensures
        match r {
            Some(i) => 0 <= i < stats@.len() && stats@[i as int].0@ == id@,
            None => forall|j: int| 0 <= j < stats@.len() ==> stats@[j].0@ != id@,
        },
{
    let n = stats.len();
    let mut i: usize = 0;
    while i < n
        invariant
            i <= n,
            n == stats@.len(),
            forall|j: int| 0 <= j < i ==> stats@[j].0@ != id@,
        decreases n - i,
    {
        if stats[i].0 == *id {
            return Some(i);
        }
        i = i + 1;
    }
    None
}

impl PingEngine {
    /// The configured hosts.
    pub closed spec fn hosts_view(&self) -> Seq<Host> {
        self.hosts@
    }

    /// The probing parameters.
    pub closed spec fn config_view(&self) -> PingConfig {
        self.ping_config
    }

    /// The statistics map, keyed by host identifier.
    pub closed spec fn stats_map(&self) -> Map<Seq<char>, StatsView> {
        entries_map(self.stats@)
    }

    /// Well-formedness: tracker keys are distinct, and every tracker is
    /// well-formed with the configured history capacity.
    pub closed spec fn wf(&self) -> bool {
        &&& distinct_keys(self.stats@)
        &&& forall|i: int|
            0 <= i < self.stats@.len() ==> (#[trigger] self.stats@[i].1).wf()
                && self.stats@[i].1@.max_history == self.ping_config.history_size
    }

    /// The stable identifier for a host address.
    pub fn generate_host_id(address: &str) -> (id: String)
        ensures
            id@ == host_id_of(address@),
    {
        broadcast use vstd::string::group_string_axioms;

        let uuid_text = uuid_v5_dns_string(address.as_bytes());
        let mut id = "host_".to_owned();
        id.append(uuid_text.as_str());
        id
    }

    /// Set up one (empty) tracker per configured host; hosts that share an
    /// address share a tracker.
    pub fn new(hosts: Vec<Host>, ping_config: PingConfig) -> (engine: Self)
        ensures
            engine.wf(),
            engine.hosts_view() == hosts@,
            engine.config_view() == ping_config,
            forall|i: int|
                0 <= i < hosts@.len() ==> engine.stats_map().contains_key(
                    host_id_of(#[trigger] hosts@[i].address@),
                ),
            forall|k: Seq<char>|
                engine.stats_map().contains_key(k) ==> engine.stats_map()[k] == fresh_stats(
                    ping_config.history_size as nat,
                ),
            forall|k: Seq<char>|
                #[trigger] engine.stats_map().contains_key(k) ==> exists|i: int|
                    0 <= i < hosts@.len() && k == host_id_of(#[trigger] hosts@[i].address@),
    {
        let mut stats: Vec<(String, PingStats)> = Vec::new();
        let n = hosts.len();
        let mut i: usize = 0;
        while i < n
            invariant
                i <= n,
                n == hosts@.len(),
                distinct_keys(stats@),
                forall|j: int|
                    0 <= j < stats@.len() ==> (#[trigger] stats@[j].1).wf() && stats@[j].1@
                        == fresh_stats(ping_config.history_size as nat),
                forall|j: int|
                    0 <= j < i ==> entries_map(stats@).contains_key(
                        host_id_of(#[trigger] hosts@[j].address@),
                    ),
                forall|k: Seq<char>|
                    #[trigger] entries_map(stats@).contains_key(k) ==> exists|j: int|
                        0 <= j < i && k == host_id_of(#[trigger] hosts@[j].address@),
            decreases n - i,
        {
            let id = Self::generate_host_id(hosts[i].address.as_str());
            let ghost pre = stats@;
            match find_key(&stats, &id) {
                Some(at) => {
                    proof {
                        lemma_entries_map_domain(pre, id@);
                    }
                },
                None => {
                    stats.push((id, PingStats::new(ping_config.history_size)));
                    proof {
                        assert(stats@.drop_last() =~= pre);
                        assert forall|k: Seq<char>| #[trigger]
                            entries_map(stats@).contains_key(k) implies exists|j: int|
                            0 <= j < i + 1 && k == host_id_of(#[trigger] hosts@[j].address@) by {
                            if k != host_id_of(hosts@[i as int].address@) {
                                assert(entries_map(pre).contains_key(k));
                            }
                        }
                        assert forall|j: int|
                            0 <= j < i + 1 implies entries_map(stats@).contains_key(
                            host_id_of(#[trigger] hosts@[j].address@),
                        ) by {
                            if j < i {
                                assert(entries_map(pre).contains_key(
                                    host_id_of(hosts@[j].address@),
                                ));
                            }
                        }
                        lemma_entries_map_domain(pre, id@);
                    }
                },
            }
            i = i + 1;
        }
        let engine = PingEngine { hosts, ping_config, stats };
        proof {
            assert forall|k: Seq<char>|
                engine.stats_map().contains_key(k) implies engine.stats_map()[k] == fresh_stats(
                ping_config.history_size as nat,
            ) by {
                lemma_entries_map_domain(engine.stats@, k);
                let j = choose|j: int|
                    0 <= j < engine.stats@.len() && engine.stats@[j].0@ == k;
                lemma_entries_map_index(engine.stats@, j);
            }
        }
        engine
    }

    /// Fold one probe event into the tracker of its host, creating the
    /// tracker on first sight of the identifier.
    pub fn record_event(&mut self, event: &PingEvent)
        requires
            old(self).wf(),
            old(self).stats_map().contains_key(event.host_id@) ==> old(self).stats_map()[
                event.host_id@].total < u64::MAX,
        ensures
            final(self).wf(),
            final(self).hosts_view() == old(self).hosts_view(),
            final(self).config_view() == old(self).config_view(),
            final(self).stats_map() == old(self).stats_map().insert(
                event.host_id@,
                record_step(
                    if old(self).stats_map().contains_key(event.host_id@) {
                        old(self).stats_map()[event.host_id@]
                    } else {
                        fresh_stats(old(self).config_view().history_size as nat)
                    },
                    event.result@,
                ),
            ),
    {
        let ghost pre = self.stats@;
        match find_key(&self.stats, &event.host_id) {
            Some(i) => {
                proof {
                    lemma_entries_map_index(pre, i as int);
                }
                let (key, mut tracker) = self.stats.remove(i);
                tracker.add_result(&event.result);
                self.stats.insert(i, (key, tracker));
                proof {
                    let p = self.stats@[i as int];
                    assert(self.stats@ =~= pre.update(i as int, p));
                    lemma_entries_map_update(pre, i as int, p);
                }
            },
            None => {
                proof {
                    lemma_entries_map_domain(pre, event.host_id@);
                }
                let mut tracker = PingStats::new(self.ping_config.history_size);
                tracker.add_result(&event.result);
                self.stats.push((event.host_id.clone(), tracker));
                proof {
                    assert(self.stats@.drop_last() =~= pre);
                }
            },
        }
    }

    /// A point-in-time copy of every tracker, with its host identifier.
    pub fn get_stats(&self) -> (r: Vec<(String, PingStats)>)
        requires
            self.wf(),
        ensures
            entries_map(r@) == self.stats_map(),
            forall|i: int, j: int| 0 <= i < j < r@.len() ==> r@[i].0@ != r@[j].0@,
            forall|i: int| 0 <= i < r@.len() ==> (#[trigger] r@[i].1).wf(),
            forall|k: Seq<char>|
                #[trigger] self.stats_map().contains_key(k) ==> exists|i: int|
                    0 <= i < r@.len() && r@[i].0@ == k && r@[i].1@ == self.stats_map()[k],
    {
        let n = self.stats.len();
        let mut r: Vec<(String, PingStats)> = Vec::new();
        let mut i: usize = 0;
        while i < n
            invariant
                i <= n,
                n == self.stats@.len(),
                self.wf(),
                r@.len() == i,
                forall|j: int| 0 <= j < i ==> (#[trigger] r@[j]).0@ == self.stats@[j].0@,
                forall|j: int| 0 <= j < i ==> (#[trigger] r@[j]).1@ == self.stats@[j].1@,
                forall|j: int| 0 <= j < i ==> (#[trigger] r@[j]).1.wf(),
            decreases n - i,
        {
            let key = self.stats[i].0.clone();
            let tracker = self.stats[i].1.clone();
            proof {
                assert(key@ == self.stats@[i as int].0@);
                assert(tracker@ == self.stats@[i as int].1@);
                assert(self.stats@[i as int].1.wf());
                assert(tracker.wf());
            }
            let ghost pre_r = r@;
            r.push((key, tracker));
            proof {
                assert forall|j: int| 0 <= j < i + 1 implies (#[trigger] r@[j]).0@
                    == self.stats@[j].0@ && r@[j].1@ == self.stats@[j].1@ && r@[j].1.wf() by {
                    if j < i {
                        assert(r@[j] == pre_r[j]);
                    } else {
                        assert(r@[j] == (key, tracker));
                    }
                }
            }
            i = i + 1;
        }
        proof {
            lemma_entries_map_congruent(r@, self.stats@);
            assert forall|k: Seq<char>| #[trigger]
                self.stats_map().contains_key(k) implies exists|i: int|
                0 <= i < r@.len() && r@[i].0@ == k && r@[i].1@ == self.stats_map()[k] by {
                lemma_entries_map_domain(self.stats@, k);
                let j = choose|j: int| 0 <= j < self.stats@.len() && self.stats@[j].0@ == k;
                lemma_entries_map_index(self.stats@, j);
                assert(r@[j].0@ == k && r@[j].1@ == self.stats_map()[k]);
            }
        }
        r
    }

    /// Identifier and display name of every enabled host, in configuration
    /// order.
    pub fn get_host_info(&self) -> (r: Vec<(String, String)>)
        ensures
            ({
                let enabled = self.hosts_view().filter(|h: Host| h.enabled);
                &&& r@.len() == enabled.len()
                &&& forall|i: int|
                    0 <= i < enabled.len() ==> (#[trigger] r@[i]).0@ == host_id_of(
                        enabled[i].address@,
                    ) && r@[i].1@ == enabled[i].name@
            }),
    {
        let ghost pred = |h: Host| h.enabled;
        let mut r: Vec<(String, String)> = Vec::new();
        let n = self.hosts.len();
        let mut i: usize = 0;
        proof {
            assert(self.hosts@.take(0) =~= Seq::<Host>::empty());
        }
        while i < n
            invariant
                i <= n,
                n == self.hosts@.len(),
                pred == (|h: Host| h.enabled),
                ({
                    let enabled = self.hosts@.take(i as int).filter(pred);
                    &&& r@.len() == enabled.len()
                    &&& forall|j: int|
                        0 <= j < enabled.len() ==> (#[trigger] r@[j]).0@ == host_id_of(
                            enabled[j].address@,
                        ) && r@[j].1@ == enabled[j].name@
                }),
            decreases n - i,
        {
            let h = &self.hosts[i];
            if h.enabled {
                let id = Self::generate_host_id(h.address.as_str());
                r.push((id, h.name.clone()));
            }
            proof {
                let taken = self.hosts@.take(i as int);
                assert(self.hosts@.take(i + 1) =~= taken.push(self.hosts@[i as int]));
                taken.lemma_filter_push(self.hosts@[i as int], pred);
            }
            i = i + 1;
        }
        proof {
            assert(self.hosts@.take(n as int) =~= self.hosts@);
        }
        r
    }
}

} // verus!

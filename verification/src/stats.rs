//! The collector: everything counted over one run.

use crate::buckets::NO_VALUE;
use crate::entry::{
    join_chain, joined, text_or_marker, texts, CloudControllerLogEntry,
    CombinedLogEntry, CommonLogEntry, GorouterLogEntry, LogEntry, RequestLine,
};
use crate::frequency::{FrequencyTable, NumericTable};
use crate::window::{
    lemma_first_observation, lemma_observe_commutes, lemma_window_spans, LogDuration, Timestamp,
};
use vstd::multiset::*;
use vstd::prelude::*;

verus! {

/// What a run has counted, as mathematics: two totals, the window of time,
/// and for each dimension the multiset of keys seen.
#[verifier::ext_equal]
pub struct Tally {
    pub total_requests: nat,
    pub errors: nat,
    pub duration: LogDuration,
    pub response_codes: Multiset<Seq<char>>,
    pub request_methods: Multiset<Seq<char>>,
    pub requests_no_query: Multiset<Seq<char>>,
    pub requests_query: Multiset<Seq<char>>,
    pub client_ips: Multiset<Seq<char>>,
    pub referrers: Multiset<Seq<char>>,
    pub user_agents: Multiset<Seq<char>>,
    pub backend_ips: Multiset<Seq<char>>,
    pub x_forwarded_fors: Multiset<Seq<char>>,
    pub hosts: Multiset<Seq<char>>,
    pub app_ids: Multiset<Seq<char>>,
    pub app_indexes: Multiset<usize>,
    pub response_times: Multiset<usize>,
    pub gorouter_times: Multiset<usize>,
    pub x_cf_routererrors: Multiset<Seq<char>>,
}

/// The table with `key` counted once more, where there is a key.
pub open spec fn counted<K>(table: Multiset<K>, key: Option<K>) -> Multiset<K> {
    match key {
        Some(key) => table.insert(key),
        None => table,
    }
}

/// The characters of the text, where there is one.
pub open spec fn text_of(text: Option<String>) -> Option<Seq<char>> {
    match text {
        Some(text) => Some(text@),
        None => None,
    }
}

/// The key under which a latency is counted: its whole seconds, or
/// `NO_VALUE` where none was logged.
pub open spec fn latency_key(seconds: Option<usize>) -> usize {
    match seconds {
        Some(seconds) => seconds,
        None => NO_VALUE,
    }
}

/// The key under which an instance index is counted, where there is one.
pub open spec fn index_key(index: Option<u16>) -> Option<usize> {
    match index {
        Some(index) => Some(index as usize),
        None => None,
    }
}

/// What one entry adds to the tally: its instant, its status and request
/// line, and for every further dimension the key under which the entry is
/// counted there, or nothing where it is not counted in that dimension.
pub struct Keys {
    pub timestamp: Timestamp,
    pub status_code: Seq<char>,
    pub request: RequestLine,
    pub client_ip: Option<Seq<char>>,
    pub referrer: Option<Seq<char>>,
    pub user_agent: Option<Seq<char>>,
    pub backend_ip: Option<Seq<char>>,
    pub x_forwarded_for: Option<Seq<char>>,
    pub host: Option<Seq<char>>,
    pub app_id: Option<Seq<char>>,
    pub app_index: Option<usize>,
    pub response_time: Option<usize>,
    pub gorouter_time: Option<usize>,
    pub x_cf_routererror: Option<Seq<char>>,
}

/// The keys under which a common-format entry is counted: beside what every
/// entry carries, the client's address.
pub open spec fn common_keys(log: CommonLogEntry) -> Keys {
    Keys {
        timestamp: log.timestamp,
        status_code: log.status_code@,
        request: log.request,
        client_ip: Some(log.ip@),
        referrer: None,
        user_agent: None,
        backend_ip: None,
        x_forwarded_for: None,
        host: None,
        app_id: None,
        app_index: None,
        response_time: None,
        gorouter_time: None,
        x_cf_routererror: None,
    }
}

/// The keys under which a combined-format entry is counted: those of the
/// common format, the referrer and the user agent. A referrer or user agent
/// that was not logged is counted as `<none>`.
pub open spec fn combined_keys(log: CombinedLogEntry) -> Keys {
    Keys {
        timestamp: log.timestamp,
        status_code: log.status_code@,
        request: log.request,
        client_ip: Some(log.ip@),
        referrer: Some(text_or_marker(log.referrer)),
        user_agent: Some(text_or_marker(log.user_agent)),
        backend_ip: None,
        x_forwarded_for: None,
        host: None,
        app_id: None,
        app_index: None,
        response_time: None,
        gorouter_time: None,
        x_cf_routererror: None,
    }
}

/// The keys under which a Cloud Controller entry is counted. The forwarding
/// chain is one key, its addresses joined in their order; a response time
/// that was not logged is counted under `NO_VALUE`.
pub open spec fn cloud_controller_keys(log: CloudControllerLogEntry) -> Keys {
    Keys {
        timestamp: log.timestamp,
        status_code: log.status_code@,
        request: log.request,
        client_ip: None,
        referrer: Some(text_or_marker(log.referrer)),
        user_agent: Some(text_or_marker(log.user_agent)),
        backend_ip: None,
        x_forwarded_for: Some(joined(texts(log.x_forwarded_for@))),
        host: Some(log.request_host@),
        app_id: None,
        app_index: None,
        response_time: Some(latency_key(log.response_time)),
        gorouter_time: None,
        x_cf_routererror: None,
    }
}

/// The keys under which a Gorouter entry is counted. A backend address,
/// application id or instance index that was not logged is not counted; a
/// time that was not logged is counted under `NO_VALUE`, and a router error
/// that was not logged as `<none>`.
pub open spec fn gorouter_keys(log: GorouterLogEntry) -> Keys {
    Keys {
        timestamp: log.timestamp,
        status_code: log.status_code@,
        request: log.request,
        client_ip: Some(log.remote_addr@),
        referrer: Some(text_or_marker(log.referrer)),
        user_agent: Some(text_or_marker(log.user_agent)),
        backend_ip: text_of(log.backend_addr),
        x_forwarded_for: Some(joined(texts(log.x_forwarded_for@))),
        host: Some(log.request_host@),
        app_id: text_of(log.app_id),
        app_index: index_key(log.app_index),
        response_time: Some(latency_key(log.response_time)),
        gorouter_time: Some(latency_key(log.gorouter_time)),
        x_cf_routererror: Some(text_or_marker(log.x_cf_routererror)),
    }
}

/// The keys under which `entry` is counted.
pub open spec fn keys_of(entry: LogEntry) -> Keys {
    match entry {
        LogEntry::CommonLog(log) => common_keys(log),
        LogEntry::CombinedLog(log) => combined_keys(log),
        LogEntry::GorouterLog(log) => gorouter_keys(log),
        LogEntry::CloudControllerLog(log) => cloud_controller_keys(log),
    }
}

impl Tally {
    /// The tally of a run in which nothing has happened yet.
    pub open spec fn empty() -> Tally {
        Tally {
            total_requests: 0,
            errors: 0,
            duration: LogDuration::unset(),
            response_codes: Multiset::empty(),
            request_methods: Multiset::empty(),
            requests_no_query: Multiset::empty(),
            requests_query: Multiset::empty(),
            client_ips: Multiset::empty(),
            referrers: Multiset::empty(),
            user_agents: Multiset::empty(),
            backend_ips: Multiset::empty(),
            x_forwarded_fors: Multiset::empty(),
            hosts: Multiset::empty(),
            app_ids: Multiset::empty(),
            app_indexes: Multiset::empty(),
            response_times: Multiset::empty(),
            gorouter_times: Multiset::empty(),
            x_cf_routererrors: Multiset::empty(),
        }
    }

    /// The tally with one more line that could not be decoded.
    pub open spec fn failed(self) -> Tally {
        Tally { errors: self.errors + 1, ..self }
    }

    /// The tally with what every entry carries counted: the request itself,
    /// its instant, its status, its method where the request line could be
    /// read, and its path with and without the query string.
    pub open spec fn with_request(
        self,
        timestamp: Timestamp,
        status_code: Seq<char>,
        request: RequestLine,
    ) -> Tally {
        Tally {
            total_requests: self.total_requests + 1,
            duration: self.duration.observed(timestamp),
            response_codes: self.response_codes.insert(status_code),
            request_methods: counted(self.request_methods, request.method()),
            requests_no_query: self.requests_no_query.insert(request.path_no_query()),
            requests_query: self.requests_query.insert(request.path_with_query()),
            ..self
        }
    }

    /// The tally with one more observation in every dimension for which
    /// `keys` names a key.
    pub open spec fn with_keys(self, keys: Keys) -> Tally {
        let base = self.with_request(keys.timestamp, keys.status_code, keys.request);
        Tally {
            client_ips: counted(base.client_ips, keys.client_ip),
            referrers: counted(base.referrers, keys.referrer),
            user_agents: counted(base.user_agents, keys.user_agent),
            backend_ips: counted(base.backend_ips, keys.backend_ip),
            x_forwarded_fors: counted(base.x_forwarded_fors, keys.x_forwarded_for),
            hosts: counted(base.hosts, keys.host),
            app_ids: counted(base.app_ids, keys.app_id),
            app_indexes: counted(base.app_indexes, keys.app_index),
            response_times: counted(base.response_times, keys.response_time),
            gorouter_times: counted(base.gorouter_times, keys.gorouter_time),
            x_cf_routererrors: counted(base.x_cf_routererrors, keys.x_cf_routererror),
            ..base
        }
    }

    /// The tally with `entry` counted.
    pub open spec fn recorded(self, entry: LogEntry) -> Tally {
        self.with_keys(keys_of(entry))
    }

    /// The tally with all of `entries` counted, one after the other.
    pub open spec fn recorded_all(self, entries: Seq<LogEntry>) -> Tally
        decreases entries.len(),
    {
        if entries.len() == 0 {
            self
        } else {
            self.recorded_all(entries.drop_last()).recorded(entries.last())
        }
    }

    /// Whether no table holds more observations than there were requests.
    pub open spec fn within_total(self) -> bool {
        &&& self.response_codes.len() <= self.total_requests
        &&& self.request_methods.len() <= self.total_requests
        &&& self.requests_no_query.len() <= self.total_requests
        &&& self.requests_query.len() <= self.total_requests
        &&& self.client_ips.len() <= self.total_requests
        &&& self.referrers.len() <= self.total_requests
        &&& self.user_agents.len() <= self.total_requests
        &&& self.backend_ips.len() <= self.total_requests
        &&& self.x_forwarded_fors.len() <= self.total_requests
        &&& self.hosts.len() <= self.total_requests
        &&& self.app_ids.len() <= self.total_requests
        &&& self.app_indexes.len() <= self.total_requests
        &&& self.response_times.len() <= self.total_requests
        &&& self.gorouter_times.len() <= self.total_requests
        &&& self.x_cf_routererrors.len() <= self.total_requests
    }
}

/// Everything counted over one run, and the two settings that the run was
/// started with.
#[derive(Debug)]
pub struct TopInfo {
    pub max_results: usize,
    pub ignore_parse_errors: bool,
    pub duration: LogDuration,
    pub total_requests: usize,
    pub errors: usize,
    pub response_codes: FrequencyTable,
    pub request_methods: FrequencyTable,
    pub requests_no_query: FrequencyTable,
    pub requests_query: FrequencyTable,
    pub client_ips: FrequencyTable,
    pub referrers: FrequencyTable,
    pub user_agents: FrequencyTable,
    pub backend_ips: FrequencyTable,
    pub x_forwarded_fors: FrequencyTable,
    pub hosts: FrequencyTable,
    pub app_ids: FrequencyTable,
    pub app_indexes: NumericTable,
    pub response_times: NumericTable,
    pub gorouter_times: NumericTable,
    pub x_cf_routererrors: FrequencyTable,
}

impl View for TopInfo {
    type V = Tally;

    open spec fn view(&self) -> Tally {
        Tally {
            total_requests: self.total_requests as nat,
            errors: self.errors as nat,
            duration: self.duration,
            response_codes: self.response_codes@,
            request_methods: self.request_methods@,
            requests_no_query: self.requests_no_query@,
            requests_query: self.requests_query@,
            client_ips: self.client_ips@,
            referrers: self.referrers@,
            user_agents: self.user_agents@,
            backend_ips: self.backend_ips@,
            x_forwarded_fors: self.x_forwarded_fors@,
            hosts: self.hosts@,
            app_ids: self.app_ids@,
            app_indexes: self.app_indexes@,
            response_times: self.response_times@,
            gorouter_times: self.gorouter_times@,
            x_cf_routererrors: self.x_cf_routererrors@,
        }
    }
}

/// The text of `text`, or `<none>` where there is none.
fn text_or_none(text: Option<String>) -> (key: String)
    ensures
        key@ == text_or_marker(text),
{
    match text {
        Some(text) => text,
        None => String::from_str("<none>"),
    }
}

/// The key under which a latency is counted.
fn seconds_or_none(seconds: Option<usize>) -> (key: usize)
    ensures
        key == latency_key(seconds),
{
    match seconds {
        Some(seconds) => seconds,
        None => NO_VALUE,
    }
}

impl TopInfo {
    /// Whether no table holds more observations than there were requests.
    /// It holds of a new collector, and recording keeps it.
    pub open spec fn wf(&self) -> bool {
        self@.within_total()
    }

    /// A collector that has counted nothing.
    pub fn new(max_results: usize, ignore_parse_errors: bool) -> (top: TopInfo)
        ensures
            top.wf(),
            top@ == Tally::empty(),
            top.max_results == max_results,
            top.ignore_parse_errors == ignore_parse_errors,
    {
        broadcast use group_multiset_axioms;

        let top = TopInfo {
            max_results,
            ignore_parse_errors,
            duration: LogDuration::new(),
            total_requests: 0,
            errors: 0,
            response_codes: FrequencyTable::new(),
            request_methods: FrequencyTable::new(),
            requests_no_query: FrequencyTable::new(),
            requests_query: FrequencyTable::new(),
            client_ips: FrequencyTable::new(),
            referrers: FrequencyTable::new(),
            user_agents: FrequencyTable::new(),
            backend_ips: FrequencyTable::new(),
            x_forwarded_fors: FrequencyTable::new(),
            hosts: FrequencyTable::new(),
            app_ids: FrequencyTable::new(),
            app_indexes: NumericTable::new(),
            response_times: NumericTable::new(),
            gorouter_times: NumericTable::new(),
            x_cf_routererrors: FrequencyTable::new(),
        };
        top
    }

    /// Counts a line that could not be decoded. Nothing else changes.
    pub fn record_parse_failure(&mut self)
        requires
            old(self).errors < usize::MAX,
        ensures
            final(self)@ == old(self)@.failed(),
            final(self).wf() == old(self).wf(),
            final(self).max_results == old(self).max_results,
            final(self).ignore_parse_errors == old(self).ignore_parse_errors,
    {
        self.errors = self.errors + 1;
    }

    /// Counts `entry` in every table that its format fills.
    pub fn record(&mut self, entry: LogEntry)
        requires
            old(self).wf(),
            old(self).total_requests < usize::MAX,
        ensures
            final(self).wf(),
            final(self)@ == old(self)@.recorded(entry),
            final(self).max_results == old(self).max_results,
            final(self).ignore_parse_errors == old(self).ignore_parse_errors,
    {
        match entry {
            LogEntry::CommonLog(log) => self.calc_common_log(log),
            LogEntry::CombinedLog(log) => self.calc_combined_log(log),
            LogEntry::GorouterLog(log) => self.calc_gorouter_log(log),
            LogEntry::CloudControllerLog(log) => self.calc_cloud_controller_log(log),
        }
    }

    /// Counts what every entry carries.
    fn calc_request(&mut self, timestamp: Timestamp, status_code: String, request: RequestLine)
        requires
            old(self).wf(),
            old(self).total_requests < usize::MAX,
        ensures
            final(self).wf(),
            final(self)@ == old(self)@.with_request(timestamp, status_code@, request),
            final(self).max_results == old(self).max_results,
            final(self).ignore_parse_errors == old(self).ignore_parse_errors,
    {
        broadcast use group_multiset_axioms;

        self.total_requests = self.total_requests + 1;
        self.duration.observe(timestamp);
        self.response_codes.increment(status_code);
        match request {
            RequestLine::Valid { method, path, path_and_query } => {
                self.request_methods.increment(method);
                self.requests_no_query.increment(path);
                self.requests_query.increment(text_or_none(path_and_query));
            },
            RequestLine::InvalidPath(text) => {
                self.requests_no_query.increment(String::new());
                self.requests_query.increment(text);
            },
            RequestLine::InvalidRequest(text) => {
                self.requests_no_query.increment(String::new());
                self.requests_query.increment(text);
            },
        }
    }

    /// Counts a common-format entry.
    fn calc_common_log(&mut self, log: CommonLogEntry)
        requires
            old(self).wf(),
            old(self).total_requests < usize::MAX,
        ensures
            final(self).wf(),
            final(self)@ == old(self)@.with_keys(common_keys(log)),
            final(self).max_results == old(self).max_results,
            final(self).ignore_parse_errors == old(self).ignore_parse_errors,
    {
        broadcast use group_multiset_axioms;

        self.calc_request(log.timestamp, log.status_code, log.request);
        self.client_ips.increment(log.ip);
    }

    /// Counts a combined-format entry.
    fn calc_combined_log(&mut self, log: CombinedLogEntry)
        requires
            old(self).wf(),
            old(self).total_requests < usize::MAX,
        ensures
            final(self).wf(),
            final(self)@ == old(self)@.with_keys(combined_keys(log)),
            final(self).max_results == old(self).max_results,
            final(self).ignore_parse_errors == old(self).ignore_parse_errors,
    {
        broadcast use group_multiset_axioms;

        self.calc_request(log.timestamp, log.status_code, log.request);
        self.client_ips.increment(log.ip);
        self.referrers.increment(text_or_none(log.referrer));
        self.user_agents.increment(text_or_none(log.user_agent));
    }

    /// Counts a Cloud Controller entry.
    fn calc_cloud_controller_log(&mut self, log: CloudControllerLogEntry)
        requires
            old(self).wf(),
            old(self).total_requests < usize::MAX,
        ensures
            final(self).wf(),
            final(self)@ == old(self)@.with_keys(cloud_controller_keys(log)),
            final(self).max_results == old(self).max_results,
            final(self).ignore_parse_errors == old(self).ignore_parse_errors,
    {
        broadcast use group_multiset_axioms;

        let chain = join_chain(&log.x_forwarded_for);
        self.calc_request(log.timestamp, log.status_code, log.request);
        self.referrers.increment(text_or_none(log.referrer));
        self.user_agents.increment(text_or_none(log.user_agent));
        self.x_forwarded_fors.increment(chain);
        self.hosts.increment(log.request_host);
        self.response_times.increment(seconds_or_none(log.response_time));
    }

    /// Counts a Gorouter entry.
    fn calc_gorouter_log(&mut self, log: GorouterLogEntry)
        requires
            old(self).wf(),
            old(self).total_requests < usize::MAX,
        ensures
            final(self).wf(),
            final(self)@ == old(self)@.with_keys(gorouter_keys(log)),
            final(self).max_results == old(self).max_results,
            final(self).ignore_parse_errors == old(self).ignore_parse_errors,
    {
        broadcast use group_multiset_axioms;

        let chain = join_chain(&log.x_forwarded_for);
        self.calc_request(log.timestamp, log.status_code, log.request);
        self.client_ips.increment(log.remote_addr);
        self.referrers.increment(text_or_none(log.referrer));
        self.user_agents.increment(text_or_none(log.user_agent));
        if let Some(address) = log.backend_addr {
            self.backend_ips.increment(address);
        }
        self.x_forwarded_fors.increment(chain);
        self.hosts.increment(log.request_host);
        if let Some(id) = log.app_id {
            self.app_ids.increment(id);
        }
        if let Some(index) = log.app_index {
            self.app_indexes.increment(index as usize);
        }
        self.response_times.increment(seconds_or_none(log.response_time));
        self.gorouter_times.increment(seconds_or_none(log.gorouter_time));
        self.x_cf_routererrors.increment(text_or_none(log.x_cf_routererror));
    }
}

/// The timestamps of `entries`, in their order.
pub open spec fn timestamps(entries: Seq<LogEntry>) -> Seq<Timestamp> {
    Seq::new(entries.len(), |i: int| entries[i].timestamp())
}

/// Recording an entry counts one request and no failure, whatever the entry
/// holds, and widens the window by the entry's instant.
pub proof fn lemma_record_counts_one(tally: Tally, entry: LogEntry)
    ensures
        tally.recorded(entry).total_requests == tally.total_requests + 1,
        tally.recorded(entry).errors == tally.errors,
        tally.recorded(entry).duration == tally.duration.observed(entry.timestamp()),
{
}

/// After any sequence of entries the number of requests has grown by the
/// length of the sequence, the number of failures is as it was, and the
/// window has taken in the instant of every entry.
pub proof fn lemma_total_counts_records(tally: Tally, entries: Seq<LogEntry>)
    ensures
        tally.recorded_all(entries).total_requests == tally.total_requests + entries.len(),
        tally.recorded_all(entries).errors == tally.errors,
        tally.recorded_all(entries).duration == tally.duration.observed_all(timestamps(entries)),
    decreases entries.len(),
{
    if entries.len() > 0 {
        lemma_total_counts_records(tally, entries.drop_last());
        lemma_record_counts_one(tally.recorded_all(entries.drop_last()), entries.last());
        assert(timestamps(entries).drop_last() =~= timestamps(entries.drop_last()));
    }
}

/// Once an entry is recorded in a new collector, the window's start is not
/// after its end; after exactly one entry both are that entry's instant.
pub proof fn lemma_window_after_records(entries: Seq<LogEntry>)
    requires
        entries.len() > 0,
    ensures
        !Tally::empty().recorded_all(entries).duration.end.before(
            Tally::empty().recorded_all(entries).duration.start,
        ),
        entries.len() == 1 ==> Tally::empty().recorded_all(entries).duration == (LogDuration {
            start: entries[0].timestamp(),
            end: entries[0].timestamp(),
        }),
{
    lemma_total_counts_records(Tally::empty(), entries);
    lemma_window_spans(timestamps(entries), 0);
    if entries.len() == 1 {
        lemma_first_observation(entries[0].timestamp());
        assert(timestamps(entries).drop_last().len() == 0);
        assert(LogDuration::unset().observed_all(timestamps(entries).drop_last())
            == LogDuration::unset());
    }
}

/// Recording never puts more observations in a table than there were
/// requests.
pub proof fn lemma_record_keeps_within_total(tally: Tally, entry: LogEntry)
    requires
        tally.within_total(),
    ensures
        tally.recorded(entry).within_total(),
{
    broadcast use group_multiset_axioms;

}

/// In a new collector every entry recorded is counted once under its status
/// and once under each of its two paths.
pub proof fn lemma_every_entry_counted(entries: Seq<LogEntry>)
    ensures
        Tally::empty().recorded_all(entries).response_codes.len() == entries.len(),
        Tally::empty().recorded_all(entries).requests_no_query.len() == entries.len(),
        Tally::empty().recorded_all(entries).requests_query.len() == entries.len(),
    decreases entries.len(),
{
    broadcast use group_multiset_axioms;

    if entries.len() > 0 {
        lemma_every_entry_counted(entries.drop_last());
    }
}

/// Counting two keys, each where there is one, gives the same table in
/// either order.
proof fn lemma_counted_commutes<K>(table: Multiset<K>, a: Option<K>, b: Option<K>)
    ensures
        counted(counted(table, a), b) == counted(counted(table, b), a),
{
    broadcast use group_multiset_axioms;

    assert(counted(counted(table, a), b) =~= counted(counted(table, b), a));
}

proof fn lemma_with_keys_commutes(tally: Tally, a: Keys, b: Keys)
    ensures
        tally.with_keys(a).with_keys(b) == tally.with_keys(b).with_keys(a),
{
    lemma_observe_commutes(tally.duration, a.timestamp, b.timestamp);
    lemma_counted_commutes(tally.response_codes, Some(a.status_code), Some(b.status_code));
    lemma_counted_commutes(tally.request_methods, a.request.method(), b.request.method());
    lemma_counted_commutes(
        tally.requests_no_query,
        Some(a.request.path_no_query()),
        Some(b.request.path_no_query()),
    );
    lemma_counted_commutes(
        tally.requests_query,
        Some(a.request.path_with_query()),
        Some(b.request.path_with_query()),
    );
    lemma_counted_commutes(tally.client_ips, a.client_ip, b.client_ip);
    lemma_counted_commutes(tally.referrers, a.referrer, b.referrer);
    lemma_counted_commutes(tally.user_agents, a.user_agent, b.user_agent);
    lemma_counted_commutes(tally.backend_ips, a.backend_ip, b.backend_ip);
    lemma_counted_commutes(tally.x_forwarded_fors, a.x_forwarded_for, b.x_forwarded_for);
    lemma_counted_commutes(tally.hosts, a.host, b.host);
    lemma_counted_commutes(tally.app_ids, a.app_id, b.app_id);
    lemma_counted_commutes(tally.app_indexes, a.app_index, b.app_index);
    lemma_counted_commutes(tally.response_times, a.response_time, b.response_time);
    lemma_counted_commutes(tally.gorouter_times, a.gorouter_time, b.gorouter_time);
    lemma_counted_commutes(tally.x_cf_routererrors, a.x_cf_routererror, b.x_cf_routererror);
}

/// Two entries recorded in either order leave the same tally.
pub proof fn lemma_record_commutes(tally: Tally, a: LogEntry, b: LogEntry)
    ensures
        tally.recorded(a).recorded(b) == tally.recorded(b).recorded(a),
{
    lemma_with_keys_commutes(tally, keys_of(a), keys_of(b));
}

/// Recording the entry at position `i` last instead leaves the same tally.
proof fn lemma_record_moved_last(tally: Tally, entries: Seq<LogEntry>, i: int)
    requires
        0 <= i < entries.len(),
    ensures
        tally.recorded_all(entries) == tally.recorded_all(entries.remove(i)).recorded(entries[i]),
    decreases entries.len(),
{
    if i == entries.len() - 1 {
        assert(entries.remove(i) =~= entries.drop_last());
    } else {
        let earlier = entries.drop_last();
        lemma_record_moved_last(tally, earlier, i);
        let rest = tally.recorded_all(earlier.remove(i));
        lemma_record_commutes(rest, entries[i], entries.last());
        assert(entries.remove(i).drop_last() =~= earlier.remove(i));
        assert(entries.remove(i).last() == entries.last());
    }
}

/// The tally depends on which entries were recorded and how often, not on
/// their order: two sequences that hold the same entries equally often leave
/// the same tally.
pub proof fn lemma_order_independent(tally: Tally, a: Seq<LogEntry>, b: Seq<LogEntry>)
    requires
        a.to_multiset() == b.to_multiset(),
    ensures
        tally.recorded_all(a) == tally.recorded_all(b),
    decreases a.len(),
{
    broadcast use group_multiset_axioms;

    a.to_multiset_ensures();
    b.to_multiset_ensures();
    if a.len() > 0 {
        let x = a.last();
        assert(a.contains(x));
        assert(b.to_multiset().count(x) > 0);
        let i = choose|i: int| 0 <= i < b.len() && b[i] == x;
        assert(a.remove(a.len() - 1) =~= a.drop_last());
        lemma_order_independent(tally, a.drop_last(), b.remove(i));
        lemma_record_moved_last(tally, b, i);
    }
}

} // verus!

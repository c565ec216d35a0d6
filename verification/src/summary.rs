//! The summary of a run: one section for every dimension in which anything
//! was counted, in a fixed order, each with its title and its rows.

use crate::buckets::{bucketize, is_bucketing, Bucket, NO_VALUE};
use crate::default_map::text_pairs;
use crate::frequency::{enumerates, FrequencyTable, NumericTable};
use crate::labels::{decimal, decimal_text};
use crate::order::SortOrder;
use crate::report::{
    bucket_rows, histogram_rows, lemma_text_pairs_push, ranked, render_table, shown,
};
use crate::stats::{Tally, TopInfo};
use crate::window::LogDuration;
use vstd::multiset::*;
use vstd::prelude::*;

verus! {

/// The dimensions that a run counts, in the order in which a summary shows
/// them.
#[derive(Clone, Copy, Debug, PartialEq, Eq, Structural)]
pub enum Dimension {
    ResponseCodes,
    RequestMethods,
    RequestsNoQuery,
    RequestsQuery,
    UserAgents,
    Referrers,
    ClientIps,
    BackendIps,
    XForwardedFors,
    Hosts,
    AppIds,
    AppIndexes,
    ResponseTimes,
    GorouterTimes,
    RouterErrors,
}

/// The title of a section that shows at most `limit` rows of `what`.
pub open spec fn top_title(limit: nat, what: Seq<char>) -> Seq<char> {
    "Top '"@ + decimal(limit) + "' "@ + what
}

impl Dimension {
    /// The place of the dimension in a summary, counted from zero.
    pub open spec fn place(self) -> int {
        match self {
            Dimension::ResponseCodes => 0,
            Dimension::RequestMethods => 1,
            Dimension::RequestsNoQuery => 2,
            Dimension::RequestsQuery => 3,
            Dimension::UserAgents => 4,
            Dimension::Referrers => 5,
            Dimension::ClientIps => 6,
            Dimension::BackendIps => 7,
            Dimension::XForwardedFors => 8,
            Dimension::Hosts => 9,
            Dimension::AppIds => 10,
            Dimension::AppIndexes => 11,
            Dimension::ResponseTimes => 12,
            Dimension::GorouterTimes => 13,
            Dimension::RouterErrors => 14,
        }
    }

    /// Whether the rows of the dimension are shown in full and by key, as
    /// those of the status codes and of the methods are; the rows of every
    /// other dimension are shown by count, and only the first few.
    pub open spec fn shown_in_full(self) -> bool {
        self == Dimension::ResponseCodes || self == Dimension::RequestMethods
    }

    /// The order of the dimension's rows.
    pub open spec fn order(self) -> SortOrder {
        if self.shown_in_full() {
            SortOrder::ByKey
        } else {
            SortOrder::ByValue
        }
    }

    /// How many rows of the dimension are shown at most.
    pub open spec fn limit(self, max_results: usize) -> usize {
        if self.shown_in_full() {
            usize::MAX
        } else {
            max_results
        }
    }

    /// The title of the dimension's section.
    pub open spec fn title(self, max_results: usize) -> Seq<char> {
        match self {
            Dimension::ResponseCodes => "Response Codes:"@,
            Dimension::RequestMethods => "Request Methods:"@,
            Dimension::RequestsNoQuery => top_title(
                max_results as nat,
                "Requests (no query params)"@,
            ),
            Dimension::RequestsQuery => top_title(
                max_results as nat,
                "Requests (with query params)"@,
            ),
            Dimension::UserAgents => top_title(max_results as nat, "User Agents"@),
            Dimension::Referrers => top_title(max_results as nat, "Referrers"@),
            Dimension::ClientIps => top_title(max_results as nat, "Client IPs"@),
            Dimension::BackendIps => top_title(
                max_results as nat,
                "Backend Address (Cells & Platform VMs)"@,
            ),
            Dimension::XForwardedFors => top_title(max_results as nat, "X-Forwarded-For Ips"@),
            Dimension::Hosts => top_title(max_results as nat, "Destination Hosts"@),
            Dimension::AppIds => top_title(max_results as nat, "Application UUIDs"@),
            Dimension::AppIndexes => top_title(max_results as nat, "Application Indexes"@),
            Dimension::ResponseTimes => "Top Response Times"@,
            Dimension::GorouterTimes => "Top Gorouter Times"@,
            Dimension::RouterErrors => top_title(max_results as nat, "CF Router Errors"@),
        }
    }

    /// Whether the keys of the dimension are whole numbers.
    pub open spec fn is_numeric(self) -> bool {
        self == Dimension::AppIndexes || self == Dimension::ResponseTimes || self
            == Dimension::GorouterTimes
    }

    /// Whether the dimension is one of the two latencies, shown in buckets.
    pub open spec fn is_latency(self) -> bool {
        self == Dimension::ResponseTimes || self == Dimension::GorouterTimes
    }
}

impl Tally {
    /// What was counted in a dimension whose keys are texts.
    pub open spec fn texts_in(self, dimension: Dimension) -> Multiset<Seq<char>> {
        match dimension {
            Dimension::ResponseCodes => self.response_codes,
            Dimension::RequestMethods => self.request_methods,
            Dimension::RequestsNoQuery => self.requests_no_query,
            Dimension::RequestsQuery => self.requests_query,
            Dimension::UserAgents => self.user_agents,
            Dimension::Referrers => self.referrers,
            Dimension::ClientIps => self.client_ips,
            Dimension::BackendIps => self.backend_ips,
            Dimension::XForwardedFors => self.x_forwarded_fors,
            Dimension::Hosts => self.hosts,
            Dimension::AppIds => self.app_ids,
            Dimension::RouterErrors => self.x_cf_routererrors,
            _ => Multiset::empty(),
        }
    }

    /// What was counted in a dimension whose keys are whole numbers.
    pub open spec fn numbers_in(self, dimension: Dimension) -> Multiset<usize> {
        match dimension {
            Dimension::AppIndexes => self.app_indexes,
            Dimension::ResponseTimes => self.response_times,
            Dimension::GorouterTimes => self.gorouter_times,
            _ => Multiset::empty(),
        }
    }

    /// How many observations were counted in a dimension.
    pub open spec fn observed_in(self, dimension: Dimension) -> nat {
        if dimension.is_numeric() {
            self.numbers_in(dimension).len()
        } else {
            self.texts_in(dimension).len()
        }
    }
}

/// One section of a summary.
#[derive(Clone, Debug, PartialEq, Eq)]
pub struct Section {
    pub dimension: Dimension,
    pub title: String,
    pub rows: Vec<(String, usize)>,
}

/// The summary of a run.
#[derive(Clone, Debug, PartialEq, Eq)]
pub struct Report {
    pub duration: LogDuration,
    pub total_requests: usize,
    pub errors: usize,
    pub sections: Vec<Section>,
}

/// The pairs with each key written in decimal digits.
pub open spec fn numbered(pairs: Seq<(usize, usize)>) -> Seq<(Seq<char>, usize)> {
    Seq::new(pairs.len(), |i: int| (decimal(pairs[i].0 as nat), pairs[i].1))
}

/// Whether `rows` shows a table of texts: the first `limit` of its keys and
/// counts in display order. The keys of a table come in no order of their
/// own, so rows that tie may stand either way round: the rows are those of
/// some listing of the table.
pub open spec fn is_rendering(
    rows: Seq<(Seq<char>, usize)>,
    counts: Multiset<Seq<char>>,
    order: SortOrder,
    limit: usize,
) -> bool {
    exists|pairs: Seq<(Seq<char>, usize)>|
        enumerates(pairs, counts) && rows == #[trigger] ranked(pairs, order).take(
            shown(limit, pairs.len()) as int,
        )
}

/// Whether `rows` shows a table of whole numbers, each key written in
/// decimal digits: the first `limit` of its keys and counts, the largest
/// count first.
pub open spec fn is_numbered_rendering(
    rows: Seq<(Seq<char>, usize)>,
    counts: Multiset<usize>,
    limit: usize,
) -> bool {
    exists|pairs: Seq<(usize, usize)>|
        enumerates(pairs, counts) && rows == ranked(
            #[trigger] numbered(pairs),
            SortOrder::ByValue,
        ).take(shown(limit, pairs.len()) as int)
}

/// Whether `rows` shows the buckets of a table of latencies under
/// `threshold`, and after them the observations without a value.
pub open spec fn is_histogram(
    rows: Seq<(Seq<char>, usize)>,
    counts: Multiset<usize>,
    threshold: usize,
) -> bool {
    exists|buckets: Seq<Bucket>| #[trigger]
        is_bucketing(counts, threshold, buckets) && rows == bucket_rows(
            buckets,
            counts.count(NO_VALUE) as usize,
        )
}

/// Whether `section` shows its dimension of `tally` as a summary does: under
/// the dimension's title, the rows that the dimension calls for.
pub open spec fn shows(section: Section, tally: Tally, max_results: usize, threshold: usize) -> bool {
    let dimension = section.dimension;
    let rows = text_pairs(section.rows@);
    &&& section.title@ == dimension.title(max_results)
    &&& if dimension.is_latency() {
        is_histogram(rows, tally.numbers_in(dimension), threshold)
    } else if dimension.is_numeric() {
        is_numbered_rendering(rows, tally.numbers_in(dimension), dimension.limit(max_results))
    } else {
        is_rendering(
            rows,
            tally.texts_in(dimension),
            dimension.order(),
            dimension.limit(max_results),
        )
    }
}

/// Whether one of `sections` is that of `dimension`.
pub open spec fn has_section(sections: Seq<Section>, dimension: Dimension) -> bool {
    exists|i: int| 0 <= i < sections.len() && (#[trigger] sections[i]).dimension == dimension
}

/// Whether `sections` is the summary of `tally` as far as the dimensions
/// before place `upto` go: a section for each of them in which anything was
/// counted and for no other, in the order of their places, each showing its
/// dimension.
pub open spec fn summarizes(
    sections: Seq<Section>,
    tally: Tally,
    max_results: usize,
    threshold: usize,
    upto: int,
) -> bool {
    &&& forall|i: int|
        0 <= i < sections.len() ==> shows(#[trigger] sections[i], tally, max_results, threshold)
            && sections[i].dimension.place() < upto
    &&& forall|i: int, j: int|
        0 <= i < j < sections.len() ==> (#[trigger] sections[i]).dimension.place() < (
        #[trigger] sections[j]).dimension.place()
    &&& forall|dimension: Dimension|
        dimension.place() < upto ==> (#[trigger] has_section(sections, dimension)
            <==> tally.observed_in(dimension) > 0)
}

/// Whether `sections` is the summary of `tally`.
pub open spec fn is_summary(
    sections: Seq<Section>,
    tally: Tally,
    max_results: usize,
    threshold: usize,
) -> bool {
    summarizes(sections, tally, max_results, threshold, 15)
}

/// The summary of a run in which nothing was recorded has no section.
pub proof fn lemma_summary_of_nothing(sections: Seq<Section>, max_results: usize, threshold: usize)
    requires
        is_summary(sections, Tally::empty(), max_results, threshold),
    ensures
        sections.len() == 0,
{
    broadcast use group_multiset_axioms;

    if sections.len() > 0 {
        let dimension = sections[0].dimension;
        assert(has_section(sections, dimension));
        assert(Tally::empty().observed_in(dimension) == 0);
    }
}

/// The title of a section that shows at most `limit` rows of `what`.
fn top_title_text(limit: usize, what: &str) -> (title: String)
    ensures
        title@ == top_title(limit as nat, what@),
{
    let mut title = String::from_str("Top '");
    title.append(decimal_text(limit).as_str());
    title.append("' ");
    title.append(what);
    title
}

/// The title of a dimension's section.
pub fn title_text(dimension: Dimension, max_results: usize) -> (title: String)
    ensures
        title@ == dimension.title(max_results),
{
    match dimension {
        Dimension::ResponseCodes => String::from_str("Response Codes:"),
        Dimension::RequestMethods => String::from_str("Request Methods:"),
        Dimension::RequestsNoQuery => top_title_text(max_results, "Requests (no query params)"),
        Dimension::RequestsQuery => top_title_text(max_results, "Requests (with query params)"),
        Dimension::UserAgents => top_title_text(max_results, "User Agents"),
        Dimension::Referrers => top_title_text(max_results, "Referrers"),
        Dimension::ClientIps => top_title_text(max_results, "Client IPs"),
        Dimension::BackendIps => top_title_text(
            max_results,
            "Backend Address (Cells & Platform VMs)",
        ),
        Dimension::XForwardedFors => top_title_text(max_results, "X-Forwarded-For Ips"),
        Dimension::Hosts => top_title_text(max_results, "Destination Hosts"),
        Dimension::AppIds => top_title_text(max_results, "Application UUIDs"),
        Dimension::AppIndexes => top_title_text(max_results, "Application Indexes"),
        Dimension::ResponseTimes => String::from_str("Top Response Times"),
        Dimension::GorouterTimes => String::from_str("Top Gorouter Times"),
        Dimension::RouterErrors => top_title_text(max_results, "CF Router Errors"),
    }
}

/// The section of a dimension whose keys are texts; none where nothing was
/// counted in it.
fn text_section(dimension: Dimension, table: &FrequencyTable, max_results: usize) -> (section:
    Option<Section>)
    requires
        !dimension.is_numeric(),
    ensures
        section is Some <==> table@.len() > 0,
        section is Some ==> section->0.dimension == dimension && section->0.title@
            == dimension.title(max_results) && is_rendering(
            text_pairs(section->0.rows@),
            table@,
            dimension.order(),
            dimension.limit(max_results),
        ),
{
    if table.is_empty() {
        None
    } else {
        let pairs = table.iterate();
        let in_full = match dimension {
            Dimension::ResponseCodes => true,
            Dimension::RequestMethods => true,
            _ => false,
        };
        let rows = if in_full {
            render_table(&pairs, SortOrder::ByKey, usize::MAX)
        } else {
            render_table(&pairs, SortOrder::ByValue, max_results)
        };
        proof {
            let listed = text_pairs(pairs@);
            assert(text_pairs(rows@) == ranked(listed, dimension.order()).take(
                shown(dimension.limit(max_results), listed.len()) as int,
            ));
        }
        Some(Section { dimension, title: title_text(dimension, max_results), rows })
    }
}

/// The section of the instance indexes; none where none was counted.
fn index_section(table: &NumericTable, max_results: usize) -> (section: Option<Section>)
    ensures
        section is Some <==> table@.len() > 0,
        section is Some ==> section->0.dimension == Dimension::AppIndexes && section->0.title@
            == Dimension::AppIndexes.title(max_results) && is_numbered_rendering(
            text_pairs(section->0.rows@),
            table@,
            max_results,
        ),
{
    if table.is_empty() {
        None
    } else {
        let pairs = table.iterate();
        let mut labelled: Vec<(String, usize)> = Vec::new();
        let mut i: usize = 0;
        while i < pairs.len()
            invariant
                i <= pairs@.len(),
                text_pairs(labelled@) == numbered(pairs@).take(i as int),
            decreases pairs@.len() - i,
        {
            let ghost before = labelled@;
            labelled.push((decimal_text(pairs[i].0), pairs[i].1));
            i = i + 1;
            proof {
                assert(labelled@ == before.push(labelled@.last()));
                lemma_text_pairs_push(before, labelled@.last());
                let all = numbered(pairs@);
                assert(all.take(i as int) =~= all.take(i - 1).push(all[i - 1]));
            }
        }
        let rows = render_table(&labelled, SortOrder::ByValue, max_results);
        proof {
            assert(numbered(pairs@).take(i as int) =~= numbered(pairs@));
            assert(text_pairs(rows@) == ranked(numbered(pairs@), SortOrder::ByValue).take(
                shown(max_results, pairs@.len()) as int,
            ));
        }
        Some(
            Section {
                dimension: Dimension::AppIndexes,
                title: title_text(Dimension::AppIndexes, max_results),
                rows,
            },
        )
    }
}

/// The section of a latency; none where none was counted.
fn latency_section(
    dimension: Dimension,
    table: &NumericTable,
    max_results: usize,
    threshold: usize,
) -> (section: Option<Section>)
    requires
        dimension.is_latency(),
    ensures
        section is Some <==> table@.len() > 0,
        section is Some ==> section->0.dimension == dimension && section->0.title@
            == dimension.title(max_results) && is_histogram(
            text_pairs(section->0.rows@),
            table@,
            threshold,
        ),
{
    if table.is_empty() {
        None
    } else {
        let histogram = bucketize(table, threshold);
        let rows = histogram_rows(&histogram);
        proof {
            assert(is_bucketing(table@, threshold, histogram.buckets@));
        }
        Some(Section { dimension, title: title_text(dimension, max_results), rows })
    }
}

/// Takes the section of the next dimension into the summary, where there is
/// one.
fn extend(
    sections: &mut Vec<Section>,
    section: Option<Section>,
    Ghost(dimension): Ghost<Dimension>,
    Ghost(tally): Ghost<Tally>,
    Ghost(max_results): Ghost<usize>,
    Ghost(threshold): Ghost<usize>,
)
    requires
        summarizes(old(sections)@, tally, max_results, threshold, dimension.place()),
        section is Some <==> tally.observed_in(dimension) > 0,
        section is Some ==> section->0.dimension == dimension && shows(
            section->0,
            tally,
            max_results,
            threshold,
        ),
    ensures
        summarizes(final(sections)@, tally, max_results, threshold, dimension.place() + 1),
{
    let ghost before = sections@;
    match section {
        Some(section) => {
            sections.push(section);
            proof {
                let after = sections@;
                assert forall|i: int| 0 <= i < after.len() implies shows(
                    #[trigger] after[i],
                    tally,
                    max_results,
                    threshold,
                ) && after[i].dimension.place() < dimension.place() + 1 by {
                    if i < before.len() {
                        assert(after[i] == before[i]);
                    }
                }
                assert forall|i: int, j: int| 0 <= i < j < after.len() implies (
                #[trigger] after[i]).dimension.place() < (#[trigger] after[j]).dimension.place() by {
                    assert(after[i] == before[i]);
                    if j < before.len() {
                        assert(after[j] == before[j]);
                    }
                }
                assert forall|other: Dimension| other.place() < dimension.place() + 1 implies (
                #[trigger] has_section(after, other) <==> tally.observed_in(other) > 0) by {
                    if has_section(after, other) {
                        let i = choose|i: int|
                            0 <= i < after.len() && (#[trigger] after[i]).dimension == other;
                        if i < before.len() {
                            assert(before[i] == after[i]);
                            assert(has_section(before, other));
                        }
                    }
                    if other.place() < dimension.place() {
                        if has_section(before, other) {
                            let i = choose|i: int|
                                0 <= i < before.len() && (#[trigger] before[i]).dimension
                                    == other;
                            assert(after[i] == before[i]);
                        }
                    } else {
                        assert(other == dimension);
                        assert(after[before.len() as int].dimension == dimension);
                    }
                }
            }
        },
        None => {
            proof {
                assert forall|other: Dimension| other.place() < dimension.place() + 1 implies (
                #[trigger] has_section(before, other) <==> tally.observed_in(other) > 0) by {
                    if other.place() == dimension.place() {
                        assert(other == dimension);
                        if has_section(before, other) {
                            let i = choose|i: int|
                                0 <= i < before.len() && (#[trigger] before[i]).dimension
                                    == other;
                        }
                    }
                }
            }
        },
    }
}

impl TopInfo {
    /// The summary of the run so far: the window and the two totals, and a
    /// section for every dimension in which anything was counted.
    pub fn summarize(&self, min_response_time_threshold: usize) -> (report: Report)
        ensures
            report.duration == self.duration,
            report.total_requests == self.total_requests,
            report.errors == self.errors,
            is_summary(report.sections@, self@, self.max_results, min_response_time_threshold),
    {
        let limit = self.max_results;
        let threshold = min_response_time_threshold;
        let ghost tally = self@;
        let mut sections: Vec<Section> = Vec::new();
        extend(
            &mut sections,
            text_section(Dimension::ResponseCodes, &self.response_codes, limit),
            Ghost(Dimension::ResponseCodes),
            Ghost(tally),
            Ghost(limit),
            Ghost(threshold),
        );
        extend(
            &mut sections,
            text_section(Dimension::RequestMethods, &self.request_methods, limit),
            Ghost(Dimension::RequestMethods),
            Ghost(tally),
            Ghost(limit),
            Ghost(threshold),
        );
        extend(
            &mut sections,
            text_section(Dimension::RequestsNoQuery, &self.requests_no_query, limit),
            Ghost(Dimension::RequestsNoQuery),
            Ghost(tally),
            Ghost(limit),
            Ghost(threshold),
        );
        extend(
            &mut sections,
            text_section(Dimension::RequestsQuery, &self.requests_query, limit),
            Ghost(Dimension::RequestsQuery),
            Ghost(tally),
            Ghost(limit),
            Ghost(threshold),
        );
        extend(
            &mut sections,
            text_section(Dimension::UserAgents, &self.user_agents, limit),
            Ghost(Dimension::UserAgents),
            Ghost(tally),
            Ghost(limit),
            Ghost(threshold),
        );
        extend(
            &mut sections,
            text_section(Dimension::Referrers, &self.referrers, limit),
            Ghost(Dimension::Referrers),
            Ghost(tally),
            Ghost(limit),
            Ghost(threshold),
        );
        extend(
            &mut sections,
            text_section(Dimension::ClientIps, &self.client_ips, limit),
            Ghost(Dimension::ClientIps),
            Ghost(tally),
            Ghost(limit),
            Ghost(threshold),
        );
        extend(
            &mut sections,
            text_section(Dimension::BackendIps, &self.backend_ips, limit),
            Ghost(Dimension::BackendIps),
            Ghost(tally),
            Ghost(limit),
            Ghost(threshold),
        );
        extend(
            &mut sections,
            text_section(Dimension::XForwardedFors, &self.x_forwarded_fors, limit),
            Ghost(Dimension::XForwardedFors),
            Ghost(tally),
            Ghost(limit),
            Ghost(threshold),
        );
        extend(
            &mut sections,
            text_section(Dimension::Hosts, &self.hosts, limit),
            Ghost(Dimension::Hosts),
            Ghost(tally),
            Ghost(limit),
            Ghost(threshold),
        );
        extend(
            &mut sections,
            text_section(Dimension::AppIds, &self.app_ids, limit),
            Ghost(Dimension::AppIds),
            Ghost(tally),
            Ghost(limit),
            Ghost(threshold),
        );
        extend(
            &mut sections,
            index_section(&self.app_indexes, limit),
            Ghost(Dimension::AppIndexes),
            Ghost(tally),
            Ghost(limit),
            Ghost(threshold),
        );
        extend(
            &mut sections,
            latency_section(Dimension::ResponseTimes, &self.response_times, limit, threshold),
            Ghost(Dimension::ResponseTimes),
            Ghost(tally),
            Ghost(limit),
            Ghost(threshold),
        );
        extend(
            &mut sections,
            latency_section(Dimension::GorouterTimes, &self.gorouter_times, limit, threshold),
            Ghost(Dimension::GorouterTimes),
            Ghost(tally),
            Ghost(limit),
            Ghost(threshold),
        );
        extend(
            &mut sections,
            text_section(Dimension::RouterErrors, &self.x_cf_routererrors, limit),
            Ghost(Dimension::RouterErrors),
            Ghost(tally),
            Ghost(limit),
            Ghost(threshold),
        );
        Report {
            duration: self.duration,
            total_requests: self.total_requests,
            errors: self.errors,
            sections,
        }
    }
}

} // verus!

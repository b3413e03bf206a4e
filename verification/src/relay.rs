//! What a relay is asked for, and how its pages are put together.
//!
//! A relay hands out a turn metric only to the reader that its `#p` tag names.
//! The filters here name the reader's own pubkey and no other, so nobody else's
//! metrics are ever asked for.

use crate::events::RelayEvent;
use crate::rollup::AgentRollup;
use vstd::prelude::*;

verus! {

/// The event kind of turn metrics.
pub const KIND_AGENT_TURN_METRIC: u64 = 44200;

/// The event kind of profiles.
pub const KIND_PROFILE: u64 = 0;

/// How many events a page of turn metrics holds at most.
pub const USAGE_PAGE_SIZE: usize = 500;

/// A relay filter. A part that is `None` is left out of the request.
#[derive(Clone, Debug)]
pub struct Filter {
    /// Event kinds.
    pub kinds: Vec<u64>,
    /// Pubkeys in the `#p` tag.
    pub recipients: Option<Vec<String>>,
    /// Pubkeys of the authors.
    pub authors: Option<Vec<String>>,
    /// Nothing older than this.
    pub since: Option<i64>,
    /// At most this many events.
    pub limit: Option<usize>,
    /// Nothing newer than this.
    pub until: Option<u64>,
    /// Of the events at `until`, only those before this id.
    pub before_id: Option<String>,
}

/// A relay filter by its characters.
#[verifier::ext_equal]
pub struct FilterView {
    pub kinds: Seq<u64>,
    pub recipients: Option<Seq<Seq<char>>>,
    pub authors: Option<Seq<Seq<char>>>,
    pub since: Option<i64>,
    pub limit: Option<usize>,
    pub until: Option<u64>,
    pub before_id: Option<Seq<char>>,
}

/// The strings of an optional list.
pub open spec fn strings_view(strings: Option<Vec<String>>) -> Option<Seq<Seq<char>>> {
    match strings {
        Some(list) => Some(Seq::new(list@.len(), |i: int| list@[i]@)),
        None => None,
    }
}

impl View for Filter {
    type V = FilterView;

    open spec fn view(&self) -> FilterView {
        FilterView {
            kinds: self.kinds@,
            recipients: strings_view(self.recipients),
            authors: strings_view(self.authors),
            since: self.since,
            limit: self.limit,
            until: self.until,
            before_id: match self.before_id {
                Some(id) => Some(id@),
                None => None,
            },
        }
    }
}

/// The filter for the turn metrics that are addressed to one pubkey.
pub open spec fn metrics_for(pubkey: Seq<char>, since: Option<i64>) -> FilterView {
    FilterView {
        kinds: seq![KIND_AGENT_TURN_METRIC],
        recipients: Some(seq![pubkey]),
        authors: None,
        since,
        limit: None,
        until: None,
        before_id: None,
    }
}

/// The filter for the turn metrics that are addressed to the reader itself.
pub fn metric_filter(my_pubkey: &str, since: Option<i64>) -> (filter: Filter)
    ensures
        filter@ == metrics_for(my_pubkey@, since),
        filter.kinds@ == seq![44200u64],
        filter.recipients is Some,
        filter.recipients->0@.len() == 1,
        filter.recipients->0@[0]@ == my_pubkey@,
        filter.authors is None,
        filter.since == since,
        filter.limit is None,
{
    let mut kinds: Vec<u64> = Vec::new();
    kinds.push(KIND_AGENT_TURN_METRIC);
    let mut recipients: Vec<String> = Vec::new();
    recipients.push(my_pubkey.to_owned());
    let filter = Filter {
        kinds,
        recipients: Some(recipients),
        authors: None,
        since,
        limit: None,
        until: None,
        before_id: None,
    };
    proof {
        assert(filter@.kinds =~= seq![KIND_AGENT_TURN_METRIC]);
        assert(filter@.recipients->0 =~= seq![my_pubkey@]);
        law_metric_filter_names_the_reader(filter, my_pubkey@, since);
    }
    filter
}

/// The filter for the profiles of agents, one each.
pub open spec fn profiles_of(agents: Seq<Seq<char>>, limit: usize) -> FilterView {
    FilterView {
        kinds: seq![KIND_PROFILE],
        recipients: None,
        authors: Some(agents),
        since: None,
        limit: Some(limit),
        until: None,
        before_id: None,
    }
}

/// The pubkeys of the rows, in their order.
pub open spec fn row_agents(rows: Seq<AgentRollup>) -> Seq<Seq<char>> {
    Seq::new(rows.len(), |i: int| rows[i].agent_pubkey@)
}

/// The filter for the profiles of the agents in the rows. Without rows there is
/// nothing to ask for.
pub fn profile_filter(rows: &Vec<AgentRollup>) -> (filter: Option<Filter>)
    ensures
        filter is None <==> rows@.len() == 0,
        filter matches Some(f) ==> f@ == profiles_of(row_agents(rows@), rows@.len() as usize),
{
    if rows.len() == 0 {
        return None;
    }
    let mut kinds: Vec<u64> = Vec::new();
    kinds.push(KIND_PROFILE);
    let mut authors: Vec<String> = Vec::new();
    let mut i: usize = 0;
    while i < rows.len()
        invariant
            i <= rows@.len(),
            authors@.len() == i,
            forall|j: int| 0 <= j < i ==> (#[trigger] authors@[j])@ == rows@[j].agent_pubkey@,
        decreases rows@.len() - i,
    {
        authors.push(rows[i].agent_pubkey.clone());
        i = i + 1;
    }
    let filter = Filter {
        kinds,
        recipients: None,
        authors: Some(authors),
        since: None,
        limit: Some(rows.len()),
        until: None,
        before_id: None,
    };
    proof {
        assert(filter@.kinds =~= seq![KIND_PROFILE]);
        assert(filter@.authors->0 =~= row_agents(rows@));
    }
    Some(filter)
}

/// The pages of a query: what to ask for next, and what has come so far.
pub struct Paging {
    filter: Filter,
    events: Vec<RelayEvent>,
}

/// The pages of a query: the filter for the next page, and the events so far.
#[verifier::ext_equal]
pub struct PagingView {
    pub filter: FilterView,
    pub events: Seq<RelayEvent>,
}

impl View for Paging {
    type V = PagingView;

    closed spec fn view(&self) -> PagingView {
        PagingView { filter: self.filter@, events: self.events@ }
    }
}

/// The beginning of a query: full pages are asked for, and nothing has come.
pub open spec fn paging_start(filter: FilterView) -> PagingView {
    PagingView {
        filter: FilterView { limit: Some(USAGE_PAGE_SIZE), ..filter },
        events: Seq::empty(),
    }
}

/// A page that is not full is the last one.
pub open spec fn is_last_page(page: Seq<RelayEvent>) -> bool {
    page.len() < USAGE_PAGE_SIZE
}

/// A query after one more page. Where it was full, the next page starts behind
/// its last event: by time and id, because more than one page of events can
/// share a second.
pub open spec fn paging_step(paging: PagingView, page: Seq<RelayEvent>) -> PagingView {
    PagingView {
        filter: if is_last_page(page) {
            paging.filter
        } else {
            FilterView {
                until: Some(page.last().created_at),
                before_id: Some(page.last().id@),
                ..paging.filter
            }
        },
        events: paging.events + page,
    }
}

impl Paging {
    /// Begins a query.
    pub fn start(filter: Filter) -> (paging: Paging)
        ensures
            paging@ == paging_start(filter@),
    {
        let mut filter = filter;
        filter.limit = Some(USAGE_PAGE_SIZE);
        let paging = Paging { filter, events: Vec::new() };
        assert(paging@ =~= paging_start(filter@));
        paging
    }

    /// The filter for the next page.
    pub fn filter(&self) -> (filter: &Filter)
        ensures
            filter@ == self@.filter,
    {
        &self.filter
    }

    /// Takes a page, and tells whether it was the last one.
    pub fn accept(&mut self, page: Vec<RelayEvent>) -> (done: bool)
        ensures
            final(self)@ == paging_step(old(self)@, page@),
            done == is_last_page(page@),
            done == (page@.len() < 500),
            final(self)@.events == old(self)@.events + page@,
            !done ==> final(self)@.filter.until == Some(page@.last().created_at)
                && final(self)@.filter.before_id == Some(page@.last().id@),
            done ==> final(self)@.filter == old(self)@.filter,
    {
        let done = page.len() < USAGE_PAGE_SIZE;
        if !done {
            let last = &page[page.len() - 1];
            self.filter.until = Some(last.created_at);
            self.filter.before_id = Some(last.id.clone());
        }
        let mut page = page;
        self.events.append(&mut page);
        done
    }

    /// The events that have come.
    pub fn into_events(self) -> (events: Vec<RelayEvent>)
        ensures
            events@ == self@.events,
    {
        self.events
    }
}

/// A query after several pages.
pub open spec fn paging_run(paging: PagingView, pages: Seq<Seq<RelayEvent>>) -> PagingView
    decreases pages.len(),
{
    if pages.len() == 0 {
        paging
    } else {
        paging_step(paging_run(paging, pages.drop_last()), pages.last())
    }
}

/// A query collects the events of all its pages, in the order in which they
/// came.
pub proof fn law_paging_collects_all(filter: FilterView, pages: Seq<Seq<RelayEvent>>)
    ensures
        paging_run(paging_start(filter), pages).events == pages.flatten(),
    decreases pages.len(),
{
    if pages.len() == 0 {
        assert(pages =~= Seq::empty());
        assert(pages.flatten() =~= Seq::empty());
    } else {
        law_paging_collects_all(filter, pages.drop_last());
        pages.drop_last().lemma_flatten_push(pages.last());
        assert(pages =~= pages.drop_last().push(pages.last()));
    }
}

/// Every page of a query for the reader's own turn metrics asks for turn
/// metrics that are addressed to the reader, and for nothing else.
pub proof fn law_only_own_metrics_are_asked_for(
    my_pubkey: Seq<char>,
    since: Option<i64>,
    pages: Seq<Seq<RelayEvent>>,
)
    ensures
        ({
            let filter = paging_run(paging_start(metrics_for(my_pubkey, since)), pages).filter;
            &&& filter.kinds == seq![KIND_AGENT_TURN_METRIC]
            &&& filter.recipients == Some(seq![my_pubkey])
            &&& filter.authors is None
            &&& filter.since == since
            &&& filter.limit == Some(USAGE_PAGE_SIZE)
        }),
    decreases pages.len(),
{
    if pages.len() > 0 {
        law_only_own_metrics_are_asked_for(my_pubkey, since, pages.drop_last());
    }
}

/// After a full page the next page is asked for behind that page's last event,
/// whatever came before.
pub proof fn law_next_page_starts_behind_the_last(
    filter: FilterView,
    pages: Seq<Seq<RelayEvent>>,
)
    requires
        pages.len() > 0,
        !is_last_page(pages.last()),
    ensures
        ({
            let next = paging_run(paging_start(filter), pages).filter;
            &&& next.until == Some(pages.last().last().created_at)
            &&& next.before_id == Some(pages.last().last().id@)
        }),
{
}

/// The filter for turn metrics asks for the kind of turn metrics and names the
/// reader as the one recipient; apart from the time it asks for nothing else.
pub proof fn law_metric_filter_names_the_reader(
    filter: Filter,
    my_pubkey: Seq<char>,
    since: Option<i64>,
)
    requires
        filter@ == metrics_for(my_pubkey, since),
    ensures
        filter.kinds@ == seq![44200u64],
        filter.recipients is Some,
        filter.recipients->0@.len() == 1,
        filter.recipients->0@[0]@ == my_pubkey,
        filter.authors is None,
        filter.since == since,
        filter.limit is None,
        filter.until is None,
        filter.before_id is None,
{
    let recipients = strings_view(filter.recipients)->0;
    assert(recipients == seq![my_pubkey]);
    assert(recipients.len() == 1 && recipients[0] == my_pubkey);
    assert(recipients[0] == filter.recipients->0@[0]@);
}

/// The filter for profiles asks for the profile of every row's agent, in the order
/// of the rows, for as many as there are rows, and for nothing else.
pub proof fn law_profile_filter_names_every_agent(filter: Filter, rows: Seq<AgentRollup>)
    requires
        rows.len() <= usize::MAX,
        filter@ == profiles_of(row_agents(rows), rows.len() as usize),
    ensures
        filter.kinds@ == seq![0u64],
        filter.authors is Some,
        filter.authors->0@.len() == rows.len(),
        forall|i: int|
            0 <= i < rows.len() ==> (#[trigger] filter.authors->0@[i])@ == rows[i].agent_pubkey@,
        filter.limit is Some,
        filter.limit->0 == rows.len(),
        filter.recipients is None,
        filter.since is None,
        filter.until is None,
        filter.before_id is None,
{
    let authors = strings_view(filter.authors)->0;
    assert(authors == row_agents(rows));
    assert(authors.len() == rows.len());
    assert forall|i: int| 0 <= i < rows.len() implies (#[trigger] filter.authors->0@[i])@
        == rows[i].agent_pubkey@ by {
        assert(authors[i] == row_agents(rows)[i]);
    }
}

/// A page is the last one exactly where it has fewer than five hundred events.
pub proof fn law_full_page_is_not_the_last(page: Seq<RelayEvent>)
    ensures
        is_last_page(page) <==> page.len() < 500,
{
}

/// Whatever pages came, the filter for the next one asks for five hundred turn
/// metrics that are addressed to the reader. Behind a full page it starts behind
/// that page's last event, by its time and its id; before the first page it starts
/// at the newest, and a page that is not full changes nothing.
pub proof fn law_next_page_of_own_metrics(
    filter: Filter,
    my_pubkey: Seq<char>,
    since: Option<i64>,
    pages: Seq<Seq<RelayEvent>>,
)
    requires
        filter@ == paging_run(paging_start(metrics_for(my_pubkey, since)), pages).filter,
    ensures
        filter.kinds@ == seq![44200u64],
        filter.recipients is Some,
        filter.recipients->0@.len() == 1,
        filter.recipients->0@[0]@ == my_pubkey,
        filter.authors is None,
        filter.since == since,
        filter.limit == Some(500usize),
        pages.len() == 0 ==> filter.until is None && filter.before_id is None,
        pages.len() > 0 && pages.last().len() >= 500 ==> {
            &&& filter.until == Some(pages.last().last().created_at)
            &&& filter.before_id is Some
            &&& filter.before_id->0@ == pages.last().last().id@
        },
        pages.len() > 0 && pages.last().len() < 500 ==> filter@ == paging_run(
            paging_start(metrics_for(my_pubkey, since)),
            pages.drop_last(),
        ).filter,
{
    law_only_own_metrics_are_asked_for(my_pubkey, since, pages);
    let recipients = strings_view(filter.recipients)->0;
    assert(recipients == seq![my_pubkey]);
    assert(recipients.len() == 1 && recipients[0] == my_pubkey);
    assert(recipients[0] == filter.recipients->0@[0]@);
    if pages.len() > 0 && pages.last().len() >= 500 {
        law_next_page_starts_behind_the_last(metrics_for(my_pubkey, since), pages);
    }
}

} // verus!

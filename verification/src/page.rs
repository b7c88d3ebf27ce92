//! The mathematical model of the page table: one `PageModel` per row, in
//! id order, together with the well-formedness predicate and the state
//! transitions that the store's operations perform.

use vstd::prelude::*;
use crate::text::{chars_of, contains_chars, contains_pat};

verus! {

/// Ghost model of one stored page row.
pub ghost struct PageModel {
    /// Primary key, assigned on insertion, stable afterwards.
    pub id: int,
    /// Globally unique address of the page.
    pub url: Seq<char>,
    /// Whether a fetch outcome has been recorded for the page.
    pub visited: bool,
    /// Recorded body (or sentinel marker); absent until visited.
    pub content: Option<Seq<char>>,
    /// Recorded outbound link list, delimiter-joined; absent until visited.
    pub links_to: Option<Seq<char>>,
    /// Lease flag: the page is currently claimed by one worker.
    pub in_use: bool,
}

/// One row of the page table, as the store hands it out.
#[derive(Debug)]
pub struct Ranking {
    pub id: i64,
    pub visited: bool,
    pub url: String,
    pub content: Option<String>,
    pub links_to: Option<String>,
    pub in_use: bool,
}

impl View for Ranking {
    type V = PageModel;

    open spec fn view(&self) -> PageModel {
        PageModel {
            id: self.id as int,
            url: self.url@,
            visited: self.visited,
            content: match self.content {
                Some(c) => Some(c@),
                None => None,
            },
            links_to: match self.links_to {
                Some(l) => Some(l@),
                None => None,
            },
            in_use: self.in_use,
        }
    }
}

impl Clone for Ranking {
    /// An exact copy of the row.
    fn clone(&self) -> (r: Self)
        ensures
            r == *self,
    {
        Ranking {
            id: self.id,
            visited: self.visited,
            url: self.url.clone(),
            content: match &self.content {
                Some(c) => Some(c.clone()),
                None => None,
            },
            links_to: match &self.links_to {
                Some(l) => Some(l.clone()),
                None => None,
            },
            in_use: self.in_use,
        }
    }
}

/// The models of a sequence of rows.
pub open spec fn rows_view(rows: Seq<Ranking>) -> Seq<PageModel> {
    rows.map_values(|r: Ranking| r@)
}

/// Well-formed table: ids strictly increase (so the sequence is in id
/// order and ids are unique), urls are unique, and every id is a positive
/// machine integer.
pub open spec fn wf_rows(rows: Seq<PageModel>) -> bool {
    &&& (forall|i: int, j: int| 0 <= i < j < rows.len() ==> #[trigger] rows[i].id < #[trigger] rows[j].id)
    &&& (forall|i: int, j: int| 0 <= i < j < rows.len() ==> #[trigger] rows[i].url != #[trigger] rows[j].url)
    &&& (forall|i: int| 0 <= i < rows.len() ==> 1 <= #[trigger] rows[i].id <= i64::MAX)
}

/// Some row holds this url.
pub open spec fn has_url(rows: Seq<PageModel>, url: Seq<char>) -> bool {
    exists|i: int| 0 <= i < rows.len() && rows[i].url == url
}

/// Some row holds this id.
pub open spec fn has_id(rows: Seq<PageModel>, id: int) -> bool {
    exists|i: int| 0 <= i < rows.len() && rows[i].id == id
}

/// The id the store assigns to the next inserted row.
pub open spec fn next_id(rows: Seq<PageModel>) -> int {
    if rows.len() == 0 {
        1
    } else {
        rows.last().id + 1
    }
}

/// A newly inserted, not yet visited, unleased row.
pub open spec fn fresh_row(id: int, url: Seq<char>) -> PageModel {
    PageModel { id, url, visited: false, content: None, links_to: None, in_use: false }
}

/// The same row with its lease flag set to `b`.
pub open spec fn with_in_use(p: PageModel, b: bool) -> PageModel {
    PageModel { in_use: b, ..p }
}

/// The same row marked visited with its fetch outcome recorded.
pub open spec fn recorded(p: PageModel, content: Seq<char>, links: Seq<char>) -> PageModel {
    PageModel { visited: true, content: Some(content), links_to: Some(links), ..p }
}

/// Every lease flag cleared, everything else unchanged.
pub open spec fn released_all(rows: Seq<PageModel>) -> Seq<PageModel> {
    rows.map_values(|p: PageModel| with_in_use(p, false))
}

/// The frontier is empty: every row has been visited.
pub open spec fn frontier_empty(rows: Seq<PageModel>) -> bool {
    forall|i: int| 0 <= i < rows.len() ==> rows[i].visited
}

/// Row `i` can be leased: it is neither visited nor already leased.
pub open spec fn leasable(rows: Seq<PageModel>, i: int) -> bool {
    0 <= i < rows.len() && !rows[i].visited && !rows[i].in_use
}

/// Row `i` is the first leasable row.
pub open spec fn first_leasable(rows: Seq<PageModel>, i: int) -> bool {
    leasable(rows, i) && (forall|j: int| 0 <= j < i ==> !leasable(rows, j))
}

/// Number of rows whose recorded link list contains `url` as a substring.
pub open spec fn inbound_count(rows: Seq<PageModel>, url: Seq<char>) -> nat {
    rows.filter(|p: PageModel| links_contain(p, url)).len()
}

/// The row is visited with a link list that mentions `url`.
pub open spec fn links_contain(p: PageModel, url: Seq<char>) -> bool {
    match p.links_to {
        Some(l) => contains_pat(l, url),
        None => false,
    }
}

/// Clearing every lease keeps the table well formed.
pub proof fn lemma_wf_released_all(rows: Seq<PageModel>)
    requires
        wf_rows(rows),
    ensures
        wf_rows(released_all(rows)),
        released_all(rows).len() == rows.len(),
        forall|i: int| 0 <= i < rows.len() ==> released_all(rows)[i] == with_in_use(
            rows[i],
            false,
        ),
{
}

/// Appending a fresh row with the next id keeps the table well formed.
pub proof fn lemma_wf_push_fresh(rows: Seq<PageModel>, url: Seq<char>)
    requires
        wf_rows(rows),
        !has_url(rows, url),
        next_id(rows) <= i64::MAX,
    ensures
        wf_rows(rows.push(fresh_row(next_id(rows), url))),
{
    let out = rows.push(fresh_row(next_id(rows), url));
    assert forall|i: int, j: int| 0 <= i < j < out.len() implies out[i].id < out[j].id by {
        if j == rows.len() && rows.len() > 0 {
            assert(rows[i].id <= rows[rows.len() - 1].id);
        }
    }
    assert forall|i: int, j: int| 0 <= i < j < out.len() implies out[i].url != out[j].url by {
        if j == rows.len() {
            assert(!(0 <= i < rows.len() && rows[i].url == url));
        }
    }
}

/// Updating one row in place, without changing its id or url, keeps the
/// table well formed.
pub proof fn lemma_wf_update(rows: Seq<PageModel>, i: int, p: PageModel)
    requires
        wf_rows(rows),
        0 <= i < rows.len(),
        p.id == rows[i].id,
        p.url == rows[i].url,
    ensures
        wf_rows(rows.update(i, p)),
{
}

/// Lease exclusivity: leasing the first leasable row makes that row
/// unleasable, so a second lease taken right after can never return the
/// same row; it can only pick a row that the first lease left alone.
pub proof fn lemma_lease_exclusive(rows: Seq<PageModel>, i: int, j: int)
    requires
        first_leasable(rows, i),
        leasable(rows.update(i, with_in_use(rows[i], true)), j),
    ensures
        j != i,
        rows.update(i, with_in_use(rows[i], true))[j] == rows[j],
{
    let after = rows.update(i, with_in_use(rows[i], true));
    assert(after[i].in_use);
}

/// The termination predicate is exact: the frontier is empty exactly when
/// no row is unvisited, and then nothing is leasable either.
pub proof fn lemma_frontier_empty_no_lease(rows: Seq<PageModel>)
    requires
        frontier_empty(rows),
    ensures
        forall|i: int| !leasable(rows, i),
{
}

/// Frontier progress: leasing, releasing and recording never bring a row
/// back into the frontier, so once the frontier is empty it stays empty
/// under every operation except inserting a new row.
pub proof fn lemma_frontier_stays_empty(rows: Seq<PageModel>, i: int, p: PageModel)
    requires
        frontier_empty(rows),
        0 <= i < rows.len(),
        p.visited || p == with_in_use(rows[i], p.in_use),
    ensures
        frontier_empty(rows.update(i, p)),
{
    let after = rows.update(i, p);
    assert forall|k: int| 0 <= k < after.len() implies after[k].visited by {
        if k == i {
            if !p.visited {
                assert(p == with_in_use(rows[i], p.in_use));
                assert(rows[i].visited);
            }
        }
    }
}


/// Filtering one more element appends it exactly when it satisfies the
/// predicate.
pub proof fn lemma_filter_push<A>(s: Seq<A>, pred: spec_fn(A) -> bool, x: A)
    ensures
        s.push(x).filter(pred) == if pred(x) {
            s.filter(pred).push(x)
        } else {
            s.filter(pred)
        },
{
    reveal(Seq::filter);
    assert(s.push(x).drop_last() =~= s);
    assert(s.push(x).last() == x);
}


/// The token occurs in the page's url or in its content.
pub open spec fn token_matches(p: PageModel, tok: Seq<char>) -> bool {
    contains_pat(p.url, tok) || (match p.content {
        Some(c) => contains_pat(c, tok),
        None => false,
    })
}

/// Some query token occurs in the page's url or content.
pub open spec fn query_matches(p: PageModel, tokens: Seq<Seq<char>>) -> bool {
    exists|t: int| 0 <= t < tokens.len() && token_matches(p, tokens[t])
}

/// Executable form of `query_matches` over one stored row.
pub fn row_matches_tokens(row: &Ranking, tokens: &Vec<Vec<char>>) -> (r: bool)
    ensures
        r == query_matches(row@, tokens.deep_view()),
{
    let url_chars = chars_of(row.url.as_str());
    let content_chars: Option<Vec<char>> = match &row.content {
        Some(c) => Some(chars_of(c.as_str())),
        None => None,
    };
    let mut t: usize = 0;
    while t < tokens.len()
        invariant
            t <= tokens@.len(),
            tokens.deep_view().len() == tokens@.len(),
            url_chars@ == row@.url,
            match content_chars {
                Some(cc) => row@.content == Some(cc@),
                None => row@.content is None,
            },
            forall|j: int| 0 <= j < t ==> !token_matches(row@, tokens.deep_view()[j]),
        decreases tokens@.len() - t,
    {
        let tok = &tokens[t];
        assert(tok@ == tokens.deep_view()[t as int]);
        if contains_chars(&url_chars, tok) {
            return true;
        }
        match &content_chars {
            Some(cc) => {
                if contains_chars(cc, tok) {
                    return true;
                }
            },
            None => {},
        }
        assert(!token_matches(row@, tokens.deep_view()[t as int]));
        t += 1;
    }
    false
}


/// Every element of a filtered sequence occurs in the unfiltered one.
pub proof fn lemma_filter_sub<A>(s: Seq<A>, pred: spec_fn(A) -> bool, k: int)
    requires
        0 <= k < s.filter(pred).len(),
    ensures
        exists|i: int| 0 <= i < s.len() && s[i] == s.filter(pred)[k],
    decreases s.len(),
{
    reveal(Seq::filter);
    if s.len() > 0 {
        let rest = s.drop_last().filter(pred);
        if k < rest.len() {
            lemma_filter_sub(s.drop_last(), pred, k);
            let i = choose|i: int| 0 <= i < s.drop_last().len() && s.drop_last()[i] == rest[k];
            assert(s[i] == s.filter(pred)[k]);
        } else {
            assert(s[s.len() - 1] == s.filter(pred)[k]);
        }
    }
}


/// Releasing is idempotent: clearing a row's lease twice leaves the same
/// table as clearing it once.
pub proof fn lemma_release_idempotent(rows: Seq<PageModel>, i: int)
    requires
        0 <= i < rows.len(),
    ensures
        ({
            let once = rows.update(i, with_in_use(rows[i], false));
            once.update(i, with_in_use(once[i], false)) == once
        }),
{
    let once = rows.update(i, with_in_use(rows[i], false));
    assert(once.update(i, with_in_use(once[i], false)) =~= once);
}

/// A visited row stays visited under every row transition the store
/// performs: recording an outcome or toggling a lease flag never brings a
/// row back into the frontier.
pub proof fn lemma_visited_monotone(rows: Seq<PageModel>, i: int, p: PageModel, j: int)
    requires
        0 <= i < rows.len(),
        0 <= j < rows.len(),
        rows[j].visited,
        p.visited || p == with_in_use(rows[i], p.in_use),
    ensures
        rows.update(i, p)[j].visited,
{
}

} // verus!

//! The coordination layer that workers drive: leasing the next frontier
//! page, recording a fetch outcome, and enqueueing newly discovered
//! links. The surrounding thread pool and the network fetch itself live
//! outside the library; each worker calls these steps with plain values.

use vstd::prelude::*;
use crate::page::{
    first_leasable, fresh_row, has_id, has_url, next_id, recorded, wf_rows, with_in_use,
    PageModel,
};
use crate::scrape::{get_links, spec_extract, Html, HtmlGetterError};
use crate::store::{
    set_in_use, unvisited_page, update_to_visited, DatabaseConnection, StoreError,
};
use crate::text::join_with;

verus! {

/// A lease on one frontier page: the page is marked `in_use` in the store
/// for as long as the worker holds this handle, and the worker releases
/// it explicitly with `set_in_use(.., false)` on every exit path.
pub struct ToVisit {
    pub url: String,
    pub id: i64,
}

impl ToVisit {
    /// Claims the page with the given id: durably marks it leased and
    /// hands back the handle. A missing id still yields a handle but
    /// changes no row.
    pub fn new(url: &str, id: i64, conn: &mut DatabaseConnection) -> (r: Result<
        ToVisit,
        StoreError,
    >)
        requires
            wf_rows(old(conn)@),
        ensures
            wf_rows(final(conn)@),
            match r {
                Ok(tv) => tv.url@ == url@ && tv.id == id && (forall|i: int|
                    0 <= i < old(conn)@.len() && (#[trigger] old(conn)@[i]).id == id
                        ==> final(conn)@ == old(conn)@.update(
                        i,
                        with_in_use(old(conn)@[i], true),
                    )) && (!has_id(old(conn)@, id as int) ==> final(conn)@ == old(conn)@),
                Err(_) => final(conn)@ == old(conn)@,
            },
    {
        match set_in_use(conn, id, true) {
            Ok(_) => Ok(ToVisit { url: url.to_owned(), id }),
            Err(e) => Err(e),
        }
    }
}

/// A page whose crawl is finished; only its identity remains.
#[derive(Debug)]
pub struct Visited {
    url: String,
    id: i64,
}

impl Visited {
    /// Remembers the identity of a crawled page.
    pub fn new(visited: ToVisit) -> (r: Self)
        ensures
            r.spec_url() == visited.url@,
            r.spec_id() == visited.id,
    {
        Self { url: visited.url, id: visited.id }
    }

    /// The page's address.
    pub closed spec fn spec_url(&self) -> Seq<char> {
        self.url@
    }

    /// The page's id.
    pub closed spec fn spec_id(&self) -> int {
        self.id as int
    }
}

/// Atomically leases the first page that is neither visited nor leased
/// and hands back its handle; `None` when nothing is leasable right now
/// or the store failed.
pub fn get_new_link(conn: &mut DatabaseConnection) -> (r: Option<ToVisit>)
    requires
        wf_rows(old(conn)@),
    ensures
        wf_rows(final(conn)@),
        match r {
            Some(tv) => exists|i: int|
                #![auto]
                first_leasable(old(conn)@, i) && old(conn)@[i].id == tv.id && old(conn)@[i].url
                    == tv.url@ && final(conn)@ == old(conn)@.update(
                    i,
                    with_in_use(old(conn)@[i], true),
                ),
            None => final(conn)@ == old(conn)@,
        },
{
    match crate::store::lease_row(conn) {
        Ok(Some((id, url))) => Some(ToVisit { url, id }),
        Ok(None) => None,
        Err(_) => None,
    }
}

/// The table after inserting each url in order, skipping the ones already
/// present.
pub open spec fn insert_all(rows: Seq<PageModel>, urls: Seq<Seq<char>>) -> Seq<PageModel>
    decreases urls.len(),
{
    if urls.len() == 0 {
        rows
    } else {
        let rows1 = if has_url(rows, urls[0]) {
            rows
        } else {
            rows.push(fresh_row(next_id(rows), urls[0]))
        };
        insert_all(rows1, urls.skip(1))
    }
}

/// The table after recording a fetch outcome for the row with this id; a
/// missing id leaves the table unchanged.
pub open spec fn record_at(
    rows: Seq<PageModel>,
    id: int,
    content: Seq<char>,
    links: Seq<char>,
) -> Seq<PageModel> {
    if has_id(rows, id) {
        let i = choose|i: int| 0 <= i < rows.len() && rows[i].id == id;
        rows.update(i, recorded(rows[i], content, links))
    } else {
        rows
    }
}

/// Inserts every seed address, silently skipping duplicates; only a
/// storage fault stops the walk.
pub fn insert_seeds(conn: &mut DatabaseConnection, start_urls: &Vec<String>) -> (r: Result<
    (),
    StoreError,
>)
    requires
        wf_rows(old(conn)@),
    ensures
        wf_rows(final(conn)@),
        r matches Ok(_) ==> final(conn)@ == insert_all(old(conn)@, start_urls.deep_view()),
{
    let ghost base = conn@;
    let ghost urls = start_urls.deep_view();
    let mut i: usize = 0;
    proof {
        assert(urls.skip(0) =~~= urls);
    }
    while i < start_urls.len()
        invariant
            wf_rows(conn@),
            i <= start_urls@.len(),
            urls == start_urls.deep_view(),
            urls.len() == start_urls@.len(),
            insert_all(base, urls) == insert_all(conn@, urls.skip(i as int)),
        decreases start_urls@.len() - i,
    {
        proof {
            assert(urls.skip(i as int)[0] == urls[i as int]);
            assert(urls.skip(i as int).skip(1) =~~= urls.skip(i + 1));
            assert(start_urls@[i as int]@ == urls[i as int]);
        }
        match unvisited_page(conn, start_urls[i].as_str()) {
            Ok(_) => {},
            Err(StoreError::DuplicateUrl) => {},
            Err(e) => {
                return Err(e);
            },
        }
        i += 1;
    }
    proof {
        assert(urls.skip(urls.len() as int).len() == 0);
    }
    Ok(())
}

/// Records one worker's fetch outcome for the leased page `id` and, on a
/// successful fetch, enqueues every extracted link: `NotHTML` records the
/// `NOT HTML` sentinel, every other failure records the `ERROR` sentinel,
/// and a validated document records its text and link list. Returns the
/// extracted links. A page is recorded once, whatever the outcome, and
/// never retried.
pub fn record_outcome(
    conn: &mut DatabaseConnection,
    id: i64,
    fetched: Result<Html, HtmlGetterError>,
) -> (r: Result<Vec<String>, StoreError>)
    requires
        wf_rows(old(conn)@),
    ensures
        wf_rows(final(conn)@),
        match r {
            Ok(links) => match fetched {
                Ok(html) => links.deep_view() == spec_extract(html@) && final(conn)@
                    == insert_all(
                    record_at(
                        old(conn)@,
                        id as int,
                        html@,
                        join_with(spec_extract(html@), ":::"@),
                    ),
                    spec_extract(html@),
                ),
                Err(HtmlGetterError::NotHTML) => links@.len() == 0 && final(conn)@ == record_at(
                    old(conn)@,
                    id as int,
                    "NOT HTML"@,
                    Seq::<char>::empty(),
                ),
                Err(_) => links@.len() == 0 && final(conn)@ == record_at(
                    old(conn)@,
                    id as int,
                    "ERROR"@,
                    Seq::<char>::empty(),
                ),
            },
            Err(_) => true,
        },
{
    match fetched {
        Err(e) => {
            let sentinel: &str = match e {
                HtmlGetterError::NotHTML => "NOT HTML",
                _ => "ERROR",
            };
            let ghost pre = conn@;
            match update_to_visited(conn, id, sentinel, Vec::new()) {
                Ok(_) => {
                    proof {
                        lemma_record_at_agrees(
                            pre,
                            id as int,
                            sentinel@,
                            Seq::<Seq<char>>::empty(),
                            conn@,
                        );
                        assert(join_with(Seq::<Seq<char>>::empty(), ":::"@)
                            =~= Seq::<char>::empty());
                    }
                    Ok(Vec::new())
                },
                Err(e2) => Err(e2),
            }
        },
        Ok(html) => {
            let links = get_links(&html);
            let mut refs: Vec<&str> = Vec::new();
            let mut k: usize = 0;
            proof {
                assert(refs.deep_view() =~~= links.deep_view().take(0));
            }
            while k < links.len()
                invariant
                    k <= links@.len(),
                    links.deep_view().len() == links@.len(),
                    refs.deep_view() == links.deep_view().take(k as int),
                decreases links@.len() - k,
            {
                let ghost pre_refs = refs.deep_view();
                refs.push(links[k].as_str());
                proof {
                    assert(refs.deep_view() =~~= pre_refs.push(links.deep_view()[k as int]));
                    assert(links.deep_view().take(k + 1) =~~= links.deep_view().take(
                        k as int,
                    ).push(links.deep_view()[k as int]));
                }
                k += 1;
            }
            proof {
                assert(links.deep_view().take(links@.len() as int) =~~= links.deep_view());
            }
            let ghost pre = conn@;
            match update_to_visited(conn, id, html.text(), refs) {
                Ok(_) => {},
                Err(e2) => {
                    return Err(e2);
                },
            }
            proof {
                lemma_record_at_agrees(pre, id as int, html@, refs.deep_view(), conn@);
            }
            let ghost base = conn@;
            let ghost urls = links.deep_view();
            let mut i: usize = 0;
            proof {
                assert(urls.skip(0) =~~= urls);
            }
            while i < links.len()
                invariant
                    wf_rows(conn@),
                    i <= links@.len(),
                    urls == links.deep_view(),
                    urls.len() == links@.len(),
                    insert_all(base, urls) == insert_all(conn@, urls.skip(i as int)),
                decreases links@.len() - i,
            {
                proof {
                    assert(urls.skip(i as int)[0] == urls[i as int]);
                    assert(urls.skip(i as int).skip(1) =~~= urls.skip(i + 1));
                    assert(links@[i as int]@ == urls[i as int]);
                }
                match unvisited_page(conn, links[i].as_str()) {
                    Ok(_) => {},
                    Err(StoreError::DuplicateUrl) => {},
                    Err(e2) => {
                        return Err(e2);
                    },
                }
                i += 1;
            }
            proof {
                assert(urls.skip(urls.len() as int).len() == 0);
            }
            Ok(links)
        },
    }
}

/// Under a well-formed table, the conditional contract of
/// `update_to_visited` lands exactly on `record_at`.
proof fn lemma_record_at_agrees(
    pre: Seq<PageModel>,
    id: int,
    content: Seq<char>,
    links: Seq<Seq<char>>,
    post: Seq<PageModel>,
)
    requires
        wf_rows(pre),
        forall|i: int|
            0 <= i < pre.len() && (#[trigger] pre[i]).id == id ==> post == pre.update(
                i,
                recorded(pre[i], content, join_with(links, ":::"@)),
            ),
        !has_id(pre, id) ==> post == pre,
    ensures
        post == record_at(pre, id, content, join_with(links, ":::"@)),
{
    if has_id(pre, id) {
        let i = choose|i: int| 0 <= i < pre.len() && pre[i].id == id;
        assert(post == pre.update(i, recorded(pre[i], content, join_with(links, ":::"@))));
    }
}


/// Seeding keeps the frontier non-empty: a url that was not yet stored is
/// inserted unvisited, so right after such an insertion the termination
/// predicate cannot hold.
pub proof fn lemma_seed_opens_frontier(rows: Seq<PageModel>, id: int, url: Seq<char>)
    requires
        !has_url(rows, url),
    ensures
        !crate::page::frontier_empty(rows.push(fresh_row(id, url))),
{
    let out = rows.push(fresh_row(id, url));
    assert(!out[rows.len() as int].visited);
}

} // verus!

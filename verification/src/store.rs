//! The page store: the durable table that is both the crawl frontier and
//! the searchable corpus. The backing relational engine is reached only
//! through the trusted wrappers in this file; everything layered on top of
//! them is verified against the `Seq<PageModel>` model of the table.
//!
//! The table schema is
//! `Ranking(id INTEGER PRIMARY KEY AUTOINCREMENT, visited, url UNIQUE, content, links_to, in_use)`.
//! `AUTOINCREMENT` makes every inserted id one past the largest id ever
//! used (the store never deletes rows), so the model can treat an insert
//! as a push at the end of the id-ordered row sequence.
//!
//! Each `DatabaseConnection` models the table as its own: concurrent
//! workers must share one handle (behind a lock), as the crawl driver
//! does. A second handle opened on the same database sees the rows as
//! they stand when it reads them, but the model does not relate two
//! handles to each other.

use vstd::prelude::*;
use crate::page::{
    first_leasable, fresh_row, frontier_empty, has_id, has_url, inbound_count, leasable,
    lemma_filter_push, lemma_wf_push_fresh, lemma_wf_released_all, lemma_wf_update,
    links_contain, next_id, query_matches, recorded, released_all, row_matches_tokens,
    rows_view, wf_rows, with_in_use, PageModel, Ranking,
};
use crate::text::{chars_of, contains_chars, join_with, split_char_seq, split_tokens};

verus! {

/// The relational engine's connection handle; opaque to the library.
#[verifier::external_type_specification]
#[verifier::external_body]
pub struct ExConnection(rusqlite::Connection);

/// The rows of the page table behind this connection, in id order, as the
/// library's model of the store.
pub uninterp spec fn db_rows(conn: rusqlite::Connection) -> Seq<PageModel>;

/// A failure of the page store.
#[derive(Debug, Clone, Copy, PartialEq, Eq, Structural)]
pub enum StoreError {
    /// The inserted url is already present; frequent and non-fatal.
    DuplicateUrl,
    /// The requested row does not exist.
    NotFound,
    /// The backing medium failed; fatal for the operation.
    StorageFault,
}

/// An open handle to the page store.
#[derive(Debug)]
pub struct DatabaseConnection {
    conn: rusqlite::Connection,
}

impl View for DatabaseConnection {
    type V = Seq<PageModel>;

    closed spec fn view(&self) -> Seq<PageModel> {
        db_rows(self.conn)
    }
}

/// Relies on `rusqlite::Connection::open` and `Connection::execute` with a
/// `CREATE TABLE IF NOT EXISTS` statement: on success the handle serves the
/// page table of the named database. Well-formedness of the rows rests on
/// the schema: `id INTEGER PRIMARY KEY AUTOINCREMENT` (positive, strictly
/// increasing in insertion order, never reused) and `url TEXT UNIQUE`.
#[verifier::external_body]
fn open_db(sqlite_path: &str) -> (r: Result<DatabaseConnection, StoreError>)
    ensures
        r matches Ok(c) ==> wf_rows(db_rows(c.conn)),
{
    let conn = rusqlite::Connection::open(sqlite_path).map_err(|_| StoreError::StorageFault)?;
    conn.execute(
        "CREATE TABLE IF NOT EXISTS Ranking (
            id INTEGER NOT NULL PRIMARY KEY AUTOINCREMENT,
            visited BOOLEAN NOT NULL DEFAULT false CHECK (visited IN (false, true)),
            url TEXT NOT NULL UNIQUE,
            content TEXT,
            links_to TEXT,
            in_use BOOLEAN NOT NULL DEFAULT false CHECK (in_use IN (false, true)));",
        (),
    ).map_err(|_| StoreError::StorageFault)?;
    Ok(DatabaseConnection { conn })
}

/// Relies on `rusqlite::Connection::execute` with `UPDATE Ranking SET
/// in_use = false`: every row's lease flag is cleared and the affected row
/// count is returned; a single SQL statement either applies or leaves the
/// table unchanged.
#[verifier::external_body]
pub fn reset_in_use(conn: &mut DatabaseConnection) -> (r: Result<usize, StoreError>)
    ensures
        match r {
            Ok(n) => final(conn)@ == released_all(old(conn)@) && n == old(conn)@.len(),
            Err(_) => final(conn)@ == old(conn)@,
        },
{
    conn.conn
        .execute("UPDATE Ranking SET in_use = false;", ())
        .map_err(|_| StoreError::StorageFault)
}

/// Relies on `rusqlite::Connection::prepare` and `Statement::insert` with
/// `INSERT INTO Ranking (url) VALUES (?)`: on success the returned rowid
/// names a new row holding only the url, with every other column at its
/// schema default, appended with the next `AUTOINCREMENT` id; a `UNIQUE`
/// violation reports the duplicate and changes nothing; any other failure
/// leaves the single statement rolled back.
#[verifier::external_body]
fn insert_row(conn: &mut DatabaseConnection, url: &str) -> (r: Result<i64, StoreError>)
    ensures
        match r {
            Ok(id) => !has_url(old(conn)@, url@) && id == next_id(old(conn)@) && final(conn)@
                == old(conn)@.push(fresh_row(id as int, url@)),
            Err(StoreError::DuplicateUrl) => has_url(old(conn)@, url@) && final(conn)@ == old(
                conn,
            )@,
            Err(_) => final(conn)@ == old(conn)@,
        },
{
    let sql = "INSERT INTO Ranking (url) VALUES (?);";
    let mut stmt = conn.conn.prepare(sql).map_err(|_| StoreError::StorageFault)?;
    stmt.insert([url]).map_err(|e| {
        if e.sqlite_error_code() == Some(rusqlite::ErrorCode::ConstraintViolation) {
            StoreError::DuplicateUrl
        } else {
            StoreError::StorageFault
        }
    })
}

/// Relies on `rusqlite::Connection::prepare` and `Statement::query_row`
/// with the single atomic statement `UPDATE Ranking SET in_use = true WHERE
/// id = (SELECT id FROM Ranking WHERE in_use = false AND visited = false
/// ORDER BY id LIMIT 1) RETURNING id, url`: selecting the candidate and
/// marking it leased are one statement, so no second caller can see the row
/// unleased in between. No returned row means no row satisfied the
/// predicate.
#[verifier::external_body]
pub(crate) fn lease_row(conn: &mut DatabaseConnection) -> (r: Result<Option<(i64, String)>, StoreError>)
    ensures
        match r {
            Ok(Some((id, url))) => exists|i: int|
                #![auto]
                first_leasable(old(conn)@, i) && old(conn)@[i].id == id && old(conn)@[i].url
                    == url@ && final(conn)@ == old(conn)@.update(
                    i,
                    with_in_use(old(conn)@[i], true),
                ),
            Ok(None) => (forall|i: int| !leasable(old(conn)@, i)) && final(conn)@ == old(conn)@,
            Err(_) => final(conn)@ == old(conn)@,
        },
{
    let sql = "UPDATE Ranking SET in_use = true WHERE id = (SELECT id FROM Ranking \
         WHERE in_use = false AND visited = false ORDER BY id LIMIT 1) RETURNING id, url;";
    let mut stmt = conn.conn.prepare(sql).map_err(|_| StoreError::StorageFault)?;
    match stmt.query_row((), |row| Ok((row.get(0)?, row.get(1)?))) {
        Ok(pair) => Ok(Some(pair)),
        Err(rusqlite::Error::QueryReturnedNoRows) => Ok(None),
        Err(_) => Err(StoreError::StorageFault),
    }
}

/// Relies on `rusqlite::Connection::prepare` and `Statement::execute` with
/// `UPDATE Ranking SET in_use = ? WHERE id = ?`: the row with that id, if
/// any, gets the given lease flag and nothing else changes.
#[verifier::external_body]
fn set_in_use_row(conn: &mut DatabaseConnection, id: i64, state: bool) -> (r: Result<
    (),
    StoreError,
>)
    ensures
        match r {
            Ok(_) => (forall|i: int|
                0 <= i < old(conn)@.len() && (#[trigger] old(conn)@[i]).id == id ==> final(conn)@
                    == old(conn)@.update(i, with_in_use(old(conn)@[i], state))) && (!has_id(
                old(conn)@,
                id as int,
            ) ==> final(conn)@ == old(conn)@),
            Err(_) => final(conn)@ == old(conn)@,
        },
{
    let sql = "UPDATE Ranking SET in_use = ?1 WHERE id = ?2;";
    let mut stmt = conn.conn.prepare(sql).map_err(|_| StoreError::StorageFault)?;
    stmt.execute((state, id)).map(|_| ()).map_err(|_| StoreError::StorageFault)
}

/// Relies on `rusqlite::Connection::execute` with `UPDATE Ranking SET
/// visited = true, content = ?, links_to = ? WHERE id = ?`: the row with
/// that id, if any, is marked visited and gets the given content and link
/// list; nothing else changes.
#[verifier::external_body]
fn update_visited_row(
    conn: &mut DatabaseConnection,
    id: i64,
    content: &str,
    links: &str,
) -> (r: Result<(), StoreError>)
    ensures
        match r {
            Ok(_) => (forall|i: int|
                0 <= i < old(conn)@.len() && (#[trigger] old(conn)@[i]).id == id ==> final(conn)@
                    == old(conn)@.update(i, recorded(old(conn)@[i], content@, links@))) && (
            !has_id(old(conn)@, id as int) ==> final(conn)@ == old(conn)@),
            Err(_) => final(conn)@ == old(conn)@,
        },
{
    match conn.conn.execute(
        "UPDATE Ranking SET visited = true, content = ?1, links_to = ?2 WHERE id = ?3;",
        (content, links, id),
    ) {
        Ok(_) => Ok(()),
        Err(_) => Err(StoreError::StorageFault),
    }
}

/// Relies on `rusqlite::Connection::prepare` and `Statement::query_map`
/// with `SELECT id, visited, url, content, links_to, in_use FROM Ranking
/// ORDER BY id`: every row of the table, converted column by column, in id
/// order — which is the model's order.
#[verifier::external_body]
fn select_rows(conn: &DatabaseConnection) -> (r: Result<Vec<Ranking>, StoreError>)
    ensures
        r matches Ok(v) ==> rows_view(v@) == conn@,
        r matches Err(e) ==> e == StoreError::StorageFault,
{
    let sql = "SELECT id, visited, url, content, links_to, in_use FROM Ranking ORDER BY id;";
    let mut stmt = conn.conn.prepare(sql).map_err(|_| StoreError::StorageFault)?;
    let rows = stmt.query_map((), |row| {
        Ok(Ranking {
            id: row.get(0)?, visited: row.get(1)?, url: row.get(2)?,
            content: row.get(3)?, links_to: row.get(4)?, in_use: row.get(5)?,
        })
    });
    match rows {
        Ok(it) => it.collect::<Result<Vec<Ranking>, _>>().map_err(|_| StoreError::StorageFault),
        Err(_) => Err(StoreError::StorageFault),
    }
}

/// Opens (or creates) the store at `sqlite_path` and clears every lease
/// flag, so that rows left claimed by an unclean shutdown become leasable
/// again.
pub fn create_default_tables(sqlite_path: &str) -> (r: Result<DatabaseConnection, StoreError>)
    ensures
        r matches Ok(c) ==> wf_rows(c@) && (forall|i: int|
            0 <= i < c@.len() ==> !(#[trigger] c@[i]).in_use),
{
    let mut c = match open_db(sqlite_path) {
        Ok(c) => c,
        Err(e) => return Err(e),
    };
    let ghost pre = c@;
    match reset_in_use(&mut c) {
        Ok(_) => {
            proof {
                lemma_wf_released_all(pre);
            }
            Ok(c)
        },
        Err(_) => Err(StoreError::StorageFault),
    }
}


/// Creates the row for a newly discovered page: unvisited, unleased, with
/// a fresh id. A url already present is reported as `DuplicateUrl` and
/// changes nothing; callers treat that as a normal, ignorable outcome.
pub fn unvisited_page(conn: &mut DatabaseConnection, url: &str) -> (r: Result<i64, StoreError>)
    requires
        wf_rows(old(conn)@),
    ensures
        wf_rows(final(conn)@),
        match r {
            Ok(id) => !has_url(old(conn)@, url@) && id == next_id(old(conn)@) && final(conn)@
                == old(conn)@.push(fresh_row(id as int, url@)),
            Err(StoreError::DuplicateUrl) => has_url(old(conn)@, url@) && final(conn)@ == old(
                conn,
            )@,
            Err(_) => final(conn)@ == old(conn)@,
        },
{
    let ghost pre = conn@;
    let r = insert_row(conn, url);
    proof {
        if let Ok(id) = r {
            lemma_wf_push_fresh(pre, url@);
        }
    }
    r
}

/// Sets or clears the lease flag of the row with the given id; a missing
/// id changes nothing. Returns the id back on success.
pub fn set_in_use(conn: &mut DatabaseConnection, id: i64, state: bool) -> (r: Result<
    i64,
    StoreError,
>)
    requires
        wf_rows(old(conn)@),
    ensures
        wf_rows(final(conn)@),
        match r {
            Ok(rid) => rid == id && (forall|i: int|
                0 <= i < old(conn)@.len() && (#[trigger] old(conn)@[i]).id == id ==> final(conn)@
                    == old(conn)@.update(i, with_in_use(old(conn)@[i], state))) && (!has_id(
                old(conn)@,
                id as int,
            ) ==> final(conn)@ == old(conn)@),
            Err(_) => final(conn)@ == old(conn)@,
        },
{
    let ghost pre = conn@;
    match set_in_use_row(conn, id, state) {
        Ok(_) => {
            proof {
                if has_id(pre, id as int) {
                    let i = choose|i: int| 0 <= i < pre.len() && pre[i].id == id;
                    assert(conn@ == pre.update(i, with_in_use(pre[i], state)));
                    lemma_wf_update(pre, i, with_in_use(pre[i], state));
                }
            }
            Ok(id)
        },
        Err(e) => Err(e),
    }
}

/// Marks the row with the given id visited and records the fetched content
/// together with the outbound links, joined with the `:::` delimiter; a
/// missing id changes nothing. Returns the id back on success.
pub fn update_to_visited(
    conn: &mut DatabaseConnection,
    id: i64,
    content: &str,
    links_to: Vec<&str>,
) -> (r: Result<i64, StoreError>)
    requires
        wf_rows(old(conn)@),
    ensures
        wf_rows(final(conn)@),
        match r {
            Ok(rid) => rid == id && (forall|i: int|
                0 <= i < old(conn)@.len() && (#[trigger] old(conn)@[i]).id == id ==> final(conn)@
                    == old(conn)@.update(
                    i,
                    recorded(old(conn)@[i], content@, join_with(links_to.deep_view(), ":::"@)),
                )) && (!has_id(old(conn)@, id as int) ==> final(conn)@ == old(conn)@),
            Err(_) => final(conn)@ == old(conn)@,
        },
{
    let ghost pre = conn@;
    let joined = crate::text::join_str(&links_to, ":::");
    match update_visited_row(conn, id, content, joined.as_str()) {
        Ok(_) => {
            proof {
                if has_id(pre, id as int) {
                    let i = choose|i: int| 0 <= i < pre.len() && pre[i].id == id;
                    assert(conn@ == pre.update(
                        i,
                        recorded(pre[i], content@, join_with(links_to.deep_view(), ":::"@)),
                    ));
                    lemma_wf_update(
                        pre,
                        i,
                        recorded(pre[i], content@, join_with(links_to.deep_view(), ":::"@)),
                    );
                }
            }
            Ok(id)
        },
        Err(e) => Err(e),
    }
}

/// True exactly when every stored page has been visited: the crawl's
/// global termination predicate.
pub fn is_finished(conn: &DatabaseConnection) -> (r: Result<bool, StoreError>)
    ensures
        r matches Ok(b) ==> b == frontier_empty(conn@),
{
    let rows = select_rows(conn)?;
    let mut i: usize = 0;
    while i < rows.len()
        invariant
            i <= rows@.len(),
            rows_view(rows@) == conn@,
            forall|j: int| 0 <= j < i ==> (#[trigger] conn@[j]).visited,
        decreases rows@.len() - i,
    {
        if !rows[i].visited {
            assert(!conn@[i as int].visited);
            return Ok(false);
        }
        i += 1;
    }
    Ok(true)
}

/// Every stored row, in id order.
pub fn get_values(conn: &DatabaseConnection) -> (r: Result<Vec<Ranking>, StoreError>)
    ensures
        r matches Ok(v) ==> rows_view(v@) == conn@,
{
    select_rows(conn)
}


/// All rows whose url or content contains at least one space-separated
/// token of `search_value` as a (case-sensitive) substring, in id order.
pub fn find(conn: &DatabaseConnection, search_value: &str) -> (r: Result<Vec<Ranking>, StoreError>)
    ensures
        r matches Ok(v) ==> rows_view(v@) == conn@.filter(
            (|p: PageModel| query_matches(p, split_char_seq(search_value@, ' '))),
        ),
{
    let query = chars_of(search_value);
    let tokens = split_tokens(&query, ' ');
    let rows = select_rows(conn)?;
    let ghost pred = (|p: PageModel| query_matches(p, split_char_seq(search_value@, ' ')));
    let mut out: Vec<Ranking> = Vec::new();
    let mut i: usize = 0;
    proof {
        assert(conn@.take(0) =~= Seq::<PageModel>::empty());
        assert(Seq::<PageModel>::empty().filter(pred) =~= Seq::<PageModel>::empty());
        assert(rows_view(out@) =~= Seq::<PageModel>::empty());
    }
    while i < rows.len()
        invariant
            i <= rows@.len(),
            rows_view(rows@) == conn@,
            tokens.deep_view() == split_char_seq(search_value@, ' '),
            pred == (|p: PageModel| query_matches(p, split_char_seq(search_value@, ' '))),
            rows_view(out@) == conn@.take(i as int).filter(pred),
        decreases rows@.len() - i,
    {
        let ghost pre = rows_view(out@);
        let matched = row_matches_tokens(&rows[i], &tokens);
        if matched {
            out.push(rows[i].clone());
            proof {
                assert(rows[i as int]@ == conn@[i as int]);
                assert(rows_view(out@) =~= pre.push(conn@[i as int]));
            }
        }
        proof {
            assert(conn@.take(i + 1) =~= conn@.take(i as int).push(conn@[i as int]));
            lemma_filter_push(conn@.take(i as int), pred, conn@[i as int]);
            assert(pred(conn@[i as int]) == matched);
        }
        i += 1;
    }
    proof {
        assert(conn@.take(conn@.len() as int) =~= conn@);
    }
    Ok(out)
}

/// How many stored pages link to the page with the given id: the number of
/// rows whose recorded link list contains that page's url as a substring.
pub fn calculate_links_from(conn: &DatabaseConnection, id: i64) -> (r: Result<usize, StoreError>)
    ensures
        match r {
            Ok(n) => exists|i: int|
                0 <= i < conn@.len() && (#[trigger] conn@[i]).id == id && n == inbound_count(
                    conn@,
                    conn@[i].url,
                ),
            Err(StoreError::NotFound) => !has_id(conn@, id as int),
            Err(_) => true,
        },
{
    let rows = match select_rows(conn) {
        Ok(v) => v,
        Err(e) => return Err(e),
    };
    let mut k: usize = 0;
    let mut url: Option<&String> = None;
    let ghost mut at: int = 0;
    while k < rows.len()
        invariant
            k <= rows@.len(),
            rows_view(rows@) == conn@,
            match url {
                Some(u) => 0 <= at < conn@.len() && conn@[at].id == id && u@ == conn@[at].url,
                None => forall|j: int| 0 <= j < k ==> (#[trigger] conn@[j]).id != id,
            },
        decreases rows@.len() - k,
    {
        if url.is_none() && rows[k].id == id {
            url = Some(&rows[k].url);
            proof {
                at = k as int;
            }
        }
        k += 1;
    }
    let target = match url {
        Some(u) => u,
        None => {
            return Err(StoreError::NotFound);
        },
    };
    let target_chars = chars_of(target.as_str());
    let ghost pred = (|p: PageModel| links_contain(p, conn@[at].url));
    let mut count: usize = 0;
    let mut i: usize = 0;
    proof {
        assert(conn@.take(0) =~= Seq::<PageModel>::empty());
        assert(Seq::<PageModel>::empty().filter(pred) =~= Seq::<PageModel>::empty());
    }
    while i < rows.len()
        invariant
            i <= rows@.len(),
            rows_view(rows@) == conn@,
            0 <= at < conn@.len(),
            target_chars@ == conn@[at].url,
            pred == (|p: PageModel| links_contain(p, conn@[at].url)),
            count <= i,
            count == conn@.take(i as int).filter(pred).len(),
        decreases rows@.len() - i,
    {
        let hit = match &rows[i].links_to {
            Some(l) => {
                let l_chars = chars_of(l.as_str());
                contains_chars(&l_chars, &target_chars)
            },
            None => false,
        };
        proof {
            assert(rows[i as int]@ == conn@[i as int]);
            assert(hit == pred(conn@[i as int]));
            assert(conn@.take(i + 1) =~= conn@.take(i as int).push(conn@[i as int]));
            lemma_filter_push(conn@.take(i as int), pred, conn@[i as int]);
        }
        if hit {
            count += 1;
        }
        i += 1;
    }
    proof {
        assert(conn@.take(conn@.len() as int) =~= conn@);
    }
    Ok(count)
}

} // verus!

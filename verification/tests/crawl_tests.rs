use guugle::crawl::{get_new_link, insert_seeds, record_outcome, ToVisit, Visited};
use guugle::scrape::{Html, HtmlGetterError};
use guugle::store::{
    create_default_tables, get_values, is_finished, set_in_use, unvisited_page,
    update_to_visited, DatabaseConnection,
};

fn fresh_store() -> DatabaseConnection {
    create_default_tables(":memory:").unwrap()
}

#[test]
fn db_manager_get_new_link_test() {
    let mut conn = fresh_store();
    for url in ["test.ch", "help.ch", "lp.ch", "ep.ch", "p.ch"] {
        unvisited_page(&mut conn, url).unwrap();
    }
    set_in_use(&mut conn, 1, true).unwrap();
    update_to_visited(&mut conn, 3, "", vec![]).unwrap();
    update_to_visited(&mut conn, 5, "", vec![]).unwrap();

    let link = get_new_link(&mut conn).unwrap();
    assert_eq!(link.url, "help.ch");
}

#[test]
fn selecting_get_new_link_test() {
    let mut conn = fresh_store();
    for url in ["test.ch", "help.ch", "lp.ch", "ep.ch", "p.ch"] {
        unvisited_page(&mut conn, url).unwrap();
    }
    set_in_use(&mut conn, 1, true).unwrap();
    update_to_visited(&mut conn, 3, "", vec![]).unwrap();
    update_to_visited(&mut conn, 5, "", vec![]).unwrap();

    let link = get_new_link(&mut conn).unwrap();
    assert_eq!(link.url, "help.ch");
}

#[test]
fn lease_exclusivity() {
    let mut conn = fresh_store();
    unvisited_page(&mut conn, "a.ch").unwrap();
    unvisited_page(&mut conn, "b.ch").unwrap();

    let first = get_new_link(&mut conn).unwrap();
    let second = get_new_link(&mut conn).unwrap();

    assert_ne!(first.id, second.id);
    assert_eq!(first.url, "a.ch");
    assert_eq!(second.url, "b.ch");

    let third = get_new_link(&mut conn);
    assert!(third.is_none());

    set_in_use(&mut conn, first.id, false).unwrap();
    let fourth = get_new_link(&mut conn).unwrap();
    assert_eq!(fourth.id, first.id);
}

#[test]
fn lease_handle_marks_row() {
    let mut conn = fresh_store();
    let id = unvisited_page(&mut conn, "a.ch").unwrap();

    let handle = ToVisit::new("a.ch", id, &mut conn).unwrap();
    assert_eq!(handle.id, id);
    let rows = get_values(&conn).unwrap();
    assert!(rows[0].in_use);

    set_in_use(&mut conn, handle.id, false).unwrap();
    let rows = get_values(&conn).unwrap();
    assert!(!rows[0].in_use);

    let _done = Visited::new(handle);
}

#[test]
fn seeds_inserted_once() {
    let mut conn = fresh_store();
    let seeds = vec![
        "http://example.com/".to_string(),
        "https://team-crystal.ch".to_string(),
        "http://example.com/".to_string(),
    ];

    insert_seeds(&mut conn, &seeds).unwrap();

    let rows = get_values(&conn).unwrap();
    assert_eq!(rows.len(), 2);
    assert_eq!(rows[0].url, "http://example.com/");
    assert_eq!(rows[1].url, "https://team-crystal.ch");
    assert!(rows.iter().all(|r| !r.visited && !r.in_use));
}

#[test]
fn record_failure_marks_error() {
    let mut conn = fresh_store();
    let id = unvisited_page(&mut conn, "down.ch").unwrap();

    let links = record_outcome(&mut conn, id, Err(HtmlGetterError::GetError)).unwrap();

    assert!(links.is_empty());
    let rows = get_values(&conn).unwrap();
    assert!(rows[0].visited);
    assert_eq!(rows[0].content.as_deref(), Some("ERROR"));
    assert_eq!(rows[0].links_to.as_deref(), Some(""));
}

#[test]
fn record_not_html_marks_sentinel() {
    let mut conn = fresh_store();
    let id = unvisited_page(&mut conn, "plain.ch").unwrap();

    let links = record_outcome(&mut conn, id, Err(HtmlGetterError::NotHTML)).unwrap();

    assert!(links.is_empty());
    let rows = get_values(&conn).unwrap();
    assert_eq!(rows[0].content.as_deref(), Some("NOT HTML"));
}

#[test]
fn record_success_stores_and_enqueues() {
    let mut conn = fresh_store();
    let id = unvisited_page(&mut conn, "start.ch").unwrap();
    let body = "<!doctype html><a href=\"a.ch\"></a><a href=\"start.ch\"></a><a href=\"a.ch\"></a>";

    let links = record_outcome(&mut conn, id, Ok(Html::new(body))).unwrap();

    assert_eq!(links, vec!["a.ch".to_string(), "start.ch".to_string(), "a.ch".to_string()]);
    let rows = get_values(&conn).unwrap();
    assert_eq!(rows.len(), 2);
    assert_eq!(rows[0].url, "start.ch");
    assert!(rows[0].visited);
    assert_eq!(rows[0].content.as_deref(), Some(body));
    assert_eq!(rows[0].links_to.as_deref(), Some("a.ch:::start.ch:::a.ch"));
    assert_eq!(rows[1].url, "a.ch");
    assert!(!rows[1].visited);
}

#[test]
fn frontier_empties_and_stays_empty() {
    let mut conn = fresh_store();
    let seeds = vec!["a.ch".to_string(), "b.ch".to_string()];
    insert_seeds(&mut conn, &seeds).unwrap();
    assert!(!is_finished(&conn).unwrap());

    let first = get_new_link(&mut conn).unwrap();
    record_outcome(&mut conn, first.id, Err(HtmlGetterError::GetError)).unwrap();
    set_in_use(&mut conn, first.id, false).unwrap();
    assert!(!is_finished(&conn).unwrap());

    let second = get_new_link(&mut conn).unwrap();
    record_outcome(&mut conn, second.id, Err(HtmlGetterError::NotHTML)).unwrap();
    set_in_use(&mut conn, second.id, false).unwrap();

    assert!(is_finished(&conn).unwrap());
    assert!(get_new_link(&mut conn).is_none());
    assert!(is_finished(&conn).unwrap());
}

use guugle::page::Ranking;
use guugle::store::{
    calculate_links_from, create_default_tables, find, get_values, is_finished, set_in_use,
    unvisited_page, update_to_visited, DatabaseConnection, StoreError,
};

/// A fresh in-memory store.
fn fresh_store() -> DatabaseConnection {
    create_default_tables(":memory:").unwrap()
}

/// A fresh on-disk store at a unique path, for tests that reopen it.
fn fresh_path() -> String {
    format!("/tmp/{}.db3", uuid::Uuid::new_v4())
}

/// The six standard rows used across the store and ranking tests.
fn gen_vals(conn: &mut DatabaseConnection) {
    let rows: [(&str, &str, &str); 6] = [
        (
            "test.ch",
            "team-crystal.ch:::google.ch:::example.com",
            "team-crystal.ch:::google.ch:::example.com",
        ),
        (
            "help.ch",
            "team-crystal.ch:::google.ch:::test.ch",
            "team-crystal.ch:::google.ch:::test.ch",
        ),
        ("p.ch", "help.ch", "help.ch"),
        ("ep.ch", "team-crystal.ch:::help.ch", "team-crystal.ch::help.ch"),
        ("lp.ch", "help.ch:::google.ch", "help.ch:::google.ch"),
        (
            "hre.he",
            "test.ch:::lp.ch",
            "<html><body><h1>
            Laborum nulla quis deserunt labore quis cupidatat reprehenderit amet consequat reprehenderit tempor anim sint amet. Eiusmod fugiat eu aliqua qui do proident adipisicing. Dolore esse laborum voluptate in qui in ex. Sunt exercitation sit dolore cillum. Nostrud non aliqua sit anim aliqua labore Lorem quis nostrud. Exercitation ex nulla in laborum eu non voluptate consectetur.
            Incididunt anim voluptate aliqua et commodo cillum. Adipisicing fugiat ea consectetur cupidatat quis velit duis. Ad fugiat id quis proident qui mollit eu fugiat exercitation. Consectetur velit tempor esse reprehenderit laboris ea labore consectetur ut irure cupidatat in mollit. Dolore consequat amet id ipsum deserunt in eiusmod. Sunt excepteur eu eiusmod voluptate est mollit elit sunt laboris nostrud. Culpa non ea ad ex veniam et aute.

            Tempor enim non laborum enim ut duis laborum. Dolore nisi dolor Lorem anim occaecat non eu tempor incididunt. Consectetur aliquip reprehenderit fugiat magna. Est voluptate nisi id voluptate est cupidatat incididunt. Aute est qui mollit quis commodo irure ut eu ipsum sit ex cupidatat est adipisicing. Amet qui do cillum duis ad. Voluptate anim ipsum mollit sint incididunt.

            Eu nisi eu quis anim tempor fugiat deserunt est deserunt nulla ad do. Ipsum pariatur enim eiusmod minim cupidatat esse excepteur nostrud proident officia Lorem laboris esse. Excepteur reprehenderit anim duis exercitation labore nisi aliquip duis do. Id eiusmod dolore ex nulla nulla.
            </h1></body></html>",
        ),
    ];
    for (url, links, content) in rows {
        let id = unvisited_page(conn, url).unwrap();
        let links: Vec<&str> = links.split(":::").collect();
        update_to_visited(conn, id, content, links).unwrap();
    }
}

#[test]
fn db_manager_file_created() {
    let path = fresh_path();

    let test_result = create_default_tables(&path);

    assert!(std::path::Path::new(&path).exists());
    assert!(test_result.is_ok());
}

#[test]
fn db_manager_table_created() {
    let path = fresh_path();

    create_default_tables(&path).unwrap();

    let conn = create_default_tables(&path).unwrap();

    let result = get_values(&conn);

    result.unwrap();
}

#[test]
fn creation_file_created() {
    let path = fresh_path();

    let test_result = create_default_tables(&path);

    assert!(std::path::Path::new(&path).exists());
    assert!(test_result.is_ok());
}

#[test]
fn creation_table_created() {
    let path = fresh_path();

    create_default_tables(&path).unwrap();

    let conn = create_default_tables(&path).unwrap();

    get_values(&conn).unwrap();
}

#[test]
fn unvisited_created() {
    const WORD: &str = "kampfwort90.ch";
    let mut conn = fresh_store();
    gen_vals(&mut conn);

    let id = unvisited_page(&mut conn, WORD).unwrap();

    let rows = get_values(&conn).unwrap();
    let row = rows.iter().find(|r| r.id == id).unwrap();
    assert_eq!(row.url, WORD);
    assert!(!row.visited);
    assert!(!row.in_use);
}

fn insert_link_rows(conn: &mut DatabaseConnection) {
    let rows: [(&str, &str); 5] = [
        ("test.ch", "team-crystal.ch:::google.ch:::example.com"),
        ("help.ch", "team-crystal.ch:::google.ch:::test.ch"),
        ("lp.ch", "help.ch"),
        ("ep.ch", "team-crystal.ch:::help.ch"),
        ("l.ch", "help.ch:::google.ch"),
    ];
    for (url, links) in rows {
        let id = unvisited_page(conn, url).unwrap();
        let links: Vec<&str> = links.split(":::").collect();
        update_to_visited(conn, id, "", links).unwrap();
    }
}

#[test]
fn db_manager_calculates_links() {
    let mut conn = fresh_store();
    insert_link_rows(&mut conn);

    let test_result1 = calculate_links_from(&conn, 2).unwrap();
    let test_result2 = calculate_links_from(&conn, 1).unwrap();

    assert_eq!(test_result1, 3);
    assert_eq!(test_result2, 1);
}

#[test]
fn selecting_calculates_links() {
    let mut conn = fresh_store();
    insert_link_rows(&mut conn);

    let test_result1 = calculate_links_from(&conn, 2).unwrap();
    let test_result2 = calculate_links_from(&conn, 1).unwrap();

    assert_eq!(test_result1, 3);
    assert_eq!(test_result2, 1);
}

#[test]
fn db_manager_test_update_to_visited() {
    let mut conn = fresh_store();
    for url in ["test.ch", "help.ch", "p.ch", "ep.ch", "lp.ch"] {
        unvisited_page(&mut conn, url).unwrap();
    }

    let content = r#"
            <!doctype html>
                <html>
                <head>
                    <title>Example Domain</title>
                </head>
                <body>
                <div>
                    <h1>Example Domain</h1>
                    <p><a href="https://www.iana.org/domains/example">More information...</a></p>
                </div>
                </body>
                </html>
        "#;

    update_to_visited(&mut conn, 1, content, vec!["ep.ch", "lp.ch"]).unwrap();

    let rows = get_values(&conn).unwrap();
    let row = rows.iter().find(|r| r.id == 1).unwrap();
    assert!(row.visited);
    assert_eq!(row.content.as_deref(), Some(content));
    assert_eq!(row.links_to.as_deref(), Some("ep.ch:::lp.ch"));
}

#[test]
fn updating_test_update_to_visited() {
    let mut conn = fresh_store();
    for url in ["test.ch", "help.ch", "p.ch", "ep.ch", "lp.ch"] {
        unvisited_page(&mut conn, url).unwrap();
    }

    update_to_visited(&mut conn, 1, "body", vec!["ep.ch", "lp.ch"]).unwrap();

    let rows = get_values(&conn).unwrap();
    let row = rows.iter().find(|r| r.id == 1).unwrap();
    assert!(row.visited);
    assert_eq!(row.content.as_deref(), Some("body"));
    assert_eq!(row.links_to.as_deref(), Some("ep.ch:::lp.ch"));
}

#[test]
fn updating_clear_in_use() {
    let path = fresh_path();
    let mut conn = create_default_tables(&path).unwrap();
    for url in ["test.ch", "help.ch", "p.ch", "ep.ch", "lp.ch"] {
        let id = unvisited_page(&mut conn, url).unwrap();
        set_in_use(&mut conn, id, true).unwrap();
    }

    let reopened = create_default_tables(&path).unwrap();

    let rows = get_values(&reopened).unwrap();
    assert_eq!(rows.len(), 5);
    assert_eq!(rows.iter().filter(|r| r.in_use).count(), 0);
}

#[test]
fn db_manager_clear_in_use() {
    let mut conn = fresh_store();
    for url in ["test.ch", "help.ch", "p.ch", "ep.ch", "lp.ch"] {
        let id = unvisited_page(&mut conn, url).unwrap();
        set_in_use(&mut conn, id, true).unwrap();
    }

    let rows = get_values(&conn).unwrap();
    let count = rows.iter().filter(|r| r.in_use).count();

    assert_eq!(count, 5);
}

#[test]
fn db_manager_set_in_use_test() {
    let mut conn = fresh_store();
    gen_vals(&mut conn);

    let rows = get_values(&conn).unwrap();
    assert!(!rows.iter().find(|r| r.id == 3).unwrap().in_use);

    set_in_use(&mut conn, 3, true).unwrap();

    let rows = get_values(&conn).unwrap();
    assert!(rows.iter().find(|r| r.id == 3).unwrap().in_use);
}

#[test]
fn updating_set_in_use_test() {
    let mut conn = fresh_store();
    gen_vals(&mut conn);

    let rows = get_values(&conn).unwrap();
    assert!(!rows.iter().find(|r| r.id == 3).unwrap().in_use);

    set_in_use(&mut conn, 3, true).unwrap();

    let rows = get_values(&conn).unwrap();
    assert!(rows.iter().find(|r| r.id == 3).unwrap().in_use);
}

#[test]
fn db_manager_search_function_test() {
    let mut conn = fresh_store();
    gen_vals(&mut conn);

    let test_results = find(&conn, "crystal").unwrap();

    assert_eq!(test_results.len(), 3);
    assert_eq!(test_results[0].id, 1);
    assert_eq!(test_results[1].id, 2);
    assert_eq!(test_results[2].id, 4);
}

#[test]
fn selecting_search_function_test() {
    let mut conn = fresh_store();
    gen_vals(&mut conn);

    let test_results = find(&conn, "crystal").unwrap();

    assert_eq!(test_results.len(), 3);
    assert_eq!(test_results[0].id, 1);
    assert_eq!(test_results[1].id, 2);
    assert_eq!(test_results[2].id, 4);
}

#[test]
fn get_values_test() {
    let mut conn = fresh_store();
    gen_vals(&mut conn);

    let vals = get_values(&conn).unwrap();

    let correct_vals: [(i64, &str, &str, &str); 6] = [
        (
            1,
            "test.ch",
            "team-crystal.ch:::google.ch:::example.com",
            "team-crystal.ch:::google.ch:::example.com",
        ),
        (
            2,
            "help.ch",
            "team-crystal.ch:::google.ch:::test.ch",
            "team-crystal.ch:::google.ch:::test.ch",
        ),
        (3, "p.ch", "help.ch", "help.ch"),
        (4, "ep.ch", "team-crystal.ch:::help.ch", "team-crystal.ch::help.ch"),
        (5, "lp.ch", "help.ch:::google.ch", "help.ch:::google.ch"),
        (6, "hre.he", "test.ch:::lp.ch", ""),
    ];

    assert_eq!(vals.len(), 6);
    for (row, (id, url, links, content)) in vals.iter().zip(correct_vals.iter()) {
        assert_eq!(row.id, *id);
        assert_eq!(row.url, *url);
        assert_eq!(row.links_to.as_deref(), Some(*links));
        assert!(row.visited);
        assert!(!row.in_use);
        if !content.is_empty() {
            assert_eq!(row.content.as_deref(), Some(*content));
        } else {
            assert!(row.content.as_deref().unwrap().contains("Laborum nulla"));
        }
    }
}

#[test]
fn duplicate_insert_reports_and_keeps_store() {
    let mut conn = fresh_store();

    let first = unvisited_page(&mut conn, "example.com").unwrap();
    let second = unvisited_page(&mut conn, "example.com");

    assert!(matches!(second, Err(StoreError::DuplicateUrl)));
    let rows: Vec<Ranking> = get_values(&conn).unwrap();
    assert_eq!(rows.len(), 1);
    assert_eq!(rows[0].id, first);
    assert_eq!(rows[0].url, "example.com");
}

#[test]
fn db_manager_is_finished_false() {
    let mut conn = fresh_store();
    for url in ["test.ch", "help.ch", "p.ch", "ep.ch", "lp.ch"] {
        unvisited_page(&mut conn, url).unwrap();
    }
    update_to_visited(&mut conn, 3, "", vec![]).unwrap();

    let result = is_finished(&conn).unwrap();

    assert!(!result)
}

#[test]
fn selecting_is_finished_false() {
    let mut conn = fresh_store();
    for url in ["test.ch", "help.ch"] {
        unvisited_page(&mut conn, url).unwrap();
    }

    let result = is_finished(&conn).unwrap();

    assert!(!result)
}

#[test]
fn db_manager_is_finished_true() {
    let mut conn = fresh_store();
    gen_vals(&mut conn);

    let result = is_finished(&conn).unwrap();

    assert!(result)
}

#[test]
fn selecting_is_finished_true() {
    let mut conn = fresh_store();
    gen_vals(&mut conn);

    let result = is_finished(&conn).unwrap();

    assert!(result)
}

#[test]
fn missing_id_is_not_found() {
    let conn = fresh_store();

    let err = calculate_links_from(&conn, 42).unwrap_err();

    assert!(matches!(err, StoreError::NotFound));
}

#[test]
fn unopenable_path_is_storage_fault() {
    let err = create_default_tables("/nonexistent-dir/x/y.db3").unwrap_err();

    assert!(matches!(err, StoreError::StorageFault));
}

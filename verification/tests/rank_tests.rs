use guugle::rank::{compute_rank, compute_search_word_appearance, rank_pages};
use guugle::store::{create_default_tables, unvisited_page, update_to_visited, DatabaseConnection};

fn fresh_store() -> DatabaseConnection {
    create_default_tables(":memory:").unwrap()
}

fn gen_vals(conn: &mut DatabaseConnection) {
    let rows: [(&str, &str, &str); 6] = [
        (
            "test.ch",
            "team-crystal.ch:::google.ch:::example.com",
            "team-crystal.ch:::google.ch:::example.com",
        ),
        (
            "help.ch",
            "team-crystal.ch:::google.ch:::test.ch",
            "team-crystal.ch:::google.ch:::test.ch",
        ),
        ("p.ch", "help.ch", "help.ch"),
        ("ep.ch", "team-crystal.ch:::help.ch", "team-crystal.ch::help.ch"),
        ("lp.ch", "help.ch:::google.ch", "help.ch:::google.ch"),
        (
            "hre.he",
            "test.ch:::lp.ch",
            "<html><body><h1>
            Laborum nulla quis deserunt labore quis cupidatat reprehenderit amet consequat reprehenderit tempor anim sint amet. Eiusmod fugiat eu aliqua qui do proident adipisicing. Dolore esse laborum voluptate in qui in ex. Sunt exercitation sit dolore cillum. Nostrud non aliqua sit anim aliqua labore Lorem quis nostrud. Exercitation ex nulla in laborum eu non voluptate consectetur.
            Incididunt anim voluptate aliqua et commodo cillum. Adipisicing fugiat ea consectetur cupidatat quis velit duis. Ad fugiat id quis proident qui mollit eu fugiat exercitation. Consectetur velit tempor esse reprehenderit laboris ea labore consectetur ut irure cupidatat in mollit. Dolore consequat amet id ipsum deserunt in eiusmod. Sunt excepteur eu eiusmod voluptate est mollit elit sunt laboris nostrud. Culpa non ea ad ex veniam et aute.

            Tempor enim non laborum enim ut duis laborum. Dolore nisi dolor Lorem anim occaecat non eu tempor incididunt. Consectetur aliquip reprehenderit fugiat magna. Est voluptate nisi id voluptate est cupidatat incididunt. Aute est qui mollit quis commodo irure ut eu ipsum sit ex cupidatat est adipisicing. Amet qui do cillum duis ad. Voluptate anim ipsum mollit sint incididunt.

            Eu nisi eu quis anim tempor fugiat deserunt est deserunt nulla ad do. Ipsum pariatur enim eiusmod minim cupidatat esse excepteur nostrud proident officia Lorem laboris esse. Excepteur reprehenderit anim duis exercitation labore nisi aliquip duis do. Id eiusmod dolore ex nulla nulla.
            </h1></body></html>",
        ),
    ];
    for (url, links, content) in rows {
        let id = unvisited_page(conn, url).unwrap();
        let links: Vec<&str> = links.split(":::").collect();
        update_to_visited(conn, id, content, links).unwrap();
    }
}

#[test]
fn page_rank_test_rank_computation_normal() {
    assert!(compute_rank(8, 10, 20, true) > compute_rank(1, 0, 2, false));
}

#[test]
fn page_rank_test_rank_computation_zero() {
    assert!(compute_rank(0, 0, 0, false) < compute_rank(999, 999, 999, true));
}

#[test]
fn page_rank_appearance_counter() {
    let search_word = "where do we go?";
    let content = "We go to the church. There we live. I don't know where we should go.";

    assert_eq!(compute_search_word_appearance(search_word, content), 5);
}

#[test]
fn helper_test_rank_computation_normal() {
    assert!(compute_rank(8, 10, 20, true) > compute_rank(1, 0, 2, false));
}

#[test]
fn helper_test_rank_computation_zero() {
    assert!(compute_rank(0, 0, 0, false) < compute_rank(999, 999, 999, true));
}

#[test]
fn helper_appearance_counter() {
    let search_word = "where do we go?";
    let content = "We go to the church. There we live. I don't know where we should go.";

    assert_eq!(compute_search_word_appearance(search_word, content), 5);
}

#[test]
fn page_rank_rank_single_word() {
    let mut conn = fresh_store();
    gen_vals(&mut conn);

    let result = rank_pages(&conn, "team").unwrap();

    assert_eq!(result.len(), 3);
    assert!(result.iter().any(|res| res.page.url == "ep.ch" && res.rank == 3));
}

#[test]
fn ranker_rank_single_word() {
    let mut conn = fresh_store();
    gen_vals(&mut conn);

    let result = rank_pages(&conn, "team").unwrap();

    assert_eq!(result.len(), 3);
    assert!(result.iter().any(|res| res.page.url == "ep.ch" && res.rank == 3));
}

#[test]
fn rank_phrase() {
    let mut conn = fresh_store();
    gen_vals(&mut conn);

    let result = rank_pages(&conn, "anim tempor fugiat deserunt est").unwrap();

    assert_eq!(result.len(), 3);
    assert_eq!(result[0].page.url, "hre.he");
    assert_eq!(result[0].rank, 40);
}

#[test]
fn ranking_is_descending_with_stable_ties() {
    let mut conn = fresh_store();
    gen_vals(&mut conn);

    let result = rank_pages(&conn, "ch").unwrap();

    for pair in result.windows(2) {
        assert!(pair[0].rank >= pair[1].rank);
    }
    for pair in result.windows(2) {
        if pair[0].rank == pair[1].rank {
            assert!(pair[0].page.id < pair[1].page.id);
        }
    }
}

#[test]
fn score_formula_exact() {
    assert_eq!(compute_rank(2, 1, 5, false), 8);
    assert_eq!(compute_rank(2, 1, 5, true), 18);
    assert_eq!(compute_rank(0, 0, 0, true), 10);
}

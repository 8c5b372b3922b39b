use roam_closure::asset::{asset_candidate, try_resolve_asset_path};
use roam_closure::closure::{ReferencedFiles, Traversal};
use roam_closure::note::RoamFile;
use roam_closure::store::{
    assets_from_rows, find_file_references_recursive, find_files_referenced_by, lookup_from_results, notes_from_rows,
    ClosureError,
};
use rusqlite::Connection;

fn quote(s: &str) -> String {
    format!("\"{}\"", s)
}

/// A link database with one node per note, the node's id being the note's path.
fn database(notes: &[&str], id_links: &[(&str, &str)], file_links: &[(&str, &str)]) -> Connection {
    let conn = Connection::open_in_memory().unwrap();
    conn.execute_batch(
        "CREATE TABLE files (file TEXT PRIMARY KEY);
         CREATE TABLE nodes (id TEXT PRIMARY KEY, file TEXT);
         CREATE TABLE links (source TEXT, dest TEXT, type TEXT);",
    )
    .unwrap();
    for note in notes {
        conn.execute("INSERT INTO files VALUES (?1)", [quote(note)]).unwrap();
        conn.execute("INSERT INTO nodes VALUES (?1, ?2)", [quote(note), quote(note)]).unwrap();
    }
    for (source, dest) in id_links {
        conn.execute(
            "INSERT INTO links VALUES (?1, ?2, ?3)",
            [quote(source), quote(dest), quote("id")],
        )
        .unwrap();
    }
    for (source, dest) in file_links {
        conn.execute(
            "INSERT INTO links VALUES (?1, ?2, ?3)",
            [quote(source), quote(dest), quote("file")],
        )
        .unwrap();
    }
    conn
}

fn files(paths: &[&str]) -> Vec<RoamFile> {
    paths.iter().map(|p| RoamFile::new(p.to_string())).collect()
}

fn note_paths(r: &ReferencedFiles) -> Vec<String> {
    r.notes.iter().map(|n| n.path.clone()).collect()
}

fn sorted_assets(r: &ReferencedFiles) -> Vec<String> {
    let mut a = r.assets.clone();
    a.sort();
    a
}

fn closure_of(conn: &Connection, seeds: &[&str], excluded: &[&str]) -> ReferencedFiles {
    let excluded: Vec<String> = excluded.iter().map(|s| s.to_string()).collect();
    match find_file_references_recursive(conn, &files(seeds), |f: &RoamFile| excluded.contains(&f.path)) {
        Ok(r) => r,
        Err(ClosureError::StoreQuery(e)) => panic!("query failed: {}", e),
    }
}

#[test]
fn cycle_yields_each_note_once() {
    let conn = database(&["/r/a.org", "/r/b.org", "/r/c.org"], &[("/r/a.org", "/r/b.org"), ("/r/b.org", "/r/c.org"), ("/r/c.org", "/r/a.org")], &[]);
    let r = closure_of(&conn, &["/r/a.org"], &[]);
    assert_eq!(note_paths(&r), vec!["/r/a.org", "/r/b.org", "/r/c.org"]);
    assert!(r.assets.is_empty());
}

#[test]
fn duplicate_seeds_are_listed_once_in_first_seen_order() {
    let conn = database(&["/r/a.org", "/r/b.org", "/r/c.org"], &[], &[]);
    let r = closure_of(&conn, &["/r/b.org", "/r/a.org", "/r/b.org", "/r/c.org", "/r/a.org"], &[]);
    assert_eq!(note_paths(&r), vec!["/r/b.org", "/r/a.org", "/r/c.org"]);
}

#[test]
fn breadth_first_discovery_order() {
    let conn = database(
        &["/r/a.org", "/r/b.org", "/r/c.org", "/r/d.org"],
        &[("/r/a.org", "/r/b.org"), ("/r/b.org", "/r/d.org"), ("/r/a.org", "/r/c.org")],
        &[],
    );
    let r = closure_of(&conn, &["/r/a.org"], &[]);
    assert_eq!(note_paths(&r), vec!["/r/a.org", "/r/b.org", "/r/c.org", "/r/d.org"]);
}

#[test]
fn exclusion_truncates_traversal_and_drops_assets() {
    let conn = database(
        &["/r/a.org", "/r/b.org", "/r/c.org"],
        &[("/r/a.org", "/r/b.org"), ("/r/b.org", "/r/c.org")],
        &[("/r/b.org", "/assets/b.png"), ("/r/a.org", "/assets/a.png")],
    );
    let r = closure_of(&conn, &["/r/a.org"], &["/r/b.org"]);
    assert_eq!(note_paths(&r), vec!["/r/a.org", "/r/b.org"]);
    assert_eq!(sorted_assets(&r), vec!["/assets/a.png"]);
}

#[test]
fn excluded_seed_stays_among_notes() {
    let conn = database(&["/r/a.org", "/r/b.org"], &[("/r/a.org", "/r/b.org")], &[("/r/a.org", "/assets/a.png")]);
    let r = closure_of(&conn, &["/r/a.org"], &["/r/a.org"]);
    assert_eq!(note_paths(&r), vec!["/r/a.org"]);
    assert!(r.assets.is_empty());
}

#[test]
fn excluded_discovered_note_is_kept_but_not_expanded() {
    let conn = database(
        &["/r/a.org", "/r/b.org", "/r/c.org", "/r/d.org"],
        &[("/r/a.org", "/r/b.org"), ("/r/b.org", "/r/c.org"), ("/r/a.org", "/r/d.org")],
        &[],
    );
    let r = closure_of(&conn, &["/r/a.org"], &["/r/b.org"]);
    assert_eq!(note_paths(&r), vec!["/r/a.org", "/r/b.org", "/r/d.org"]);
    assert!(!note_paths(&r).contains(&"/r/c.org".to_string()));
}

#[test]
fn assets_are_collected_once() {
    let conn = database(
        &["/r/a.org", "/r/b.org"],
        &[("/r/a.org", "/r/b.org")],
        &[("/r/a.org", "/assets/x.png"), ("/r/b.org", "/assets/x.png"), ("/r/b.org", "/assets/y.png")],
    );
    let r = closure_of(&conn, &["/r/a.org"], &[]);
    assert_eq!(sorted_assets(&r), vec!["/assets/x.png", "/assets/y.png"]);
}

#[test]
fn relative_asset_resolves_against_note_directory() {
    let conn = database(&["/a.org"], &[], &[("/a.org", "."), ("/a.org", "no-such-dir/pic.png")]);
    let r = closure_of(&conn, &["/a.org"], &[]);
    assert_eq!(r.assets, vec!["/"]);
}

#[test]
fn single_note_lookup() {
    let conn = database(&["/r/a.org", "/r/b.org"], &[("/r/a.org", "/r/b.org")], &[("/r/a.org", "/abs/a.png")]);
    let found = match find_files_referenced_by(&conn, &RoamFile::new("/r/a.org".to_string())) {
        Ok(f) => f,
        Err(_) => panic!("query failed"),
    };
    assert_eq!(note_paths(&found), vec!["/r/b.org"]);
    assert_eq!(found.assets, vec!["/abs/a.png"]);
}

#[test]
fn store_failure_is_returned() {
    let conn = Connection::open_in_memory().unwrap();
    let r = find_file_references_recursive(&conn, &files(&["/r/a.org"]), |_: &RoamFile| false);
    assert!(matches!(r, Err(ClosureError::StoreQuery(_))));
}

#[test]
fn store_failure_after_partial_traversal_is_returned() {
    let conn = database(&["/r/a.org", "/r/b.org"], &[("/r/a.org", "/r/b.org")], &[]);
    conn.execute("INSERT INTO links VALUES (?1, ?2, ?3)", [quote("/r/b.org"), "\"x\"".to_string(), quote("file")]).unwrap();
    conn.execute("UPDATE links SET dest = X'00FF' WHERE dest = '\"x\"'", []).unwrap();
    let r = find_file_references_recursive(&conn, &files(&["/r/a.org"]), |_: &RoamFile| false);
    assert!(matches!(r, Err(ClosureError::StoreQuery(_))));
}

#[test]
fn relative_asset_that_exists_is_canonical() {
    assert_eq!(try_resolve_asset_path("/a.org", "."), Some("/".to_string()));
    assert_eq!(try_resolve_asset_path("/a.org", "./.."), Some("/".to_string()));
}

#[test]
fn missing_relative_asset_is_dropped() {
    assert_eq!(try_resolve_asset_path("/roam/a.org", "img/no-such-pic-here.png"), None);
}

#[test]
fn absolute_asset_passes_through_unchanged() {
    assert_eq!(try_resolve_asset_path("/roam/a.org", "/no/such/dir/../pic.png"), Some("/no/such/dir/../pic.png".to_string()));
}

#[test]
fn note_without_parent_drops_relative_asset() {
    assert_eq!(try_resolve_asset_path("", "."), None);
}

#[test]
fn store_text_round_trip() {
    let f = RoamFile::new("/r/a.org".to_string());
    assert_eq!(f.to_store_text(), "\"/r/a.org\"");
    assert_eq!(RoamFile::from_store_text(&f.to_store_text()).path, "/r/a.org");
    assert_eq!(RoamFile::from_store_text("plain").path, "plain");
    assert_eq!(RoamFile::from_store_text("\"").path, "\"");
    assert_eq!(RoamFile::from_store_text("\"\"").path, "");
}

#[test]
fn rows_become_notes_in_order() {
    let rows = vec!["\"/r/b.org\"".to_string(), "\"/r/a.org\"".to_string()];
    let notes = notes_from_rows(&rows);
    let paths: Vec<String> = notes.iter().map(|n| n.path.clone()).collect();
    assert_eq!(paths, vec!["/r/b.org", "/r/a.org"]);
}

#[test]
fn traversal_steps_by_hand() {
    let mut t = Traversal::new(&files(&["/a", "/a", "/b"]));
    assert!(!t.is_done());
    assert_eq!(t.next_note().map(|n| n.path), Some("/a".to_string()));
    t.expand(&files(&["/b", "/c"]), &vec!["/x".to_string(), "/x".to_string()]);
    assert_eq!(t.next_note().map(|n| n.path), Some("/b".to_string()));
    assert_eq!(t.next_note().map(|n| n.path), Some("/c".to_string()));
    assert!(t.is_done());
    assert!(t.next_note().is_none());
    let r = t.into_result();
    assert_eq!(note_paths(&r), vec!["/a", "/b", "/c"]);
    assert_eq!(r.assets, vec!["/x"]);
}

#[test]
fn asset_rows_keep_absolute_and_resolvable_targets() {
    let note = RoamFile::new("/a.org".to_string());
    let rows = vec![quote("/abs/x.png"), quote("no-such-thing.png"), quote(".")];
    assert_eq!(assets_from_rows(&note, &rows), vec!["/abs/x.png", "/"]);
}

#[test]
fn asset_rows_of_note_without_parent_keep_only_absolute_targets() {
    let note = RoamFile::new("".to_string());
    let rows = vec![quote("."), quote("/abs/y.png")];
    assert_eq!(assets_from_rows(&note, &rows), vec!["/abs/y.png"]);
}

#[test]
fn excluding_everything_returns_the_seeds_without_querying() {
    let conn = Connection::open_in_memory().unwrap();
    let r = find_file_references_recursive(&conn, &files(&["/r/a.org", "/r/b.org", "/r/a.org"]), |_: &RoamFile| true);
    match r {
        Ok(r) => {
            assert_eq!(note_paths(&r), vec!["/r/a.org", "/r/b.org"]);
            assert!(r.assets.is_empty());
        }
        Err(_) => panic!("no query should have been made"),
    }
}

#[test]
fn empty_seeds_give_empty_closure() {
    let conn = database(&["/r/a.org"], &[], &[]);
    let r = closure_of(&conn, &[], &[]);
    assert!(r.notes.is_empty());
    assert!(r.assets.is_empty());
}

#[test]
fn candidate_joins_target_onto_note_directory() {
    assert_eq!(asset_candidate("/roam/a.org", "img/pic.png"), Some("/roam/img/pic.png".to_string()));
    assert_eq!(asset_candidate("/roam/sub/a.org", "../img/pic.png"), Some("/roam/sub/../img/pic.png".to_string()));
    assert_eq!(asset_candidate("", "img/pic.png"), None);
}

#[test]
fn resolved_asset_resolves_to_itself() {
    let first = try_resolve_asset_path("/a.org", ".").unwrap();
    assert_eq!(try_resolve_asset_path("/elsewhere/b.org", &first), Some(first.clone()));
}

#[test]
fn lookup_passes_first_query_error_on() {
    let note = RoamFile::new("/r/a.org".to_string());
    let r = lookup_from_results(&note, Err(rusqlite::Error::QueryReturnedNoRows), Err(rusqlite::Error::InvalidQuery));
    assert!(matches!(r, Err(ClosureError::StoreQuery(rusqlite::Error::QueryReturnedNoRows))));
}

#[test]
fn lookup_passes_second_query_error_on() {
    let note = RoamFile::new("/r/a.org".to_string());
    let r = lookup_from_results(&note, Ok(vec![quote("/r/b.org")]), Err(rusqlite::Error::InvalidQuery));
    assert!(matches!(r, Err(ClosureError::StoreQuery(rusqlite::Error::InvalidQuery))));
}

#[test]
fn lookup_keeps_resolved_assets_in_row_order() {
    let note = RoamFile::new("/a.org".to_string());
    let r = lookup_from_results(
        &note,
        Ok(vec![quote("/r/c.org"), quote("/r/b.org")]),
        Ok(vec![quote("/z.png"), quote("missing-rel.png"), quote("."), quote("/a.png")]),
    );
    match r {
        Ok(found) => {
            assert_eq!(note_paths(&found), vec!["/r/c.org", "/r/b.org"]);
            assert_eq!(found.assets, vec!["/z.png", "/", "/a.png"]);
        }
        Err(_) => panic!("both queries succeeded"),
    }
}

#[test]
fn excluding_only_the_seeds_returns_them_without_querying() {
    let conn = Connection::open_in_memory().unwrap();
    let seeds = files(&["/r/a.org", "/r/b.org"]);
    let r = find_file_references_recursive(&conn, &seeds, |f: &RoamFile| f.path.starts_with("/r/"));
    match r {
        Ok(r) => {
            assert_eq!(note_paths(&r), vec!["/r/a.org", "/r/b.org"]);
            assert!(r.assets.is_empty());
        }
        Err(_) => panic!("no query should have been made"),
    }
}

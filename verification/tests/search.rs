use downloads_history::search::{like_pattern, result_text};

#[test]
fn like_pattern_wraps_query() {
    assert_eq!(like_pattern("laure"), "%laure%");
    assert_eq!(like_pattern(""), "%%");
    assert_eq!(like_pattern("50%_off"), "%50\\%\\_off%");
    assert_eq!(like_pattern("a\\b"), "%a\\\\b%");
    assert_eq!(like_pattern("é_"), "%é\\_%");
}

#[test]
fn result_text_layout() {
    let sha = "ba7816bf8f01cfea414140de5dae2223b00361a396177a9cb410ff61f20015ad";
    assert_eq!(
        result_text("/arch/2024-03/a.txt", 1234, 1709251200, sha),
        "/arch/2024-03/a.txt\n  size=1234 mtime=1709251200 sha256=ba7816bf8f01cfea\n"
    );
    assert_eq!(
        result_text("x", -1, 0, sha),
        format!("{}\n  size={} mtime={} sha256={}\n", "x", -1, 0, &sha[..16])
    );
}

fn names_matching(query: &str) -> Vec<String> {
    let conn = rusqlite::Connection::open_in_memory().unwrap();
    conn.execute_batch("CREATE TABLE files (filename TEXT NOT NULL);").unwrap();
    for n in ["abc", "a_c", "ABC.txt", "50% off.pdf", "500 off.pdf", "back\\slash", "plain"] {
        conn.execute("INSERT INTO files(filename) VALUES (?1)", [n]).unwrap();
    }
    let mut stmt = conn
        .prepare("SELECT filename FROM files WHERE filename LIKE ?1 ESCAPE '\\' ORDER BY filename")
        .unwrap();
    let rows = stmt
        .query_map([like_pattern(query)], |row| row.get::<_, String>(0))
        .unwrap();
    rows.map(|r| r.unwrap()).collect()
}

#[test]
fn search_is_a_plain_substring_match() {
    assert_eq!(names_matching("a_c"), vec!["a_c"]);
    assert_eq!(names_matching("50%"), vec!["50% off.pdf"]);
    assert_eq!(names_matching("k\\s"), vec!["back\\slash"]);
    assert_eq!(names_matching("abc"), vec!["ABC.txt", "abc"]);
    assert_eq!(names_matching("zzz"), Vec::<String>::new());
}

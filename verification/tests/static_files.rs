use server_status::static_files::{first_existing_path, possible_paths, static_file_path, StaticFileError};

#[test]
fn uri_is_looked_up_under_static() {
    assert_eq!(static_file_path("/index"), "static/index");
    assert_eq!(static_file_path("/a/b?c=d"), "static/a/b?c=d");
}

#[test]
fn candidates_drop_query() {
    assert_eq!(possible_paths("static/a/b?c=d?e"), vec!["static/a/b".to_string(), "static/a/b.html".to_string()]);
}

#[test]
fn candidates_without_query() {
    assert_eq!(possible_paths("static/"), vec!["static/".to_string(), "static/.html".to_string()]);
    assert_eq!(possible_paths("?x"), vec!["".to_string(), ".html".to_string()]);
}

#[test]
fn first_existing_candidate_is_chosen() {
    let c = possible_paths("static/page");
    assert_eq!(first_existing_path(c.clone(), &vec![false, true]), Ok("static/page.html".to_string()));
    assert_eq!(first_existing_path(c, &vec![true, true]), Ok("static/page".to_string()));
}

#[test]
fn no_existing_candidate() {
    let c = possible_paths("static/missing");
    let r = first_existing_path(c, &vec![false, false]);
    assert_eq!(r, Err(StaticFileError::NotFound));
    assert_eq!(StaticFileError::NotFound.describe(), "NOT_FOUND");
}

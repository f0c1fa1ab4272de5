use simplehf::hub::{
    authorization, is_link_readable, model_url, next_page, repository_gated, repository_title,
    resolve_url, result_gated, result_subtitle, search_query, search_url, tree_url, GatedFlag,
    Listing, TreeEntry,
};
use simplehf::probe::{probe, ProbeReply};

#[test]
fn files_are_fetched_from_the_resolve_endpoint() {
    assert_eq!(
        resolve_url("org/model", "weights/model.safetensors"),
        "https://huggingface.co/org/model/resolve/main/weights/model.safetensors?download=true"
    );
}

#[test]
fn every_piece_of_a_path_is_encoded() {
    assert_eq!(
        resolve_url("org/model", "a b/c?d#e/\u{e9}%/x-1_2.3~4"),
        "https://huggingface.co/org/model/resolve/main/a%20b/c%3Fd%23e/%C3%A9%25/x-1_2.3~4?download=true"
    );
    assert_eq!(
        resolve_url("org/model", "\u{1f47e}//"),
        "https://huggingface.co/org/model/resolve/main/%F0%9F%91%BE//?download=true"
    );
}

#[test]
fn different_paths_have_different_addresses() {
    assert_ne!(resolve_url("o/m", "a/b"), resolve_url("o/m", "a%2Fb"));
    assert_ne!(resolve_url("o/m", "a b"), resolve_url("o/m", "a%20b"));
}

#[test]
fn the_hub_is_asked_under_its_addresses() {
    assert_eq!(search_url(), "https://huggingface.co/api/models");
    assert_eq!(model_url("o/m"), "https://huggingface.co/api/models/o/m");
    assert_eq!(
        tree_url("o/m"),
        "https://huggingface.co/api/models/o/m/tree/main?recursive=true&expand=false"
    );
    assert_eq!(
        search_query("llama".to_string()),
        vec![
            ("search", "llama".to_string()),
            ("limit", "50".to_string()),
            ("sort", "downloads".to_string()),
            ("direction", "-1".to_string()),
        ]
    );
}

#[test]
fn a_token_goes_into_the_header_without_white_space_around_it() {
    assert_eq!(authorization(" hf_abc\n"), Ok(Some("Bearer hf_abc".to_string())));
    assert_eq!(authorization(" \t"), Ok(None));
    assert_eq!(authorization(""), Ok(None));
    assert_eq!(authorization("a\tb"), Ok(Some("Bearer a\tb".to_string())));
    assert_eq!(authorization("\u{e9}"), Ok(Some("Bearer \u{e9}".to_string())));
}

#[test]
fn a_token_that_cannot_stand_in_a_header_is_refused() {
    for token in ["a\nb", "a\0b", "a\u{7f}b", "a\rb"] {
        assert_eq!(
            authorization(token),
            Err("failed to parse header value".to_string())
        );
    }
}

#[test]
fn the_next_page_is_read_from_the_link_header() {
    assert_eq!(
        next_page("<https://huggingface.co/p?cursor=1>; rel=\"next\""),
        Some("https://huggingface.co/p?cursor=1".to_string())
    );
    assert_eq!(
        next_page("<https://a/1>; rel=\"prev\", <https://a/2>; rel=\"next\""),
        Some("https://a/2".to_string())
    );
    assert_eq!(
        next_page("<x>; rel=\"next\",<y>; rel=\"next\", rel=\"next\""),
        Some("y".to_string())
    );
    assert_eq!(next_page("<>; rel=\"next\""), Some(String::new()));
    assert_eq!(next_page(""), None);
    assert_eq!(next_page("<https://a/1>; rel=\"prev\""), None);
    assert_eq!(next_page("https://a/1; rel=\"next\""), None);
}

#[test]
fn brackets_out_of_order_are_noticed() {
    assert!(is_link_readable("<a>; rel=\"next\""));
    assert!(is_link_readable(">a<; rel=\"prev\""));
    assert!(!is_link_readable("<ok>; rel=\"next\", >a<; rel=\"next\""));
}

fn entry(kind: Option<&str>, path: Option<&str>) -> TreeEntry {
    TreeEntry {
        kind: kind.map(str::to_string),
        path: path.map(str::to_string),
        size: Some(5),
        lfs_oid: Some("oid".to_string()),
    }
}

#[test]
fn a_listing_takes_in_the_files_of_every_page() {
    let mut listing = Listing::new("o/m");
    assert_eq!(listing.next, Some(tree_url("o/m")));
    listing.add_page(
        "<https://a/2>; rel=\"next\"",
        &vec![
            entry(Some("file"), Some("a")),
            entry(Some("directory"), Some("d")),
            entry(None, Some("x")),
            entry(Some("file"), None),
        ],
    );
    assert_eq!(listing.next, Some("https://a/2".to_string()));
    listing.add_page("", &vec![entry(Some("file"), Some("d/b"))]);
    assert_eq!(listing.next, None);
    let paths: Vec<_> = listing.files.iter().map(|f| f.path.as_str()).collect();
    assert_eq!(paths, ["a", "d/b"]);
    assert_eq!(listing.files[0].size, Some(5));
    assert_eq!(listing.files[0].sha256.as_deref(), Some("oid"));
}

#[test]
fn gated_repositories_are_marked() {
    assert!(repository_gated(GatedFlag::Bool(true)));
    assert!(repository_gated(GatedFlag::Text));
    assert!(!repository_gated(GatedFlag::Bool(false)));
    assert!(!repository_gated(GatedFlag::Missing));
    assert!(!repository_gated(GatedFlag::Other));
    assert!(result_gated(GatedFlag::Bool(true)));
    assert!(result_gated(GatedFlag::Text));
    assert!(result_gated(GatedFlag::Other));
    assert!(!result_gated(GatedFlag::Bool(false)));
    assert!(!result_gated(GatedFlag::Missing));
    assert_eq!(repository_title("o/m", true), "o/m \u{2022} gated");
    assert_eq!(repository_title("o/m", false), "o/m");
    assert_eq!(
        result_subtitle(12, 3, GatedFlag::Text),
        "12 downloads \u{2022} 3 likes \u{2022} gated"
    );
    assert_eq!(
        result_subtitle(0, 10, GatedFlag::Missing),
        "0 downloads \u{2022} 10 likes"
    );
}

fn answered(
    status: u16,
    status_error: Option<&str>,
    content_range: Option<&str>,
    content_length: Option<u64>,
) -> ProbeReply {
    ProbeReply::Answered {
        status,
        status_error: status_error.map(str::to_string),
        content_range: content_range.map(str::to_string),
        content_length,
    }
}

#[test]
fn the_size_comes_from_the_content_range() {
    let reply = answered(206, None, Some("bytes 0-0/1234"), Some(1));
    assert_eq!(probe(reply, Some(99)), Ok((1234, true)));
}

#[test]
fn the_size_falls_back_to_the_listing_and_then_to_the_length() {
    let reply = answered(206, None, Some("bytes 0-0/*"), Some(1));
    assert_eq!(probe(reply, Some(99)), Ok((99, true)));
    assert_eq!(probe(answered(200, None, None, Some(7)), Some(99)), Ok((99, false)));
    assert_eq!(probe(answered(200, None, None, Some(7)), None), Ok((7, false)));
    assert_eq!(
        probe(answered(206, None, Some("nonsense"), None), None),
        Err("server did not report a file size".to_string())
    );
}

#[test]
fn a_refused_request_says_what_to_check() {
    for status in [401, 403] {
        assert_eq!(
            probe(answered(status, Some("e"), Some("bytes 0-0/5"), None), None),
            Err("access denied; check the token and gated-model access".to_string())
        );
    }
    assert_eq!(
        probe(answered(404, Some("not found"), None, None), Some(5)),
        Err("not found".to_string())
    );
    assert_eq!(
        probe(ProbeReply::Failed { error: "dns".to_string() }, Some(5)),
        Err("size request failed: dns".to_string())
    );
}

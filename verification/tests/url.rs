use commentor::github::parse_url;

#[test]
fn parse_url_full_pull_request_link() {
    let id = parse_url("https://github.com/owner/repo/pull/123").unwrap();
    assert_eq!(id.owner(), "owner");
    assert_eq!(id.repo(), "repo");
    assert_eq!(id.number(), "123");
}

#[test]
fn parse_url_issue_link() {
    let id = parse_url("https://github.com/alice/tool/issue/7").unwrap();
    assert_eq!(id.owner(), "alice");
    assert_eq!(id.repo(), "tool");
    assert_eq!(id.number(), "7");
}

#[test]
fn parse_url_rejects_plain_http_host() {
    let err = parse_url("http://github.com/owner/repo/pull/123").unwrap_err();
    assert_eq!(err, "Non-https link, I don't support those!");
}

#[test]
fn parse_url_without_host_prefix() {
    let id = parse_url("owner/repo/pull/9").unwrap();
    assert_eq!(id.owner(), "owner");
    assert_eq!(id.repo(), "repo");
    assert_eq!(id.number(), "9");
}

#[test]
fn parse_url_with_missing_segments() {
    let id = parse_url("https://github.com/owner").unwrap();
    assert_eq!(id.owner(), "owner");
    assert_eq!(id.repo(), "");
    assert_eq!(id.number(), "");

    let id = parse_url("https://github.com/owner/repo").unwrap();
    assert_eq!(id.owner(), "owner");
    assert_eq!(id.repo(), "repo");
    assert_eq!(id.number(), "");
}

#[test]
fn parse_url_empty_text() {
    let id = parse_url("").unwrap();
    assert_eq!(id.owner(), "");
    assert_eq!(id.repo(), "");
    assert_eq!(id.number(), "");
}

#[test]
fn parse_url_strips_repeated_host_prefix() {
    let id = parse_url("https://github.com/https://github.com/a/b/pull/4").unwrap();
    assert_eq!(id.owner(), "a");
    assert_eq!(id.repo(), "b");
    assert_eq!(id.number(), "4");
}

#[test]
fn parse_url_extra_segments_are_ignored() {
    let id = parse_url("https://github.com/a/b/pull/4/files/extra").unwrap();
    assert_eq!(id.owner(), "a");
    assert_eq!(id.repo(), "b");
    assert_eq!(id.number(), "4");
}

use sarychdb::protocol::SarychServer;

#[test]
fn parses_full_url() {
    let p = SarychServer::parse_sarych_url("sarychdb://ann@secret/notes/get?x=1&query=hello%20world&query=ignored").unwrap();
    assert_eq!(p.username, "ann");
    assert_eq!(p.password, "secret");
    assert_eq!(p.database, "notes");
    assert_eq!(p.operation, "get");
    assert_eq!(p.query.as_deref(), Some("hello world"));
}

#[test]
fn parses_url_without_query() {
    let p = SarychServer::parse_sarych_url("sarychdb://ann@secret/notes/browse/extra").unwrap();
    assert_eq!(p.operation, "browse");
    assert_eq!(p.query, None);
    let p = SarychServer::parse_sarych_url("sarychdb://ann@secret/notes/get?other=1").unwrap();
    assert_eq!(p.query, None);
}

#[test]
fn rejects_malformed_urls() {
    assert_eq!(
        SarychServer::parse_sarych_url("http://ann@secret/notes/get").err().as_deref(),
        Some("URL must start with sarychdb://")
    );
    assert_eq!(
        SarychServer::parse_sarych_url("sarychdb://ann@secret/notes").err().as_deref(),
        Some("Invalid format. Use: sarychdb://username@password/database/operation")
    );
    assert_eq!(
        SarychServer::parse_sarych_url("sarychdb://annsecret/notes/get").err().as_deref(),
        Some("Invalid authentication format. Use: username@password")
    );
    assert_eq!(
        SarychServer::parse_sarych_url("sarychdb://a@b@c/notes/get").err().as_deref(),
        Some("Invalid authentication format. Use: username@password")
    );
    assert_eq!(
        SarychServer::parse_sarych_url("sarychdb://@secret/notes/get").err().as_deref(),
        Some("Username and password cannot be empty")
    );
    assert_eq!(
        SarychServer::parse_sarych_url("sarychdb://ann@secret/notes/get?query=%FF").err().as_deref(),
        Some("Error decoding query")
    );
}

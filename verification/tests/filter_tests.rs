use clog::filter::Combinations;
use clog::filter::FilterParseError;
use clog::filter::FieldFilter;
use clog::filter::Filter;
use clog::filter::FilterCtx;
use clog::filter::NumberFilter;
use clog::filter::StringFilter;
use clog::ipv4_mapped;
use clog::Headers;
use clog::Protocol;
use clog::RequestEntry;

fn entry(port: u16, uri: &str) -> RequestEntry {
    RequestEntry {
        status: 200,
        method: "GET".to_string(),
        uri: uri.to_string(),
        ua: None,
        referer: None,
        ip: ipv4_mapped(1, 2, 3, 4),
        port,
        time: 100,
        body: None,
        headers: Headers("x-kind:demo".to_string()),
        host: "example.net".to_string(),
        proto: Protocol::Http,
    }
}

#[test]
fn test_filter_parser() {
    assert_eq!(
        Filter::parse("port 80"),
        Ok(Filter::Field(FieldFilter::Port(NumberFilter::Equals(80))))
    );
    assert_eq!(
        Filter::parse("port 80 & uri /api & port 100"),
        Ok(Filter::Combination(Combinations::And(vec![
            Filter::Field(FieldFilter::Port(NumberFilter::Equals(80))),
            Filter::Field(FieldFilter::Uri(StringFilter::Equals("/api".into()))),
            Filter::Field(FieldFilter::Port(NumberFilter::Equals(100)))
        ])))
    );
    assert_eq!(
        Filter::parse("uri /api/ *"),
        Ok(Filter::Field(FieldFilter::Uri(StringFilter::Prefix("/api/".into()))))
    );
    assert_eq!(
        Filter::parse(r#"port 80 .. 100 & uri "/api/"*"#),
        Ok(Filter::Combination(Combinations::And(vec![
            Filter::Field(FieldFilter::Port(NumberFilter::Range(80, 100))),
            Filter::Field(FieldFilter::Uri(StringFilter::Prefix("/api/".into())))
        ])))
    );
}

#[test]
fn test_lit_parser() {
    // bare and quoted literals, read through the uri atom
    assert_eq!(
        Filter::parse("uri api"),
        Ok(Filter::Field(FieldFilter::Uri(StringFilter::Equals("api".into()))))
    );
    assert_eq!(
        Filter::parse("uri \"api\""),
        Ok(Filter::Field(FieldFilter::Uri(StringFilter::Equals("api".into()))))
    );
    assert_eq!(
        Filter::parse("uri /api"),
        Ok(Filter::Field(FieldFilter::Uri(StringFilter::Equals("/api".into()))))
    );
    assert_eq!(
        Filter::parse("uri /api?foo=bar+baz&arg"),
        Ok(Filter::Field(FieldFilter::Uri(StringFilter::Equals(
            "/api?foo=bar+baz&arg".into()
        ))))
    );
}

#[test]
fn test_regex() {
    match Filter::parse(r##"uri r"[0-1a-e]+""##).unwrap() {
        Filter::Field(FieldFilter::Uri(StringFilter::Regex(p))) => {
            assert_eq!(p.as_str(), "[0-1a-e]+");
        }
        other => panic!("expected a regex atom, got {:?}", other),
    }
}

#[test]
fn filter_semantics() {
    // port 80..100 & uri "/api/"* matches exactly the records in range with
    // the prefix
    let f = Filter::parse(r#"port 80 .. 100 & uri "/api/"*"#).unwrap();
    let ctx = FilterCtx::at(1_000);
    assert!(f.matches(&ctx, &entry(80, "/api/x")));
    assert!(f.matches(&ctx, &entry(99, "/api/")));
    assert!(!f.matches(&ctx, &entry(100, "/api/x")));
    assert!(!f.matches(&ctx, &entry(79, "/api/x")));
    assert!(!f.matches(&ctx, &entry(90, "/app")));
}

#[test]
fn filter_combinators() {
    let ctx = FilterCtx::at(0);
    let not = Filter::parse("! port 80").unwrap();
    assert!(!not.matches(&ctx, &entry(80, "/")));
    assert!(not.matches(&ctx, &entry(81, "/")));
    let or = Filter::parse("port 80 | port 81").unwrap();
    assert!(or.matches(&ctx, &entry(81, "/")));
    assert!(!or.matches(&ctx, &entry(82, "/")));
    let xor = Filter::parse("port 80 ^ uri /").unwrap();
    assert!(!xor.matches(&ctx, &entry(80, "/")));
    assert!(xor.matches(&ctx, &entry(80, "/a")));
}

#[test]
fn filter_ip_and_header() {
    let ctx = FilterCtx::at(0);
    let ip = Filter::parse("ip 1.2.3.*").unwrap();
    assert!(ip.matches(&ctx, &entry(80, "/")));
    let ip2 = Filter::parse("ip 1.2.4.*").unwrap();
    assert!(!ip2.matches(&ctx, &entry(80, "/")));
    let h = Filter::parse("header x-kind=demo").unwrap();
    assert!(h.matches(&ctx, &entry(80, "/")));
    let h2 = Filter::parse("header x-kind=other").unwrap();
    assert!(!h2.matches(&ctx, &entry(80, "/")));
}

#[test]
fn filter_parse_errors() {
    assert_eq!(Filter::parse("porridge 80"), Err(FilterParseError::Syntax));
    assert_eq!(Filter::parse("port 99999"), Err(FilterParseError::ParseInt));
    assert_eq!(Filter::parse("time 2024-13-40"), Err(FilterParseError::Date));
    assert_eq!(Filter::parse(r##"uri r"[unclosed""##), Err(FilterParseError::Regex));
    assert_eq!(Filter::parse("port 80 & port 81 | port 82"), Err(FilterParseError::Syntax));
}

#[test]
fn filter_time_day() {
    // a calendar day is its half-open unix interval
    let f = Filter::parse("time 1970-01-02").unwrap();
    let ctx = FilterCtx::at(0);
    let mut e = entry(80, "/");
    e.time = 86_400;
    assert!(f.matches(&ctx, &e));
    e.time = 86_399;
    assert!(!f.matches(&ctx, &e));
    e.time = 172_800;
    assert!(!f.matches(&ctx, &e));
}

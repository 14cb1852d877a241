use clog::client::Client;
use clog::client::ClientMessage;
use clog::client::FilterView;
use clog::client::ScrollView;
use clog::collector::CollectorBackend;
use clog::collector::PastIndex;
use clog::filter::FilterCtx;
use clog::ipv4_mapped;
use clog::shema::Builder;
use clog::Headers;
use clog::Options;
use clog::Protocol;
use clog::RequestEntry;

fn entry(port: u16, uri: &str, time: u64) -> RequestEntry {
    RequestEntry {
        status: 200,
        method: "GET".to_string(),
        uri: uri.to_string(),
        ua: None,
        referer: None,
        ip: ipv4_mapped(1, 2, 3, 4),
        port,
        time,
        body: None,
        headers: Headers(String::new()),
        host: "example.net".to_string(),
        proto: Protocol::Http,
    }
}

fn block_of(n: u64, base_time: u64) -> Builder {
    let mut b = Builder::new();
    for i in 0..n {
        let e = entry(80, "/r", base_time + i);
        assert!(b.can_add(&e));
        b.add_checked(&e);
    }
    b
}

#[test]
fn empty_range_yields_nothing() {
    let c = Client::new();
    assert_eq!(c.get_range(5, 5).len(), 0);
    assert_eq!(c.get_range(7, 3).len(), 0);
}

#[test]
fn client_mirror_covers_ingested() {
    let mut c = Client::new();
    c.on_sync(10, 5, false);
    let r = c.on_batch(5, block_of(5, 100));
    assert_eq!((r.start, r.end), (5, 10));
    for i in 0..3u64 {
        let e = entry(80, "/live", 200 + i);
        assert!(c.can_append(&e));
        let pr = c.on_row(&e);
        assert_eq!(pr.start, 10 + i);
    }
    // every covered position resolves, and end is one past the highest
    for n in 5..13u64 {
        assert!(c.get(n).is_some(), "missing {n}");
    }
    assert!(c.get(13).is_none());
    assert_eq!(c.end(), 13);
    let got = c.get_range(5, 13);
    assert_eq!(got.len(), 8);
    assert_eq!(got[0].0, 5);
    assert_eq!(got[7].0, 12);
}

#[test]
fn sparse_fetch_lowers_requested_floor() {
    let mut c = Client::new();
    c.on_sync(1000, 1000, false);
    let msg = c.maybe_need_more(500);
    assert_eq!(msg, Some(ClientMessage::FetchRange { start: 0, end: 1000 }));
    // asking again above the floor stays quiet
    assert_eq!(c.maybe_need_more(1500), None);
}

#[test]
fn scroll_view_clamps_at_zero() {
    let mut c = Client::new();
    let mut v = ScrollView::new(10);
    let (hit, _) = v.scroll_by(&mut c, -3);
    assert_eq!(v.pos(), 0);
    assert!(hit);
}

#[test]
fn scroll_view_renders_window() {
    let mut c = Client::new();
    c.on_sync(0, 0, false);
    for i in 1..=6u64 {
        let e = entry(80, "/w", i);
        assert!(c.can_append(&e));
        c.on_row(&e);
    }
    let mut v = ScrollView::new(4);
    let rows = v.render(&c);
    assert_eq!(rows.len(), 4);
    assert_eq!(rows[0].time, 1);
    v.scroll_by(&mut c, 2);
    let rows = v.render(&c);
    assert_eq!(rows[0].time, 3);
}

#[test]
fn filter_view_empty_when_nothing_matches() {
    let mut c = Client::new();
    c.on_sync(0, 0, false);
    for i in 0..5u64 {
        let e = entry(80, "/w", i);
        assert!(c.can_append(&e));
        c.on_row(&e);
    }
    let mut v = FilterView::new(3);
    v.set_filter_text("port 9999").unwrap();
    let ctx = FilterCtx::at(0);
    let rows = v.render(&c, &ctx);
    assert_eq!(rows.len(), 0);
    let before = v.pos();
    v.scroll_by(&mut c, &ctx, 2);
    assert_eq!(v.pos(), before);
    v.scroll_by(&mut c, &ctx, -2);
    assert_eq!(v.pos(), 0);
}

#[test]
fn filter_view_takes_matches() {
    let mut c = Client::new();
    c.on_sync(0, 0, false);
    for i in 0..8u64 {
        let e = entry(if i % 2 == 0 { 80 } else { 81 }, "/w", i);
        assert!(c.can_append(&e));
        c.on_row(&e);
    }
    let mut v = FilterView::new(2);
    v.set_filter_text("port 81").unwrap();
    let ctx = FilterCtx::at(0);
    let rows = v.render(&c, &ctx);
    assert_eq!(rows.len(), 2);
    assert_eq!(rows[0].0, 1);
    assert_eq!(rows[1].0, 3);
    for (_, e) in &rows {
        assert_eq!(e.port, 81);
    }
}

#[test]
fn collector_seals_contiguously() {
    // consecutive sealed blocks cover adjacent ranges
    let mut b = CollectorBackend::new(3, 0);
    let mut sealed = Vec::new();
    for i in 0..9u64 {
        let e = entry(80, "/s", i);
        assert!(b.can_ingest(&e));
        if let Some(s) = b.push(&e) {
            sealed.push((s.start, s.block.len() as u64));
        }
    }
    assert_eq!(sealed.len(), 3);
    for w in sealed.windows(2) {
        assert_eq!(w[1].0, w[0].0 + w[0].1);
    }
}

#[test]
fn attach_with_backlog() {
    // sealed blocks at 0 and 10000, open tail of 37 rows at 20000
    let mut b = CollectorBackend::new(10_000, 20_000);
    for i in 0..37u64 {
        let e = entry(80, "/t", i);
        assert!(b.can_ingest(&e));
        b.push(&e);
    }
    let sync = b.sync_header(5_000);
    assert_eq!(sync.start, 20_037);
    assert_eq!(sync.first_backlog, 15_000);
    let (lo, hi) = b.backlog_range(5_000);
    assert_eq!((lo, hi), (15_000, 20_000));
    let mut idx = PastIndex::new();
    idx.put(0, None);
    idx.put(10_000, None);
    // the plan serves the block covering the backlog start, newest first
    assert_eq!(idx.get_plan(lo, hi), vec![10_000]);
}

#[test]
fn get_plan_empty_when_no_blocks() {
    let idx = PastIndex::new();
    assert_eq!(idx.get_plan(0, 1000).len(), 0);
    let mut idx2 = PastIndex::new();
    idx2.put(5000, None);
    assert_eq!(idx2.get_plan(0, 1000).len(), 0);
}

#[test]
fn resume_after_restart() {
    // two persisted blocks; on resume the newest becomes the open tail and
    // the next record continues right after it
    let opt = Options::new(1);
    let mut idx = PastIndex::new();
    let b0 = block_of(10_000, 0);
    let mut buf0 = Vec::new();
    b0.write_to(&opt, &mut buf0).unwrap();
    idx.put(0, Some(buf0));
    let b1 = block_of(10_000, 10_000);
    let mut buf1 = Vec::new();
    b1.write_to(&opt, &mut buf1).unwrap();
    idx.put(10_000, Some(buf1));

    let (start, data) = idx.take_last().unwrap();
    assert_eq!(start, 10_000);
    let tail = Builder::from_slice(&data.unwrap()).unwrap();
    assert_eq!(tail.len(), 10_000);
    // the decoded tail holds what was persisted
    assert_eq!(tail.get(0).unwrap().time, 10_000);
    assert_eq!(idx.len(), 1);
    // the sealed block becomes the open tail again: the next record takes
    // sequence number 20000
    let mut resumed = CollectorBackend::resume(20_000, start, tail);
    let e = entry(80, "/n", 1);
    assert!(resumed.can_ingest(&e));
    assert!(resumed.push(&e).is_none());
    let sync = resumed.sync_header(0);
    assert_eq!(sync.start, 20_001);
}

#[test]
fn server_msg_reattaches_with_backlog() {
    let c = Client::new();
    assert_eq!(
        c.on_server_msg(&clog::client::ServerMessage::Detached),
        Some(ClientMessage::SubScribeWithBacklog { backlog: 1000 })
    );
    assert_eq!(
        c.on_server_msg(&clog::client::ServerMessage::NotAttached),
        Some(ClientMessage::SubScribeWithBacklog { backlog: 1000 })
    );
    assert_eq!(
        c.on_server_msg(&clog::client::ServerMessage::Error { msg: "boom".to_string() }),
        None
    );
}

#[test]
fn bad_filter_text_keeps_old_filter() {
    let mut c = Client::new();
    c.on_sync(0, 0, false);
    for i in 0..4u64 {
        let e = entry(if i % 2 == 0 { 80 } else { 81 }, "/w", i);
        assert!(c.can_append(&e));
        c.on_row(&e);
    }
    let mut v = FilterView::new(4);
    v.set_filter_text("port 81").unwrap();
    assert!(v.set_filter_text("port nonsense !!").is_err());
    let ctx = FilterCtx::at(0);
    let rows = v.render(&c, &ctx);
    assert_eq!(rows.len(), 2);
    assert_eq!(rows[0].0, 1);
    // an empty text clears the filter: every row shows again
    v.set_filter_text("").unwrap();
    v.scroll_to(0);
    let all = v.render(&c, &ctx);
    assert_eq!(all.len(), 4);
}

#[test]
fn filter_scroll_to_end_backfills() {
    let mut c = Client::new();
    c.on_sync(0, 0, false);
    for i in 0..9u64 {
        let e = entry(if i % 2 == 0 { 80 } else { 81 }, "/w", i);
        assert!(c.can_append(&e));
        c.on_row(&e);
    }
    // matches at 1, 3, 5, 7; a window of 3 ends on 3, 5, 7
    let mut v = FilterView::new(3);
    v.set_filter_text("port 81").unwrap();
    let ctx = FilterCtx::at(0);
    v.scroll_to_end(&mut c, &ctx);
    assert_eq!(v.pos(), 3);
    let rows = v.render(&c, &ctx);
    assert_eq!(rows.len(), 3);
    assert_eq!(rows[0].0, 3);
    assert_eq!(rows[1].0, 5);
    assert_eq!(rows[2].0, 7);
}

#[test]
fn scroll_view_backward_requests_backfill() {
    let mut c = Client::new();
    // the server's head is far ahead: the floor sits at 5000
    c.on_sync(5000, 5000, false);
    let mut v = ScrollView::new(10);
    v.scroll_to(5000);
    let (hit, msg) = v.scroll_by(&mut c, -100);
    assert!(!hit);
    assert_eq!(v.pos(), 4900);
    // reading near the floor widens the request a thousand down
    assert_eq!(msg, Some(ClientMessage::FetchRange { start: 3900, end: 5000 }));
}

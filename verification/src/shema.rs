//! The versioned block schema: one builder holding all columns, a driver
//! that writes and reads every column in declared order under version
//! gating, and the round trip the format promises.
use vstd::prelude::*;

use crate::compress::pco_header;
use crate::compress::pco_read_header;
use crate::compress::pco_version_of;
use crate::compress::pco_write_header;
use crate::types::brotli_str;
use crate::types::ds_col;
use crate::types::ds_get;
use crate::types::ds_wf;
use crate::types::hip_col;
use crate::types::hs_col;
use crate::types::ip_join;
use crate::types::ip_prefix;
use crate::types::ip_suffix;
use crate::types::ns_col;
use crate::types::pool_handle;
use crate::types::pool_intern;
use crate::types::pool_norm;
use crate::types::starts_with;
use crate::types::lemma_chop;
use crate::types::pool_text;
use crate::types::pool_wf;
use crate::types::sm_add_pairs;
use crate::types::sm_col;
use crate::types::sm_get;
use crate::types::sm_wf;
use crate::types::concat_keys;
use crate::types::spec_wrap_add64;
use crate::types::time_handle;
use crate::types::ts_col;
use crate::types::pairs_view;
use crate::types::DataSeries;
use crate::types::HashIpv6;
use crate::types::HashStrings;
use crate::types::HashStringsOpt;
use crate::types::NumberSeries;
use crate::types::StringMap;
use crate::types::TimeSeries;
use crate::varint::starts_with_varint;
use crate::varint::varint;
use crate::DecodeError;
use crate::EncodeError;
use crate::Headers;
use crate::Options;
use crate::Protocol;
use crate::Record;
use crate::RequestEntry;

verus! {

/// The schema version this build writes, and the newest it reads.
pub const SHEMA_VERSION: u32 = 4;

/// Whether each gated field is present at version `v`.
pub open spec fn gate_ua(v: u32) -> bool {
    v <= 2
}

pub open spec fn gate_body(v: u32) -> bool {
    v >= 2
}

pub open spec fn gate_headers(v: u32) -> bool {
    v >= 3
}

pub open spec fn gate_proto(v: u32) -> bool {
    v >= 4
}

/// The mathematical shape of a block under construction: every column's
/// state and handle column.
#[verifier::ext_equal]
pub ghost struct BlockModel {
    pub status: Seq<u16>,
    pub method_pool: Seq<Seq<char>>,
    pub method_h: Seq<u32>,
    pub uri_pool: Seq<Seq<char>>,
    pub uri_h: Seq<u32>,
    pub ua_pool: Seq<Seq<char>>,
    pub ua_h: Seq<u32>,
    pub referer_pool: Seq<Seq<char>>,
    pub referer_h: Seq<u32>,
    pub ip_pfx: Seq<(u32, u32, u32)>,
    pub ip_pidx: Seq<u32>,
    pub ip_sfx: Seq<u32>,
    pub port: Seq<u16>,
    pub time_off: u64,
    pub time_h: Seq<u32>,
    pub body_data: Seq<u8>,
    pub body_off: Seq<u32>,
    pub body_h: Seq<u32>,
    pub hdr_kp: Seq<Seq<char>>,
    pub hdr_vp: Seq<Seq<char>>,
    pub hdr_entries: Seq<Seq<(u32, u32)>>,
    pub hdr_h: Seq<u32>,
    pub host_pool: Seq<Seq<char>>,
    pub host_h: Seq<u32>,
    pub proto: Seq<u16>,
}

impl BlockModel {
    /// The number of rows.
    pub open spec fn len(self) -> nat {
        self.status.len()
    }

    /// Every handle column has one slot per row.
    pub open spec fn columns_even(self) -> bool {
        &&& self.method_h.len() == self.len()
        &&& self.uri_h.len() == self.len()
        &&& self.ua_h.len() == self.len()
        &&& self.referer_h.len() == self.len()
        &&& self.ip_pidx.len() == self.len()
        &&& self.ip_sfx.len() == self.len()
        &&& self.port.len() == self.len()
        &&& self.time_h.len() == self.len()
        &&& self.body_h.len() == self.len()
        &&& self.hdr_h.len() == self.len()
        &&& self.host_h.len() == self.len()
        &&& self.proto.len() == self.len()
    }

    /// Within the numeric compressor's chunk capacity: what a successful
    /// encode additionally needs.
    pub open spec fn encodable(self) -> bool {
        &&& self.len() <= 0x100_0000
        &&& concat_keys(self.hdr_entries).len() <= 0x100_0000
        &&& self.body_off.len() <= 0x100_0000
    }

    /// Structural soundness: columns even, pools separator-free, side
    /// states consistent, and everything within the sizes the format's
    /// descriptors can carry.
    pub open spec fn wf(self) -> bool {
        &&& self.columns_even()
        &&& self.len() <= u32::MAX
        &&& pool_wf(self.method_pool)
        &&& pool_wf(self.uri_pool)
        &&& pool_wf(self.ua_pool)
        &&& pool_wf(self.referer_pool)
        &&& pool_wf(self.hdr_kp)
        &&& pool_wf(self.hdr_vp)
        &&& pool_wf(self.host_pool)
        &&& ds_wf(self.body_data, self.body_off)
        &&& sm_wf(self.hdr_entries)
        &&& self.hdr_entries.len() <= self.len()
        &&& concat_keys(self.hdr_entries).len() <= 0xffff * self.hdr_entries.len()
        &&& concat_keys(self.hdr_entries).len() <= usize::MAX
        &&& self.body_off.len() <= u32::MAX
        &&& self.ip_pfx.len() <= u32::MAX
    }
}

/// The block under construction: the only mutable block, grown one record
/// at a time, encoded as a whole when sealed.
pub struct Builder {
    status: Vec<u16>,
    status_codec: NumberSeries,
    method: HashStrings,
    method_h: Vec<u32>,
    uri: HashStrings,
    uri_h: Vec<u32>,
    ua: HashStringsOpt,
    ua_h: Vec<u32>,
    referer: HashStringsOpt,
    referer_h: Vec<u32>,
    ip: HashIpv6,
    ip_pidx: Vec<u32>,
    ip_sfx: Vec<u32>,
    port: Vec<u16>,
    port_codec: NumberSeries,
    time: TimeSeries,
    time_h: Vec<u32>,
    body: DataSeries,
    body_h: Vec<u32>,
    headers: StringMap,
    headers_h: Vec<u32>,
    host: HashStrings,
    host_h: Vec<u32>,
    proto: Vec<u16>,
    proto_codec: NumberSeries,
}

impl View for Builder {
    type V = BlockModel;

    closed spec fn view(&self) -> BlockModel {
        BlockModel {
            status: self.status@,
            method_pool: self.method@,
            method_h: self.method_h@,
            uri_pool: self.uri@,
            uri_h: self.uri_h@,
            ua_pool: self.ua@,
            ua_h: self.ua_h@,
            referer_pool: self.referer@,
            referer_h: self.referer_h@,
            ip_pfx: self.ip@,
            ip_pidx: self.ip_pidx@,
            ip_sfx: self.ip_sfx@,
            port: self.port@,
            time_off: self.time@,
            time_h: self.time_h@,
            body_data: self.body@.0,
            body_off: self.body@.1,
            body_h: self.body_h@,
            hdr_kp: self.headers@.0,
            hdr_vp: self.headers@.1,
            hdr_entries: self.headers@.2,
            hdr_h: self.headers_h@,
            host_pool: self.host@,
            host_h: self.host_h@,
            proto: self.proto@,
        }
    }
}

/// What one record contributes: every column state after interning the
/// record's fields, and the handles appended to every handle column.
pub open spec fn model_add(m: BlockModel, e: Record) -> BlockModel {
    let hdr = sm_add_pairs(m.hdr_kp, m.hdr_vp, crate::spec_split_headers(e.headers));
    BlockModel {
        status: m.status.push(e.status),
        method_pool: pool_intern(m.method_pool, e.method),
        method_h: m.method_h.push(pool_handle(m.method_pool, e.method) as u32),
        uri_pool: pool_intern(m.uri_pool, e.uri),
        uri_h: m.uri_h.push(pool_handle(m.uri_pool, e.uri) as u32),
        ua_pool: match e.ua {
            Some(s) => pool_intern(m.ua_pool, s),
            None => m.ua_pool,
        },
        ua_h: m.ua_h.push(
            match e.ua {
                Some(s) => (pool_handle(m.ua_pool, s) + 1) as u32,
                None => 0u32,
            },
        ),
        referer_pool: match e.referer {
            Some(s) => pool_intern(m.referer_pool, s),
            None => m.referer_pool,
        },
        referer_h: m.referer_h.push(
            match e.referer {
                Some(s) => (pool_handle(m.referer_pool, s) + 1) as u32,
                None => 0u32,
            },
        ),
        ip_pfx: pool_intern(m.ip_pfx, ip_prefix(e.ip)),
        ip_pidx: m.ip_pidx.push(pool_handle(m.ip_pfx, ip_prefix(e.ip)) as u32),
        ip_sfx: m.ip_sfx.push(ip_suffix(e.ip)),
        port: m.port.push(e.port),
        time_off: if m.time_off == 0 {
            if e.time != 0 {
                e.time
            } else {
                1u64
            }
        } else {
            m.time_off
        },
        time_h: m.time_h.push(
            time_handle(
                if m.time_off == 0 {
                    if e.time != 0 {
                        e.time
                    } else {
                        1u64
                    }
                } else {
                    m.time_off
                },
                e.time,
            ),
        ),
        body_data: match e.body {
            Some(b) => m.body_data + b,
            None => m.body_data,
        },
        body_off: match e.body {
            Some(b) => m.body_off.push((m.body_data.len() + b.len()) as u32),
            None => m.body_off,
        },
        body_h: m.body_h.push(
            match e.body {
                Some(_) => (m.body_off.len() + 1) as u32,
                None => 0u32,
            },
        ),
        hdr_kp: hdr.0,
        hdr_vp: hdr.1,
        hdr_entries: pool_intern(m.hdr_entries, hdr.2),
        hdr_h: m.hdr_h.push(pool_handle(m.hdr_entries, hdr.2) as u32),
        host_pool: pool_intern(m.host_pool, e.host),
        host_h: m.host_h.push(pool_handle(m.host_pool, e.host) as u32),
        proto: m.proto.push(e.proto.spec_code()),
    }
}

impl Builder {
    /// An empty block.
    pub fn new() -> (r: Builder)
        ensures
            r@.len() == 0,
            r@.wf(),
            r@.method_pool.len() == 0,
            r@.uri_pool.len() == 0,
            r@.ua_pool.len() == 0,
            r@.referer_pool.len() == 0,
            r@.ip_pfx.len() == 0,
            r@.time_off == 0,
            r@.body_data.len() == 0,
            r@.body_off.len() == 0,
            r@.hdr_kp.len() == 0,
            r@.hdr_vp.len() == 0,
            r@.hdr_entries.len() == 0,
            r@.host_pool.len() == 0,
    {
        Builder {
            status: Vec::new(),
            status_codec: NumberSeries::new(),
            method: HashStrings::new(),
            method_h: Vec::new(),
            uri: HashStrings::new(),
            uri_h: Vec::new(),
            ua: HashStringsOpt::new(),
            ua_h: Vec::new(),
            referer: HashStringsOpt::new(),
            referer_h: Vec::new(),
            ip: HashIpv6::new(),
            ip_pidx: Vec::new(),
            ip_sfx: Vec::new(),
            port: Vec::new(),
            port_codec: NumberSeries::new(),
            time: TimeSeries::new(),
            time_h: Vec::new(),
            body: DataSeries::new(),
            body_h: Vec::new(),
            headers: StringMap::new(),
            headers_h: Vec::new(),
            host: HashStrings::new(),
            host_h: Vec::new(),
            proto: Vec::new(),
            proto_codec: NumberSeries::new(),
        }
    }

    /// The number of rows appended so far.
    pub fn len(&self) -> (n: usize)
        ensures
            n == self@.len(),
    {
        self.status.len()
    }

    /// Appends one record: every field is interned into its column.
    pub fn add(&mut self, e: &RequestEntry)
        requires
            old(self)@.wf(),
            old(self)@.len() < 0xffff_fffeu32,
            old(self)@.method_pool.len() < 0xffff_fffeu32,
            old(self)@.uri_pool.len() < 0xffff_fffeu32,
            old(self)@.ua_pool.len() < 0xffff_fffdu32,
            old(self)@.referer_pool.len() < 0xffff_fffdu32,
            old(self)@.ip_pfx.len() < 0xffff_fffeu32,
            old(self)@.host_pool.len() < 0xffff_fffeu32,
            old(self)@.hdr_entries.len() < 0xffff_fffeu32,
            old(self)@.hdr_kp.len() + crate::spec_split_headers(e@.headers).len()
                < 0xffff_fffeu32,
            old(self)@.hdr_vp.len() + crate::spec_split_headers(e@.headers).len()
                < 0xffff_fffeu32,
            crate::spec_split_headers(e@.headers).len() <= 0xffff,
            old(self)@.body_data.len() + match e@.body {
                Some(b) => b.len(),
                None => 0,
            } <= u32::MAX,
            old(self)@.body_off.len() < 0xffff_fffeu32,
            concat_keys(old(self)@.hdr_entries).len() + crate::spec_split_headers(e@.headers).len()
                <= usize::MAX,
        ensures
            final(self)@ == model_add(old(self)@, e@),
            final(self)@.len() == old(self)@.len() + 1,
    {
        self.status.push(e.status);
        let mh = self.method.add(e.method.as_str());
        self.method_h.push(mh);
        let uh = self.uri.add(e.uri.as_str());
        self.uri_h.push(uh);
        let uah = match &e.ua {
            Some(s) => self.ua.add(Some(s.as_str())),
            None => self.ua.add(None),
        };
        self.ua_h.push(uah);
        let rh = match &e.referer {
            Some(s) => self.referer.add(Some(s.as_str())),
            None => self.referer.add(None),
        };
        self.referer_h.push(rh);
        let (pidx, sfx) = self.ip.add(e.ip);
        self.ip_pidx.push(pidx);
        self.ip_sfx.push(sfx);
        self.port.push(e.port);
        let th = self.time.add(e.time);
        self.time_h.push(th);
        let ghost body_off_before = self@.body_off;
        let bh = match &e.body {
            Some(b) => self.body.add(Some(b.as_slice())),
            None => self.body.add(None),
        };
        self.body_h.push(bh);
        let pairs = e.headers.split();
        let hh = self.headers.add(&pairs);
        self.headers_h.push(hh);
        let hoh = self.host.add(e.host.as_str());
        self.host_h.push(hoh);
        self.proto.push(e.proto.code());
        proof {
            assert(pairs_view(pairs@) == crate::spec_split_headers(e@.headers)) by {
                assert(pairs.deep_view() == crate::spec_split_headers(e@.headers));
                assert(pairs_view(pairs@) =~= pairs.deep_view());
            }
            assert(final(self)@ == model_add(old(self)@, e@)) by {
                let a = final(self)@;
                let b = model_add(old(self)@, e@);
                assert(a.status =~= b.status);
                assert(a.method_h =~= b.method_h);
                assert(a.uri_h =~= b.uri_h);
                assert(a.ua_h =~= b.ua_h);
                assert(a.referer_h =~= b.referer_h);
                assert(a.ip_pidx =~= b.ip_pidx);
                assert(a.ip_sfx =~= b.ip_sfx);
                assert(a.port =~= b.port);
                assert(a.time_h =~= b.time_h);
                assert(a.body_h =~= b.body_h);
                assert(a.hdr_h =~= b.hdr_h);
                assert(a.host_h =~= b.host_h);
                assert(a.proto =~= b.proto);
            }
        }
    }

    /// Keeps the block well formed as records are appended: what `add`
    /// guarantees of the state it leaves behind.
    pub proof fn lemma_add_wf(m: BlockModel, e: Record)
        requires
            m.wf(),
            m.len() < 0xffff_fffeu32,
            m.hdr_entries.len() < 0xffff_fffeu32,
            crate::spec_split_headers(e.headers).len() <= 0xffff,
            m.body_data.len() + match e.body {
                Some(b) => b.len(),
                None => 0,
            } <= u32::MAX,
            m.body_off.len() < 0xffff_fffeu32,
            m.ip_pfx.len() < 0xffff_ffffu32,
            concat_keys(m.hdr_entries).len() + crate::spec_split_headers(e.headers).len()
                <= usize::MAX,
            !e.method.contains('\n'),
            !e.uri.contains('\n'),
            !e.host.contains('\n'),
            (e.ua matches Some(s) ==> !s.contains('\n')),
            (e.referer matches Some(s) ==> !s.contains('\n')),
            forall|i: int|
                0 <= i < crate::spec_split_headers(e.headers).len() ==> !(
                #[trigger] crate::spec_split_headers(e.headers)[i]).0.contains('\n') && !crate::spec_split_headers(
                    e.headers,
                )[i].1.contains('\n'),
        ensures
            model_add(m, e).wf(),
    {
        let m2 = model_add(m, e);
        lemma_pool_intern_wf(m.method_pool, e.method);
        lemma_pool_intern_wf(m.uri_pool, e.uri);
        lemma_pool_intern_wf(m.host_pool, e.host);
        match e.ua {
            Some(s) => lemma_pool_intern_wf(m.ua_pool, s),
            None => (),
        }
        match e.referer {
            Some(s) => lemma_pool_intern_wf(m.referer_pool, s),
            None => (),
        }
        lemma_sm_add_wf(
            m.hdr_kp,
            m.hdr_vp,
            crate::spec_split_headers(e.headers),
        );
        let hdr = sm_add_pairs(m.hdr_kp, m.hdr_vp, crate::spec_split_headers(e.headers));
        lemma_sm_add_len(m.hdr_kp, m.hdr_vp, crate::spec_split_headers(e.headers));
        assert(hdr.2.len() == crate::spec_split_headers(e.headers).len());
        assert(sm_wf(m2.hdr_entries)) by {
            if !m.hdr_entries.contains(hdr.2) {
                assert(forall|i: int|
                    0 <= i < m.hdr_entries.len() ==> #[trigger] m2.hdr_entries[i]
                        == m.hdr_entries[i]);
            }
        }
        assert(ds_wf(m2.body_data, m2.body_off)) by {
            match e.body {
                Some(b) => {
                    assert(forall|i: int|
                        0 <= i < m.body_off.len() ==> #[trigger] m2.body_off[i]
                            == m.body_off[i]);
                }
                None => {},
            }
        }
        lemma_concat_push_bound(m.hdr_entries, hdr.2, m2.hdr_entries);
    }

    /// The record at `idx`, decoded from its handles, or nothing past the
    /// end.
    pub fn get(&self, idx: usize) -> (r: Option<RequestEntry>)
        requires
            self@.columns_even(),
        ensures
            match r {
                Some(e) => idx < self@.len() && Some(e@) == model_get(self@, idx as int),
                None => idx >= self@.len() || model_get(self@, idx as int) is None,
            },
    {
        if idx >= self.status.len() {
            return None;
        }
        let method = match self.method.get(self.method_h[idx]) {
            Some(s) => s.to_owned(),
            None => {
                return None;
            },
        };
        let uri = match self.uri.get(self.uri_h[idx]) {
            Some(s) => s.to_owned(),
            None => {
                return None;
            },
        };
        let ua = match self.ua.get(self.ua_h[idx]) {
            Some(Some(s)) => Some(s.to_owned()),
            Some(None) => None,
            None => {
                return None;
            },
        };
        let referer = match self.referer.get(self.referer_h[idx]) {
            Some(Some(s)) => Some(s.to_owned()),
            Some(None) => None,
            None => {
                return None;
            },
        };
        let ip = match self.ip.get((self.ip_pidx[idx], self.ip_sfx[idx])) {
            Some(ip) => ip,
            None => {
                return None;
            },
        };
        let time = self.time.get(self.time_h[idx]);
        let body = match self.body.get(self.body_h[idx]) {
            Some(Some(b)) => Some(vstd::slice::slice_to_vec(b)),
            Some(None) => None,
            None => {
                return None;
            },
        };
        let headers = match self.headers.get(self.headers_h[idx]) {
            Some(pairs) => {
                proof {
                    assert(pairs_view(pairs@) =~= pairs.deep_view());
                }
                Headers(crate::headers_string(&pairs))
            },
            None => {
                return None;
            },
        };
        let host = match self.host.get(self.host_h[idx]) {
            Some(s) => s.to_owned(),
            None => {
                return None;
            },
        };
        let e = RequestEntry {
            status: self.status[idx],
            method,
            uri,
            ua,
            referer,
            ip,
            port: self.port[idx],
            time,
            body,
            headers,
            host,
            proto: Protocol::from_code(self.proto[idx]),
        };
        proof {
            let mg = model_get(self@, idx as int);
            assert(mg is Some);
            assert(e@.headers == mg->Some_0.headers);
            assert(e@.body == mg->Some_0.body);
            assert(e@.ua == mg->Some_0.ua);
            assert(e@.referer == mg->Some_0.referer);
        }
        Some(e)
    }
}

/// The record stored at `idx` of a block model: every handle resolved
/// against its column, or nothing when one does not resolve.
pub open spec fn model_get(m: BlockModel, idx: int) -> Option<Record> {
    if idx < 0 || idx >= m.len() || !m.columns_even() {
        None
    } else if m.method_h[idx] >= m.method_pool.len() || m.uri_h[idx] >= m.uri_pool.len()
        || m.ua_h[idx] > m.ua_pool.len() || m.referer_h[idx] > m.referer_pool.len()
        || m.ip_pidx[idx] >= m.ip_pfx.len() || ds_get(m.body_data, m.body_off, m.body_h[idx])
        is None || sm_get(m.hdr_kp, m.hdr_vp, m.hdr_entries, m.hdr_h[idx]) is None
        || m.host_h[idx] >= m.host_pool.len() {
        None
    } else {
        Some(
            Record {
                status: m.status[idx],
                method: m.method_pool[m.method_h[idx] as int],
                uri: m.uri_pool[m.uri_h[idx] as int],
                ua: if m.ua_h[idx] == 0 {
                    None
                } else {
                    Some(m.ua_pool[m.ua_h[idx] - 1])
                },
                referer: if m.referer_h[idx] == 0 {
                    None
                } else {
                    Some(m.referer_pool[m.referer_h[idx] - 1])
                },
                ip: ip_join(m.ip_pfx[m.ip_pidx[idx] as int], m.ip_sfx[idx]),
                port: m.port[idx],
                time: spec_wrap_add64(m.time_off, m.time_h[idx] as u64),
                body: ds_get(m.body_data, m.body_off, m.body_h[idx])->Some_0,
                headers: crate::spec_headers_string(
                    sm_get(m.hdr_kp, m.hdr_vp, m.hdr_entries, m.hdr_h[idx])->Some_0,
                ),
                host: m.host_pool[m.host_h[idx] as int],
                proto: Protocol::spec_from_code(m.proto[idx]),
            },
        )
    }
}

/// Interning keeps a pool separator-free when the new entry is.
proof fn lemma_pool_intern_wf(pool: Seq<Seq<char>>, s: Seq<char>)
    requires
        pool_wf(pool),
        !s.contains('\n'),
    ensures
        pool_wf(pool_intern(pool, s)),
{
    if !pool.contains(s) {
        assert(forall|i: int|
            0 <= i < pool.len() ==> #[trigger] pool_intern(pool, s)[i] == pool[i]);
    }
}

/// Interning header pairs keeps both pools separator-free.
proof fn lemma_sm_add_wf(
    kp: Seq<Seq<char>>,
    vp: Seq<Seq<char>>,
    items: Seq<(Seq<char>, Seq<char>)>,
)
    requires
        pool_wf(kp),
        pool_wf(vp),
        forall|i: int|
            0 <= i < items.len() ==> !(#[trigger] items[i]).0.contains('\n')
                && !items[i].1.contains('\n'),
    ensures
        pool_wf(sm_add_pairs(kp, vp, items).0),
        pool_wf(sm_add_pairs(kp, vp, items).1),
        sm_add_pairs(kp, vp, items).0.len() <= kp.len() + items.len(),
        sm_add_pairs(kp, vp, items).1.len() <= vp.len() + items.len(),
    decreases items.len(),
{
    if items.len() > 0 {
        lemma_pool_intern_wf(kp, items[0].0);
        lemma_pool_intern_wf(vp, items[0].1);
        assert(forall|i: int|
            0 <= i < items.skip(1).len() ==> #[trigger] items.skip(1)[i] == items[i + 1]);
        lemma_sm_add_wf(pool_intern(kp, items[0].0), pool_intern(vp, items[0].1), items.skip(1));
    }
}

/// Interning a pair sequence yields one handle per pair.
proof fn lemma_sm_add_len(
    kp: Seq<Seq<char>>,
    vp: Seq<Seq<char>>,
    items: Seq<(Seq<char>, Seq<char>)>,
)
    ensures
        sm_add_pairs(kp, vp, items).2.len() == items.len(),
    decreases items.len(),
{
    if items.len() > 0 {
        lemma_sm_add_len(pool_intern(kp, items[0].0), pool_intern(vp, items[0].1), items.skip(1));
    }
}

/// One more short entry keeps the concatenated index columns bounded.
proof fn lemma_concat_push_bound(
    entries: Seq<Seq<(u32, u32)>>,
    entry: Seq<(u32, u32)>,
    entries2: Seq<Seq<(u32, u32)>>,
)
    requires
        concat_keys(entries).len() + entry.len() <= usize::MAX,
        entry.len() <= 0xffff,
        entries2 == pool_intern(entries, entry),
        concat_keys(entries).len() <= 0xffff * entries.len(),
    ensures
        concat_keys(entries2).len() <= usize::MAX,
        concat_keys(entries2).len() <= 0xffff * entries2.len(),
{
    if !entries.contains(entry) {
        crate::types::lemma_concat_len(entries2);
        assert(entries2.drop_last() =~= entries);
        assert(entries2.last() == entry);
    }
}


/// One column section of the block body, in declared order.  Sections of
/// fields outside the version's gate are empty.
pub open spec fn seg_status(m: BlockModel) -> Seq<u8> {
    ns_col(m.status)
}

pub open spec fn seg_method(m: BlockModel, q: int) -> Seq<u8> {
    varint(brotli_str(pool_text(m.method_pool), q).len() as u64) + hs_col(
        m.method_pool,
        m.method_h,
        q,
    )
}

pub open spec fn seg_uri(m: BlockModel, q: int) -> Seq<u8> {
    varint(brotli_str(pool_text(m.uri_pool), q).len() as u64) + hs_col(m.uri_pool, m.uri_h, q)
}

pub open spec fn seg_ua(m: BlockModel, q: int, v: u32) -> Seq<u8> {
    if gate_ua(v) {
        varint(brotli_str(pool_text(m.ua_pool), q).len() as u64) + hs_col(m.ua_pool, m.ua_h, q)
    } else {
        Seq::<u8>::empty()
    }
}

pub open spec fn seg_referer(m: BlockModel, q: int, v: u32) -> Seq<u8> {
    if gate_ua(v) {
        varint(brotli_str(pool_text(m.referer_pool), q).len() as u64) + hs_col(
            m.referer_pool,
            m.referer_h,
            q,
        )
    } else {
        Seq::<u8>::empty()
    }
}

pub open spec fn seg_ip(m: BlockModel) -> Seq<u8> {
    varint(m.ip_pfx.len() as u64) + hip_col(m.ip_pfx, m.ip_pidx, m.ip_sfx)
}

pub open spec fn seg_port(m: BlockModel) -> Seq<u8> {
    ns_col(m.port)
}

pub open spec fn seg_time(m: BlockModel) -> Seq<u8> {
    ts_col(m.time_off, m.time_h)
}

pub open spec fn seg_body(m: BlockModel, q: int, v: u32) -> Seq<u8> {
    if gate_body(v) {
        varint(m.body_off.len() as u64) + varint(crate::compress::brotli_of(m.body_data, q).len() as u64)
            + ds_col(m.body_data, m.body_off, m.body_h, q)
    } else {
        Seq::<u8>::empty()
    }
}

pub open spec fn seg_headers(m: BlockModel, q: int, v: u32) -> Seq<u8> {
    if gate_headers(v) {
        varint(brotli_str(pool_text(m.hdr_kp), q).len() as u64) + varint(
            brotli_str(pool_text(m.hdr_vp), q).len() as u64,
        ) + varint(m.hdr_entries.len() as u64) + sm_col(
            m.hdr_kp,
            m.hdr_vp,
            m.hdr_entries,
            m.hdr_h,
            q,
        )
    } else {
        Seq::<u8>::empty()
    }
}

pub open spec fn seg_host(m: BlockModel, q: int, v: u32) -> Seq<u8> {
    if gate_headers(v) {
        varint(brotli_str(pool_text(m.host_pool), q).len() as u64) + hs_col(
            m.host_pool,
            m.host_h,
            q,
        )
    } else {
        Seq::<u8>::empty()
    }
}

pub open spec fn seg_proto(m: BlockModel, v: u32) -> Seq<u8> {
    if gate_proto(v) {
        ns_col(m.proto)
    } else {
        Seq::<u8>::empty()
    }
}

/// Every compressed piece fits the 32-bit size descriptors of the format:
/// what a successful encode guarantees and a read-back relies on.
pub open spec fn block_sizes_ok(m: BlockModel, q: int, v: u32) -> bool {
    &&& brotli_str(pool_text(m.method_pool), q).len() <= u32::MAX
    &&& brotli_str(pool_text(m.uri_pool), q).len() <= u32::MAX
    &&& (gate_ua(v) ==> brotli_str(pool_text(m.ua_pool), q).len() <= u32::MAX)
    &&& (gate_ua(v) ==> brotli_str(pool_text(m.referer_pool), q).len() <= u32::MAX)
    &&& (gate_headers(v) ==> brotli_str(pool_text(m.hdr_kp), q).len() <= u32::MAX)
    &&& (gate_headers(v) ==> brotli_str(pool_text(m.hdr_vp), q).len() <= u32::MAX)
    &&& (gate_headers(v) ==> brotli_str(pool_text(m.host_pool), q).len() <= u32::MAX)
    &&& (gate_body(v) ==> crate::compress::brotli_of(m.body_data, q).len() <= u32::MAX)
}

/// The whole block body: the version and length header, the numeric
/// codec's file header, then every column section in declared order.
pub open spec fn block_bytes(m: BlockModel, q: int, v: u32) -> Seq<u8> {
    varint(v as u64) + varint(m.len() as u64) + pco_header(0) + seg_status(m) + seg_method(m, q)
        + seg_uri(m, q) + seg_ua(m, q, v) + seg_referer(m, q, v) + seg_ip(m) + seg_port(m)
        + seg_time(m) + seg_body(m, q, v) + seg_headers(m, q, v) + seg_host(m, q, v) + seg_proto(
        m,
        v,
    )
}

impl Builder {
    /// Encodes the block at schema version `v`: header, file header, then
    /// every column whose gate admits `v`.
    #[verifier::rlimit(100)]
    #[verifier::spinoff_prover]
    pub fn write_to_version(&self, v: u32, opt: &Options, out: &mut Vec<u8>) -> (r: Result<
        (),
        EncodeError,
    >)
        requires
            self@.wf(),
            v <= SHEMA_VERSION,
        ensures
            (self@.encodable() && block_sizes_ok(self@, opt.brotli_level as int, v)) ==> r is Ok,
            match r {
                Ok(()) => final(out)@ == old(out)@ + block_bytes(
                    self@,
                    opt.brotli_level as int,
                    v,
                ) && block_sizes_ok(self@, opt.brotli_level as int, v),
                Err(_) => true,
            },
    {
        let ghost q = opt.brotli_level as int;
        let ghost m = self@;
        match self.write_front(v, opt, out) {
            Ok(()) => {},
            Err(e) => {
                return Err(e);
            },
        }
        match self.write_back(v, opt, out) {
            Ok(()) => {},
            Err(e) => {
                return Err(e);
            },
        }
        proof {
            assert(out@ =~= old(out)@ + block_bytes(m, q, v));
        }
        Ok(())
    }

    /// The header and the columns of the ungated front half.
    fn write_front(&self, v: u32, opt: &Options, out: &mut Vec<u8>) -> (r: Result<
        (),
        EncodeError,
    >)
        requires
            self@.wf(),
            v <= SHEMA_VERSION,
        ensures
            (self@.encodable() && block_sizes_ok(self@, opt.brotli_level as int, v)) ==> r is Ok,
            match r {
                Ok(()) => {
                    let m = self@;
                    let q = opt.brotli_level as int;
                    &&& final(out)@ == old(out)@ + varint(v as u64) + varint(m.len() as u64)
                        + pco_header(0) + seg_status(m) + seg_method(m, q) + seg_uri(m, q)
                        + seg_ua(m, q, v) + seg_referer(m, q, v) + seg_ip(m) + seg_port(m)
                        + seg_time(m)
                    &&& brotli_str(pool_text(m.method_pool), q).len() <= u32::MAX
                    &&& brotli_str(pool_text(m.uri_pool), q).len() <= u32::MAX
                    &&& (gate_ua(v) ==> brotli_str(pool_text(m.ua_pool), q).len() <= u32::MAX)
                    &&& (gate_ua(v) ==> brotli_str(pool_text(m.referer_pool), q).len()
                        <= u32::MAX)
                },
                Err(_) => true,
            },
    {
        let ghost q = opt.brotli_level as int;
        let ghost m = self@;
        crate::varint::encode_u64_varint(v as u64, out);
        crate::varint::encode_u64_varint(self.status.len() as u64, out);
        match pco_write_header(out) {
            Ok(()) => {},
            Err(e) => {
                return Err(e);
            },
        }
        let ghost c0 = old(out)@ + varint(v as u64) + varint(m.len() as u64) + pco_header(0);
        proof {
            assert(out@ =~= c0);
        }
        match self.status_codec.write(self.status.as_slice(), out) {
            Ok(()) => {},
            Err(e) => {
                return Err(e);
            },
        }
        let ghost c1 = c0 + seg_status(m);
        proof {
            assert(out@ =~= c1);
        }
        let mut tmp: Vec<u8> = Vec::new();
        let msz = match self.method.write(self.method_h.as_slice(), opt, &mut tmp) {
            Ok(sz) => sz,
            Err(e) => {
                return Err(e);
            },
        };
        crate::varint::encode_u64_varint(msz as u64, out);
        out.append(&mut tmp);
        let ghost c2 = c1 + seg_method(m, q);
        proof {
            assert(out@ =~= c2);
        }
        let mut tmp: Vec<u8> = Vec::new();
        let usz = match self.uri.write(self.uri_h.as_slice(), opt, &mut tmp) {
            Ok(sz) => sz,
            Err(e) => {
                return Err(e);
            },
        };
        crate::varint::encode_u64_varint(usz as u64, out);
        out.append(&mut tmp);
        let ghost c3 = c2 + seg_uri(m, q);
        proof {
            assert(out@ =~= c3);
        }
        if v <= 2 {
            let mut tmp: Vec<u8> = Vec::new();
            let sz = match self.ua.write(self.ua_h.as_slice(), opt, &mut tmp) {
                Ok(sz) => sz,
                Err(e) => {
                    return Err(e);
                },
            };
            crate::varint::encode_u64_varint(sz as u64, out);
            out.append(&mut tmp);
            let mut tmp: Vec<u8> = Vec::new();
            let sz = match self.referer.write(self.referer_h.as_slice(), opt, &mut tmp) {
                Ok(sz) => sz,
                Err(e) => {
                    return Err(e);
                },
            };
            crate::varint::encode_u64_varint(sz as u64, out);
            out.append(&mut tmp);
        }
        let ghost c5 = c3 + seg_ua(m, q, v) + seg_referer(m, q, v);
        proof {
            assert(out@ =~= c5);
        }
        let mut tmp: Vec<u8> = Vec::new();
        let psz = match self.ip.write(
            self.ip_pidx.as_slice(),
            self.ip_sfx.as_slice(),
            &mut tmp,
        ) {
            Ok(sz) => sz,
            Err(e) => {
                return Err(e);
            },
        };
        crate::varint::encode_u64_varint(psz as u64, out);
        out.append(&mut tmp);
        let ghost c6 = c5 + seg_ip(m);
        proof {
            assert(out@ =~= c6);
        }
        match self.port_codec.write(self.port.as_slice(), out) {
            Ok(()) => {},
            Err(e) => {
                return Err(e);
            },
        }
        match self.time.write(self.time_h.as_slice(), out) {
            Ok(()) => {},
            Err(e) => {
                return Err(e);
            },
        }
        let ghost c8 = c6 + seg_port(m) + seg_time(m);
        proof {
            assert(out@ =~= c8);
        }
        Ok(())
    }

    /// The gated back half: body, headers, host, protocol.
    fn write_back(&self, v: u32, opt: &Options, out: &mut Vec<u8>) -> (r: Result<
        (),
        EncodeError,
    >)
        requires
            self@.wf(),
            v <= SHEMA_VERSION,
        ensures
            (self@.encodable() && block_sizes_ok(self@, opt.brotli_level as int, v)) ==> r is Ok,
            match r {
                Ok(()) => {
                    let m = self@;
                    let q = opt.brotli_level as int;
                    &&& final(out)@ == old(out)@ + seg_body(m, q, v) + seg_headers(m, q, v)
                        + seg_host(m, q, v) + seg_proto(m, v)
                    &&& (gate_headers(v) ==> brotli_str(pool_text(m.hdr_kp), q).len()
                        <= u32::MAX)
                    &&& (gate_headers(v) ==> brotli_str(pool_text(m.hdr_vp), q).len()
                        <= u32::MAX)
                    &&& (gate_headers(v) ==> brotli_str(pool_text(m.host_pool), q).len()
                        <= u32::MAX)
                    &&& (gate_body(v) ==> crate::compress::brotli_of(m.body_data, q).len()
                        <= u32::MAX)
                },
                Err(_) => true,
            },
    {
        let ghost q = opt.brotli_level as int;
        let ghost m = self@;
        let ghost c8 = old(out)@;
        if v >= 2 {
            let mut tmp: Vec<u8> = Vec::new();
            let (osz, csz) = match self.body.write(self.body_h.as_slice(), opt, &mut tmp) {
                Ok(p) => p,
                Err(e) => {
                    return Err(e);
                },
            };
            crate::varint::encode_u64_varint(osz as u64, out);
            crate::varint::encode_u64_varint(csz as u64, out);
            out.append(&mut tmp);
        }
        let ghost c9 = c8 + seg_body(m, q, v);
        proof {
            assert(out@ =~= c9);
        }
        if v >= 3 {
            let mut tmp: Vec<u8> = Vec::new();
            let (ksz, vsz, ne) = match self.headers.write(self.headers_h.as_slice(), opt, &mut tmp)
                {
                Ok(p) => p,
                Err(e) => {
                    return Err(e);
                },
            };
            crate::varint::encode_u64_varint(ksz as u64, out);
            crate::varint::encode_u64_varint(vsz as u64, out);
            crate::varint::encode_u64_varint(ne as u64, out);
            out.append(&mut tmp);
            let mut tmp: Vec<u8> = Vec::new();
            let hsz = match self.host.write(self.host_h.as_slice(), opt, &mut tmp) {
                Ok(sz) => sz,
                Err(e) => {
                    return Err(e);
                },
            };
            crate::varint::encode_u64_varint(hsz as u64, out);
            out.append(&mut tmp);
        }
        let ghost c11 = c9 + seg_headers(m, q, v) + seg_host(m, q, v);
        proof {
            assert(out@ =~= c11);
        }
        if v >= 4 {
            match self.proto_codec.write(self.proto.as_slice(), out) {
                Ok(()) => {},
                Err(e) => {
                    return Err(e);
                },
            }
        }
        proof {
            assert(out@ =~= c11 + seg_proto(m, v));
        }
        Ok(())
    }

    /// Encodes the block at the compiled schema version.
    pub fn write_to(&self, opt: &Options, out: &mut Vec<u8>) -> (r: Result<(), EncodeError>)
        requires
            self@.wf(),
        ensures
            (self@.encodable() && block_sizes_ok(
                self@,
                opt.brotli_level as int,
                SHEMA_VERSION,
            )) ==> r is Ok,
            match r {
                Ok(()) => final(out)@ == old(out)@ + block_bytes(
                    self@,
                    opt.brotli_level as int,
                    SHEMA_VERSION,
                ) && block_sizes_ok(self@, opt.brotli_level as int, SHEMA_VERSION),
                Err(_) => true,
            },
    {
        self.write_to_version(SHEMA_VERSION, opt, out)
    }
}


/// The front half of the body: the ungated columns.
pub open spec fn front_bytes(m: BlockModel, q: int, v: u32) -> Seq<u8> {
    seg_status(m) + seg_method(m, q) + seg_uri(m, q) + seg_ua(m, q, v) + seg_referer(m, q, v)
        + seg_ip(m) + seg_port(m) + seg_time(m)
}

/// The back half of the body: the gated columns.
pub open spec fn back_bytes(m: BlockModel, q: int, v: u32) -> Seq<u8> {
    seg_body(m, q, v) + seg_headers(m, q, v) + seg_host(m, q, v) + seg_proto(m, v)
}

/// The decode hypothesis: some well-formed, encodable block of an accepted
/// version begins the input.
pub open spec fn block_hyp(iv: Seq<u8>, m: BlockModel, q: int, v: u32) -> bool {
    &&& m.wf()
    &&& block_sizes_ok(m, q, v)
    &&& v <= SHEMA_VERSION
    &&& starts_with(iv, block_bytes(m, q, v))
}

/// What decoding an encoded block restores: the same columns, with every
/// string pool normalized by the split of its pool text, and every column
/// outside the version's gate at its default.
pub open spec fn decoded_model(m: BlockModel, v: u32) -> BlockModel {
    let zeros = Seq::new(m.len(), |i: int| 0u32);
    BlockModel {
        status: m.status,
        method_pool: pool_norm(m.method_pool),
        method_h: m.method_h,
        uri_pool: pool_norm(m.uri_pool),
        uri_h: m.uri_h,
        ua_pool: if gate_ua(v) {
            pool_norm(m.ua_pool)
        } else {
            Seq::<Seq<char>>::empty()
        },
        ua_h: if gate_ua(v) {
            m.ua_h
        } else {
            zeros
        },
        referer_pool: if gate_ua(v) {
            pool_norm(m.referer_pool)
        } else {
            Seq::<Seq<char>>::empty()
        },
        referer_h: if gate_ua(v) {
            m.referer_h
        } else {
            zeros
        },
        ip_pfx: m.ip_pfx,
        ip_pidx: m.ip_pidx,
        ip_sfx: m.ip_sfx,
        port: m.port,
        time_off: m.time_off,
        time_h: m.time_h,
        body_data: if gate_body(v) {
            m.body_data
        } else {
            Seq::<u8>::empty()
        },
        body_off: if gate_body(v) {
            m.body_off
        } else {
            Seq::<u32>::empty()
        },
        body_h: if gate_body(v) {
            m.body_h
        } else {
            zeros
        },
        hdr_kp: if gate_headers(v) {
            pool_norm(m.hdr_kp)
        } else {
            Seq::<Seq<char>>::empty()
        },
        hdr_vp: if gate_headers(v) {
            pool_norm(m.hdr_vp)
        } else {
            Seq::<Seq<char>>::empty()
        },
        hdr_entries: if gate_headers(v) {
            m.hdr_entries
        } else {
            Seq::<Seq<(u32, u32)>>::empty()
        },
        hdr_h: if gate_headers(v) {
            m.hdr_h
        } else {
            zeros
        },
        host_pool: if gate_headers(v) {
            pool_norm(m.host_pool)
        } else {
            seq![Seq::<char>::empty()]
        },
        host_h: if gate_headers(v) {
            m.host_h
        } else {
            zeros
        },
        proto: if gate_proto(v) {
            m.proto
        } else {
            Seq::new(m.len(), |i: int| 0u16)
        },
    }
}

/// A record as an old version keeps it: every field outside the version's
/// gate at its default.
pub open spec fn spec_gated(e: Record, v: u32) -> Record {
    Record {
        status: e.status,
        method: e.method,
        uri: e.uri,
        ua: if gate_ua(v) {
            e.ua
        } else {
            None
        },
        referer: if gate_ua(v) {
            e.referer
        } else {
            None
        },
        ip: e.ip,
        port: e.port,
        time: e.time,
        body: if gate_body(v) {
            e.body
        } else {
            None
        },
        headers: if gate_headers(v) {
            e.headers
        } else {
            Seq::<char>::empty()
        },
        host: if gate_headers(v) {
            e.host
        } else {
            Seq::<char>::empty()
        },
        proto: if gate_proto(v) {
            e.proto
        } else {
            Protocol::spec_from_code(0)
        },
    }
}

/// Decoding restores every record that the block resolves: at any version,
/// the decoded model yields the same record with every field outside the
/// version's gate at its default.
pub proof fn lemma_decoded_records(m: BlockModel, v: u32, idx: int)
    requires
        m.wf(),
        model_get(m, idx) is Some,
    ensures
        model_get(decoded_model(m, v), idx) == Some(spec_gated(model_get(m, idx)->Some_0, v)),
        decoded_model(m, v).len() == m.len(),
{
}

/// A number column of these values begins at `pos`.
pub open spec fn ns_at(
    iv: Seq<u8>,
    fd: pco::wrapped::FileDecompressor,
    pos: int,
    n: usize,
    vals: Seq<u16>,
) -> bool {
    &&& vals.len() == n
    &&& pco_version_of(fd) == 0
    &&& 0 <= pos <= iv.len()
    &&& starts_with(iv.skip(pos), ns_col(vals))
}

/// A time column of this base and these handles begins at `pos`.
pub open spec fn ts_at(
    iv: Seq<u8>,
    fd: pco::wrapped::FileDecompressor,
    pos: int,
    n: usize,
    off: u64,
    handles: Seq<u32>,
) -> bool {
    &&& handles.len() == n
    &&& pco_version_of(fd) == 0
    &&& 0 <= pos <= iv.len()
    &&& starts_with(iv.skip(pos), ts_col(off, handles))
}

/// A sized dictionary column of this pool and these handles begins at
/// `pos`: its pool-size varint, then the column.
pub open spec fn hs_at(
    iv: Seq<u8>,
    fd: pco::wrapped::FileDecompressor,
    pos: int,
    n: usize,
    pool: Seq<Seq<char>>,
    handles: Seq<u32>,
    q: int,
) -> bool {
    &&& pool_wf(pool)
    &&& handles.len() == n
    &&& pco_version_of(fd) == 0
    &&& brotli_str(pool_text(pool), q).len() <= u32::MAX
    &&& 0 <= pos <= iv.len()
    &&& starts_with(
        iv.skip(pos),
        varint(brotli_str(pool_text(pool), q).len() as u64) + hs_col(pool, handles, q),
    )
}

/// An address column of these prefixes and handles begins at `pos`: the
/// prefix-count varint, then the column.
pub open spec fn ip_at(
    iv: Seq<u8>,
    fd: pco::wrapped::FileDecompressor,
    pos: int,
    n: usize,
    pfx: Seq<(u32, u32, u32)>,
    pidx: Seq<u32>,
    sfx: Seq<u32>,
) -> bool {
    &&& pidx.len() == n
    &&& sfx.len() == n
    &&& pfx.len() <= u32::MAX
    &&& pco_version_of(fd) == 0
    &&& 0 <= pos <= iv.len()
    &&& starts_with(iv.skip(pos), varint(pfx.len() as u64) + hip_col(pfx, pidx, sfx))
}

/// A blob column of this buffer, offsets and handles begins at `pos`: its
/// two size varints, then the column.
pub open spec fn ds_at(
    iv: Seq<u8>,
    fd: pco::wrapped::FileDecompressor,
    pos: int,
    n: usize,
    data: Seq<u8>,
    off: Seq<u32>,
    handles: Seq<u32>,
    q: int,
) -> bool {
    &&& handles.len() == n
    &&& ds_wf(data, off)
    &&& off.len() <= u32::MAX
    &&& crate::compress::brotli_of(data, q).len() <= u32::MAX
    &&& pco_version_of(fd) == 0
    &&& 0 <= pos <= iv.len()
    &&& starts_with(
        iv.skip(pos),
        varint(off.len() as u64) + varint(crate::compress::brotli_of(data, q).len() as u64)
            + ds_col(data, off, handles, q),
    )
}

/// A header-map column of these pools, entries and handles begins at `pos`:
/// its three size varints, then the column.
pub open spec fn sm_at(
    iv: Seq<u8>,
    fd: pco::wrapped::FileDecompressor,
    pos: int,
    n: usize,
    kp: Seq<Seq<char>>,
    vp: Seq<Seq<char>>,
    entries: Seq<Seq<(u32, u32)>>,
    handles: Seq<u32>,
    q: int,
) -> bool {
    &&& handles.len() == n
    &&& entries.len() <= n
    &&& sm_wf(entries)
    &&& pool_wf(kp)
    &&& pool_wf(vp)
    &&& concat_keys(entries).len() <= usize::MAX
    &&& pco_version_of(fd) == 0
    &&& brotli_str(pool_text(kp), q).len() <= u32::MAX
    &&& brotli_str(pool_text(vp), q).len() <= u32::MAX
    &&& 0 <= pos <= iv.len()
    &&& starts_with(
        iv.skip(pos),
        varint(brotli_str(pool_text(kp), q).len() as u64) + varint(
            brotli_str(pool_text(vp), q).len() as u64,
        ) + varint(entries.len() as u64) + sm_col(kp, vp, entries, handles, q),
    )
}

/// A varint at the head of a composite segment.
pub proof fn lemma_varint_head(ivs: Seq<u8>, x: u64, tail: Seq<u8>)
    requires
        starts_with(ivs, varint(x) + tail),
    ensures
        starts_with_varint(ivs, x),
        starts_with(ivs.skip(varint(x).len() as int), tail),
{
    lemma_chop(ivs, varint(x) + tail, varint(x).len() as int);
    assert((varint(x) + tail).take(varint(x).len() as int) =~= varint(x));
    assert((varint(x) + tail).skip(varint(x).len() as int) =~= tail);
    assert(ivs.take(varint(x).len() as int) =~= varint(x));
}

/// Reads one number column at `pos`.
fn read_ns_col(
    fd: &pco::wrapped::FileDecompressor,
    data: &[u8],
    pos: usize,
    n: usize,
) -> (r: Result<(Vec<u16>, usize), DecodeError>)
    requires
        pos <= data@.len(),
    ensures
        match r {
            Ok((vals, end)) => vals@.len() == n && pos <= end <= data@.len(),
            Err(_) => true,
        },
        forall|vals: Seq<u16>|
            #[trigger] ns_at(data@, *fd, pos as int, n, vals) ==> r is Ok && r->Ok_0.0@ == vals
                && r->Ok_0.1 == pos + ns_col(vals).len(),
{
    let rest = vstd::slice::slice_subrange(data, pos, data.len());
    proof {
        assert forall|vals: Seq<u16>|
            #[trigger] ns_at(data@, *fd, pos as int, n, vals) implies crate::types::ns_hyp(
            rest@,
            *fd,
            n,
            vals,
        ) by {
            assert(rest@ == data@.skip(pos as int));
        }
    }
    match NumberSeries::read(fd, rest, n) {
        Ok((_, vals, used)) => Ok((vals, pos + used)),
        Err(e) => Err(e),
    }
}

/// Reads the time column at `pos`.
fn read_ts_col(
    fd: &pco::wrapped::FileDecompressor,
    data: &[u8],
    pos: usize,
    n: usize,
) -> (r: Result<(TimeSeries, Vec<u32>, usize), DecodeError>)
    requires
        pos <= data@.len(),
    ensures
        match r {
            Ok((ts, handles, end)) => handles@.len() == n && pos <= end <= data@.len(),
            Err(_) => true,
        },
        forall|off: u64, handles: Seq<u32>|
            #[trigger] ts_at(data@, *fd, pos as int, n, off, handles) ==> r is Ok && r->Ok_0.0@
                == off && r->Ok_0.1@ == handles && r->Ok_0.2 == pos + ts_col(off, handles).len(),
{
    let rest = vstd::slice::slice_subrange(data, pos, data.len());
    proof {
        assert forall|off: u64, handles: Seq<u32>|
            #[trigger] ts_at(data@, *fd, pos as int, n, off, handles) implies crate::types::ts_hyp(
            rest@,
            *fd,
            n,
            off,
            handles,
        ) by {
            assert(rest@ == data@.skip(pos as int));
        }
    }
    match TimeSeries::read(fd, rest, n) {
        Ok((ts, handles, used)) => Ok((ts, handles, pos + used)),
        Err(e) => Err(e),
    }
}

/// Reads the compressed pool size descriptor and one string-dictionary
/// column starting at `pos`: the reverse of one dictionary write.
fn read_hs_col(
    fd: &pco::wrapped::FileDecompressor,
    data: &[u8],
    pos: usize,
    n: usize,
) -> (r: Result<(HashStrings, Vec<u32>, usize), DecodeError>)
    requires
        pos <= data@.len(),
    ensures
        match r {
            Ok((pool, handles, end)) => handles@.len() == n && pos < end <= data@.len()
                && pool_wf(pool@) && pool@.len() >= 1,
            Err(_) => true,
        },
        forall|pool: Seq<Seq<char>>, handles: Seq<u32>, q: int|
            #[trigger] hs_at(data@, *fd, pos as int, n, pool, handles, q) ==> r is Ok
                && r->Ok_0.0@ == pool_norm(pool) && r->Ok_0.1@ == handles && r->Ok_0.2 == pos
                + varint(brotli_str(pool_text(pool), q).len() as u64).len() + hs_col(
                pool,
                handles,
                q,
            ).len(),
{
    let (sz64, p1) = match crate::varint::decode_u64_varint(data, pos) {
        Ok(p) => p,
        Err(e) => {
            proof {
                assert forall|pool: Seq<Seq<char>>, handles: Seq<u32>, q: int|
                    !hs_at(data@, *fd, pos as int, n, pool, handles, q) by {
                    if hs_at(data@, *fd, pos as int, n, pool, handles, q) {
                        lemma_varint_head(
                            data@.skip(pos as int),
                            brotli_str(pool_text(pool), q).len() as u64,
                            hs_col(pool, handles, q),
                        );
                    }
                }
            }
            return Err(e);
        },
    };
    proof {
        assert forall|pool: Seq<Seq<char>>, handles: Seq<u32>, q: int|
            #[trigger] hs_at(data@, *fd, pos as int, n, pool, handles, q) implies sz64 == brotli_str(
            pool_text(pool),
            q,
        ).len() && p1 == pos + varint(sz64).len() by {
            lemma_varint_head(
                data@.skip(pos as int),
                brotli_str(pool_text(pool), q).len() as u64,
                hs_col(pool, handles, q),
            );
            assert(starts_with_varint(data@.skip(pos as int), sz64)) by {
                assert(data@.subrange(pos as int, p1 as int) == varint(sz64));
                assert(data@.skip(pos as int).take(varint(sz64).len() as int) =~= varint(sz64));
            }
            crate::varint::lemma_varint_prefix_unique(
                data@.skip(pos as int),
                brotli_str(pool_text(pool), q).len() as u64,
                sz64,
            );
        }
    }
    if sz64 > u32::MAX as u64 {
        return Err(DecodeError::Malformed);
    }
    let rest = vstd::slice::slice_subrange(data, p1, data.len());
    proof {
        assert forall|pool: Seq<Seq<char>>, handles: Seq<u32>, q: int|
            #[trigger] hs_at(data@, *fd, pos as int, n, pool, handles, q) implies crate::types::hs_hyp(
            rest@,
            *fd,
            n,
            sz64 as u32,
            pool,
            handles,
            q,
        ) by {
            lemma_varint_head(
                data@.skip(pos as int),
                brotli_str(pool_text(pool), q).len() as u64,
                hs_col(pool, handles, q),
            );
            assert(rest@ =~= data@.skip(pos as int).skip(varint(sz64).len() as int));
        }
    }
    match HashStrings::read(fd, rest, n, sz64 as u32) {
        Ok((hs, handles, used)) => Ok((hs, handles, p1 + used)),
        Err(e) => Err(e),
    }
}

/// Reads the prefix-count varint and the address column at `pos`.
fn read_ip_col(
    fd: &pco::wrapped::FileDecompressor,
    data: &[u8],
    pos: usize,
    n: usize,
) -> (r: Result<(HashIpv6, Vec<u32>, Vec<u32>, usize), DecodeError>)
    requires
        pos <= data@.len(),
    ensures
        match r {
            Ok((hip, pidx, sfx, end)) => pidx@.len() == n && sfx@.len() == n && pos < end
                <= data@.len() && hip@.len() <= u32::MAX,
            Err(_) => true,
        },
        forall|pfx: Seq<(u32, u32, u32)>, pidx: Seq<u32>, sfx: Seq<u32>|
            #[trigger] ip_at(data@, *fd, pos as int, n, pfx, pidx, sfx) ==> r is Ok
                && r->Ok_0.0@ == pfx && r->Ok_0.1@ == pidx && r->Ok_0.2@ == sfx && r->Ok_0.3
                == pos + varint(pfx.len() as u64).len() + hip_col(pfx, pidx, sfx).len(),
{
    let (psz64, p1) = match crate::varint::decode_u64_varint(data, pos) {
        Ok(p) => p,
        Err(e) => {
            proof {
                assert forall|pfx: Seq<(u32, u32, u32)>, pidx: Seq<u32>, sfx: Seq<u32>|
                    !ip_at(data@, *fd, pos as int, n, pfx, pidx, sfx) by {
                    if ip_at(data@, *fd, pos as int, n, pfx, pidx, sfx) {
                        lemma_varint_head(
                            data@.skip(pos as int),
                            pfx.len() as u64,
                            hip_col(pfx, pidx, sfx),
                        );
                    }
                }
            }
            return Err(e);
        },
    };
    proof {
        assert forall|pfx: Seq<(u32, u32, u32)>, pidx: Seq<u32>, sfx: Seq<u32>|
            #[trigger] ip_at(data@, *fd, pos as int, n, pfx, pidx, sfx) implies psz64 == pfx.len() && p1
            == pos + varint(psz64).len() by {
            lemma_varint_head(data@.skip(pos as int), pfx.len() as u64, hip_col(pfx, pidx, sfx));
            assert(starts_with_varint(data@.skip(pos as int), psz64)) by {
                assert(data@.subrange(pos as int, p1 as int) == varint(psz64));
                assert(data@.skip(pos as int).take(varint(psz64).len() as int) =~= varint(psz64));
            }
            crate::varint::lemma_varint_prefix_unique(
                data@.skip(pos as int),
                pfx.len() as u64,
                psz64,
            );
        }
    }
    if psz64 > u32::MAX as u64 {
        return Err(DecodeError::Malformed);
    }
    let rest = vstd::slice::slice_subrange(data, p1, data.len());
    proof {
        assert forall|pfx: Seq<(u32, u32, u32)>, pidx: Seq<u32>, sfx: Seq<u32>|
            #[trigger] ip_at(data@, *fd, pos as int, n, pfx, pidx, sfx) implies crate::types::hip_hyp(
            rest@,
            *fd,
            n,
            psz64 as u32,
            pfx,
            pidx,
            sfx,
        ) by {
            lemma_varint_head(data@.skip(pos as int), pfx.len() as u64, hip_col(pfx, pidx, sfx));
            assert(rest@ =~= data@.skip(pos as int).skip(varint(psz64).len() as int));
        }
    }
    match HashIpv6::read(fd, rest, n, psz64 as u32) {
        Ok((hip, pidx, sfx, used)) => Ok((hip, pidx, sfx, p1 + used)),
        Err(e) => Err(e),
    }
}

/// Reads the two size varints and the blob column at `pos`.
fn read_ds_col(
    fd: &pco::wrapped::FileDecompressor,
    data: &[u8],
    pos: usize,
    n: usize,
) -> (r: Result<(DataSeries, Vec<u32>, usize), DecodeError>)
    requires
        pos <= data@.len(),
    ensures
        match r {
            Ok((ds, handles, end)) => handles@.len() == n && pos <= end <= data@.len() && ds_wf(
                ds@.0,
                ds@.1,
            ) && ds@.1.len() <= u32::MAX,
            Err(_) => true,
        },
        forall|dv: Seq<u8>, off: Seq<u32>, handles: Seq<u32>, q: int|
            #[trigger] ds_at(data@, *fd, pos as int, n, dv, off, handles, q) ==> r is Ok
                && r->Ok_0.0@ == (dv, off) && r->Ok_0.1@ == handles && r->Ok_0.2 == pos + varint(
                off.len() as u64,
            ).len() + varint(crate::compress::brotli_of(dv, q).len() as u64).len() + ds_col(
                dv,
                off,
                handles,
                q,
            ).len(),
{
    let (osz64, p1) = match crate::varint::decode_u64_varint(data, pos) {
        Ok(p) => p,
        Err(e) => {
            proof {
                assert forall|dv: Seq<u8>, off: Seq<u32>, hd: Seq<u32>, q: int|
                    !ds_at(data@, *fd, pos as int, n, dv, off, hd, q) by {
                    if ds_at(data@, *fd, pos as int, n, dv, off, hd, q) {
                        ds_at_heads(data@, *fd, pos as int, n, dv, off, hd, q);
                    }
                }
            }
            return Err(e);
        },
    };
    let (csz64, p2) = match crate::varint::decode_u64_varint(data, p1) {
        Ok(p) => p,
        Err(e) => {
            proof {
                assert forall|dv: Seq<u8>, off: Seq<u32>, hd: Seq<u32>, q: int|
                    !ds_at(data@, *fd, pos as int, n, dv, off, hd, q) by {
                    if ds_at(data@, *fd, pos as int, n, dv, off, hd, q) {
                        ds_at_heads(data@, *fd, pos as int, n, dv, off, hd, q);
                        assert(starts_with_varint(data@.skip(pos as int), osz64)) by {
                            assert(data@.subrange(pos as int, p1 as int) == varint(osz64));
                            assert(data@.skip(pos as int).take(varint(osz64).len() as int)
                                =~= varint(osz64));
                        }
                        crate::varint::lemma_varint_prefix_unique(
                            data@.skip(pos as int),
                            off.len() as u64,
                            osz64,
                        );
                    }
                }
            }
            return Err(e);
        },
    };
    proof {
        assert forall|dv: Seq<u8>, off: Seq<u32>, hd: Seq<u32>, q: int|
            #[trigger] ds_at(data@, *fd, pos as int, n, dv, off, hd, q) implies osz64 == off.len() && csz64
            == crate::compress::brotli_of(dv, q).len() && p1 == pos + varint(osz64).len() && p2
            == p1 + varint(csz64).len() by {
            ds_at_heads(data@, *fd, pos as int, n, dv, off, hd, q);
            assert(starts_with_varint(data@.skip(pos as int), osz64)) by {
                assert(data@.subrange(pos as int, p1 as int) == varint(osz64));
                assert(data@.skip(pos as int).take(varint(osz64).len() as int) =~= varint(osz64));
            }
            crate::varint::lemma_varint_prefix_unique(
                data@.skip(pos as int),
                off.len() as u64,
                osz64,
            );
            assert(starts_with_varint(data@.skip(p1 as int), csz64)) by {
                assert(data@.subrange(p1 as int, p2 as int) == varint(csz64));
                assert(data@.skip(p1 as int).take(varint(csz64).len() as int) =~= varint(csz64));
            }
            crate::varint::lemma_varint_prefix_unique(
                data@.skip(p1 as int),
                crate::compress::brotli_of(dv, q).len() as u64,
                csz64,
            );
        }
    }
    if osz64 > u32::MAX as u64 || csz64 > u32::MAX as u64 {
        return Err(DecodeError::Malformed);
    }
    let rest = vstd::slice::slice_subrange(data, p2, data.len());
    proof {
        assert forall|dv: Seq<u8>, off: Seq<u32>, hd: Seq<u32>, q: int|
            #[trigger] ds_at(data@, *fd, pos as int, n, dv, off, hd, q) implies crate::types::ds_hyp(
            rest@,
            *fd,
            n,
            osz64 as u32,
            csz64 as u32,
            dv,
            off,
            hd,
            q,
        ) by {
            ds_at_heads(data@, *fd, pos as int, n, dv, off, hd, q);
            assert(rest@ =~= data@.skip(p1 as int).skip(varint(csz64).len() as int));
        }
    }
    match DataSeries::read(fd, rest, n, osz64 as u32, csz64 as u32) {
        Ok((ds, handles, used)) => Ok((ds, handles, p2 + used)),
        Err(e) => Err(e),
    }
}

/// The two varints of a blob column sit at its head, the column after them.
proof fn ds_at_heads(
    iv: Seq<u8>,
    fd: pco::wrapped::FileDecompressor,
    pos: int,
    n: usize,
    dv: Seq<u8>,
    off: Seq<u32>,
    hd: Seq<u32>,
    q: int,
)
    requires
        ds_at(iv, fd, pos, n, dv, off, hd, q),
    ensures
        starts_with_varint(iv.skip(pos), off.len() as u64),
        starts_with(
            iv.skip(pos).skip(varint(off.len() as u64).len() as int),
            varint(crate::compress::brotli_of(dv, q).len() as u64) + ds_col(dv, off, hd, q),
        ),
        starts_with_varint(
            iv.skip(pos + varint(off.len() as u64).len()),
            crate::compress::brotli_of(dv, q).len() as u64,
        ),
        starts_with(
            iv.skip(
                pos + varint(off.len() as u64).len() + varint(
                    crate::compress::brotli_of(dv, q).len() as u64,
                ).len(),
            ),
            ds_col(dv, off, hd, q),
        ),
{
    let o = off.len() as u64;
    let c = crate::compress::brotli_of(dv, q).len() as u64;
    let dsc = ds_col(dv, off, hd, q);
    assert(varint(o) + varint(c) + dsc =~= varint(o) + (varint(c) + dsc));
    lemma_varint_head(iv.skip(pos), o, varint(c) + dsc);
    assert(iv.skip(pos).skip(varint(o).len() as int) =~= iv.skip(pos + varint(o).len()));
    lemma_varint_head(iv.skip(pos + varint(o).len()), c, dsc);
    assert(iv.skip(pos + varint(o).len()).skip(varint(c).len() as int) =~= iv.skip(
        pos + varint(o).len() + varint(c).len(),
    ));
}

/// Reads the three size varints and the header-map column at `pos`.
fn read_sm_col(
    fd: &pco::wrapped::FileDecompressor,
    data: &[u8],
    pos: usize,
    n: usize,
) -> (r: Result<(StringMap, Vec<u32>, usize), DecodeError>)
    requires
        pos <= data@.len(),
        n <= u32::MAX,
    ensures
        match r {
            Ok((sm, handles, end)) => {
                &&& handles@.len() == n
                &&& pos <= end <= data@.len()
                &&& pool_wf(sm@.0)
                &&& pool_wf(sm@.1)
                &&& sm@.0.len() >= 1
                &&& sm@.1.len() >= 1
                &&& sm_wf(sm@.2)
                &&& sm@.2.len() <= n
                &&& concat_keys(sm@.2).len() <= usize::MAX
            },
            Err(_) => true,
        },
        forall|
            kp: Seq<Seq<char>>,
            vp: Seq<Seq<char>>,
            entries: Seq<Seq<(u32, u32)>>,
            handles: Seq<u32>,
            q: int,
        |
            #[trigger] sm_at(data@, *fd, pos as int, n, kp, vp, entries, handles, q) ==> r is Ok
                && r->Ok_0.0@.0 == pool_norm(kp) && r->Ok_0.0@.1 == pool_norm(vp) && r->Ok_0.0@.2
                == entries && r->Ok_0.1@ == handles && r->Ok_0.2 == pos + varint(
                brotli_str(pool_text(kp), q).len() as u64,
            ).len() + varint(brotli_str(pool_text(vp), q).len() as u64).len() + varint(
                entries.len() as u64,
            ).len() + sm_col(kp, vp, entries, handles, q).len(),
{
    let (ksz64, p1) = match crate::varint::decode_u64_varint(data, pos) {
        Ok(p) => p,
        Err(e) => {
            proof {
                assert forall|
                    kp: Seq<Seq<char>>,
                    vp: Seq<Seq<char>>,
                    ev: Seq<Seq<(u32, u32)>>,
                    hd: Seq<u32>,
                    q: int,
                | !sm_at(data@, *fd, pos as int, n, kp, vp, ev, hd, q) by {
                    if sm_at(data@, *fd, pos as int, n, kp, vp, ev, hd, q) {
                        sm_at_heads(data@, *fd, pos as int, n, kp, vp, ev, hd, q);
                    }
                }
            }
            return Err(e);
        },
    };
    let (vsz64, p2) = match crate::varint::decode_u64_varint(data, p1) {
        Ok(p) => p,
        Err(e) => {
            proof {
                assert forall|
                    kp: Seq<Seq<char>>,
                    vp: Seq<Seq<char>>,
                    ev: Seq<Seq<(u32, u32)>>,
                    hd: Seq<u32>,
                    q: int,
                | !sm_at(data@, *fd, pos as int, n, kp, vp, ev, hd, q) by {
                    if sm_at(data@, *fd, pos as int, n, kp, vp, ev, hd, q) {
                        sm_at_heads(data@, *fd, pos as int, n, kp, vp, ev, hd, q);
                        sm_pin_first(data@, pos as int, p1 as int, ksz64, kp, q);
                    }
                }
            }
            return Err(e);
        },
    };
    let (ne64, p3) = match crate::varint::decode_u64_varint(data, p2) {
        Ok(p) => p,
        Err(e) => {
            proof {
                assert forall|
                    kp: Seq<Seq<char>>,
                    vp: Seq<Seq<char>>,
                    ev: Seq<Seq<(u32, u32)>>,
                    hd: Seq<u32>,
                    q: int,
                | !sm_at(data@, *fd, pos as int, n, kp, vp, ev, hd, q) by {
                    if sm_at(data@, *fd, pos as int, n, kp, vp, ev, hd, q) {
                        sm_at_heads(data@, *fd, pos as int, n, kp, vp, ev, hd, q);
                        sm_pin_first(data@, pos as int, p1 as int, ksz64, kp, q);
                        sm_pin_second(data@, pos as int, p1 as int, p2 as int, vsz64, kp, vp, q);
                    }
                }
            }
            return Err(e);
        },
    };
    proof {
        assert forall|
            kp: Seq<Seq<char>>,
            vp: Seq<Seq<char>>,
            ev: Seq<Seq<(u32, u32)>>,
            hd: Seq<u32>,
            q: int,
        |
            #[trigger] sm_at(data@, *fd, pos as int, n, kp, vp, ev, hd, q) implies ksz64 == brotli_str(
            pool_text(kp),
            q,
        ).len() && vsz64 == brotli_str(pool_text(vp), q).len() && ne64 == ev.len() && p1 == pos
            + varint(ksz64).len() && p2 == p1 + varint(vsz64).len() && p3 == p2 + varint(
            ne64,
        ).len() by {
            sm_at_heads(data@, *fd, pos as int, n, kp, vp, ev, hd, q);
            sm_pin_first(data@, pos as int, p1 as int, ksz64, kp, q);
            sm_pin_second(data@, pos as int, p1 as int, p2 as int, vsz64, kp, vp, q);
            let k = brotli_str(pool_text(kp), q).len() as u64;
            let w = brotli_str(pool_text(vp), q).len() as u64;
            assert(starts_with_varint(data@.skip(p2 as int), ne64)) by {
                assert(data@.subrange(p2 as int, p3 as int) == varint(ne64));
                assert(data@.skip(p2 as int).take(varint(ne64).len() as int) =~= varint(ne64));
            }
            assert(data@.skip(p2 as int) =~= data@.skip(pos + varint(k).len() + varint(w).len()));
            crate::varint::lemma_varint_prefix_unique(
                data@.skip(p2 as int),
                ev.len() as u64,
                ne64,
            );
        }
    }
    if ksz64 > u32::MAX as u64 || vsz64 > u32::MAX as u64 || ne64 > n as u64 {
        return Err(DecodeError::Malformed);
    }
    let rest = vstd::slice::slice_subrange(data, p3, data.len());
    proof {
        assert forall|
            kp: Seq<Seq<char>>,
            vp: Seq<Seq<char>>,
            ev: Seq<Seq<(u32, u32)>>,
            hd: Seq<u32>,
            q: int,
        |
            #[trigger] sm_at(data@, *fd, pos as int, n, kp, vp, ev, hd, q) implies crate::types::sm_hyp(
            rest@,
            *fd,
            n,
            ksz64 as u32,
            vsz64 as u32,
            ne64 as u32,
            kp,
            vp,
            ev,
            hd,
            q,
        ) by {
            sm_at_heads(data@, *fd, pos as int, n, kp, vp, ev, hd, q);
            sm_pin_first(data@, pos as int, p1 as int, ksz64, kp, q);
            sm_pin_second(data@, pos as int, p1 as int, p2 as int, vsz64, kp, vp, q);
            let k = brotli_str(pool_text(kp), q).len() as u64;
            let w = brotli_str(pool_text(vp), q).len() as u64;
            assert(rest@ =~= data@.skip(pos + varint(k).len() + varint(w).len()).skip(varint(
                ne64,
            ).len() as int));
        }
    }
    match StringMap::read(fd, rest, n, ksz64 as u32, vsz64 as u32, ne64 as u32) {
        Ok((sm, handles, used)) => Ok((sm, handles, p3 + used)),
        Err(e) => Err(e),
    }
}

/// The three varints of a header-map column sit at its head.
proof fn sm_at_heads(
    iv: Seq<u8>,
    fd: pco::wrapped::FileDecompressor,
    pos: int,
    n: usize,
    kp: Seq<Seq<char>>,
    vp: Seq<Seq<char>>,
    ev: Seq<Seq<(u32, u32)>>,
    hd: Seq<u32>,
    q: int,
)
    requires
        sm_at(iv, fd, pos, n, kp, vp, ev, hd, q),
    ensures
        ({
            let k = brotli_str(pool_text(kp), q).len() as u64;
            let w = brotli_str(pool_text(vp), q).len() as u64;
            let e = ev.len() as u64;
            let smc = sm_col(kp, vp, ev, hd, q);
            &&& starts_with_varint(iv.skip(pos), k)
            &&& starts_with(iv.skip(pos + varint(k).len()), varint(w) + (varint(e) + smc))
            &&& starts_with_varint(iv.skip(pos + varint(k).len()), w)
            &&& starts_with_varint(iv.skip(pos + varint(k).len() + varint(w).len()), e)
            &&& starts_with(
                iv.skip(pos + varint(k).len() + varint(w).len() + varint(e).len()),
                smc,
            )
        }),
{
    let k = brotli_str(pool_text(kp), q).len() as u64;
    let w = brotli_str(pool_text(vp), q).len() as u64;
    let e = ev.len() as u64;
    let smc = sm_col(kp, vp, ev, hd, q);
    assert(varint(k) + varint(w) + varint(e) + smc =~= varint(k) + (varint(w) + (varint(e)
        + smc)));
    lemma_varint_head(iv.skip(pos), k, varint(w) + (varint(e) + smc));
    assert(iv.skip(pos).skip(varint(k).len() as int) =~= iv.skip(pos + varint(k).len()));
    lemma_varint_head(iv.skip(pos + varint(k).len()), w, varint(e) + smc);
    assert(iv.skip(pos + varint(k).len()).skip(varint(w).len() as int) =~= iv.skip(
        pos + varint(k).len() + varint(w).len(),
    ));
    lemma_varint_head(iv.skip(pos + varint(k).len() + varint(w).len()), e, smc);
    assert(iv.skip(pos + varint(k).len() + varint(w).len()).skip(varint(e).len() as int)
        =~= iv.skip(pos + varint(k).len() + varint(w).len() + varint(e).len()));
}

/// Decoding the first varint of a header-map column pins the key-pool size.
proof fn sm_pin_first(iv: Seq<u8>, pos: int, p1: int, ksz64: u64, kp: Seq<Seq<char>>, q: int)
    requires
        0 <= pos <= p1 <= iv.len(),
        brotli_str(pool_text(kp), q).len() <= u32::MAX,
        iv.subrange(pos, p1) == varint(ksz64),
        starts_with_varint(iv.skip(pos), brotli_str(pool_text(kp), q).len() as u64),
    ensures
        ksz64 == brotli_str(pool_text(kp), q).len(),
        p1 == pos + varint(ksz64).len(),
{
    assert(starts_with_varint(iv.skip(pos), ksz64)) by {
        assert(p1 - pos == varint(ksz64).len());
        assert forall|i: int|
            0 <= i < varint(ksz64).len() implies iv.skip(pos).take(varint(ksz64).len() as int)[i]
            == varint(ksz64)[i] by {
            assert(iv.subrange(pos, p1)[i] == varint(ksz64)[i]);
        }
        assert(iv.skip(pos).take(varint(ksz64).len() as int) =~= varint(ksz64));
    }
    crate::varint::lemma_varint_prefix_unique(
        iv.skip(pos),
        brotli_str(pool_text(kp), q).len() as u64,
        ksz64,
    );
}

/// Decoding the second varint pins the value-pool size.
proof fn sm_pin_second(
    iv: Seq<u8>,
    pos: int,
    p1: int,
    p2: int,
    vsz64: u64,
    kp: Seq<Seq<char>>,
    vp: Seq<Seq<char>>,
    q: int,
)
    requires
        0 <= pos <= p1 <= p2 <= iv.len(),
        brotli_str(pool_text(vp), q).len() <= u32::MAX,
        iv.subrange(p1, p2) == varint(vsz64),
        p1 == pos + varint(brotli_str(pool_text(kp), q).len() as u64).len(),
        starts_with_varint(
            iv.skip(pos + varint(brotli_str(pool_text(kp), q).len() as u64).len()),
            brotli_str(pool_text(vp), q).len() as u64,
        ),
    ensures
        vsz64 == brotli_str(pool_text(vp), q).len(),
        p2 == p1 + varint(vsz64).len(),
{
    assert(starts_with_varint(iv.skip(p1), vsz64)) by {
        assert(p2 - p1 == varint(vsz64).len());
        assert forall|i: int|
            0 <= i < varint(vsz64).len() implies iv.skip(p1).take(varint(vsz64).len() as int)[i]
            == varint(vsz64)[i] by {
            assert(iv.subrange(p1, p2)[i] == varint(vsz64)[i]);
        }
        assert(iv.skip(p1).take(varint(vsz64).len() as int) =~= varint(vsz64));
    }
    crate::varint::lemma_varint_prefix_unique(
        iv.skip(p1),
        brotli_str(pool_text(vp), q).len() as u64,
        vsz64,
    );
}

/// The host pool a version without a host column decodes to: handle zero
/// resolves to the empty string, the field's default.
fn default_host_pool() -> (r: HashStrings)
    ensures
        r@ == seq![Seq::<char>::empty()],
        pool_wf(r@),
{
    let mut pool: Vec<String> = Vec::new();
    pool.push(String::new());
    let r = HashStrings::from_pool(pool);
    proof {
        assert(r@ =~= seq![Seq::<char>::empty()]);
    }
    r
}

/// Zero-filled handle columns for fields outside a version's gate.
fn vec_zeros_u32(n: usize) -> (r: Vec<u32>)
    ensures
        r@ == Seq::new(n as nat, |i: int| 0u32),
{
    let mut v: Vec<u32> = Vec::new();
    let mut i: usize = 0;
    while i < n
        invariant
            i <= n,
            v@ =~= Seq::new(i as nat, |k: int| 0u32),
        decreases n - i,
    {
        v.push(0);
        proof {
            assert(v@ =~= Seq::new((i + 1) as nat, |k: int| 0u32));
        }
        i = i + 1;
    }
    proof {
        assert(v@ =~= Seq::new(n as nat, |k: int| 0u32));
    }
    v
}

fn vec_zeros_u16(n: usize) -> (r: Vec<u16>)
    ensures
        r@ == Seq::new(n as nat, |i: int| 0u16),
{
    let mut v: Vec<u16> = Vec::new();
    let mut i: usize = 0;
    while i < n
        invariant
            i <= n,
            v@ =~= Seq::new(i as nat, |k: int| 0u16),
        decreases n - i,
    {
        v.push(0);
        proof {
            assert(v@ =~= Seq::new((i + 1) as nat, |k: int| 0u16));
        }
        i = i + 1;
    }
    proof {
        assert(v@ =~= Seq::new(n as nat, |k: int| 0u16));
    }
    v
}

/// A well-formed block's front half begins at `start`.
pub open spec fn front_at(
    iv: Seq<u8>,
    fd: pco::wrapped::FileDecompressor,
    start: int,
    n: usize,
    v: u32,
    m: BlockModel,
    q: int,
) -> bool {
    &&& m.wf()
    &&& block_sizes_ok(m, q, v)
    &&& m.len() == n
    &&& pco_version_of(fd) == 0
    &&& 0 <= start <= iv.len()
    &&& starts_with(iv.skip(start), front_bytes(m, q, v))
}

/// A well-formed block's back half begins at `start`.
pub open spec fn back_at(
    iv: Seq<u8>,
    fd: pco::wrapped::FileDecompressor,
    start: int,
    n: usize,
    v: u32,
    m: BlockModel,
    q: int,
) -> bool {
    &&& m.wf()
    &&& block_sizes_ok(m, q, v)
    &&& m.len() == n
    &&& pco_version_of(fd) == 0
    &&& 0 <= start <= iv.len()
    &&& starts_with(iv.skip(start), back_bytes(m, q, v))
}

/// The front half cut at every column boundary.
pub open spec fn front_split(ivs: Seq<u8>, m: BlockModel, q: int, v: u32) -> bool {
    let o1 = seg_status(m).len() as int;
    let o2 = o1 + seg_method(m, q).len();
    let o3 = o2 + seg_uri(m, q).len();
    let o4 = o3 + seg_ua(m, q, v).len();
    let o5 = o4 + seg_referer(m, q, v).len();
    let o6 = o5 + seg_ip(m).len();
    let o7 = o6 + seg_port(m).len();
    &&& starts_with(ivs, seg_status(m))
    &&& starts_with(ivs.skip(o1), seg_method(m, q))
    &&& starts_with(ivs.skip(o2), seg_uri(m, q))
    &&& starts_with(ivs.skip(o3), seg_ua(m, q, v))
    &&& starts_with(ivs.skip(o4), seg_referer(m, q, v))
    &&& starts_with(ivs.skip(o5), seg_ip(m))
    &&& starts_with(ivs.skip(o6), seg_port(m))
    &&& starts_with(ivs.skip(o7), seg_time(m))
}

/// Chops the front half at its boundaries.
#[verifier::rlimit(100)]
#[verifier::spinoff_prover]
pub proof fn lemma_front_split(ivs: Seq<u8>, m: BlockModel, q: int, v: u32)
    requires
        starts_with(ivs, front_bytes(m, q, v)),
    ensures
        front_split(ivs, m, q, v),
{
    let s1 = seg_status(m);
    let s2 = seg_method(m, q);
    let s3 = seg_uri(m, q);
    let s4 = seg_ua(m, q, v);
    let s5 = seg_referer(m, q, v);
    let s6 = seg_ip(m);
    let s7 = seg_port(m);
    let s8 = seg_time(m);
    let whole = front_bytes(m, q, v);
    lemma_chop(ivs, whole, s1.len() as int);
    assert(whole.take(s1.len() as int) =~= s1);
    assert(whole.skip(s1.len() as int) =~= s2 + s3 + s4 + s5 + s6 + s7 + s8);
    let r1 = ivs.skip(s1.len() as int);
    lemma_chop(r1, s2 + s3 + s4 + s5 + s6 + s7 + s8, s2.len() as int);
    assert((s2 + s3 + s4 + s5 + s6 + s7 + s8).take(s2.len() as int) =~= s2);
    assert((s2 + s3 + s4 + s5 + s6 + s7 + s8).skip(s2.len() as int) =~= s3 + s4 + s5 + s6 + s7
        + s8);
    let r2 = r1.skip(s2.len() as int);
    assert(r2 =~= ivs.skip(s1.len() + s2.len() as int));
    lemma_chop(r2, s3 + s4 + s5 + s6 + s7 + s8, s3.len() as int);
    assert((s3 + s4 + s5 + s6 + s7 + s8).take(s3.len() as int) =~= s3);
    assert((s3 + s4 + s5 + s6 + s7 + s8).skip(s3.len() as int) =~= s4 + s5 + s6 + s7 + s8);
    let r3 = r2.skip(s3.len() as int);
    assert(r3 =~= ivs.skip(s1.len() + s2.len() + s3.len() as int));
    lemma_chop(r3, s4 + s5 + s6 + s7 + s8, s4.len() as int);
    assert((s4 + s5 + s6 + s7 + s8).take(s4.len() as int) =~= s4);
    assert((s4 + s5 + s6 + s7 + s8).skip(s4.len() as int) =~= s5 + s6 + s7 + s8);
    let r4 = r3.skip(s4.len() as int);
    assert(r4 =~= ivs.skip(s1.len() + s2.len() + s3.len() + s4.len() as int));
    lemma_chop(r4, s5 + s6 + s7 + s8, s5.len() as int);
    assert((s5 + s6 + s7 + s8).take(s5.len() as int) =~= s5);
    assert((s5 + s6 + s7 + s8).skip(s5.len() as int) =~= s6 + s7 + s8);
    let r5 = r4.skip(s5.len() as int);
    assert(r5 =~= ivs.skip(s1.len() + s2.len() + s3.len() + s4.len() + s5.len() as int));
    lemma_chop(r5, s6 + s7 + s8, s6.len() as int);
    assert((s6 + s7 + s8).take(s6.len() as int) =~= s6);
    assert((s6 + s7 + s8).skip(s6.len() as int) =~= s7 + s8);
    let r6 = r5.skip(s6.len() as int);
    assert(r6 =~= ivs.skip(s1.len() + s2.len() + s3.len() + s4.len() + s5.len()
        + s6.len() as int));
    lemma_chop(r6, s7 + s8, s7.len() as int);
    assert((s7 + s8).take(s7.len() as int) =~= s7);
    assert((s7 + s8).skip(s7.len() as int) =~= s8);
    let r7 = r6.skip(s7.len() as int);
    assert(r7 =~= ivs.skip(s1.len() + s2.len() + s3.len() + s4.len() + s5.len() + s6.len()
        + s7.len() as int));
}

/// The back half cut at every column boundary.
pub open spec fn back_split(ivs: Seq<u8>, m: BlockModel, q: int, v: u32) -> bool {
    let o1 = seg_body(m, q, v).len() as int;
    let o2 = o1 + seg_headers(m, q, v).len();
    let o3 = o2 + seg_host(m, q, v).len();
    &&& starts_with(ivs, seg_body(m, q, v))
    &&& starts_with(ivs.skip(o1), seg_headers(m, q, v))
    &&& starts_with(ivs.skip(o2), seg_host(m, q, v))
    &&& starts_with(ivs.skip(o3), seg_proto(m, v))
}

/// Chops the back half at its boundaries.
#[verifier::rlimit(100)]
#[verifier::spinoff_prover]
pub proof fn lemma_back_split(ivs: Seq<u8>, m: BlockModel, q: int, v: u32)
    requires
        starts_with(ivs, back_bytes(m, q, v)),
    ensures
        back_split(ivs, m, q, v),
{
    let s1 = seg_body(m, q, v);
    let s2 = seg_headers(m, q, v);
    let s3 = seg_host(m, q, v);
    let s4 = seg_proto(m, v);
    let whole = back_bytes(m, q, v);
    lemma_chop(ivs, whole, s1.len() as int);
    assert(whole.take(s1.len() as int) =~= s1);
    assert(whole.skip(s1.len() as int) =~= s2 + s3 + s4);
    let r1 = ivs.skip(s1.len() as int);
    lemma_chop(r1, s2 + s3 + s4, s2.len() as int);
    assert((s2 + s3 + s4).take(s2.len() as int) =~= s2);
    assert((s2 + s3 + s4).skip(s2.len() as int) =~= s3 + s4);
    let r2 = r1.skip(s2.len() as int);
    assert(r2 =~= ivs.skip(s1.len() + s2.len() as int));
    lemma_chop(r2, s3 + s4, s3.len() as int);
    assert((s3 + s4).take(s3.len() as int) =~= s3);
    assert((s3 + s4).skip(s3.len() as int) =~= s4);
    let r3 = r2.skip(s3.len() as int);
    assert(r3 =~= ivs.skip(s1.len() + s2.len() + s3.len() as int));
}

/// Where each front column sits, under the front hypothesis.
proof fn at_status(
    iv: Seq<u8>,
    fd: pco::wrapped::FileDecompressor,
    start: int,
    n: usize,
    v: u32,
    m: BlockModel,
    q: int,
)
    requires
        front_at(iv, fd, start, n, v, m, q),
    ensures
        ns_at(iv, fd, start, n, m.status),
{
    lemma_front_split(iv.skip(start), m, q, v);
    assert(iv.skip(start).skip(0) =~= iv.skip(start));
}

proof fn at_method(
    iv: Seq<u8>,
    fd: pco::wrapped::FileDecompressor,
    start: int,
    n: usize,
    v: u32,
    m: BlockModel,
    q: int,
)
    requires
        front_at(iv, fd, start, n, v, m, q),
    ensures
        hs_at(iv, fd, start + seg_status(m).len(), n, m.method_pool, m.method_h, q),
{
    lemma_front_split(iv.skip(start), m, q, v);
    assert(iv.skip(start + seg_status(m).len()) =~= iv.skip(start).skip(
        seg_status(m).len() as int,
    ));
}

proof fn at_uri(
    iv: Seq<u8>,
    fd: pco::wrapped::FileDecompressor,
    start: int,
    n: usize,
    v: u32,
    m: BlockModel,
    q: int,
)
    requires
        front_at(iv, fd, start, n, v, m, q),
    ensures
        hs_at(
            iv,
            fd,
            start + seg_status(m).len() + seg_method(m, q).len(),
            n,
            m.uri_pool,
            m.uri_h,
            q,
        ),
{
    lemma_front_split(iv.skip(start), m, q, v);
    assert(iv.skip(start + seg_status(m).len() + seg_method(m, q).len()) =~= iv.skip(start).skip(
        seg_status(m).len() + seg_method(m, q).len() as int,
    ));
}

proof fn at_ua(
    iv: Seq<u8>,
    fd: pco::wrapped::FileDecompressor,
    start: int,
    n: usize,
    v: u32,
    m: BlockModel,
    q: int,
)
    requires
        front_at(iv, fd, start, n, v, m, q),
        gate_ua(v),
    ensures
        hs_at(
            iv,
            fd,
            start + seg_status(m).len() + seg_method(m, q).len() + seg_uri(m, q).len(),
            n,
            m.ua_pool,
            m.ua_h,
            q,
        ),
{
    lemma_front_split(iv.skip(start), m, q, v);
    assert(iv.skip(start + seg_status(m).len() + seg_method(m, q).len() + seg_uri(m, q).len())
        =~= iv.skip(start).skip(seg_status(m).len() + seg_method(m, q).len() + seg_uri(
        m,
        q,
    ).len() as int));
}

proof fn at_referer(
    iv: Seq<u8>,
    fd: pco::wrapped::FileDecompressor,
    start: int,
    n: usize,
    v: u32,
    m: BlockModel,
    q: int,
)
    requires
        front_at(iv, fd, start, n, v, m, q),
        gate_ua(v),
    ensures
        hs_at(
            iv,
            fd,
            start + seg_status(m).len() + seg_method(m, q).len() + seg_uri(m, q).len() + seg_ua(
                m,
                q,
                v,
            ).len(),
            n,
            m.referer_pool,
            m.referer_h,
            q,
        ),
{
    lemma_front_split(iv.skip(start), m, q, v);
    assert(iv.skip(
        start + seg_status(m).len() + seg_method(m, q).len() + seg_uri(m, q).len() + seg_ua(
            m,
            q,
            v,
        ).len(),
    ) =~= iv.skip(start).skip(seg_status(m).len() + seg_method(m, q).len() + seg_uri(m, q).len()
        + seg_ua(m, q, v).len() as int));
}

proof fn at_ip(
    iv: Seq<u8>,
    fd: pco::wrapped::FileDecompressor,
    start: int,
    n: usize,
    v: u32,
    m: BlockModel,
    q: int,
)
    requires
        front_at(iv, fd, start, n, v, m, q),
    ensures
        ip_at(
            iv,
            fd,
            start + seg_status(m).len() + seg_method(m, q).len() + seg_uri(m, q).len() + seg_ua(
                m,
                q,
                v,
            ).len() + seg_referer(m, q, v).len(),
            n,
            m.ip_pfx,
            m.ip_pidx,
            m.ip_sfx,
        ),
{
    lemma_front_split(iv.skip(start), m, q, v);
    assert(iv.skip(
        start + seg_status(m).len() + seg_method(m, q).len() + seg_uri(m, q).len() + seg_ua(
            m,
            q,
            v,
        ).len() + seg_referer(m, q, v).len(),
    ) =~= iv.skip(start).skip(seg_status(m).len() + seg_method(m, q).len() + seg_uri(m, q).len()
        + seg_ua(m, q, v).len() + seg_referer(m, q, v).len() as int));
}

proof fn at_port(
    iv: Seq<u8>,
    fd: pco::wrapped::FileDecompressor,
    start: int,
    n: usize,
    v: u32,
    m: BlockModel,
    q: int,
)
    requires
        front_at(iv, fd, start, n, v, m, q),
    ensures
        ns_at(
            iv,
            fd,
            start + seg_status(m).len() + seg_method(m, q).len() + seg_uri(m, q).len() + seg_ua(
                m,
                q,
                v,
            ).len() + seg_referer(m, q, v).len() + seg_ip(m).len(),
            n,
            m.port,
        ),
{
    lemma_front_split(iv.skip(start), m, q, v);
    assert(iv.skip(
        start + seg_status(m).len() + seg_method(m, q).len() + seg_uri(m, q).len() + seg_ua(
            m,
            q,
            v,
        ).len() + seg_referer(m, q, v).len() + seg_ip(m).len(),
    ) =~= iv.skip(start).skip(seg_status(m).len() + seg_method(m, q).len() + seg_uri(m, q).len()
        + seg_ua(m, q, v).len() + seg_referer(m, q, v).len() + seg_ip(m).len() as int));
}

proof fn at_time(
    iv: Seq<u8>,
    fd: pco::wrapped::FileDecompressor,
    start: int,
    n: usize,
    v: u32,
    m: BlockModel,
    q: int,
)
    requires
        front_at(iv, fd, start, n, v, m, q),
    ensures
        ts_at(
            iv,
            fd,
            start + seg_status(m).len() + seg_method(m, q).len() + seg_uri(m, q).len() + seg_ua(
                m,
                q,
                v,
            ).len() + seg_referer(m, q, v).len() + seg_ip(m).len() + seg_port(m).len(),
            n,
            m.time_off,
            m.time_h,
        ),
{
    lemma_front_split(iv.skip(start), m, q, v);
    assert(iv.skip(
        start + seg_status(m).len() + seg_method(m, q).len() + seg_uri(m, q).len() + seg_ua(
            m,
            q,
            v,
        ).len() + seg_referer(m, q, v).len() + seg_ip(m).len() + seg_port(m).len(),
    ) =~= iv.skip(start).skip(seg_status(m).len() + seg_method(m, q).len() + seg_uri(m, q).len()
        + seg_ua(m, q, v).len() + seg_referer(m, q, v).len() + seg_ip(m).len()
        + seg_port(m).len() as int));
}

/// Where each back column sits, under the back hypothesis.
proof fn at_body(
    iv: Seq<u8>,
    fd: pco::wrapped::FileDecompressor,
    start: int,
    n: usize,
    v: u32,
    m: BlockModel,
    q: int,
)
    requires
        back_at(iv, fd, start, n, v, m, q),
        gate_body(v),
    ensures
        ds_at(iv, fd, start, n, m.body_data, m.body_off, m.body_h, q),
{
    lemma_back_split(iv.skip(start), m, q, v);
    assert(iv.skip(start).skip(0) =~= iv.skip(start));
}

proof fn at_headers(
    iv: Seq<u8>,
    fd: pco::wrapped::FileDecompressor,
    start: int,
    n: usize,
    v: u32,
    m: BlockModel,
    q: int,
)
    requires
        back_at(iv, fd, start, n, v, m, q),
        gate_headers(v),
    ensures
        sm_at(
            iv,
            fd,
            start + seg_body(m, q, v).len(),
            n,
            m.hdr_kp,
            m.hdr_vp,
            m.hdr_entries,
            m.hdr_h,
            q,
        ),
{
    lemma_back_split(iv.skip(start), m, q, v);
    assert(iv.skip(start + seg_body(m, q, v).len()) =~= iv.skip(start).skip(
        seg_body(m, q, v).len() as int,
    ));
}

proof fn at_host(
    iv: Seq<u8>,
    fd: pco::wrapped::FileDecompressor,
    start: int,
    n: usize,
    v: u32,
    m: BlockModel,
    q: int,
)
    requires
        back_at(iv, fd, start, n, v, m, q),
        gate_headers(v),
    ensures
        hs_at(
            iv,
            fd,
            start + seg_body(m, q, v).len() + seg_headers(m, q, v).len(),
            n,
            m.host_pool,
            m.host_h,
            q,
        ),
{
    lemma_back_split(iv.skip(start), m, q, v);
    assert(iv.skip(start + seg_body(m, q, v).len() + seg_headers(m, q, v).len()) =~= iv.skip(
        start,
    ).skip(seg_body(m, q, v).len() + seg_headers(m, q, v).len() as int));
}

proof fn at_proto(
    iv: Seq<u8>,
    fd: pco::wrapped::FileDecompressor,
    start: int,
    n: usize,
    v: u32,
    m: BlockModel,
    q: int,
)
    requires
        back_at(iv, fd, start, n, v, m, q),
        gate_proto(v),
    ensures
        ns_at(
            iv,
            fd,
            start + seg_body(m, q, v).len() + seg_headers(m, q, v).len() + seg_host(
                m,
                q,
                v,
            ).len(),
            n,
            m.proto,
        ),
{
    lemma_back_split(iv.skip(start), m, q, v);
    assert(iv.skip(start + seg_body(m, q, v).len() + seg_headers(m, q, v).len() + seg_host(
        m,
        q,
        v,
    ).len()) =~= iv.skip(start).skip(seg_body(m, q, v).len() + seg_headers(m, q, v).len()
        + seg_host(m, q, v).len() as int));
}

impl Builder {
    /// Reads the ungated front columns; the gated back columns stay at
    /// their defaults until `read_back` fills them.
    #[verifier::rlimit(100)]
    #[verifier::spinoff_prover]
    fn read_front(
        fd: &pco::wrapped::FileDecompressor,
        data: &[u8],
        start: usize,
        n: usize,
        v: u32,
    ) -> (r: Result<(Builder, usize), DecodeError>)
        requires
            start <= data@.len(),
            n <= u32::MAX,
        ensures
            match r {
                Ok((b, pos)) => {
                    &&& b@.wf()
                    &&& b@.len() == n
                    &&& start <= pos <= data@.len()
                    &&& b@.body_data == Seq::<u8>::empty()
                    &&& b@.body_off == Seq::<u32>::empty()
                    &&& b@.body_h == Seq::new(n as nat, |i: int| 0u32)
                    &&& b@.hdr_kp == Seq::<Seq<char>>::empty()
                    &&& b@.hdr_vp == Seq::<Seq<char>>::empty()
                    &&& b@.hdr_entries == Seq::<Seq<(u32, u32)>>::empty()
                    &&& b@.hdr_h == Seq::new(n as nat, |i: int| 0u32)
                    &&& b@.host_pool == seq![Seq::<char>::empty()]
                    &&& b@.host_h == Seq::new(n as nat, |i: int| 0u32)
                    &&& b@.proto == Seq::new(n as nat, |i: int| 0u16)
                },
                Err(_) => true,
            },
            forall|m: BlockModel, q: int|
                #[trigger] front_at(data@, *fd, start as int, n, v, m, q) ==> r is Ok && ({
                    let b = r->Ok_0.0;
                    &&& b@.status == m.status
                    &&& b@.method_pool == pool_norm(m.method_pool)
                    &&& b@.method_h == m.method_h
                    &&& b@.uri_pool == pool_norm(m.uri_pool)
                    &&& b@.uri_h == m.uri_h
                    &&& b@.ua_pool == decoded_model(m, v).ua_pool
                    &&& b@.ua_h == decoded_model(m, v).ua_h
                    &&& b@.referer_pool == decoded_model(m, v).referer_pool
                    &&& b@.referer_h == decoded_model(m, v).referer_h
                    &&& b@.ip_pfx == m.ip_pfx
                    &&& b@.ip_pidx == m.ip_pidx
                    &&& b@.ip_sfx == m.ip_sfx
                    &&& b@.port == m.port
                    &&& b@.time_off == m.time_off
                    &&& b@.time_h == m.time_h
                    &&& r->Ok_0.1 == start + front_bytes(m, q, v).len()
                }),
    {
        let (status, p1) = match read_ns_col(fd, data, start, n) {
            Ok(p) => p,
            Err(e) => {
                proof {
                    assert forall|m: BlockModel, q: int|
                        !front_at(data@, *fd, start as int, n, v, m, q) by {
                        if front_at(data@, *fd, start as int, n, v, m, q) {
                            at_status(data@, *fd, start as int, n, v, m, q);
                        }
                    }
                }
                return Err(e);
            },
        };
        let ghost status_g = status@;
        let ghost p1_g = p1 as int;
        proof {
            assert forall|m: BlockModel, q: int|
                #[trigger] front_at(data@, *fd, start as int, n, v, m, q) implies status_g == m.status
                && p1_g == start + seg_status(m).len() by {
                at_status(data@, *fd, start as int, n, v, m, q);
            }
        }
        let (mpool, mh, p2) = match read_hs_col(fd, data, p1, n) {
            Ok(p) => p,
            Err(e) => {
                proof {
                    assert forall|m: BlockModel, q: int|
                        !front_at(data@, *fd, start as int, n, v, m, q) by {
                        if front_at(data@, *fd, start as int, n, v, m, q) {
                            at_method(data@, *fd, start as int, n, v, m, q);
                        }
                    }
                }
                return Err(e);
            },
        };
        let ghost mpool_g = mpool@;
        let ghost mh_g = mh@;
        let ghost p2_g = p2 as int;
        proof {
            assert forall|m: BlockModel, q: int|
                #[trigger] front_at(data@, *fd, start as int, n, v, m, q) implies mpool_g == pool_norm(
                m.method_pool,
            ) && mh_g == m.method_h && p2_g == p1_g + seg_method(m, q).len() by {
                at_method(data@, *fd, start as int, n, v, m, q);
            }
        }
        let (upool, uh, p3) = match read_hs_col(fd, data, p2, n) {
            Ok(p) => p,
            Err(e) => {
                proof {
                    assert forall|m: BlockModel, q: int|
                        !front_at(data@, *fd, start as int, n, v, m, q) by {
                        if front_at(data@, *fd, start as int, n, v, m, q) {
                            at_uri(data@, *fd, start as int, n, v, m, q);
                        }
                    }
                }
                return Err(e);
            },
        };
        let ghost upool_g = upool@;
        let ghost uh_g = uh@;
        let ghost p3_g = p3 as int;
        proof {
            assert forall|m: BlockModel, q: int|
                #[trigger] front_at(data@, *fd, start as int, n, v, m, q) implies upool_g == pool_norm(
                m.uri_pool,
            ) && uh_g == m.uri_h && p3_g == p2_g + seg_uri(m, q).len() by {
                at_uri(data@, *fd, start as int, n, v, m, q);
            }
        }
        let mut ua = HashStringsOpt::new();
        let mut ua_h: Vec<u32>;
        let mut referer = HashStringsOpt::new();
        let mut referer_h: Vec<u32>;
        let mut p5 = p3;
        if v <= 2 {
            let (apool, ah, p4) = match read_hs_col(fd, data, p3, n) {
                Ok(p) => p,
                Err(e) => {
                    proof {
                        assert forall|m: BlockModel, q: int|
                            !front_at(data@, *fd, start as int, n, v, m, q) by {
                            if front_at(data@, *fd, start as int, n, v, m, q) {
                                at_ua(data@, *fd, start as int, n, v, m, q);
                            }
                        }
                    }
                    return Err(e);
                },
            };
            let ghost p4_g = p4 as int;
            let ghost apool_g = apool@;
            let ghost ah_g = ah@;
            proof {
                assert forall|m: BlockModel, q: int|
                    #[trigger] front_at(data@, *fd, start as int, n, v, m, q) implies apool_g == pool_norm(
                    m.ua_pool,
                ) && ah_g == m.ua_h && p4_g == p3_g + seg_ua(m, q, v).len() by {
                    at_ua(data@, *fd, start as int, n, v, m, q);
                }
            }
            ua = HashStringsOpt::from_set(apool);
            ua_h = ah;
            let (rpool, rh, p5x) = match read_hs_col(fd, data, p4, n) {
                Ok(p) => p,
                Err(e) => {
                    proof {
                        assert forall|m: BlockModel, q: int|
                            !front_at(data@, *fd, start as int, n, v, m, q) by {
                            if front_at(data@, *fd, start as int, n, v, m, q) {
                                at_referer(data@, *fd, start as int, n, v, m, q);
                            }
                        }
                    }
                    return Err(e);
                },
            };
            let ghost rpool_g = rpool@;
            let ghost rh_g = rh@;
            let ghost p5_g2 = p5x as int;
            proof {
                assert forall|m: BlockModel, q: int|
                    #[trigger] front_at(data@, *fd, start as int, n, v, m, q) implies rpool_g == pool_norm(
                    m.referer_pool,
                ) && rh_g == m.referer_h && p5_g2 == p4_g + seg_referer(m, q, v).len() by {
                    at_referer(data@, *fd, start as int, n, v, m, q);
                }
            }
            referer = HashStringsOpt::from_set(rpool);
            referer_h = rh;
            p5 = p5x;
        } else {
            ua_h = vec_zeros_u32(n);
            referer_h = vec_zeros_u32(n);
        }
        let ghost ua_pool_g = ua@;
        let ghost ua_h_g = ua_h@;
        let ghost ref_pool_g = referer@;
        let ghost ref_h_g = referer_h@;
        let ghost p5_g = p5 as int;
        proof {
            assert forall|m: BlockModel, q: int|
                #[trigger] front_at(data@, *fd, start as int, n, v, m, q) implies ua_pool_g == decoded_model(
                m,
                v,
            ).ua_pool && ua_h_g == decoded_model(m, v).ua_h && ref_pool_g == decoded_model(
                m,
                v,
            ).referer_pool && ref_h_g == decoded_model(m, v).referer_h && p5_g == p3_g + seg_ua(
                m,
                q,
                v,
            ).len() + seg_referer(m, q, v).len() by {
                if !gate_ua(v) {
                    assert(seg_ua(m, q, v) =~= Seq::<u8>::empty());
                    assert(seg_referer(m, q, v) =~= Seq::<u8>::empty());
                    assert(ua_h_g =~= Seq::new(m.len(), |i: int| 0u32));
                    assert(ref_h_g =~= Seq::new(m.len(), |i: int| 0u32));
                }
            }
        }
        let (hip, pidx, sfx, p6) = match read_ip_col(fd, data, p5, n) {
            Ok(p) => p,
            Err(e) => {
                proof {
                    assert forall|m: BlockModel, q: int|
                        !front_at(data@, *fd, start as int, n, v, m, q) by {
                        if front_at(data@, *fd, start as int, n, v, m, q) {
                            at_ip(data@, *fd, start as int, n, v, m, q);
                        }
                    }
                }
                return Err(e);
            },
        };
        let ghost hip_g = hip@;
        let ghost pidx_g = pidx@;
        let ghost sfx_g = sfx@;
        let ghost p6_g = p6 as int;
        proof {
            assert forall|m: BlockModel, q: int|
                #[trigger] front_at(data@, *fd, start as int, n, v, m, q) implies hip_g == m.ip_pfx && pidx_g
                == m.ip_pidx && sfx_g == m.ip_sfx && p6_g == p5_g + seg_ip(m).len() by {
                at_ip(data@, *fd, start as int, n, v, m, q);
            }
        }
        let (port, p7) = match read_ns_col(fd, data, p6, n) {
            Ok(p) => p,
            Err(e) => {
                proof {
                    assert forall|m: BlockModel, q: int|
                        !front_at(data@, *fd, start as int, n, v, m, q) by {
                        if front_at(data@, *fd, start as int, n, v, m, q) {
                            at_port(data@, *fd, start as int, n, v, m, q);
                        }
                    }
                }
                return Err(e);
            },
        };
        let ghost port_g = port@;
        let ghost p7_g = p7 as int;
        proof {
            assert forall|m: BlockModel, q: int|
                #[trigger] front_at(data@, *fd, start as int, n, v, m, q) implies port_g == m.port && p7_g
                == p6_g + seg_port(m).len() by {
                at_port(data@, *fd, start as int, n, v, m, q);
            }
        }
        let (ts, time_h, p8) = match read_ts_col(fd, data, p7, n) {
            Ok(p) => p,
            Err(e) => {
                proof {
                    assert forall|m: BlockModel, q: int|
                        !front_at(data@, *fd, start as int, n, v, m, q) by {
                        if front_at(data@, *fd, start as int, n, v, m, q) {
                            at_time(data@, *fd, start as int, n, v, m, q);
                        }
                    }
                }
                return Err(e);
            },
        };
        let ghost ts_g = ts@;
        let ghost time_h_g = time_h@;
        let ghost p8_g = p8 as int;
        proof {
            assert forall|m: BlockModel, q: int|
                #[trigger] front_at(data@, *fd, start as int, n, v, m, q) implies ts_g == m.time_off
                && time_h_g == m.time_h && p8_g == start + front_bytes(m, q, v).len() by {
                at_time(data@, *fd, start as int, n, v, m, q);
            }
        }
        let b = Builder {
            status,
            status_codec: NumberSeries::new(),
            method: mpool,
            method_h: mh,
            uri: upool,
            uri_h: uh,
            ua,
            ua_h,
            referer,
            referer_h,
            ip: hip,
            ip_pidx: pidx,
            ip_sfx: sfx,
            port,
            port_codec: NumberSeries::new(),
            time: ts,
            time_h,
            body: DataSeries::new(),
            body_h: vec_zeros_u32(n),
            headers: StringMap::new(),
            headers_h: vec_zeros_u32(n),
            host: default_host_pool(),
            host_h: vec_zeros_u32(n),
            proto: vec_zeros_u16(n),
            proto_codec: NumberSeries::new(),
        };
        proof {
            assert(b@.hdr_entries =~= Seq::<Seq<(u32, u32)>>::empty());
            assert(b@.hdr_kp =~= Seq::<Seq<char>>::empty());
            assert(b@.hdr_vp =~= Seq::<Seq<char>>::empty());
            assert(b@.wf()) by {
                assert(concat_keys(b@.hdr_entries) =~= Seq::<u32>::empty());
                assert(pool_wf(b@.hdr_kp));
                assert(pool_wf(b@.hdr_vp));
                assert(pool_wf(b@.host_pool)) by {
                    assert(!Seq::<char>::empty().contains('\n'));
                }
                assert(ds_wf(b@.body_data, b@.body_off));
            }
        }
        Ok((b, p8))
    }

    /// Reads the gated back columns into the builder; fields outside the
    /// gate keep their defaults.
    #[verifier::rlimit(100)]
    #[verifier::spinoff_prover]
    fn read_back(
        b: &mut Builder,
        fd: &pco::wrapped::FileDecompressor,
        data: &[u8],
        start: usize,
        n: usize,
        v: u32,
    ) -> (r: Result<usize, DecodeError>)
        requires
            start <= data@.len(),
            n <= u32::MAX,
            old(b)@.wf(),
            old(b)@.len() == n,
        ensures
            final(b)@.status == old(b)@.status,
            final(b)@.method_pool == old(b)@.method_pool,
            final(b)@.method_h == old(b)@.method_h,
            final(b)@.uri_pool == old(b)@.uri_pool,
            final(b)@.uri_h == old(b)@.uri_h,
            final(b)@.ua_pool == old(b)@.ua_pool,
            final(b)@.ua_h == old(b)@.ua_h,
            final(b)@.referer_pool == old(b)@.referer_pool,
            final(b)@.referer_h == old(b)@.referer_h,
            final(b)@.ip_pfx == old(b)@.ip_pfx,
            final(b)@.ip_pidx == old(b)@.ip_pidx,
            final(b)@.ip_sfx == old(b)@.ip_sfx,
            final(b)@.port == old(b)@.port,
            final(b)@.time_off == old(b)@.time_off,
            final(b)@.time_h == old(b)@.time_h,
            !gate_body(v) ==> final(b)@.body_data == old(b)@.body_data && final(b)@.body_off
                == old(b)@.body_off && final(b)@.body_h == old(b)@.body_h,
            !gate_headers(v) ==> final(b)@.hdr_kp == old(b)@.hdr_kp && final(b)@.hdr_vp == old(b)@.hdr_vp && final(b)@.hdr_entries == old(b)@.hdr_entries && final(b)@.hdr_h == old(b)@.hdr_h && final(b)@.host_pool == old(b)@.host_pool && final(b)@.host_h == old(b)@.host_h,
            !gate_proto(v) ==> final(b)@.proto == old(b)@.proto,
            r is Ok ==> final(b)@.wf() && final(b)@.len() == n && r->Ok_0 <= data@.len(),
            forall|m: BlockModel, q: int|
                #[trigger] back_at(data@, *fd, start as int, n, v, m, q) ==> r is Ok && ({
                    &&& (gate_body(v) ==> final(b)@.body_data == m.body_data && final(b)@.body_off == m.body_off && final(b)@.body_h == m.body_h)
                    &&& (gate_headers(v) ==> final(b)@.hdr_kp == pool_norm(m.hdr_kp) && final(b)@.hdr_vp == pool_norm(m.hdr_vp) && final(b)@.hdr_entries == m.hdr_entries
                        && final(b)@.hdr_h == m.hdr_h && final(b)@.host_pool == pool_norm(
                        m.host_pool,
                    ) && final(b)@.host_h == m.host_h)
                    &&& (gate_proto(v) ==> final(b)@.proto == m.proto)
                    &&& r->Ok_0 == start + back_bytes(m, q, v).len()
                }),
    {
        let mut pos = start;
        if v >= 2 {
            let (ds, body_h, px) = match read_ds_col(fd, data, pos, n) {
                Ok(p) => p,
                Err(e) => {
                    proof {
                        assert forall|m: BlockModel, q: int|
                            !back_at(data@, *fd, start as int, n, v, m, q) by {
                            if back_at(data@, *fd, start as int, n, v, m, q) {
                                at_body(data@, *fd, start as int, n, v, m, q);
                            }
                        }
                    }
                    return Err(e);
                },
            };
            b.body = ds;
            b.body_h = body_h;
            pos = px;
        }
        let ghost body_data_g = b@.body_data;
        let ghost body_off_g = b@.body_off;
        let ghost body_h_g = b@.body_h;
        let ghost pb_g = pos as int;
        proof {
            assert forall|m: BlockModel, q: int|
                #[trigger] back_at(data@, *fd, start as int, n, v, m, q) implies (gate_body(v)
                ==> body_data_g == m.body_data && body_off_g == m.body_off && body_h_g
                == m.body_h) && pb_g == start + seg_body(m, q, v).len() by {
                if gate_body(v) {
                    at_body(data@, *fd, start as int, n, v, m, q);
                } else {
                    assert(seg_body(m, q, v) =~= Seq::<u8>::empty());
                }
            }
        }
        if v >= 3 {
            let (sm, hdr_h, py) = match read_sm_col(fd, data, pos, n) {
                Ok(p) => p,
                Err(e) => {
                    proof {
                        assert forall|m: BlockModel, q: int|
                            !back_at(data@, *fd, start as int, n, v, m, q) by {
                            if back_at(data@, *fd, start as int, n, v, m, q) {
                                at_headers(data@, *fd, start as int, n, v, m, q);
                            }
                        }
                    }
                    return Err(e);
                },
            };
            b.headers = sm;
            b.headers_h = hdr_h;
            pos = py;
            let ghost hdr_kp_g = b@.hdr_kp;
            let ghost hdr_vp_g = b@.hdr_vp;
            let ghost hdr_entries_g = b@.hdr_entries;
            let ghost hdr_h_g = b@.hdr_h;
            let ghost py_g = pos as int;
            proof {
                assert forall|m: BlockModel, q: int|
                    #[trigger] back_at(data@, *fd, start as int, n, v, m, q) implies hdr_kp_g == pool_norm(
                    m.hdr_kp,
                ) && hdr_vp_g == pool_norm(m.hdr_vp) && hdr_entries_g == m.hdr_entries && hdr_h_g
                    == m.hdr_h && py_g == pb_g + seg_headers(m, q, v).len() by {
                    at_headers(data@, *fd, start as int, n, v, m, q);
                }
            }
            let (hpool, host_h, pz) = match read_hs_col(fd, data, pos, n) {
                Ok(p) => p,
                Err(e) => {
                    proof {
                        assert forall|m: BlockModel, q: int|
                            !back_at(data@, *fd, start as int, n, v, m, q) by {
                            if back_at(data@, *fd, start as int, n, v, m, q) {
                                at_host(data@, *fd, start as int, n, v, m, q);
                            }
                        }
                    }
                    return Err(e);
                },
            };
            b.host = hpool;
            b.host_h = host_h;
            pos = pz;
            let ghost host_pool_g = b@.host_pool;
            let ghost host_h_g = b@.host_h;
            let ghost pz_g = pos as int;
            proof {
                assert forall|m: BlockModel, q: int|
                    #[trigger] back_at(data@, *fd, start as int, n, v, m, q) implies host_pool_g
                    == pool_norm(m.host_pool) && host_h_g == m.host_h && pz_g == py_g + seg_host(
                    m,
                    q,
                    v,
                ).len() by {
                    at_host(data@, *fd, start as int, n, v, m, q);
                }
            }
        }
        let ghost ph_g = pos as int;
        proof {
            assert forall|m: BlockModel, q: int|
                #[trigger] back_at(data@, *fd, start as int, n, v, m, q) implies ph_g == start + seg_body(
                m,
                q,
                v,
            ).len() + seg_headers(m, q, v).len() + seg_host(m, q, v).len() by {
                if !gate_headers(v) {
                    assert(seg_headers(m, q, v) =~= Seq::<u8>::empty());
                    assert(seg_host(m, q, v) =~= Seq::<u8>::empty());
                }
            }
        }
        if v >= 4 {
            let (proto, pw) = match read_ns_col(fd, data, pos, n) {
                Ok(p) => p,
                Err(e) => {
                    proof {
                        assert forall|m: BlockModel, q: int|
                            !back_at(data@, *fd, start as int, n, v, m, q) by {
                            if back_at(data@, *fd, start as int, n, v, m, q) {
                                at_proto(data@, *fd, start as int, n, v, m, q);
                            }
                        }
                    }
                    return Err(e);
                },
            };
            b.proto = proto;
            pos = pw;
        }
        let ghost proto_g = b@.proto;
        let ghost pw_g = pos as int;
        proof {
            assert forall|m: BlockModel, q: int|
                #[trigger] back_at(data@, *fd, start as int, n, v, m, q) implies (gate_proto(v)
                ==> proto_g == m.proto) && pw_g == start + back_bytes(m, q, v).len() by {
                if gate_proto(v) {
                    at_proto(data@, *fd, start as int, n, v, m, q);
                } else {
                    assert(seg_proto(m, v) =~= Seq::<u8>::empty());
                }
            }
            assert(final(b)@.wf()) by {
                crate::types::lemma_concat_bounded(b@.hdr_entries);
                assert(b@.columns_even());
                assert(b@.len() == n);
                assert(pool_wf(b@.hdr_kp));
                assert(pool_wf(b@.hdr_vp));
                assert(pool_wf(b@.host_pool));
                assert(ds_wf(b@.body_data, b@.body_off));
                assert(crate::types::sm_wf(b@.hdr_entries));
                assert(b@.hdr_entries.len() <= b@.len());
                assert(b@.body_off.len() <= u32::MAX);
                assert(b@.ip_pfx.len() <= u32::MAX);
                assert(concat_keys(b@.hdr_entries).len() <= usize::MAX);
            }
        }
        Ok(pos)
    }
}

/// The block bytes right-nested at the header boundaries, so the varint
/// heads peel off one by one.
#[verifier::rlimit(100)]
#[verifier::spinoff_prover]
proof fn lemma_block_bytes_parts(m: BlockModel, q: int, vm: u32)
    ensures
        block_bytes(m, q, vm) == varint(vm as u64) + (varint(m.len() as u64) + (pco_header(0) + (
        front_bytes(m, q, vm) + back_bytes(m, q, vm)))),
{
    assert(block_bytes(m, q, vm) =~= varint(vm as u64) + (varint(m.len() as u64) + (pco_header(0)
        + (front_bytes(m, q, vm) + back_bytes(m, q, vm)))));
}

/// The two header varints and the remainder of a block, under the block
/// hypothesis.
#[verifier::rlimit(100)]
#[verifier::spinoff_prover]
proof fn block_heads(iv: Seq<u8>, m: BlockModel, q: int, vm: u32)
    requires
        block_hyp(iv, m, q, vm),
    ensures
        starts_with_varint(iv, vm as u64),
        starts_with_varint(iv.skip(varint(vm as u64).len() as int), m.len() as u64),
        starts_with(
            iv.skip(varint(vm as u64).len() + varint(m.len() as u64).len() as int),
            pco_header(0) + (front_bytes(m, q, vm) + back_bytes(m, q, vm)),
        ),
{
    lemma_block_bytes_parts(m, q, vm);
    let tail2 = pco_header(0) + (front_bytes(m, q, vm) + back_bytes(m, q, vm));
    let tail = varint(m.len() as u64) + tail2;
    assert(iv.skip(0) =~= iv);
    assert(starts_with(iv, varint(vm as u64) + tail));
    lemma_varint_head(iv, vm as u64, tail);
    lemma_varint_head(iv.skip(varint(vm as u64).len() as int), m.len() as u64, tail2);
    assert(iv.skip(varint(vm as u64).len() as int).skip(varint(m.len() as u64).len() as int)
        =~= iv.skip(varint(vm as u64).len() + varint(m.len() as u64).len() as int));
}

/// The remainder after the header varints, rewritten around the file
/// header so the header reader's contract applies.
#[verifier::rlimit(100)]
#[verifier::spinoff_prover]
proof fn pco_stage(ivp2: Seq<u8>, m: BlockModel, q: int, vm: u32)
    requires
        starts_with(ivp2, pco_header(0) + (front_bytes(m, q, vm) + back_bytes(m, q, vm))),
    ensures
        ivp2 == pco_header(0) + ((front_bytes(m, q, vm) + back_bytes(m, q, vm)) + ivp2.skip(
            (pco_header(0) + (front_bytes(m, q, vm) + back_bytes(m, q, vm))).len() as int,
        )),
        starts_with(
            ivp2.skip(pco_header(0).len() as int),
            front_bytes(m, q, vm) + back_bytes(m, q, vm),
        ),
{
    let fb = front_bytes(m, q, vm) + back_bytes(m, q, vm);
    let whole = pco_header(0) + fb;
    lemma_chop(ivp2, whole, pco_header(0).len() as int);
    assert(whole.take(pco_header(0).len() as int) =~= pco_header(0));
    assert(whole.skip(pco_header(0).len() as int) =~= fb);
    assert(ivp2 =~= pco_header(0) + (fb + ivp2.skip(whole.len() as int)));
}

/// The halves of the body, cut at their boundary.
#[verifier::rlimit(100)]
#[verifier::spinoff_prover]
proof fn fb_chop(ivh: Seq<u8>, m: BlockModel, q: int, vm: u32)
    requires
        starts_with(ivh, front_bytes(m, q, vm) + back_bytes(m, q, vm)),
    ensures
        starts_with(ivh, front_bytes(m, q, vm)),
        starts_with(ivh.skip(front_bytes(m, q, vm).len() as int), back_bytes(m, q, vm)),
{
    let fb = front_bytes(m, q, vm) + back_bytes(m, q, vm);
    lemma_chop(ivh, fb, front_bytes(m, q, vm).len() as int);
    assert(fb.take(front_bytes(m, q, vm).len() as int) =~= front_bytes(m, q, vm));
    assert(fb.skip(front_bytes(m, q, vm).len() as int) =~= back_bytes(m, q, vm));
}

impl Builder {
    /// Decodes a block body: the version and length header, the file
    /// header, then every column the version carries.  A block written by a
    /// newer schema is refused before any column is touched; a decoded
    /// block is well formed; and decoding restores exactly what was
    /// encoded, pools normalized and gated-out columns at their defaults.
    #[verifier::rlimit(100)]
    #[verifier::spinoff_prover]
    pub fn from_slice(data: &[u8]) -> (r: Result<Builder, DecodeError>)
        ensures
            r matches Ok(b) ==> b@.wf(),
            forall|w: u64|
                (starts_with_varint(data@, w) && w > SHEMA_VERSION) ==> r == Err::<
                    Builder,
                    DecodeError,
                >(DecodeError::VersionTooNew),
            r matches Ok(b) ==> exists|w: u64, n2: u64|
                {
                    &&& varint(w).len() + varint(n2).len() <= data@.len()
                    &&& data@.take(varint(w).len() + varint(n2).len() as int) == #[trigger] (
                    varint(w) + varint(n2))
                    &&& w <= SHEMA_VERSION
                    &&& b@.len() == n2
                },
            forall|m: BlockModel, q: int, vm: u32|
                #[trigger] block_hyp(data@, m, q, vm) ==> r is Ok && r->Ok_0@ == decoded_model(
                    m,
                    vm,
                ),
    {
        let ghost iv = data@;
        proof {
            assert forall|m: BlockModel, q: int, vm: u32|
                #[trigger] block_hyp(iv, m, q, vm) implies starts_with_varint(iv, vm as u64) by {
                block_heads(iv, m, q, vm);
            }
        }
        let (v64, p1) = match crate::varint::decode_u64_varint(data, 0) {
            Ok(p) => p,
            Err(e) => {
                proof {
                    assert(iv.skip(0) =~= iv);
                }
                return Err(e);
            },
        };
        proof {
            assert(iv.skip(0) =~= iv);
            assert(starts_with_varint(iv, v64)) by {
                assert(iv.subrange(0, p1 as int) == varint(v64));
                assert(iv.take(varint(v64).len() as int) =~= varint(v64));
            }
            assert forall|w: u64| starts_with_varint(iv, w) implies w == v64 by {
                crate::varint::lemma_varint_prefix_unique(iv, w, v64);
            }
        }
        if v64 > SHEMA_VERSION as u64 {
            return Err(DecodeError::VersionTooNew);
        }
        let v = v64 as u32;
        proof {
            assert forall|m: BlockModel, q: int, vm: u32|
                #[trigger] block_hyp(iv, m, q, vm) implies vm == v && starts_with_varint(
                iv.skip(p1 as int),
                m.len() as u64,
            ) by {
                block_heads(iv, m, q, vm);
                assert(vm as u64 == v64);
                assert(iv.skip(varint(vm as u64).len() as int) =~= iv.skip(p1 as int));
            }
        }
        let (n64, p2) = match crate::varint::decode_u64_varint(data, p1) {
            Ok(p) => p,
            Err(e) => {
                return Err(e);
            },
        };
        proof {
            assert forall|m: BlockModel, q: int, vm: u32|
                #[trigger] block_hyp(iv, m, q, vm) implies n64 == m.len() && p2 == varint(v64).len()
                + varint(n64).len() && starts_with(
                iv.skip(p2 as int),
                pco_header(0) + (front_bytes(m, q, vm) + back_bytes(m, q, vm)),
            ) by {
                block_heads(iv, m, q, vm);
                assert(vm as u64 == v64);
                assert(iv.skip(varint(vm as u64).len() as int) =~= iv.skip(p1 as int));
                assert(starts_with_varint(iv.skip(p1 as int), n64)) by {
                    assert(iv.subrange(p1 as int, p2 as int) == varint(n64));
                    assert(iv.skip(p1 as int).take(varint(n64).len() as int) =~= varint(n64));
                }
                crate::varint::lemma_varint_prefix_unique(
                    iv.skip(p1 as int),
                    m.len() as u64,
                    n64,
                );
                assert(iv.skip(varint(vm as u64).len() + varint(m.len() as u64).len() as int)
                    =~= iv.skip(p2 as int));
            }
        }
        if n64 > u32::MAX as u64 {
            return Err(DecodeError::Malformed);
        }
        let n = n64 as usize;
        let rest = vstd::slice::slice_subrange(data, p2, data.len());
        let (fd, hused) = match pco_read_header(rest) {
            Ok(p) => p,
            Err(e) => {
                proof {
                    assert forall|m: BlockModel, q: int, vm: u32| !block_hyp(iv, m, q, vm) by {
                        if block_hyp(iv, m, q, vm) {
                            pco_stage(rest@, m, q, vm);
                        }
                    }
                }
                return Err(e);
            },
        };
        let ghost fd_g = fd;
        proof {
            assert forall|m: BlockModel, q: int, vm: u32|
                #[trigger] block_hyp(iv, m, q, vm) implies pco_version_of(fd_g) == 0 && hused == pco_header(
                0,
            ).len() && starts_with(
                rest@.skip(hused as int),
                front_bytes(m, q, vm) + back_bytes(m, q, vm),
            ) by {
                pco_stage(rest@, m, q, vm);
            }
        }
        if hused > rest.len() {
            return Err(DecodeError::Malformed);
        }
        proof {
            assert forall|m: BlockModel, q: int|
                #[trigger] block_hyp(iv, m, q, v) implies front_at(
                rest@,
                fd_g,
                hused as int,
                n,
                v,
                m,
                q,
            ) by {
                fb_chop(rest@.skip(hused as int), m, q, v);
            }
        }
        let (mut b, pos2) = match Builder::read_front(&fd, rest, hused, n, v) {
            Ok(p) => p,
            Err(e) => {
                proof {
                    assert forall|m: BlockModel, q: int, vm: u32| !block_hyp(iv, m, q, vm) by {}
                }
                return Err(e);
            },
        };
        let ghost front_model = b@;
        proof {
            assert forall|m: BlockModel, q: int|
                #[trigger] block_hyp(iv, m, q, v) implies back_at(
                rest@,
                fd_g,
                pos2 as int,
                n,
                v,
                m,
                q,
            ) by {
                fb_chop(rest@.skip(hused as int), m, q, v);
                assert(rest@.skip(hused as int).skip(front_bytes(m, q, v).len() as int)
                    =~= rest@.skip(pos2 as int));
            }
        }
        match Builder::read_back(&mut b, &fd, rest, pos2, n, v) {
            Ok(_) => {},
            Err(e) => {
                proof {
                    assert forall|m: BlockModel, q: int, vm: u32| !block_hyp(iv, m, q, vm) by {}
                }
                return Err(e);
            },
        }
        let ghost result_model = b@;
        proof {
            assert(varint(v64).len() + varint(n64).len() <= iv.len() && iv.take(varint(
                v64,
            ).len() + varint(n64).len() as int) == varint(v64) + varint(n64) && v64
                <= SHEMA_VERSION && b@.len() == n64) by {
                assert(iv.subrange(0, p1 as int) == varint(v64));
                assert(iv.subrange(p1 as int, p2 as int) == varint(n64));
                assert(p1 == varint(v64).len());
                assert(p2 - p1 == varint(n64).len());
                assert(iv.take(p2 as int) =~= varint(v64) + varint(n64));
            }
            assert forall|m: BlockModel, q: int, vm: u32|
                #[trigger] block_hyp(iv, m, q, vm) implies result_model == decoded_model(m, vm) by {
                let d = decoded_model(m, vm);
                assert(result_model =~= d);
            }
        }
        Ok(b)
    }
}

/// The round trip: the bytes a well-formed block encodes to satisfy the
/// decode hypothesis for that block, so `from_slice` on `write_to`'s output
/// succeeds and restores the block, pools normalized and gated-out columns
/// defaulted.
pub proof fn lemma_encode_decode_hyp(m: BlockModel, q: int, v: u32)
    requires
        m.wf(),
        block_sizes_ok(m, q, v),
        v <= SHEMA_VERSION,
    ensures
        block_hyp(block_bytes(m, q, v), m, q, v),
{
    assert(block_bytes(m, q, v).take(block_bytes(m, q, v).len() as int) =~= block_bytes(
        m,
        q,
        v,
    ));
}

/// An element of a filtered sequence is an element of the sequence it was
/// filtered from.
proof fn lemma_filter_subset<A>(s: Seq<A>, pred: spec_fn(A) -> bool, i: int)
    requires
        0 <= i < s.filter(pred).len(),
    ensures
        s.contains(s.filter(pred)[i]),
    decreases s.len(),
{
    reveal(Seq::filter);
    if s.len() > 0 {
        let fl = s.drop_last().filter(pred);
        if i < fl.len() {
            lemma_filter_subset(s.drop_last(), pred, i);
            let x = fl[i];
            assert(s.filter(pred)[i] == fl[i]);
            let j = choose|j: int| 0 <= j < s.drop_last().len() && s.drop_last()[j] == x;
            assert(s[j] == x);
        } else {
            assert(pred(s.last()));
            assert(s.filter(pred)[i] == s.last());
            assert(s[s.len() - 1] == s.last());
        }
    }
}

/// Header pairs split from any text hold no newline: the split removed
/// them.
pub proof fn lemma_headers_pairs_clean(text: Seq<char>)
    ensures
        forall|i: int|
            0 <= i < crate::spec_split_headers(text).len() ==> !(
            #[trigger] crate::spec_split_headers(text)[i]).0.contains('\n')
                && !crate::spec_split_headers(text)[i].1.contains('\n'),
{
    let lines = crate::spec_split(text, '\n');
    crate::strtab::lemma_split_pieces_clean(text, '\n');
    let f = |line: Seq<char>| crate::spec_split_once(line, ':') is Some;
    let filtered = lines.filter(f);
    assert forall|i: int|
        0 <= i < crate::spec_split_headers(text).len() implies !(
    #[trigger] crate::spec_split_headers(text)[i]).0.contains('\n')
        && !crate::spec_split_headers(text)[i].1.contains('\n') by {
        lemma_filter_subset(lines, f, i);
        let line = filtered[i];
        let j = choose|j: int| 0 <= j < lines.len() && lines[j] == line;
        assert(!lines[j].contains('\n'));
        crate::strtab::lemma_split_once_clean(line, ':', '\n');
        assert(crate::spec_split_headers(text)[i] == crate::spec_split_once(
            line,
            ':',
        )->Some_0);
    }
}

impl Builder {
    /// Everything `add` asks of the block and the record: room in every
    /// column, sizes within the format's descriptors, and text free of the
    /// pool separator.
    pub open spec fn can_add_spec(&self, e: Record) -> bool {
        &&& self@.wf()
        &&& self@.len() < 0x100_0000u32
        &&& self@.method_pool.len() < 0x100_0000u32
        &&& self@.uri_pool.len() < 0x100_0000u32
        &&& self@.ua_pool.len() < 0x100_0000u32
        &&& self@.referer_pool.len() < 0x100_0000u32
        &&& self@.ip_pfx.len() < 0x100_0000u32
        &&& self@.host_pool.len() < 0x100_0000u32
        &&& self@.hdr_entries.len() < 0x100_0000u32
        &&& self@.hdr_kp.len() < 0x100_0000u32
        &&& self@.hdr_vp.len() < 0x100_0000u32
        &&& (self@.hdr_entries.len() + 1) * 0xffff <= usize::MAX
        &&& crate::spec_split_headers(e.headers).len() <= 0xffff
        &&& self@.body_data.len() + (match e.body {
            Some(b) => b.len(),
            None => 0,
        }) <= u32::MAX
        &&& self@.body_off.len() < 0x100_0000u32
        &&& !e.method.contains('\n')
        &&& !e.uri.contains('\n')
        &&& !e.host.contains('\n')
        &&& (e.ua matches Some(s) ==> !s.contains('\n'))
        &&& (e.referer matches Some(s) ==> !s.contains('\n'))
    }

    /// Tests exactly what `add_checked` needs, so an unverified caller can
    /// guard its ingest and a verified one can rely on the guard's answer
    /// both ways.
    pub fn can_add(&self, e: &RequestEntry) -> (r: bool)
        requires
            self@.wf(),
        ensures
            r == self.can_add_spec(e@),
    {
        let pairs = e.headers.split();
        let ok = self.status.len() < 0x100_0000 && self.method.len() < 0x100_0000
            && self.uri.len() < 0x100_0000 && self.ua.len() < 0x100_0000 && self.referer.len()
            < 0x100_0000 && self.ip.len() < 0x100_0000 && self.host.len() < 0x100_0000
            && self.headers.entries_len() < 0x100_0000 && self.headers.keys_len() < 0x100_0000
            && self.headers.values_len() < 0x100_0000 && pairs.len() <= 0xffff
            && self.body.offsets_len() < 0x100_0000 && self.headers.entries_len() <= usize::MAX
            / 0xffff - 1;
        if !ok {
            return false;
        }
        let body_ok = match &e.body {
            Some(b) => {
                let dl = self.body.data_len();
                let bl = b.len();
                dl <= u32::MAX as usize && bl <= u32::MAX as usize && (dl as u64) + (bl as u64)
                    <= u32::MAX as u64
            },
            None => true,
        };
        if !body_ok {
            return false;
        }
        if crate::strtab::str_has_char(e.method.as_str(), '\n') {
            return false;
        }
        if crate::strtab::str_has_char(e.uri.as_str(), '\n') {
            return false;
        }
        if crate::strtab::str_has_char(e.host.as_str(), '\n') {
            return false;
        }
        match &e.ua {
            Some(s) => {
                if crate::strtab::str_has_char(s.as_str(), '\n') {
                    return false;
                }
            },
            None => {},
        }
        match &e.referer {
            Some(s) => {
                if crate::strtab::str_has_char(s.as_str(), '\n') {
                    return false;
                }
            },
            None => {},
        }
        proof {
            assert(crate::spec_split_headers(e@.headers).len() == pairs.deep_view().len());
        }
        true
    }

    /// Appends one record under the guard `can_add` tests, keeping the
    /// block well formed.
    pub fn add_checked(&mut self, e: &RequestEntry)
        requires
            old(self).can_add_spec(e@),
        ensures
            final(self)@ == model_add(old(self)@, e@),
            final(self)@.wf(),
            final(self)@.len() == old(self)@.len() + 1,
            final(self).can_add_spec(e@) == final(self).can_add_spec(e@),
    {
        proof {
            lemma_concat_bound_from_wf(old(self)@);
            lemma_headers_pairs_clean(e@.headers);
        }
        self.add(e);
        proof {
            Builder::lemma_add_wf(old(self)@, e@);
        }
    }
}

/// Under the entry-room bound, the concatenated header indices stay within
/// machine range with room for one more entry.
proof fn lemma_concat_bound_from_wf(m: BlockModel)
    requires
        m.wf(),
        (m.hdr_entries.len() + 1) * 0xffff <= usize::MAX,
    ensures
        concat_keys(m.hdr_entries).len() + 0xffff <= usize::MAX,
{
    assert(concat_keys(m.hdr_entries).len() <= 0xffff * m.hdr_entries.len());
    assert(0xffff * m.hdr_entries.len() + 0xffff == (m.hdr_entries.len() + 1) * 0xffff)
        by (nonlinear_arith);
}

} // verus!

//! A columnar log store for HTTP request records: per-column codecs, a
//! versioned block format, a collector state machine, a client-side sparse
//! mirror with scrolling and filtered views, and a small filter language.
use vstd::prelude::*;

pub mod varint;

verus! {

/// Why a decode failed.
#[derive(Debug, Clone, Copy, PartialEq, Eq, Structural)]
pub enum DecodeError {
    /// The input ended before the value did.
    Truncated,
    /// The bytes cannot be produced by the encoder.
    Malformed,
    /// A compressed column or string pool did not decompress.
    Codec,
    /// A string pool is not valid text.
    Utf8,
    /// The block was written by a newer schema than this build understands.
    VersionTooNew,
}

/// Why an encode failed: the byte or numeric compressor refused the column.
#[derive(Debug, Clone, Copy, PartialEq, Eq, Structural)]
pub enum EncodeError {
    Codec,
}

/// The scheme a request came in on.
#[derive(Debug, Clone, Copy, PartialEq, Eq, Structural)]
pub enum Protocol {
    Unknown,
    Http,
    Https,
}

impl Protocol {
    /// The wire number of each variant.
    pub open spec fn spec_code(self) -> u16 {
        match self {
            Protocol::Unknown => 0,
            Protocol::Http => 1,
            Protocol::Https => 2,
        }
    }

    /// Variant as the number stored in the block's protocol column.
    pub fn code(&self) -> (c: u16)
        ensures
            c == self.spec_code(),
    {
        match self {
            Protocol::Unknown => 0,
            Protocol::Http => 1,
            Protocol::Https => 2,
        }
    }

    /// The variant a stored number stands for; unknown numbers decode to
    /// `Unknown`.
    pub open spec fn spec_from_code(c: u16) -> Protocol {
        if c == 1 {
            Protocol::Http
        } else if c == 2 {
            Protocol::Https
        } else {
            Protocol::Unknown
        }
    }

    pub fn from_code(c: u16) -> (p: Protocol)
        ensures
            p == Protocol::spec_from_code(c),
    {
        if c == 1 {
            Protocol::Http
        } else if c == 2 {
            Protocol::Https
        } else {
            Protocol::Unknown
        }
    }
}

/// Request headers, flattened to `key:value` lines.
#[derive(Debug, Clone, PartialEq, Eq)]
pub struct Headers(pub String);

impl View for Headers {
    type V = Seq<char>;

    open spec fn view(&self) -> Seq<char> {
        self.0@
    }
}

/// One logged HTTP request observation: the public input of the collector
/// and the value every decoded row turns back into.
#[derive(Debug, Clone, PartialEq, Eq)]
pub struct RequestEntry {
    pub status: u16,
    pub method: String,
    pub uri: String,
    pub ua: Option<String>,
    pub referer: Option<String>,
    /// The address bits of the IPv6 address; a v4 address is stored mapped
    /// (`::ffff:a.b.c.d`).
    pub ip: u128,
    pub port: u16,
    pub time: u64,
    pub body: Option<Vec<u8>>,
    pub headers: Headers,
    pub host: String,
    pub proto: Protocol,
}

/// The mathematical shape of a record: what contracts quantify over.
pub ghost struct Record {
    pub status: u16,
    pub method: Seq<char>,
    pub uri: Seq<char>,
    pub ua: Option<Seq<char>>,
    pub referer: Option<Seq<char>>,
    pub ip: u128,
    pub port: u16,
    pub time: u64,
    pub body: Option<Seq<u8>>,
    pub headers: Seq<char>,
    pub host: Seq<char>,
    pub proto: Protocol,
}

impl View for RequestEntry {
    type V = Record;

    open spec fn view(&self) -> Record {
        Record {
            status: self.status,
            method: self.method@,
            uri: self.uri@,
            ua: match self.ua {
                Some(s) => Some(s@),
                None => None,
            },
            referer: match self.referer {
                Some(s) => Some(s@),
                None => None,
            },
            ip: self.ip,
            port: self.port,
            time: self.time,
            body: match self.body {
                Some(b) => Some(b@),
                None => None,
            },
            headers: self.headers@,
            host: self.host@,
            proto: self.proto,
        }
    }
}

impl RequestEntry {
    /// A copy with the same field values; spelled out so contracts can rely
    /// on it.
    pub fn duplicate(&self) -> (r: RequestEntry)
        ensures
            r@ == self@,
    {
        RequestEntry {
            status: self.status,
            method: self.method.clone(),
            uri: self.uri.clone(),
            ua: match &self.ua {
                Some(s) => Some(s.clone()),
                None => None,
            },
            referer: match &self.referer {
                Some(s) => Some(s.clone()),
                None => None,
            },
            ip: self.ip,
            port: self.port,
            time: self.time,
            body: match &self.body {
                Some(b) => Some(b.clone()),
                None => None,
            },
            headers: Headers(self.headers.0.clone()),
            host: self.host.clone(),
            proto: self.proto,
        }
    }
}

/// The IPv6 bits of a v4 address `a.b.c.d`, in mapped form `::ffff:a.b.c.d`.
pub open spec fn spec_ipv4_mapped(a: u8, b: u8, c: u8, d: u8) -> u128 {
    (0xffff_0000_0000 + a * 0x1000000 + b * 0x10000 + c * 0x100 + d) as u128
}

/// Maps a v4 address into the v6 space, as the collector normalizes every
/// incoming address.
pub fn ipv4_mapped(a: u8, b: u8, c: u8, d: u8) -> (ip: u128)
    ensures
        ip == spec_ipv4_mapped(a, b, c, d),
{
    0xffff_0000_0000u128 + a as u128 * 0x1000000 + b as u128 * 0x10000 + c as u128 * 0x100
        + d as u128
}

/// Every packet on disk or on the wire begins with one of these bytes.
#[derive(Debug, Clone, Copy, PartialEq, Eq, Structural)]
pub enum PacketType {
    Batch,
    Row,
    Sync,
    ServerMsg,
}

impl PacketType {
    /// The tag byte of each packet kind.
    pub open spec fn spec_byte(self) -> u8 {
        match self {
            PacketType::Batch => 1,
            PacketType::Row => 2,
            PacketType::Sync => 3,
            PacketType::ServerMsg => 4,
        }
    }

    /// Appends the tag byte to a frame being built.
    pub fn write_to(&self, buf: &mut Vec<u8>)
        ensures
            final(buf)@ == old(buf)@ + seq![self.spec_byte()],
    {
        buf.push(match self {
            PacketType::Batch => 1,
            PacketType::Row => 2,
            PacketType::Sync => 3,
            PacketType::ServerMsg => 4,
        });
    }

    /// The packet kind a tag byte stands for, if any.
    pub open spec fn spec_parse(byte: u8) -> Option<PacketType> {
        if byte == 1 {
            Some(PacketType::Batch)
        } else if byte == 2 {
            Some(PacketType::Row)
        } else if byte == 3 {
            Some(PacketType::Sync)
        } else if byte == 4 {
            Some(PacketType::ServerMsg)
        } else {
            None
        }
    }

    pub fn parse(byte: u8) -> (r: Option<PacketType>)
        ensures
            r == PacketType::spec_parse(byte),
            r matches Some(t) ==> t.spec_byte() == byte,
    {
        if byte == 1 {
            Some(PacketType::Batch)
        } else if byte == 2 {
            Some(PacketType::Row)
        } else if byte == 3 {
            Some(PacketType::Sync)
        } else if byte == 4 {
            Some(PacketType::ServerMsg)
        } else {
            None
        }
    }
}

/// The head of a Batch packet: the sequence number of the block's first
/// record.
#[derive(Debug, Clone, Copy, PartialEq, Eq, Structural)]
pub struct BatchHeader {
    pub start: u64,
}

/// The head of a Sync packet: where the server's live tail begins and what
/// backlog a new subscriber may fetch.
#[derive(Debug, Clone, Copy, PartialEq, Eq, Structural)]
pub struct SyncHeader {
    pub start: u64,
    pub block_size: u64,
    pub first_block: u64,
    pub first_backlog: u64,
}

/// Tuning for the block encoder: the quality level handed to the byte
/// compressor.
#[derive(Debug, Clone, Copy, PartialEq, Eq, Structural)]
pub struct Options {
    pub brotli_level: u8,
}

impl Options {
    pub fn new(brotli_level: u8) -> (r: Options)
        ensures
            r.brotli_level == brotli_level,
    {
        Options { brotli_level }
    }
}

/// A byte cursor over input being decoded: the remaining bytes and how many
/// were already consumed.
#[derive(Clone)]
pub struct Input<'a> {
    data: &'a [u8],
    pos: usize,
}

impl<'a> View for Input<'a> {
    type V = Seq<u8>;

    /// The bytes not yet consumed.
    closed spec fn view(&self) -> Seq<u8> {
        self.data@
    }
}

impl<'a> Input<'a> {
    pub closed spec fn spec_pos(&self) -> usize {
        self.pos
    }

    pub fn new(data: &'a [u8]) -> (r: Input<'a>)
        ensures
            r@ == data@,
            r.spec_pos() == 0,
    {
        Input { data, pos: 0 }
    }

    /// Consumes `n` bytes.
    pub fn advance(&mut self, n: usize)
        requires
            n <= old(self)@.len(),
            old(self).spec_pos() + n <= usize::MAX,
        ensures
            final(self)@ == old(self)@.skip(n as int),
            final(self).spec_pos() == old(self).spec_pos() + n,
    {
        self.data = vstd::slice::slice_subrange(self.data, n, self.data.len());
        self.pos = self.pos + n;
    }

    /// Consumes and returns the next `n` bytes, or fails if fewer remain.
    pub fn take_n(&mut self, n: usize) -> (r: Result<&'a [u8], DecodeError>)
        requires
            old(self).spec_pos() + n <= usize::MAX,
        ensures
            match r {
                Ok(taken) => {
                    &&& n <= old(self)@.len()
                    &&& taken@ == old(self)@.take(n as int)
                    &&& final(self)@ == old(self)@.skip(n as int)
                    &&& final(self).spec_pos() == old(self).spec_pos() + n
                },
                Err(e) => {
                    &&& e == DecodeError::Truncated
                    &&& n > old(self)@.len()
                    &&& *final(self) == *old(self)
                },
            },
    {
        if n > self.data.len() {
            return Err(DecodeError::Truncated);
        }
        let out = vstd::slice::slice_subrange(self.data, 0, n);
        self.data = vstd::slice::slice_subrange(self.data, n, self.data.len());
        self.pos = self.pos + n;
        Ok(out)
    }

    /// How many bytes were consumed so far.
    pub fn pos(&self) -> (r: usize)
        ensures
            r == self.spec_pos(),
    {
        self.pos
    }

    /// How many bytes remain.
    pub fn len(&self) -> (r: usize)
        ensures
            r == self@.len(),
    {
        self.data.len()
    }

    /// The remaining bytes.
    pub fn rest(&self) -> (r: &'a [u8])
        ensures
            r@ == self@,
    {
        self.data
    }
}

/// Flattens header pairs to the `key:value` line form the record carries.
pub open spec fn spec_headers_string(pairs: Seq<(Seq<char>, Seq<char>)>) -> Seq<char>
    decreases pairs.len(),
{
    if pairs.len() == 0 {
        seq![]
    } else if pairs.len() == 1 {
        pairs[0].0 + seq![':'] + pairs[0].1
    } else {
        spec_headers_string(pairs.drop_last()) + seq!['\n'] + pairs.last().0 + seq![':']
            + pairs.last().1
    }
}

/// Joins header pairs into one `key:value` text block, one line per pair.
pub fn headers_string(pairs: &Vec<(String, String)>) -> (r: String)
    ensures
        r@ == spec_headers_string(pairs.deep_view()),
{
    let mut out = String::new();
    let mut i: usize = 0;
    while i < pairs.len()
        invariant
            i <= pairs.len(),
            out@ == spec_headers_string(pairs.deep_view().take(i as int)),
        decreases pairs.len() - i,
    {
        if i > 0 {
            out.append("\n");
        }
        out.append(pairs[i].0.as_str());
        out.append(":");
        out.append(pairs[i].1.as_str());
        proof {
            let pv = pairs.deep_view();
            assert(pv.take(i + 1).drop_last() =~= pv.take(i as int));
            assert(pv.take(i + 1).last() == pv[i as int]);
            reveal_strlit("\n");
            reveal_strlit(":");
            if i == 0 {
                assert(out@ =~= spec_headers_string(pv.take(i + 1)));
            } else {
                assert(out@ =~= spec_headers_string(pv.take(i + 1)));
            }
        }
        i = i + 1;
    }
    proof {
        assert(pairs.deep_view().take(pairs@.len() as int) =~= pairs.deep_view());
    }
    out
}

impl Headers {
    /// Splits the flattened text back into pairs: lines without a `:` are
    /// dropped, exactly as they were never produced by `headers_string`.
    pub fn split(&self) -> (r: Vec<(String, String)>)
        ensures
            r.deep_view() == spec_split_headers(self@),
    {
        crate::strtab::split_headers(self.0.as_str())
    }
}

/// The pairs encoded in a flattened header text: split on `'\n'`, then each
/// line at its first `':'`; lines without one are dropped.
pub open spec fn spec_split_headers(text: Seq<char>) -> Seq<(Seq<char>, Seq<char>)> {
    spec_split(text, '\n').filter(|line: Seq<char>| spec_split_once(line, ':') is Some)
        .map_values(|line: Seq<char>| spec_split_once(line, ':')->Some_0)
}

/// A line split at its first `sep`, or nothing when `sep` does not occur.
pub open spec fn spec_split_once(line: Seq<char>, sep: char) -> Option<(Seq<char>, Seq<char>)>
    decreases line.len(),
{
    if line.len() == 0 {
        None
    } else if line[0] == sep {
        Some((Seq::empty(), line.skip(1)))
    } else {
        match spec_split_once(line.skip(1), sep) {
            None => None,
            Some((k, v)) => Some((seq![line[0]] + k, v)),
        }
    }
}

/// `text` split on `sep`: the pieces between separators, in order.  An empty
/// text is one empty piece.
pub open spec fn spec_split(text: Seq<char>, sep: char) -> Seq<Seq<char>>
    decreases text.len(),
{
    if text.len() == 0 {
        seq![Seq::empty()]
    } else if text[0] == sep {
        seq![Seq::<char>::empty()] + spec_split(text.skip(1), sep)
    } else {
        let r = spec_split(text.skip(1), sep);
        seq![seq![text[0]] + r[0]] + r.skip(1)
    }
}

/// The pieces joined back with `sep` between them.
pub open spec fn spec_join(pieces: Seq<Seq<char>>, sep: char) -> Seq<char>
    decreases pieces.len(),
{
    if pieces.len() == 0 {
        Seq::empty()
    } else if pieces.len() == 1 {
        pieces[0]
    } else {
        pieces[0] + seq![sep] + spec_join(pieces.skip(1), sep)
    }
}

} // verus!

pub mod client;
pub mod collector;
pub mod compress;
pub mod filter;
pub mod shema;
pub mod strtab;
pub mod types;

//! The per-column codecs: dictionary-interned strings, optional strings,
//! byte blobs with an absent bit, IPv6 addresses split into an interned /96
//! prefix and a raw suffix, plain and time-offset number series, and small
//! key/value maps.  Each turns one record field into a compact handle and
//! writes or reads one column of a block.
use vstd::prelude::*;

use crate::compress::brotli_of;
use crate::compress::brotli_compress;
use crate::compress::brotli_decompress;
use crate::compress::pco_of_u16;
use crate::compress::pco_of_u32;
use crate::compress::pco_version_of;
use crate::compress::pco_compress_u16;
use crate::compress::pco_compress_u32;
use crate::compress::pco_decompress_u16;
use crate::compress::pco_decompress_u32;
use crate::compress::string_from_utf8;
use crate::compress::DeltaMode;
use crate::strtab::join_lines;
use crate::strtab::split_string;
use crate::strtab::str_eq;
use crate::strtab::lemma_split_join;
use crate::spec_join;
use crate::DecodeError;
use crate::EncodeError;
use crate::Options;
use vstd::utf8::encode_utf8;

verus! {

/// The compressed bytes of a piece of text: its UTF-8 form through the byte
/// compressor at quality `q`.
pub open spec fn brotli_str(s: Seq<char>, q: int) -> Seq<u8> {
    brotli_of(encode_utf8(s), q)
}

/// Compresses one string pool (or blob text) and appends it to `out`,
/// returning how many bytes were appended: the size descriptor the reader
/// needs.
pub fn compress_string(out: &mut Vec<u8>, strings: &str, opt: &Options) -> (r: Result<
    u32,
    EncodeError,
>)
    ensures
        brotli_str(strings@, opt.brotli_level as int).len() <= u32::MAX ==> r is Ok,
        match r {
            Ok(sz) => {
                &&& final(out)@ == old(out)@ + brotli_str(strings@, opt.brotli_level as int)
                &&& sz == brotli_str(strings@, opt.brotli_level as int).len()
            },
            Err(_) => true,
        },
{
    let n = brotli_compress(strings.as_bytes(), opt.brotli_level, out);
    match n {
        Ok(n) => {
            if n > u32::MAX as usize {
                Err(EncodeError::Codec)
            } else {
                Ok(n as u32)
            }
        },
        Err(e) => Err(e),
    }
}

/// Decompresses a string pool from exactly the bytes its size descriptor
/// cut: returns the text the pool was compressed from.
pub fn decompress_string(input: &[u8]) -> (r: Result<String, DecodeError>)
    ensures
        forall|cs: Seq<char>, q: int|
            input@ == #[trigger] brotli_str(cs, q) ==> r is Ok && r->Ok_0@ == cs,
{
    let bytes = match brotli_decompress(input) {
        Ok(b) => b,
        Err(e) => {
            return Err(e);
        },
    };
    let ghost bytes_view = bytes@;
    let r = string_from_utf8(bytes);
    proof {
        assert forall|cs: Seq<char>, q: int|
            input@ == #[trigger] brotli_str(cs, q) implies r is Ok && r->Ok_0@ == cs by {
            assert(bytes_view == encode_utf8(cs));
            if r is Ok {
                let s = r->Ok_0;
                vstd::utf8::encode_utf8_decode_utf8(s@);
                vstd::utf8::encode_utf8_decode_utf8(cs);
            }
        }
    }
    r
}

/// The first index of `s` in the pool, or -1 when absent.
pub open spec fn pool_find<T>(pool: Seq<T>, s: T) -> int
    decreases pool.len(),
{
    if pool.len() == 0 {
        -1
    } else if pool[0] == s {
        0
    } else {
        let r = pool_find(pool.skip(1), s);
        if r < 0 {
            -1
        } else {
            r + 1
        }
    }
}

/// What `pool_find` means: the first occurrence, or absence.
pub proof fn lemma_pool_find<T>(pool: Seq<T>, s: T)
    ensures
        pool_find(pool, s) >= 0 ==> pool_find(pool, s) < pool.len() && pool[pool_find(pool, s)]
            == s,
        pool_find(pool, s) < 0 ==> !pool.contains(s),
        forall|j: int| 0 <= j < pool_find(pool, s) ==> pool[j] != s,
    decreases pool.len(),
{
    if pool.len() > 0 && pool[0] != s {
        lemma_pool_find(pool.skip(1), s);
        if pool_find(pool.skip(1), s) < 0 {
            if pool.contains(s) {
                let i = choose|i: int| 0 <= i < pool.len() && pool[i] == s;
                assert(pool.skip(1)[i - 1] == s);
            }
        } else {
            assert forall|j: int| 0 <= j < pool_find(pool, s) implies pool[j] != s by {
                if j > 0 {
                    assert(pool.skip(1)[j - 1] != s);
                }
            }
        }
    }
}

/// The pool after interning `s`: unchanged when present, else extended.
pub open spec fn pool_intern<T>(pool: Seq<T>, s: T) -> Seq<T> {
    if pool.contains(s) {
        pool
    } else {
        pool.push(s)
    }
}

/// The handle interning `s` yields: the first occurrence, or the new slot.
pub open spec fn pool_handle<T>(pool: Seq<T>, s: T) -> int {
    if pool_find(pool, s) >= 0 {
        pool_find(pool, s)
    } else {
        pool.len() as int
    }
}

/// A dictionary of interned strings.  A handle is the index of its string.
pub struct HashStrings {
    strings: Vec<String>,
}

impl View for HashStrings {
    type V = Seq<Seq<char>>;

    closed spec fn view(&self) -> Seq<Seq<char>> {
        self.strings.deep_view()
    }
}

/// The text a pool is compressed to: all entries joined by newlines.
pub open spec fn pool_text(pool: Seq<Seq<char>>) -> Seq<char> {
    spec_join(pool, '\n')
}

/// No entry of the pool contains the separator, so the join splits back.
pub open spec fn pool_wf(pool: Seq<Seq<char>>) -> bool {
    forall|i: int| 0 <= i < pool.len() ==> !#[trigger] pool[i].contains('\n')
}

/// The column bytes of a string dictionary: the compressed pool, then, when
/// the block has rows, the handle column.
pub open spec fn hs_col(pool: Seq<Seq<char>>, handles: Seq<u32>, q: int) -> Seq<u8> {
    brotli_str(pool_text(pool), q) + (if handles.len() == 0 {
        Seq::<u8>::empty()
    } else {
        pco_of_u32(handles, DeltaMode::NoOp.spec_code())
    })
}

/// The reader's hypothesis: the input begins with the column of this pool
/// and these handles.
pub open spec fn hs_hyp(
    iv: Seq<u8>,
    fd: pco::wrapped::FileDecompressor,
    n: usize,
    size: u32,
    pool: Seq<Seq<char>>,
    handles: Seq<u32>,
    q: int,
) -> bool {
    let enc = hs_col(pool, handles, q);
    pool_wf(pool) && handles.len() == n && pco_version_of(fd) == 0 && size == brotli_str(
        pool_text(pool),
        q,
    ).len() && enc.len() <= iv.len() && iv.take(enc.len() as int) == enc
}

impl HashStrings {
    /// An empty dictionary.
    pub fn new() -> (r: HashStrings)
        ensures
            r@ == Seq::<Seq<char>>::empty(),
    {
        HashStrings { strings: Vec::new() }
    }

    pub fn len(&self) -> (n: usize)
        ensures
            n == self@.len(),
    {
        self.strings.len()
    }

    /// The slot of the first occurrence of `item`, if it is interned.
    fn lookup(&self, item: &str) -> (r: Option<usize>)
        ensures
            match r {
                Some(i) => i == pool_find(self@, item@) && i < self@.len() && self@[i as int]
                    == item@,
                None => pool_find(self@, item@) < 0,
            },
    {
        let n = self.strings.len();
        let mut i: usize = 0;
        while i < n
            invariant
                i <= n,
                n == self@.len(),
                forall|j: int| 0 <= j < i ==> self@[j] != item@,
            decreases n - i,
        {
            if str_eq(self.strings[i].as_str(), item) {
                proof {
                    assert(self@[i as int] == item@);
                    lemma_pool_find_at(self@, item@, i as int);
                }
                return Some(i);
            }
            i = i + 1;
        }
        proof {
            lemma_pool_find(self@, item@);
            if pool_find(self@, item@) >= 0 {
                assert(self@[pool_find(self@, item@)] == item@);
            }
        }
        None
    }

    /// Interns one string: the handle of its first occurrence, or a new slot
    /// at the end.
    pub fn add(&mut self, item: &str) -> (h: u32)
        requires
            old(self)@.len() < 0xffff_ffffu32,
        ensures
            final(self)@ == pool_intern(old(self)@, item@),
            h == pool_handle(old(self)@, item@),
            h < final(self)@.len(),
            final(self)@[h as int] == item@,
            old(self)@.is_prefix_of(final(self)@),
    {
        proof {
            lemma_pool_find(self@, item@);
        }
        match self.lookup(item) {
            Some(i) => {
                proof {
                    assert(self@.contains(item@)) by {
                        assert(self@[i as int] == item@);
                    }
                    assert(self@.is_prefix_of(self@)) by {
                        assert(self@.subrange(0, self@.len() as int) =~= self@);
                    }
                }
                i as u32
            },
            None => {
                let n = self.strings.len();
                let ghost prev = self@;
                self.strings.push(item.to_owned());
                proof {
                    assert(self@ =~= prev.push(item@));
                    assert(prev.is_prefix_of(self@)) by {
                        assert(self@.subrange(0, prev.len() as int) =~= prev);
                    }
                }
                n as u32
            },
        }
    }

    /// The string a handle stands for, or nothing for an out-of-range
    /// handle.
    pub fn get(&self, h: u32) -> (r: Option<&str>)
        ensures
            match r {
                Some(s) => h < self@.len() && s@ == self@[h as int],
                None => h >= self@.len(),
            },
    {
        if (h as usize) < self.strings.len() {
            Some(self.strings[h as usize].as_str())
        } else {
            None
        }
    }

    /// Writes only the compressed pool, as the header-map codec stores its
    /// key and value pools.
    pub fn write_pool(&self, opt: &Options, out: &mut Vec<u8>) -> (r: Result<u32, EncodeError>)
        ensures
            brotli_str(pool_text(self@), opt.brotli_level as int).len() <= u32::MAX ==> r is Ok,
            match r {
                Ok(sz) => {
                    &&& final(out)@ == old(out)@ + brotli_str(
                        pool_text(self@),
                        opt.brotli_level as int,
                    )
                    &&& sz == brotli_str(pool_text(self@), opt.brotli_level as int).len()
                },
                Err(_) => true,
            },
    {
        write_pool(&self.strings, opt, out)
    }

    /// A dictionary restored from an already split pool.
    pub fn from_pool(strings: Vec<String>) -> (r: HashStrings)
        ensures
            r@ == strings.deep_view(),
    {
        HashStrings { strings }
    }

    /// Writes the column: compressed pool, then the handle column.  Returns
    /// the pool's size descriptor.
    pub fn write(&self, handles: &[u32], opt: &Options, out: &mut Vec<u8>) -> (r: Result<
        u32,
        EncodeError,
    >)
        ensures
            (brotli_str(pool_text(self@), opt.brotli_level as int).len() <= u32::MAX
                && handles@.len() <= 0x100_0000) ==> r is Ok,
            match r {
                Ok(sz) => {
                    &&& final(out)@ == old(out)@ + hs_col(
                        self@,
                        handles@,
                        opt.brotli_level as int,
                    )
                    &&& sz == brotli_str(pool_text(self@), opt.brotli_level as int).len()
                },
                Err(_) => true,
            },
    {
        let text = if self.strings.len() == 0 {
            String::new()
        } else {
            join_lines(&self.strings)
        };
        proof {
            if self.strings.len() == 0 {
                assert(self@ =~= Seq::<Seq<char>>::empty());
            }
        }
        let sz = match compress_string(out, text.as_str(), opt) {
            Ok(sz) => sz,
            Err(e) => {
                return Err(e);
            },
        };
        if handles.len() > 0 {
            match pco_compress_u32(handles, DeltaMode::NoOp, out) {
                Ok(()) => {},
                Err(e) => {
                    return Err(e);
                },
            }
        }
        proof {
            assert(out@ =~= old(out)@ + hs_col(self@, handles@, opt.brotli_level as int));
        }
        Ok(sz)
    }

    /// Reads the column back: restores the dictionary from the compressed
    /// pool, then fills `n` handles.  Returns how many input bytes the
    /// column used.
    pub fn read(
        fd: &pco::wrapped::FileDecompressor,
        input: &[u8],
        n: usize,
        size: u32,
    ) -> (r: Result<(HashStrings, Vec<u32>, usize), DecodeError>)
        ensures
            match r {
                Ok((hs, handles, used)) => handles@.len() == n && used <= input@.len(),
                Err(_) => true,
            },
            r matches Ok(t) ==> pool_wf(t.0@) && t.0@.len() >= 1,
            forall|pool: Seq<Seq<char>>, handles: Seq<u32>, q: int|
                #[trigger] hs_hyp(input@, *fd, n, size, pool, handles, q) ==> r is Ok
                    && r->Ok_0.0@ == pool_norm(pool) && r->Ok_0.1@ == handles && r->Ok_0.2
                    == hs_col(pool, handles, q).len(),
    {
        let ghost iv = input@;
        if (size as usize) > input.len() {
            proof {
                assert forall|pool: Seq<Seq<char>>, handles: Seq<u32>, q: int|
                    !hs_hyp(iv, *fd, n, size, pool, handles, q) by {
                    assert(hs_col(pool, handles, q).len() >= brotli_str(pool_text(pool), q).len());
                }
            }
            return Err(DecodeError::Truncated);
        }
        let pool_bytes = vstd::slice::slice_subrange(input, 0, size as usize);
        proof {
            assert forall|pool: Seq<Seq<char>>, handles: Seq<u32>, q: int|
                hs_hyp(iv, *fd, n, size, pool, handles, q) implies pool_bytes@ == brotli_str(
                pool_text(pool),
                q,
            ) by {
                let enc = hs_col(pool, handles, q);
                assert forall|i: int| 0 <= i < size implies pool_bytes@[i] == brotli_str(
                    pool_text(pool),
                    q,
                )[i] by {
                    assert(iv.take(enc.len() as int)[i] == enc[i]);
                }
                assert(pool_bytes@ =~= brotli_str(pool_text(pool), q));
            }
        }
        let text = match decompress_string(pool_bytes) {
            Ok(t) => t,
            Err(e) => {
                return Err(e);
            },
        };
        let pool = split_string(text.as_str(), '\n');
        proof {
            crate::strtab::lemma_split_pieces_clean(text@, '\n');
            crate::strtab::lemma_split_len(text@, '\n');
            assert forall|pv: Seq<Seq<char>>, handles: Seq<u32>, q: int|
                hs_hyp(iv, *fd, n, size, pv, handles, q) implies pool.deep_view() == pool_norm(
                pv,
            ) by {
                assert(text@ == pool_text(pv));
                if pv.len() == 0 {
                    assert(pool_text(pv) =~= Seq::<char>::empty());
                    assert(pool.deep_view() =~= seq![Seq::<char>::empty()]);
                } else {
                    lemma_split_join(pv, '\n');
                }
            }
        }
        let rest = vstd::slice::slice_subrange(input, size as usize, input.len());
        if n == 0 {
            let hs = HashStrings { strings: pool };
            proof {
                assert forall|pv: Seq<Seq<char>>, handles: Seq<u32>, q: int|
                    hs_hyp(iv, *fd, n, size, pv, handles, q) implies hs_col(pv, handles, q).len()
                    == size && handles =~= Seq::<u32>::empty() && hs@ == pool_norm(pv) by {
                    assert(hs_col(pv, handles, q) =~= brotli_str(pool_text(pv), q));
                }
            }
            return Ok((hs, Vec::new(), size as usize));
        }
        proof {
            assert forall|pv: Seq<Seq<char>>, handles: Seq<u32>, q: int|
                hs_hyp(iv, *fd, n, size, pv, handles, q) implies {
                let penc = pco_of_u32(handles, DeltaMode::NoOp.spec_code());
                penc.len() <= rest@.len() && rest@.take(penc.len() as int) == penc
            } by {
                let enc = hs_col(pv, handles, q);
                let penc = pco_of_u32(handles, DeltaMode::NoOp.spec_code());
                assert(enc.len() == size + penc.len());
                assert forall|i: int| 0 <= i < penc.len() implies rest@[i] == penc[i] by {
                    assert(iv.take(enc.len() as int)[size + i] == enc[size + i]);
                }
                assert(rest@.take(penc.len() as int) =~= penc);
            }
        }
        let (handles, used2) = match pco_decompress_u32(fd, rest, n) {
            Ok(p) => p,
            Err(e) => {
                return Err(e);
            },
        };
        let ghost handles_view = handles@;
        let ghost used2_g = used2;
        if used2 > input.len() - size as usize {
            proof {
                assert forall|pv: Seq<Seq<char>>, hd: Seq<u32>, q: int|
                    !hs_hyp(iv, *fd, n, size, pv, hd, q) by {
                    if hs_hyp(iv, *fd, n, size, pv, hd, q) {
                        let penc = pco_of_u32(hd, DeltaMode::NoOp.spec_code());
                        assert(used2_g == penc.len());
                        assert(hs_col(pv, hd, q).len() == size + penc.len());
                    }
                }
            }
            return Err(DecodeError::Malformed);
        }
        let used = size as usize + used2;
        let hs = HashStrings { strings: pool };
        proof {
            assert forall|pv: Seq<Seq<char>>, hd: Seq<u32>, q: int|
                hs_hyp(iv, *fd, n, size, pv, hd, q) implies hs@ == pool_norm(pv) && handles_view
                == hd && used == hs_col(pv, hd, q).len() by {
                let penc = pco_of_u32(hd, DeltaMode::NoOp.spec_code());
                assert(hs_col(pv, hd, q).len() == size + penc.len());
            }
        }
        Ok((hs, handles, used))
    }
}

/// When a match is found at `i` after no earlier match, `pool_find` is `i`.
pub proof fn lemma_pool_find_at<T>(pool: Seq<T>, s: T, i: int)
    requires
        0 <= i < pool.len(),
        pool[i] == s,
        forall|j: int| 0 <= j < i ==> pool[j] != s,
    ensures
        pool_find(pool, s) == i,
    decreases i,
{
    if i > 0 {
        lemma_pool_find_at(pool.skip(1), s, i - 1);
    }
}


/// A dictionary of optional strings: handle 0 is the absent value, handle
/// `h >= 1` stands for pool entry `h - 1`.
pub struct HashStringsOpt {
    set: HashStrings,
}

impl View for HashStringsOpt {
    type V = Seq<Seq<char>>;

    closed spec fn view(&self) -> Seq<Seq<char>> {
        self.set@
    }
}

impl HashStringsOpt {
    /// A dictionary restored from an already read pool.
    pub fn from_set(set: HashStrings) -> (r: HashStringsOpt)
        ensures
            r@ == set@,
    {
        HashStringsOpt { set }
    }

    pub fn new() -> (r: HashStringsOpt)
        ensures
            r@ == Seq::<Seq<char>>::empty(),
    {
        HashStringsOpt { set: HashStrings::new() }
    }

    pub fn len(&self) -> (n: usize)
        ensures
            n == self@.len(),
    {
        self.set.len()
    }

    /// Interns an optional string: absent values take handle 0, present ones
    /// one past their slot in the pool.
    pub fn add(&mut self, item: Option<&str>) -> (h: u32)
        requires
            old(self)@.len() < 0xffff_fffeu32,
        ensures
            match item {
                None => h == 0 && final(self)@ == old(self)@,
                Some(s) => {
                    &&& final(self)@ == pool_intern(old(self)@, s@)
                    &&& h == pool_handle(old(self)@, s@) + 1
                    &&& 1 <= h <= final(self)@.len()
                    &&& final(self)@[h - 1] == s@
                },
            },
            old(self)@.is_prefix_of(final(self)@),
    {
        match item {
            None => {
                proof {
                    assert(self@.is_prefix_of(self@)) by {
                        assert(self@.subrange(0, self@.len() as int) =~= self@);
                    }
                }
                0
            },
            Some(s) => self.set.add(s) + 1,
        }
    }

    /// The value a handle stands for: `None` for handle 0, the pool entry
    /// for a valid handle, nothing for one out of range.
    pub fn get(&self, h: u32) -> (r: Option<Option<&str>>)
        ensures
            match r {
                Some(None) => h == 0,
                Some(Some(s)) => 1 <= h <= self@.len() && s@ == self@[h - 1],
                None => h > self@.len(),
            },
    {
        if h == 0 {
            Some(None)
        } else {
            match self.set.get(h - 1) {
                Some(s) => Some(Some(s)),
                None => None,
            }
        }
    }

    /// Writes the column exactly as a plain string dictionary writes its
    /// own: compressed pool, then handles.
    pub fn write(&self, handles: &[u32], opt: &Options, out: &mut Vec<u8>) -> (r: Result<
        u32,
        EncodeError,
    >)
        ensures
            (brotli_str(pool_text(self@), opt.brotli_level as int).len() <= u32::MAX
                && handles@.len() <= 0x100_0000) ==> r is Ok,
            match r {
                Ok(sz) => {
                    &&& final(out)@ == old(out)@ + hs_col(
                        self@,
                        handles@,
                        opt.brotli_level as int,
                    )
                    &&& sz == brotli_str(pool_text(self@), opt.brotli_level as int).len()
                },
                Err(_) => true,
            },
    {
        self.set.write(handles, opt, out)
    }

    /// Reads the column back; the byte shape and the proof obligations are
    /// those of the plain string dictionary.
    pub fn read(
        fd: &pco::wrapped::FileDecompressor,
        input: &[u8],
        n: usize,
        size: u32,
    ) -> (r: Result<(HashStringsOpt, Vec<u32>, usize), DecodeError>)
        ensures
            match r {
                Ok((hs, handles, used)) => handles@.len() == n && used <= input@.len(),
                Err(_) => true,
            },
            r matches Ok(t) ==> pool_wf(t.0@) && t.0@.len() >= 1,
            forall|pool: Seq<Seq<char>>, handles: Seq<u32>, q: int|
                #[trigger] hs_hyp(input@, *fd, n, size, pool, handles, q) ==> r is Ok
                    && r->Ok_0.0@ == pool_norm(pool) && r->Ok_0.1@ == handles && r->Ok_0.2
                    == hs_col(pool, handles, q).len(),
    {
        match HashStrings::read(fd, input, n, size) {
            Ok((set, handles, used)) => Ok((HashStringsOpt { set }, handles, used)),
            Err(e) => Err(e),
        }
    }
}

/// The column bytes of a plain number series: one compressed chunk, or
/// nothing for an empty block.
pub open spec fn ns_col(vals: Seq<u16>) -> Seq<u8> {
    if vals.len() == 0 {
        Seq::<u8>::empty()
    } else {
        pco_of_u16(vals, DeltaMode::Auto.spec_code())
    }
}

/// A series of plain numbers: the handle is the value itself and the column
/// needs no side state.
pub struct NumberSeries;

impl NumberSeries {
    pub fn new() -> NumberSeries {
        NumberSeries
    }

    /// Writes the column; an empty block writes nothing.
    pub fn write(&self, vals: &[u16], out: &mut Vec<u8>) -> (r: Result<(), EncodeError>)
        ensures
            vals@.len() <= 0x100_0000 ==> r is Ok,
            match r {
                Ok(()) => final(out)@ == old(out)@ + ns_col(vals@),
                Err(_) => true,
            },
    {
        if vals.len() == 0 {
            proof {
                assert(out@ =~= old(out)@ + ns_col(vals@));
            }
            return Ok(());
        }
        match pco_compress_u16(vals, DeltaMode::Auto, out) {
            Ok(()) => Ok(()),
            Err(e) => Err(e),
        }
    }

    /// Reads `n` values back.
    pub fn read(
        fd: &pco::wrapped::FileDecompressor,
        input: &[u8],
        n: usize,
    ) -> (r: Result<(NumberSeries, Vec<u16>, usize), DecodeError>)
        ensures
            match r {
                Ok((_, vals, used)) => vals@.len() == n && used <= input@.len(),
                Err(_) => true,
            },
            forall|vals: Seq<u16>|
                #[trigger] ns_hyp(input@, *fd, n, vals) ==> r is Ok && r->Ok_0.1@ == vals
                    && r->Ok_0.2 == ns_col(vals).len(),
    {
        if n == 0 {
            return Ok((NumberSeries, Vec::new(), 0));
        }
        let (vals, used) = match pco_decompress_u16(fd, input, n) {
            Ok(p) => p,
            Err(e) => {
                proof {
                    assert forall|vals: Seq<u16>| !ns_hyp(input@, *fd, n, vals) by {}
                }
                return Err(e);
            },
        };
        Ok((NumberSeries, vals, used))
    }
}

/// The number-series reader's hypothesis: the input begins with the column
/// of these values.
pub open spec fn ns_hyp(iv: Seq<u8>, fd: pco::wrapped::FileDecompressor, n: usize, vals: Seq<u16>) -> bool {
    let enc = ns_col(vals);
    vals.len() == n && pco_version_of(fd) == 0 && enc.len() <= iv.len() && iv.take(
        enc.len() as int,
    ) == enc
}

/// The difference `t - off`, wrapped to 64 bits.
pub open spec fn spec_wrap_sub64(t: u64, off: u64) -> u64 {
    if t >= off {
        (t - off) as u64
    } else {
        (t - off + 0x1_0000_0000_0000_0000) as u64
    }
}

/// The sum `off + d`, wrapped to 64 bits.
pub open spec fn spec_wrap_add64(off: u64, d: u64) -> u64 {
    if off + d <= u64::MAX {
        (off + d) as u64
    } else {
        (off + d - 0x1_0000_0000_0000_0000) as u64
    }
}

/// The handle of a timestamp: its wrapped distance to the block's base
/// offset, truncated to 32 bits.
pub open spec fn time_handle(off: u64, t: u64) -> u32 {
    (spec_wrap_sub64(t, off) % 0x1_0000_0000) as u32
}

/// A timestamp in the window the base offset reaches survives the 32-bit
/// handle: the law the time column's exactness rests on, and the reason a
/// block whose times stray more than `u32::MAX` from its first time cannot
/// round-trip them.
pub proof fn lemma_time_round_trip(off: u64, t: u64)
    requires
        off <= t,
        t - off <= u32::MAX,
    ensures
        spec_wrap_add64(off, time_handle(off, t) as u64) == t,
{
}

/// Interning then resolving returns the string: the law every dictionary
/// column's exactness rests on.
pub proof fn lemma_pool_intern_round_trip<T>(pool: Seq<T>, s: T)
    ensures
        pool_intern(pool, s)[pool_handle(pool, s)] == s,
        0 <= pool_handle(pool, s) < pool_intern(pool, s).len(),
{
    lemma_pool_find(pool, s);
}

/// The column bytes of the time series: the raw base offset, then the
/// compressed offsets column.
pub open spec fn ts_col(off: u64, handles: Seq<u32>) -> Seq<u8> {
    crate::varint::le64(off) + (if handles.len() == 0 {
        Seq::<u8>::empty()
    } else {
        pco_of_u32(handles, DeltaMode::Consecutive1.spec_code())
    })
}

/// Timestamps stored as 32-bit offsets from a per-block base: the first
/// non-zero time added (or 1) becomes the base.
pub struct TimeSeries {
    offset: u64,
}

impl View for TimeSeries {
    type V = u64;

    closed spec fn view(&self) -> u64 {
        self.offset
    }
}

impl TimeSeries {
    pub fn new() -> (r: TimeSeries)
        ensures
            r@ == 0,
    {
        TimeSeries { offset: 0 }
    }

    /// From a known base offset, as the reader restores it.
    pub fn with_offset(offset: u64) -> (r: TimeSeries)
        ensures
            r@ == offset,
    {
        TimeSeries { offset }
    }

    /// Encodes one timestamp.  The first time added fixes the base: itself
    /// when non-zero, else 1.
    pub fn add(&mut self, t: u64) -> (h: u32)
        ensures
            final(self)@ == (if old(self)@ == 0 {
                if t != 0 {
                    t
                } else {
                    1u64
                }
            } else {
                old(self)@
            }),
            h == time_handle(final(self)@, t),
    {
        if self.offset == 0 {
            self.offset = if t != 0 {
                t
            } else {
                1
            };
        }
        let off = self.offset;
        let d: u64 = if t >= off {
            t - off
        } else {
            (u64::MAX - (off - t)) + 1
        };
        proof {
            assert(d == spec_wrap_sub64(t, off));
        }
        (d % 0x1_0000_0000) as u32
    }

    /// Decodes a handle: the base plus the stored 32-bit offset, wrapped as
    /// the encoder wrapped it.
    pub fn get(&self, h: u32) -> (t: u64)
        ensures
            t == spec_wrap_add64(self@, h as u64),
    {
        let off = self.offset;
        let d = h as u64;
        if d <= u64::MAX - off {
            off + d
        } else {
            d - (u64::MAX - off) - 1
        }
    }

    /// Writes the column: the base as eight raw bytes, then the compressed
    /// offset column.
    pub fn write(&self, handles: &[u32], out: &mut Vec<u8>) -> (r: Result<(), EncodeError>)
        ensures
            handles@.len() <= 0x100_0000 ==> r is Ok,
            match r {
                Ok(()) => final(out)@ == old(out)@ + ts_col(self@, handles@),
                Err(_) => true,
            },
    {
        let ghost prev = out@;
        crate::varint::encode_u64_le(self.offset, out);
        if handles.len() == 0 {
            proof {
                assert(out@ =~= prev + ts_col(self@, handles@));
            }
            return Ok(());
        }
        match pco_compress_u32(handles, DeltaMode::Consecutive1, out) {
            Ok(()) => {
                proof {
                    assert(out@ =~= prev + ts_col(self@, handles@));
                }
                Ok(())
            },
            Err(e) => Err(e),
        }
    }

    /// Reads the column back: the base, then `n` offsets.
    pub fn read(
        fd: &pco::wrapped::FileDecompressor,
        input: &[u8],
        n: usize,
    ) -> (r: Result<(TimeSeries, Vec<u32>, usize), DecodeError>)
        ensures
            match r {
                Ok((ts, handles, used)) => handles@.len() == n && used <= input@.len(),
                Err(_) => true,
            },
            forall|off: u64, handles: Seq<u32>|
                #[trigger] ts_hyp(input@, *fd, n, off, handles) ==> r is Ok && r->Ok_0.0@ == off
                    && r->Ok_0.1@ == handles && r->Ok_0.2 == ts_col(off, handles).len(),
    {
        let ghost iv = input@;
        if input.len() < 8 {
            proof {
                assert forall|off: u64, handles: Seq<u32>| !ts_hyp(iv, *fd, n, off, handles) by {
                    assert(ts_col(off, handles).len() >= 8);
                }
            }
            return Err(DecodeError::Truncated);
        }
        let lo = crate::varint::decode_u32_le(input[0], input[1], input[2], input[3]);
        let hi = crate::varint::decode_u32_le(input[4], input[5], input[6], input[7]);
        let off = crate::varint::decode_u64_le(lo, hi);
        proof {
            assert forall|o: u64, handles: Seq<u32>|
                ts_hyp(iv, *fd, n, o, handles) implies o == off by {
                assert forall|k: int| 0 <= k < 8 implies iv[k] == crate::varint::le64(o)[k] by {
                    assert(iv.take(ts_col(o, handles).len() as int)[k] == ts_col(o, handles)[k]);
                }
                assert(crate::varint::le64(off) =~= crate::varint::le64(o));
                crate::varint::lemma_le64_unique(off, o);
            }
        }
        let ts = TimeSeries { offset: off };
        let rest = vstd::slice::slice_subrange(input, 8, input.len());
        if n == 0 {
            proof {
                assert forall|o: u64, handles: Seq<u32>|
                    ts_hyp(iv, *fd, n, o, handles) implies handles =~= Seq::<u32>::empty()
                    && ts_col(o, handles).len() == 8 by {}
            }
            return Ok((ts, Vec::new(), 8));
        }
        proof {
            assert forall|o: u64, handles: Seq<u32>| ts_hyp(iv, *fd, n, o, handles) implies {
                let penc = pco_of_u32(handles, DeltaMode::Consecutive1.spec_code());
                penc.len() <= rest@.len() && rest@.take(penc.len() as int) == penc
            } by {
                let enc = ts_col(o, handles);
                let penc = pco_of_u32(handles, DeltaMode::Consecutive1.spec_code());
                assert(enc.len() == 8 + penc.len());
                assert forall|i: int| 0 <= i < penc.len() implies rest@[i] == penc[i] by {
                    assert(iv.take(enc.len() as int)[8 + i] == enc[8 + i]);
                }
                assert(rest@.take(penc.len() as int) =~= penc);
            }
        }
        let (handles, used2) = match pco_decompress_u32(fd, rest, n) {
            Ok(p) => p,
            Err(e) => {
                return Err(e);
            },
        };
        if used2 > input.len() - 8 {
            return Err(DecodeError::Malformed);
        }
        let ghost handles_view = handles@;
        let ghost used2_g = used2;
        proof {
            assert forall|o: u64, hd: Seq<u32>|
                ts_hyp(iv, *fd, n, o, hd) implies handles_view == hd && 8 + used2_g == ts_col(
                o,
                hd,
            ).len() by {
                let penc = pco_of_u32(hd, DeltaMode::Consecutive1.spec_code());
                assert(ts_col(o, hd).len() == 8 + penc.len());
            }
        }
        Ok((ts, handles, 8 + used2))
    }
}

/// The time-series reader's hypothesis: the input begins with the column of
/// this base offset and these handles.
pub open spec fn ts_hyp(
    iv: Seq<u8>,
    fd: pco::wrapped::FileDecompressor,
    n: usize,
    off: u64,
    handles: Seq<u32>,
) -> bool {
    let enc = ts_col(off, handles);
    handles.len() == n && pco_version_of(fd) == 0 && enc.len() <= iv.len() && iv.take(
        enc.len() as int,
    ) == enc
}


/// What a stored blob handle resolves to: 0 is the absent value, handle `h`
/// the byte range between end-offsets `h - 2` and `h - 1`.
pub open spec fn ds_get(data: Seq<u8>, offsets: Seq<u32>, h: u32) -> Option<Option<Seq<u8>>> {
    if h == 0 {
        Some(None)
    } else if h > offsets.len() {
        None
    } else {
        let start: int = if h == 1 {
            0
        } else {
            offsets[h - 2] as int
        };
        let end: int = offsets[h - 1] as int;
        if 0 <= start <= end <= data.len() {
            Some(Some(data.subrange(start, end)))
        } else {
            None
        }
    }
}

/// The column bytes of the blob series: the handle column, the end-offset
/// column, then the compressed blob buffer.
pub open spec fn ds_col(data: Seq<u8>, offsets: Seq<u32>, handles: Seq<u32>, q: int) -> Seq<u8> {
    (if handles.len() == 0 {
        Seq::<u8>::empty()
    } else {
        pco_of_u32(handles, DeltaMode::Lookback.spec_code())
    }) + (if offsets.len() == 0 {
        Seq::<u8>::empty()
    } else {
        pco_of_u32(offsets, DeltaMode::Consecutive2.spec_code())
    }) + brotli_of(data, q)
}

/// The blob reader's hypothesis: the input begins with the column of this
/// buffer, these offsets and these handles.
pub open spec fn ds_hyp(
    iv: Seq<u8>,
    fd: pco::wrapped::FileDecompressor,
    n: usize,
    osz: u32,
    csz: u32,
    data: Seq<u8>,
    offsets: Seq<u32>,
    handles: Seq<u32>,
    q: int,
) -> bool {
    let enc = ds_col(data, offsets, handles, q);
    handles.len() == n && offsets.len() == osz && ds_wf(data, offsets) && pco_version_of(fd) == 0
        && csz == brotli_of(data, q).len() && enc.len() <= iv.len() && iv.take(enc.len() as int)
        == enc
}

/// Every end offset lies inside the buffer: what `add` maintains and `get`
/// relies on to resolve every handle it handed out.
pub open spec fn ds_wf(data: Seq<u8>, offsets: Seq<u32>) -> bool {
    &&& forall|i: int| 0 <= i < offsets.len() ==> #[trigger] offsets[i] <= data.len()
    &&& (offsets.len() == 0 ==> data.len() == 0)
    &&& (offsets.len() > 0 ==> offsets.last() == data.len())
}

/// Byte blobs with an absent bit: one contiguous buffer and per-blob end
/// offsets.  A handle picks a range of the buffer, or nothing.
pub struct DataSeries {
    data: Vec<u8>,
    offsets: Vec<u32>,
}

impl View for DataSeries {
    type V = (Seq<u8>, Seq<u32>);

    closed spec fn view(&self) -> (Seq<u8>, Seq<u32>) {
        (self.data@, self.offsets@)
    }
}

impl DataSeries {
    pub fn new() -> (r: DataSeries)
        ensures
            r@ == (Seq::<u8>::empty(), Seq::<u32>::empty()),
    {
        DataSeries { data: Vec::new(), offsets: Vec::new() }
    }

    pub fn offsets_len(&self) -> (n: usize)
        ensures
            n == self@.1.len(),
    {
        self.offsets.len()
    }

    pub fn data_len(&self) -> (n: usize)
        ensures
            n == self@.0.len(),
    {
        self.data.len()
    }

    /// Encodes one blob: absent stays handle 0, present bytes append to the
    /// buffer and take the next slot.
    pub fn add(&mut self, item: Option<&[u8]>) -> (h: u32)
        requires
            ds_wf(old(self)@.0, old(self)@.1),
            old(self)@.0.len() + match item {
                Some(b) => b@.len(),
                None => 0,
            } <= u32::MAX,
            old(self)@.1.len() < u32::MAX,
        ensures
            ds_wf(final(self)@.0, final(self)@.1),
            match item {
                None => h == 0 && *final(self) == *old(self),
                Some(b) => {
                    &&& final(self)@.0 == old(self)@.0 + b@
                    &&& final(self)@.1 == old(self)@.1.push(final(self)@.0.len() as u32)
                    &&& h == final(self)@.1.len()
                    &&& ds_get(final(self)@.0, final(self)@.1, h) == Some(Some(b@))
                },
            },
    {
        match item {
            None => 0,
            Some(b) => {
                let ghost prev_data = self.data@;
                let ghost prev_offsets = self.offsets@;
                self.data.extend_from_slice(b);
                let end = self.data.len() as u32;
                self.offsets.push(end);
                let h = self.offsets.len() as u32;
                proof {
                    let data = self.data@;
                    let offsets = self.offsets@;
                    assert(offsets[h - 1] == end);
                    if h == 1 {
                        assert(prev_data =~= Seq::<u8>::empty());
                        assert(data.subrange(0, end as int) =~= b@);
                    } else {
                        assert(offsets[h - 2] == prev_offsets[h - 2]);
                        assert(prev_offsets[h - 2] == prev_offsets.last());
                        assert(data.subrange(prev_data.len() as int, end as int) =~= b@);
                    }
                }
                h
            },
        }
    }

    /// The blob a handle stands for: `None` for the absent value, the byte
    /// range for a valid handle, nothing for one out of range.
    pub fn get(&self, h: u32) -> (r: Option<Option<&[u8]>>)
        ensures
            match r {
                Some(Some(b)) => ds_get(self@.0, self@.1, h) == Some(Some(b@)),
                Some(None) => ds_get(self@.0, self@.1, h) == Some(None::<Seq<u8>>),
                None => ds_get(self@.0, self@.1, h) is None,
            },
    {
        if h == 0 {
            return Some(None);
        }
        if (h as usize) > self.offsets.len() {
            return None;
        }
        let start: u32 = if h == 1 {
            0
        } else {
            self.offsets[(h - 2) as usize]
        };
        let end: u32 = self.offsets[(h - 1) as usize];
        if start <= end && (end as usize) <= self.data.len() {
            let b = vstd::slice::slice_subrange(
                self.data.as_slice(),
                start as usize,
                end as usize,
            );
            Some(Some(b))
        } else {
            None
        }
    }

    /// Writes the column: handles, end offsets, compressed buffer.  Returns
    /// the size descriptor (offset count, compressed buffer length).
    pub fn write(&self, handles: &[u32], opt: &Options, out: &mut Vec<u8>) -> (r: Result<
        (u32, u32),
        EncodeError,
    >)
        requires
            self@.1.len() <= u32::MAX,
        ensures
            (handles@.len() <= 0x100_0000 && self@.1.len() <= 0x100_0000 && crate::compress::brotli_of(
                self@.0,
                opt.brotli_level as int,
            ).len() <= u32::MAX) ==> r is Ok,
            match r {
                Ok((osz, csz)) => {
                    &&& final(out)@ == old(out)@ + ds_col(
                        self@.0,
                        self@.1,
                        handles@,
                        opt.brotli_level as int,
                    )
                    &&& osz == self@.1.len()
                    &&& csz == brotli_of(self@.0, opt.brotli_level as int).len()
                },
                Err(_) => true,
            },
    {
        if handles.len() > 0 {
            match pco_compress_u32(handles, DeltaMode::Lookback, out) {
                Ok(()) => {},
                Err(e) => {
                    return Err(e);
                },
            }
        }
        if self.offsets.len() > 0 {
            match pco_compress_u32(self.offsets.as_slice(), DeltaMode::Consecutive2, out) {
                Ok(()) => {},
                Err(e) => {
                    return Err(e);
                },
            }
        }
        let csz = match brotli_compress(self.data.as_slice(), opt.brotli_level, out) {
            Ok(n) => n,
            Err(e) => {
                return Err(e);
            },
        };
        if csz > u32::MAX as usize {
            return Err(EncodeError::Codec);
        }
        proof {
            assert(out@ =~= old(out)@ + ds_col(
                self@.0,
                self@.1,
                handles@,
                opt.brotli_level as int,
            ));
        }
        Ok((self.offsets.len() as u32, csz as u32))
    }

    /// Reads the column back: `n` handles, `osz` end offsets, then `csz`
    /// compressed buffer bytes.
    pub fn read(
        fd: &pco::wrapped::FileDecompressor,
        input: &[u8],
        n: usize,
        osz: u32,
        csz: u32,
    ) -> (r: Result<(DataSeries, Vec<u32>, usize), DecodeError>)
        ensures
            match r {
                Ok((ds, handles, used)) => handles@.len() == n && used <= input@.len() && ds_wf(
                    ds@.0,
                    ds@.1,
                ) && ds@.1.len() == osz,
                Err(_) => true,
            },
            forall|data: Seq<u8>, offsets: Seq<u32>, handles: Seq<u32>, q: int|
                #[trigger] ds_hyp(input@, *fd, n, osz, csz, data, offsets, handles, q) ==> r is Ok
                    && r->Ok_0.0@ == (data, offsets) && r->Ok_0.1@ == handles && r->Ok_0.2
                    == ds_col(data, offsets, handles, q).len(),
    {
        let ghost iv = input@;
        proof {
            assert forall|data: Seq<u8>, offsets: Seq<u32>, hd: Seq<u32>, q: int|
                ds_hyp(iv, *fd, n, osz, csz, data, offsets, hd, q) implies ds_split(
                iv,
                n,
                data,
                offsets,
                hd,
                q,
            ) by {
                let ha = if hd.len() == 0 {
                    Seq::<u8>::empty()
                } else {
                    pco_of_u32(hd, DeltaMode::Lookback.spec_code())
                };
                let ob = if offsets.len() == 0 {
                    Seq::<u8>::empty()
                } else {
                    pco_of_u32(offsets, DeltaMode::Consecutive2.spec_code())
                };
                let cb = brotli_of(data, q);
                let enc = ds_col(data, offsets, hd, q);
                assert(enc == ha + ob + cb);
                lemma_chop(iv, enc, ha.len() as int);
                assert(enc.take(ha.len() as int) =~= ha);
                assert(enc.skip(ha.len() as int) =~= ob + cb);
                lemma_chop(iv.skip(ha.len() as int), ob + cb, ob.len() as int);
                assert((ob + cb).take(ob.len() as int) =~= ob);
                assert((ob + cb).skip(ob.len() as int) =~= cb);
                assert(iv.skip(ha.len() as int).skip(ob.len() as int) =~= iv.skip(
                    ha.len() + ob.len() as int,
                ));
            }
        }
        let mut handles: Vec<u32> = Vec::new();
        let mut pos: usize = 0;
        if n > 0 {
            let (h, used) = match pco_decompress_u32(fd, input, n) {
                Ok(p) => p,
                Err(e) => {
                    proof {
                        assert forall|data: Seq<u8>, offs: Seq<u32>, hd: Seq<u32>, q: int|
                            !ds_hyp(iv, *fd, n, osz, csz, data, offs, hd, q) by {
                            if ds_hyp(iv, *fd, n, osz, csz, data, offs, hd, q) {
                                assert(ds_split(iv, n, data, offs, hd, q));
                                assert(starts_with(
                                    iv,
                                    pco_of_u32(hd, DeltaMode::Lookback.spec_code()),
                                ));
                            }
                        }
                    }
                    return Err(e);
                },
            };
            handles = h;
            pos = used;
        }
        let ghost handles_view = handles@;
        let ghost pos1 = pos as int;
        proof {
            assert forall|data: Seq<u8>, offsets: Seq<u32>, hd: Seq<u32>, q: int|
                ds_hyp(iv, *fd, n, osz, csz, data, offsets, hd, q) implies handles_view == hd
                && pos1 == ds_ha(hd).len() by {
                assert(ds_split(iv, n, data, offsets, hd, q));
                if n == 0 {
                    assert(hd =~= Seq::<u32>::empty());
                    assert(ds_ha(hd) =~= Seq::<u8>::empty());
                } else {
                    assert(starts_with(iv, pco_of_u32(hd, DeltaMode::Lookback.spec_code())));
                }
            }
        }
        let rest1 = vstd::slice::slice_subrange(input, pos, input.len());
        let mut offsets: Vec<u32> = Vec::new();
        let mut used2: usize = 0;
        if osz > 0 {
            let (o, u) = match pco_decompress_u32(fd, rest1, osz as usize) {
                Ok(p) => p,
                Err(e) => {
                    proof {
                        assert forall|data: Seq<u8>, offs: Seq<u32>, hd: Seq<u32>, q: int|
                            !ds_hyp(iv, *fd, n, osz, csz, data, offs, hd, q) by {
                            if ds_hyp(iv, *fd, n, osz, csz, data, offs, hd, q) {
                                assert(ds_split(iv, n, data, offs, hd, q));
                                assert(rest1@ == iv.skip(ds_ha(hd).len() as int));
                                assert(starts_with(
                                    rest1@,
                                    pco_of_u32(offs, DeltaMode::Consecutive2.spec_code()),
                                ));
                            }
                        }
                    }
                    return Err(e);
                },
            };
            offsets = o;
            used2 = u;
        }
        let ghost offsets_view = offsets@;
        let ghost pos2 = pos as int + used2 as int;
        proof {
            assert forall|data: Seq<u8>, offs: Seq<u32>, hd: Seq<u32>, q: int|
                ds_hyp(iv, *fd, n, osz, csz, data, offs, hd, q) implies offsets_view == offs
                && pos2 == ds_ha(hd).len() + ds_ob(offs).len() by {
                assert(ds_split(iv, n, data, offs, hd, q));
                if osz == 0 {
                    assert(offs =~= Seq::<u32>::empty());
                    assert(ds_ob(offs) =~= Seq::<u8>::empty());
                } else {
                    assert(rest1@ == iv.skip(ds_ha(hd).len() as int));
                    assert(starts_with(rest1@, pco_of_u32(offs, DeltaMode::Consecutive2.spec_code())));
                }
            }
        }
        if input.len() - pos < used2 {
            return Err(DecodeError::Malformed);
        }
        let pos = pos + used2;
        if input.len() - pos < csz as usize {
            proof {
                assert forall|data: Seq<u8>, offs: Seq<u32>, hd: Seq<u32>, q: int|
                    !ds_hyp(iv, *fd, n, osz, csz, data, offs, hd, q) by {
                    if ds_hyp(iv, *fd, n, osz, csz, data, offs, hd, q) {
                        assert(ds_split(iv, n, data, offs, hd, q));
                        assert(ds_col(data, offs, hd, q).len() == ds_ha(hd).len() + ds_ob(
                            offs,
                        ).len() + brotli_of(data, q).len());
                    }
                }
            }
            return Err(DecodeError::Truncated);
        }
        let cbytes = vstd::slice::slice_subrange(input, pos, pos + csz as usize);
        proof {
            assert forall|data: Seq<u8>, offs: Seq<u32>, hd: Seq<u32>, q: int|
                ds_hyp(iv, *fd, n, osz, csz, data, offs, hd, q) implies cbytes@ == brotli_of(
                data,
                q,
            ) by {
                assert(ds_split(iv, n, data, offs, hd, q));
                let cb = brotli_of(data, q);
                assert(starts_with(iv.skip(pos as int), cb));
                assert(cbytes@ =~= cb) by {
                    assert forall|i: int| 0 <= i < cb.len() implies cbytes@[i] == cb[i] by {
                        assert(iv.skip(pos as int).take(cb.len() as int)[i] == cb[i]);
                    }
                }
            }
        }
        let data = match brotli_decompress(cbytes) {
            Ok(d) => d,
            Err(e) => {
                return Err(e);
            },
        };
        let ghost data_view = data@;
        proof {
            assert forall|dv: Seq<u8>, offs: Seq<u32>, hd: Seq<u32>, q: int|
                ds_hyp(iv, *fd, n, osz, csz, dv, offs, hd, q) implies data_view == dv && pos + csz
                == ds_col(dv, offs, hd, q).len() by {
                assert(ds_split(iv, n, dv, offs, hd, q));
                assert(ds_col(dv, offs, hd, q).len() == ds_ha(hd).len() + ds_ob(offs).len()
                    + brotli_of(dv, q).len());
            }
        }
        // the offsets must account for the buffer, as written columns do
        if offsets.len() == 0 {
            if data.len() != 0 {
                proof {
                    assert forall|dv: Seq<u8>, offs: Seq<u32>, hd: Seq<u32>, q: int|
                        !ds_hyp(input@, *fd, n, osz, csz, dv, offs, hd, q) by {
                        if ds_hyp(input@, *fd, n, osz, csz, dv, offs, hd, q) {
                            assert(offsets_view == offs && data_view == dv);
                        }
                    }
                }
                return Err(DecodeError::Malformed);
            }
        } else {
            if offsets[offsets.len() - 1] as usize != data.len() {
                proof {
                    assert forall|dv: Seq<u8>, offs: Seq<u32>, hd: Seq<u32>, q: int|
                        !ds_hyp(input@, *fd, n, osz, csz, dv, offs, hd, q) by {
                        if ds_hyp(input@, *fd, n, osz, csz, dv, offs, hd, q) {
                            assert(offsets_view == offs && data_view == dv);
                            assert(offs.last() == dv.len());
                        }
                    }
                }
                return Err(DecodeError::Malformed);
            }
        }
        let mut j: usize = 0;
        while j < offsets.len()
            invariant
                j <= offsets@.len(),
                data_view == data@,
                offsets_view == offsets@,
                forall|t: int| 0 <= t < j ==> #[trigger] offsets@[t] <= data@.len(),
                forall|dv: Seq<u8>, offs: Seq<u32>, hd: Seq<u32>, q: int|
                    #[trigger] ds_hyp(input@, *fd, n, osz, csz, dv, offs, hd, q) ==> offsets_view
                        == offs && data_view == dv,
            decreases offsets@.len() - j,
        {
            if offsets[j] as usize > data.len() {
                proof {
                    assert forall|dv: Seq<u8>, offs: Seq<u32>, hd: Seq<u32>, q: int|
                        !ds_hyp(input@, *fd, n, osz, csz, dv, offs, hd, q) by {
                        if ds_hyp(input@, *fd, n, osz, csz, dv, offs, hd, q) {
                            assert(offsets_view == offs && data_view == dv);
                            assert(offs[j as int] <= dv.len());
                        }
                    }
                }
                return Err(DecodeError::Malformed);
            }
            j = j + 1;
        }
        let ds = DataSeries { data, offsets };
        Ok((ds, handles, pos + csz as usize))
    }
}

/// The handle-column bytes of a blob column.
pub open spec fn ds_ha(handles: Seq<u32>) -> Seq<u8> {
    if handles.len() == 0 {
        Seq::<u8>::empty()
    } else {
        pco_of_u32(handles, DeltaMode::Lookback.spec_code())
    }
}

/// The offset-column bytes of a blob column.
pub open spec fn ds_ob(offsets: Seq<u32>) -> Seq<u8> {
    if offsets.len() == 0 {
        Seq::<u8>::empty()
    } else {
        pco_of_u32(offsets, DeltaMode::Consecutive2.spec_code())
    }
}

/// The blob column cut into its three parts, each found at its position in
/// the input.
pub open spec fn ds_split(
    iv: Seq<u8>,
    n: usize,
    data: Seq<u8>,
    offsets: Seq<u32>,
    handles: Seq<u32>,
    q: int,
) -> bool {
    &&& starts_with(iv, ds_ha(handles))
    &&& starts_with(iv.skip(ds_ha(handles).len() as int), ds_ob(offsets))
    &&& starts_with(
        iv.skip(ds_ha(handles).len() + ds_ob(offsets).len() as int),
        brotli_of(data, q),
    )
}

/// `iv` begins with `enc`.
pub open spec fn starts_with(iv: Seq<u8>, enc: Seq<u8>) -> bool {
    enc.len() <= iv.len() && iv.take(enc.len() as int) == enc
}

/// Cutting a prefix in two: the input begins with the first part, and past
/// it begins with the second.
pub proof fn lemma_chop(iv: Seq<u8>, enc: Seq<u8>, k: int)
    requires
        starts_with(iv, enc),
        0 <= k <= enc.len(),
    ensures
        starts_with(iv, enc.take(k)),
        starts_with(iv.skip(k), enc.skip(k)),
{
    assert(iv.take(k) =~= enc.take(k)) by {
        assert forall|i: int| 0 <= i < k implies iv[i] == enc[i] by {
            assert(iv.take(enc.len() as int)[i] == enc[i]);
        }
    }
    assert(iv.skip(k).take(enc.skip(k).len() as int) =~= enc.skip(k)) by {
        assert forall|i: int| 0 <= i < enc.len() - k implies iv.skip(k)[i] == enc.skip(k)[i] by {
            assert(iv.take(enc.len() as int)[k + i] == enc[k + i]);
        }
    }
}

/// A prefix of a prefix/// A prefix of a prefix: when `iv` begins with `enc` and `part` is a prefix
/// of `enc`, `iv` begins with `part`.
pub proof fn lemma_prefix_of_prefix(iv: Seq<u8>, enc: Seq<u8>, part: Seq<u8>)
    requires
        enc.len() <= iv.len(),
        iv.take(enc.len() as int) == enc,
        part.len() <= enc.len(),
        enc.take(part.len() as int) == part,
    ensures
        part.len() <= iv.len(),
        iv.take(part.len() as int) == part,
{
    assert(iv.take(part.len() as int) =~= part) by {
        assert forall|i: int| 0 <= i < part.len() implies iv[i] == part[i] by {
            assert(iv.take(enc.len() as int)[i] == enc[i]);
            assert(enc.take(part.len() as int)[i] == part[i]);
        }
    }
}


/// The interned /96 prefix of an address: its top three 32-bit words.
pub open spec fn ip_prefix(ip: u128) -> (u32, u32, u32) {
    (
        (ip / 0x1_00000000_00000000_00000000u128) as u32,
        ((ip / 0x10000000000000000u128) % 0x100000000) as u32,
        ((ip / 0x100000000u128) % 0x100000000) as u32,
    )
}

/// The raw 32-bit suffix of an address.
pub open spec fn ip_suffix(ip: u128) -> u32 {
    (ip % 0x100000000) as u32
}

/// An address reassembled from its prefix words and suffix.
pub open spec fn ip_join(p: (u32, u32, u32), s: u32) -> u128 {
    (p.0 as u128 * 0x1_00000000_00000000_00000000u128 + p.1 as u128
        * 0x10000000000000000u128 + p.2 as u128 * 0x100000000u128 + s as u128) as u128
}

/// Splitting and rejoining an address is the identity.
pub proof fn lemma_ip_split_join(ip: u128)
    ensures
        ip_join(ip_prefix(ip), ip_suffix(ip)) == ip,
{
    let p: int = 0x100000000;
    let i = ip as int;
    let q1 = i / p;
    let q2 = q1 / p;
    let q3 = q2 / p;
    vstd::arithmetic::div_mod::lemma_fundamental_div_mod(i, p);
    vstd::arithmetic::div_mod::lemma_fundamental_div_mod(q1, p);
    vstd::arithmetic::div_mod::lemma_fundamental_div_mod(q2, p);
    vstd::arithmetic::div_mod::lemma_div_denominator(i, 0x100000000, 0x100000000);
    vstd::arithmetic::div_mod::lemma_div_denominator(i, 0x10000000000000000, 0x100000000);
    assert(q2 == i / 0x10000000000000000);
    assert(q3 == i / 0x1_00000000_00000000_00000000);
    assert(q3 < p) by {
        if q3 >= p {
            vstd::arithmetic::mul::lemma_mul_inequality(
                p,
                q3,
                0x1_00000000_00000000_00000000,
            );
        }
    }
    assert(i == q3 * 0x1_00000000_00000000_00000000 + (q2 % p) * 0x10000000000000000 + (q1
        % p) * 0x100000000 + i % p) by {
        assert(i == p * q1 + i % p);
        assert(q1 == p * q2 + q1 % p);
        assert(q2 == p * q3 + q2 % p);
        assert(p * q1 == p * (p * q2 + q1 % p));
        assert(p * (p * q2) == (p * p) * q2) by (nonlinear_arith);
        assert((p * p) * q2 == (p * p) * (p * q3 + q2 % p));
        assert((p * p) * (p * q3) == (p * p * p) * q3) by (nonlinear_arith);
    }
}

/// The raw prefix table: twelve little-endian bytes per interned prefix.
pub open spec fn pfx_table(prefixes: Seq<(u32, u32, u32)>) -> Seq<u8>
    decreases prefixes.len(),
{
    if prefixes.len() == 0 {
        Seq::<u8>::empty()
    } else {
        pfx_table(prefixes.drop_last()) + crate::varint::le32(prefixes.last().0)
            + crate::varint::le32(prefixes.last().1) + crate::varint::le32(prefixes.last().2)
    }
}

/// The table is twelve bytes per prefix.
pub proof fn lemma_pfx_table_len(prefixes: Seq<(u32, u32, u32)>)
    ensures
        pfx_table(prefixes).len() == 12 * prefixes.len(),
    decreases prefixes.len(),
{
    if prefixes.len() > 0 {
        lemma_pfx_table_len(prefixes.drop_last());
    }
}

/// Where each prefix sits in the table.
pub proof fn lemma_pfx_table_at(prefixes: Seq<(u32, u32, u32)>, i: int)
    requires
        0 <= i < prefixes.len(),
    ensures
        pfx_table(prefixes).subrange(12 * i, 12 * i + 12) == crate::varint::le32(prefixes[i].0)
            + crate::varint::le32(prefixes[i].1) + crate::varint::le32(prefixes[i].2),
    decreases prefixes.len(),
{
    lemma_pfx_table_len(prefixes);
    lemma_pfx_table_len(prefixes.drop_last());
    if i == prefixes.len() - 1 {
        assert(pfx_table(prefixes).subrange(12 * i, 12 * i + 12) =~= crate::varint::le32(
            prefixes[i].0,
        ) + crate::varint::le32(prefixes[i].1) + crate::varint::le32(prefixes[i].2));
    } else {
        lemma_pfx_table_at(prefixes.drop_last(), i);
        assert(pfx_table(prefixes).subrange(12 * i, 12 * i + 12) =~= pfx_table(
            prefixes.drop_last(),
        ).subrange(12 * i, 12 * i + 12));
    }
}

/// The column bytes of the address codec: the prefix-index column, the
/// suffix column, then the raw prefix table.
pub open spec fn hip_col(
    prefixes: Seq<(u32, u32, u32)>,
    pidx: Seq<u32>,
    sfx: Seq<u32>,
) -> Seq<u8> {
    (if pidx.len() == 0 {
        Seq::<u8>::empty()
    } else {
        pco_of_u32(pidx, DeltaMode::Lookback.spec_code())
    }) + (if sfx.len() == 0 {
        Seq::<u8>::empty()
    } else {
        pco_of_u32(sfx, DeltaMode::Lookback.spec_code())
    }) + pfx_table(prefixes)
}

/// The address reader's hypothesis: the input begins with the column of
/// these prefixes and handle columns.
pub open spec fn hip_hyp(
    iv: Seq<u8>,
    fd: pco::wrapped::FileDecompressor,
    n: usize,
    size: u32,
    prefixes: Seq<(u32, u32, u32)>,
    pidx: Seq<u32>,
    sfx: Seq<u32>,
) -> bool {
    pidx.len() == n && sfx.len() == n && prefixes.len() == size && pco_version_of(fd) == 0
        && starts_with(iv, hip_col(prefixes, pidx, sfx))
}

/// IPv6 addresses split into an interned /96 prefix and a raw 32-bit
/// suffix.  A handle is the pair (prefix slot, suffix).
pub struct HashIpv6 {
    prefixes: Vec<(u32, u32, u32)>,
}

impl View for HashIpv6 {
    type V = Seq<(u32, u32, u32)>;

    closed spec fn view(&self) -> Seq<(u32, u32, u32)> {
        self.prefixes@
    }
}

impl HashIpv6 {
    pub fn new() -> (r: HashIpv6)
        ensures
            r@ == Seq::<(u32, u32, u32)>::empty(),
    {
        HashIpv6 { prefixes: Vec::new() }
    }

    pub fn len(&self) -> (n: usize)
        ensures
            n == self@.len(),
    {
        self.prefixes.len()
    }

    /// The slot of the first occurrence of `p`, if it is interned.
    fn lookup(&self, p: (u32, u32, u32)) -> (r: Option<usize>)
        ensures
            match r {
                Some(i) => i == pool_find(self@, p) && i < self@.len() && self@[i as int] == p,
                None => pool_find(self@, p) < 0,
            },
    {
        let n = self.prefixes.len();
        let mut i: usize = 0;
        while i < n
            invariant
                i <= n,
                n == self@.len(),
                forall|j: int| 0 <= j < i ==> self@[j] != p,
            decreases n - i,
        {
            let q = self.prefixes[i];
            if q.0 == p.0 && q.1 == p.1 && q.2 == p.2 {
                proof {
                    lemma_pool_find_at(self@, p, i as int);
                }
                return Some(i);
            }
            i = i + 1;
        }
        proof {
            lemma_pool_find(self@, p);
            if pool_find(self@, p) >= 0 {
                assert(self@[pool_find(self@, p)] == p);
            }
        }
        None
    }

    /// Encodes one address: interns its prefix and keeps the raw suffix.
    pub fn add(&mut self, ip: u128) -> (h: (u32, u32))
        requires
            old(self)@.len() < 0xffff_ffffu32,
        ensures
            final(self)@ == pool_intern(old(self)@, ip_prefix(ip)),
            h.0 == pool_handle(old(self)@, ip_prefix(ip)),
            h.0 < final(self)@.len(),
            final(self)@[h.0 as int] == ip_prefix(ip),
            h.1 == ip_suffix(ip),
            old(self)@.is_prefix_of(final(self)@),
    {
        let hi = (ip / 0x1_00000000_00000000_00000000u128) as u32;
        let mid = ((ip / 0x10000000000000000u128) % 0x100000000) as u32;
        let lo = ((ip / 0x100000000u128) % 0x100000000) as u32;
        let sfx = (ip % 0x100000000) as u32;
        let p = (hi, mid, lo);
        proof {
            assert(p == ip_prefix(ip));
            assert(sfx == ip_suffix(ip));
            lemma_pool_find(self@, p);
        }
        match self.lookup(p) {
            Some(i) => {
                proof {
                    assert(self@.contains(p)) by {
                        assert(self@[i as int] == p);
                    }
                    assert(self@.is_prefix_of(self@)) by {
                        assert(self@.subrange(0, self@.len() as int) =~= self@);
                    }
                }
                (i as u32, sfx)
            },
            None => {
                let n = self.prefixes.len();
                let ghost prev = self@;
                self.prefixes.push(p);
                proof {
                    assert(self@ =~= prev.push(p));
                    assert(prev.is_prefix_of(self@)) by {
                        assert(self@.subrange(0, prev.len() as int) =~= prev);
                    }
                }
                (n as u32, sfx)
            },
        }
    }

    /// The address a handle stands for, or nothing when the prefix slot is
    /// out of range.
    pub fn get(&self, h: (u32, u32)) -> (r: Option<u128>)
        ensures
            match r {
                Some(ip) => h.0 < self@.len() && ip == ip_join(self@[h.0 as int], h.1),
                None => h.0 >= self@.len(),
            },
    {
        if (h.0 as usize) < self.prefixes.len() {
            let p = self.prefixes[h.0 as usize];
            let t1: u128 = p.0 as u128 * 0x100000000u128 + p.1 as u128;
            let t2: u128 = t1 * 0x100000000u128 + p.2 as u128;
            let ip: u128 = t2 * 0x100000000u128 + h.1 as u128;
            proof {
                assert(t2 == p.0 as u128 * 0x10000000000000000u128 + p.1 as u128 * 0x100000000u128
                    + p.2 as u128) by (nonlinear_arith)
                    requires
                        t1 == p.0 as u128 * 0x100000000u128 + p.1 as u128,
                        t2 == t1 * 0x100000000u128 + p.2 as u128,
                ;
                assert(ip == p.0 as u128 * 0x1_00000000_00000000_00000000u128 + p.1 as u128
                    * 0x10000000000000000u128 + p.2 as u128 * 0x100000000u128 + h.1 as u128)
                    by (nonlinear_arith)
                    requires
                        t2 == p.0 as u128 * 0x10000000000000000u128 + p.1 as u128
                            * 0x100000000u128 + p.2 as u128,
                        ip == t2 * 0x100000000u128 + h.1 as u128,
                ;
                assert(ip == ip_join(self@[h.0 as int], h.1));
            }
            Some(ip)
        } else {
            None
        }
    }

    /// Writes the column: prefix indices, suffixes, then the raw prefix
    /// table.  Returns the prefix count as the size descriptor.
    pub fn write(&self, pidx: &[u32], sfx: &[u32], out: &mut Vec<u8>) -> (r: Result<
        u32,
        EncodeError,
    >)
        requires
            self@.len() <= u32::MAX,
        ensures
            (pidx@.len() <= 0x100_0000 && sfx@.len() <= 0x100_0000) ==> r is Ok,
            match r {
                Ok(size) => {
                    &&& final(out)@ == old(out)@ + hip_col(self@, pidx@, sfx@)
                    &&& size == self@.len()
                },
                Err(_) => true,
            },
    {
        if pidx.len() > 0 {
            match pco_compress_u32(pidx, DeltaMode::Lookback, out) {
                Ok(()) => {},
                Err(e) => {
                    return Err(e);
                },
            }
        }
        if sfx.len() > 0 {
            match pco_compress_u32(sfx, DeltaMode::Lookback, out) {
                Ok(()) => {},
                Err(e) => {
                    return Err(e);
                },
            }
        }
        let ghost mid = out@;
        let n = self.prefixes.len();
        let mut i: usize = 0;
        while i < n
            invariant
                i <= n,
                n == self@.len(),
                out@ == mid + pfx_table(self@.take(i as int)),
            decreases n - i,
        {
            let ghost prev = out@;
            let p = self.prefixes[i];
            crate::varint::encode_u32_le(p.0, out);
            crate::varint::encode_u32_le(p.1, out);
            crate::varint::encode_u32_le(p.2, out);
            proof {
                assert(self@.take(i + 1).drop_last() =~= self@.take(i as int));
                assert(self@.take(i + 1).last() == self@[i as int]);
                assert(out@ =~= mid + pfx_table(self@.take(i + 1)));
            }
            i = i + 1;
        }
        proof {
            assert(self@.take(n as int) =~= self@);
            assert(out@ =~= old(out)@ + hip_col(self@, pidx@, sfx@));
        }
        Ok(n as u32)
    }

    /// Reads the column back: `n` prefix indices, `n` suffixes, then `size`
    /// prefixes of twelve raw bytes each.
    pub fn read(
        fd: &pco::wrapped::FileDecompressor,
        input: &[u8],
        n: usize,
        size: u32,
    ) -> (r: Result<(HashIpv6, Vec<u32>, Vec<u32>, usize), DecodeError>)
        ensures
            match r {
                Ok((hip, pidx, sfx, used)) => pidx@.len() == n && sfx@.len() == n && used
                    <= input@.len() && hip@.len() == size,
                Err(_) => true,
            },
            forall|prefixes: Seq<(u32, u32, u32)>, pidx: Seq<u32>, sfx: Seq<u32>|
                #[trigger] hip_hyp(input@, *fd, n, size, prefixes, pidx, sfx) ==> r is Ok
                    && r->Ok_0.0@ == prefixes && r->Ok_0.1@ == pidx && r->Ok_0.2@ == sfx
                    && r->Ok_0.3 == hip_col(prefixes, pidx, sfx).len(),
    {
        let ghost iv = input@;
        proof {
            assert forall|pf: Seq<(u32, u32, u32)>, pidx: Seq<u32>, sfx: Seq<u32>|
                hip_hyp(iv, *fd, n, size, pf, pidx, sfx) implies hip_split(
                iv,
                pf,
                pidx,
                sfx,
            ) by {
                let pa = hip_pa(pidx);
                let sa = hip_pa(sfx);
                let tb = pfx_table(pf);
                let enc = hip_col(pf, pidx, sfx);
                assert(enc == pa + sa + tb);
                lemma_chop(iv, enc, pa.len() as int);
                assert(enc.take(pa.len() as int) =~= pa);
                assert(enc.skip(pa.len() as int) =~= sa + tb);
                lemma_chop(iv.skip(pa.len() as int), sa + tb, sa.len() as int);
                assert((sa + tb).take(sa.len() as int) =~= sa);
                assert((sa + tb).skip(sa.len() as int) =~= tb);
                assert(iv.skip(pa.len() as int).skip(sa.len() as int) =~= iv.skip(
                    pa.len() + sa.len() as int,
                ));
            }
        }
        let mut pidx: Vec<u32> = Vec::new();
        let mut sfx: Vec<u32> = Vec::new();
        let mut pos: usize = 0;
        if n > 0 {
            let (v, used) = match pco_decompress_u32(fd, input, n) {
                Ok(p) => p,
                Err(e) => {
                    proof {
                        assert forall|pf: Seq<(u32, u32, u32)>, pi: Seq<u32>, sf: Seq<u32>|
                            !hip_hyp(iv, *fd, n, size, pf, pi, sf) by {
                            if hip_hyp(iv, *fd, n, size, pf, pi, sf) {
                                assert(hip_split(iv, pf, pi, sf));
                                assert(starts_with(
                                    iv,
                                    pco_of_u32(pi, DeltaMode::Lookback.spec_code()),
                                ));
                            }
                        }
                    }
                    return Err(e);
                },
            };
            pidx = v;
            pos = used;
        }
        let ghost pidx_view = pidx@;
        let ghost pos1 = pos as int;
        proof {
            assert forall|pf: Seq<(u32, u32, u32)>, pi: Seq<u32>, sf: Seq<u32>|
                hip_hyp(iv, *fd, n, size, pf, pi, sf) implies pidx_view == pi && pos1 == hip_pa(
                pi,
            ).len() by {
                assert(hip_split(iv, pf, pi, sf));
                if n == 0 {
                    assert(pi =~= Seq::<u32>::empty());
                    assert(hip_pa(pi) =~= Seq::<u8>::empty());
                } else {
                    assert(starts_with(iv, pco_of_u32(pi, DeltaMode::Lookback.spec_code())));
                }
            }
        }
        let rest1 = vstd::slice::slice_subrange(input, pos, input.len());
        let mut used2: usize = 0;
        if n > 0 {
            let (v, u) = match pco_decompress_u32(fd, rest1, n) {
                Ok(p) => p,
                Err(e) => {
                    proof {
                        assert forall|pf: Seq<(u32, u32, u32)>, pi: Seq<u32>, sf: Seq<u32>|
                            !hip_hyp(iv, *fd, n, size, pf, pi, sf) by {
                            if hip_hyp(iv, *fd, n, size, pf, pi, sf) {
                                assert(hip_split(iv, pf, pi, sf));
                                assert(rest1@ == iv.skip(hip_pa(pi).len() as int));
                                assert(starts_with(
                                    rest1@,
                                    pco_of_u32(sf, DeltaMode::Lookback.spec_code()),
                                ));
                            }
                        }
                    }
                    return Err(e);
                },
            };
            sfx = v;
            used2 = u;
        }
        let ghost sfx_view = sfx@;
        let ghost pos2 = pos as int + used2 as int;
        proof {
            assert forall|pf: Seq<(u32, u32, u32)>, pi: Seq<u32>, sf: Seq<u32>|
                hip_hyp(iv, *fd, n, size, pf, pi, sf) implies sfx_view == sf && pos2 == hip_pa(
                pi,
            ).len() + hip_pa(sf).len() by {
                assert(hip_split(iv, pf, pi, sf));
                if n == 0 {
                    assert(sf =~= Seq::<u32>::empty());
                    assert(hip_pa(sf) =~= Seq::<u8>::empty());
                } else {
                    assert(rest1@ == iv.skip(hip_pa(pi).len() as int));
                    assert(starts_with(rest1@, pco_of_u32(sf, DeltaMode::Lookback.spec_code())));
                }
            }
        }
        let pos = pos + used2;
        if (input.len() - pos) / 12 < size as usize {
            proof {
                assert forall|pf: Seq<(u32, u32, u32)>, pi: Seq<u32>, sf: Seq<u32>|
                    !hip_hyp(iv, *fd, n, size, pf, pi, sf) by {
                    if hip_hyp(iv, *fd, n, size, pf, pi, sf) {
                        assert(hip_split(iv, pf, pi, sf));
                        lemma_pfx_table_len(pf);
                        assert(hip_col(pf, pi, sf).len() == hip_pa(pi).len() + hip_pa(sf).len()
                            + 12 * pf.len());
                    }
                }
            }
            return Err(DecodeError::Truncated);
        }
        let table = vstd::slice::slice_subrange(input, pos, pos + 12 * size as usize);
        proof {
            assert forall|pf: Seq<(u32, u32, u32)>, pi: Seq<u32>, sf: Seq<u32>|
                hip_hyp(iv, *fd, n, size, pf, pi, sf) implies table@ == pfx_table(pf) by {
                assert(hip_split(iv, pf, pi, sf));
                lemma_pfx_table_len(pf);
                let tb = pfx_table(pf);
                assert(starts_with(iv.skip(pos as int), tb));
                assert(table@ =~= tb) by {
                    assert forall|i: int| 0 <= i < tb.len() implies table@[i] == tb[i] by {
                        assert(iv.skip(pos as int).take(tb.len() as int)[i] == tb[i]);
                    }
                }
            }
        }
        let prefixes = parse_pfx_table(table, size as usize);
        let ghost prefixes_view = prefixes@;
        let hip = HashIpv6 { prefixes };
        proof {
            assert forall|pf: Seq<(u32, u32, u32)>, pi: Seq<u32>, sf: Seq<u32>|
                hip_hyp(iv, *fd, n, size, pf, pi, sf) implies prefixes_view == pf && pos + 12
                * size as usize == hip_col(pf, pi, sf).len() by {
                assert(hip_split(iv, pf, pi, sf));
                lemma_pfx_table_len(pf);
            }
        }
        Ok((hip, pidx, sfx, pos + 12 * size as usize))
    }
}

/// One compressed handle column of the address codec.
pub open spec fn hip_pa(vals: Seq<u32>) -> Seq<u8> {
    if vals.len() == 0 {
        Seq::<u8>::empty()
    } else {
        pco_of_u32(vals, DeltaMode::Lookback.spec_code())
    }
}

/// The address column cut into its three parts.
pub open spec fn hip_split(
    iv: Seq<u8>,
    prefixes: Seq<(u32, u32, u32)>,
    pidx: Seq<u32>,
    sfx: Seq<u32>,
) -> bool {
    &&& starts_with(iv, hip_pa(pidx))
    &&& starts_with(iv.skip(hip_pa(pidx).len() as int), hip_pa(sfx))
    &&& starts_with(iv.skip(hip_pa(pidx).len() + hip_pa(sfx).len() as int), pfx_table(prefixes))
}

/// Parses `count` twelve-byte prefixes from exactly the table bytes.
fn parse_pfx_table(table: &[u8], count: usize) -> (r: Vec<(u32, u32, u32)>)
    requires
        table@.len() == 12 * count,
    ensures
        r@.len() == count,
        forall|pf: Seq<(u32, u32, u32)>|
            pf.len() == count && table@ == #[trigger] pfx_table(pf) ==> r@ == pf,
{
    let tlen = table.len();
    let mut out: Vec<(u32, u32, u32)> = Vec::new();
    let mut i: usize = 0;
    while i < count
        invariant
            i <= count,
            tlen == table@.len(),
            table@.len() == 12 * count,
            out@.len() == i,
            forall|pf: Seq<(u32, u32, u32)>|
                pf.len() == count && table@ == #[trigger] pfx_table(pf) ==> out@ == pf.take(
                    i as int,
                ),
        decreases count - i,
    {
        let base = 12 * i;
        let a = crate::varint::decode_u32_le(
            table[base],
            table[base + 1],
            table[base + 2],
            table[base + 3],
        );
        let b = crate::varint::decode_u32_le(
            table[base + 4],
            table[base + 5],
            table[base + 6],
            table[base + 7],
        );
        let c = crate::varint::decode_u32_le(
            table[base + 8],
            table[base + 9],
            table[base + 10],
            table[base + 11],
        );
        let ghost prev = out@;
        out.push((a, b, c));
        proof {
            assert forall|pf: Seq<(u32, u32, u32)>|
                pf.len() == count && table@ == #[trigger] pfx_table(pf) implies out@ == pf.take(
                i + 1,
            ) by {
                lemma_pfx_table_at(pf, i as int);
                let entry = crate::varint::le32(pf[i as int].0) + crate::varint::le32(
                    pf[i as int].1,
                ) + crate::varint::le32(pf[i as int].2);
                lemma_pfx_table_len(pf);
                assert(crate::varint::le32(a) =~= entry.subrange(0, 4)) by {
                    assert forall|k: int| 0 <= k < 4 implies crate::varint::le32(a)[k] == entry
                        .subrange(0, 4)[k] by {
                        assert(table@[12 * i + k] == pfx_table(pf).subrange(
                            12 * i,
                            12 * i + 12,
                        )[k]);
                    }
                }
                assert(crate::varint::le32(b) =~= entry.subrange(4, 8)) by {
                    assert forall|k: int| 0 <= k < 4 implies crate::varint::le32(b)[k] == entry
                        .subrange(4, 8)[k] by {
                        assert(table@[12 * i + 4 + k] == pfx_table(pf).subrange(
                            12 * i,
                            12 * i + 12,
                        )[4 + k]);
                    }
                }
                assert(crate::varint::le32(c) =~= entry.subrange(8, 12)) by {
                    assert forall|k: int| 0 <= k < 4 implies crate::varint::le32(c)[k] == entry
                        .subrange(8, 12)[k] by {
                        assert(table@[12 * i + 8 + k] == pfx_table(pf).subrange(
                            12 * i,
                            12 * i + 12,
                        )[8 + k]);
                    }
                }
                assert(entry.subrange(0, 4) =~= crate::varint::le32(pf[i as int].0));
                assert(entry.subrange(4, 8) =~= crate::varint::le32(pf[i as int].1));
                assert(entry.subrange(8, 12) =~= crate::varint::le32(pf[i as int].2));
                crate::varint::lemma_le32_unique(a, pf[i as int].0);
                crate::varint::lemma_le32_unique(b, pf[i as int].1);
                crate::varint::lemma_le32_unique(c, pf[i as int].2);
                assert(out@ =~= pf.take(i + 1)) by {
                    assert(prev == pf.take(i as int));
                }
            }
        }
        i = i + 1;
    }
    proof {
        assert forall|pf: Seq<(u32, u32, u32)>|
            pf.len() == count && table@ == #[trigger] pfx_table(pf) implies out@ == pf by {
            assert(pf.take(count as int) =~= pf);
        }
    }
    out
}


/// A pool as the reader restores it: splitting the empty text yields one
/// empty entry, so an empty pool reads back as a single empty string.
pub open spec fn pool_norm(pool: Seq<Seq<char>>) -> Seq<Seq<char>> {
    if pool.len() == 0 {
        seq![Seq::<char>::empty()]
    } else {
        pool
    }
}

/// Compresses one string pool without a handle column, as the key and value
/// pools of the header-map codec are written.
fn write_pool(pool: &Vec<String>, opt: &Options, out: &mut Vec<u8>) -> (r: Result<
    u32,
    EncodeError,
>)
    ensures
        brotli_str(pool_text(pool.deep_view()), opt.brotli_level as int).len() <= u32::MAX
            ==> r is Ok,
        match r {
            Ok(sz) => {
                &&& final(out)@ == old(out)@ + brotli_str(
                    pool_text(pool.deep_view()),
                    opt.brotli_level as int,
                )
                &&& sz == brotli_str(pool_text(pool.deep_view()), opt.brotli_level as int).len()
            },
            Err(_) => true,
        },
{
    let text = if pool.len() == 0 {
        String::new()
    } else {
        join_lines(pool)
    };
    proof {
        if pool@.len() == 0 {
            assert(pool.deep_view() =~= Seq::<Seq<char>>::empty());
        }
    }
    compress_string(out, text.as_str(), opt)
}

/// Restores one string pool from `size` compressed bytes at the head of the
/// input.
fn read_pool(input: &[u8], size: u32) -> (r: Result<Vec<String>, DecodeError>)
    ensures
        r matches Ok(p) ==> pool_wf(p.deep_view()) && p.deep_view().len() >= 1,
        forall|pool: Seq<Seq<char>>, q: int|
            (pool_wf(pool) && size == #[trigger] brotli_str(pool_text(pool), q).len()
                && starts_with(input@, brotli_str(pool_text(pool), q))) ==> r is Ok
                && r->Ok_0.deep_view() == pool_norm(pool),
{
    let ghost iv = input@;
    if (size as usize) > input.len() {
        return Err(DecodeError::Truncated);
    }
    let pool_bytes = vstd::slice::slice_subrange(input, 0, size as usize);
    proof {
        assert forall|pool: Seq<Seq<char>>, q: int|
            (pool_wf(pool) && size == #[trigger] brotli_str(pool_text(pool), q).len()
                && starts_with(iv, brotli_str(pool_text(pool), q))) implies pool_bytes@
            == brotli_str(pool_text(pool), q) by {
            let enc = brotli_str(pool_text(pool), q);
            assert(pool_bytes@ =~= enc) by {
                assert forall|i: int| 0 <= i < size implies pool_bytes@[i] == enc[i] by {
                    assert(iv.take(enc.len() as int)[i] == enc[i]);
                }
            }
        }
    }
    let text = match decompress_string(pool_bytes) {
        Ok(t) => t,
        Err(e) => {
            return Err(e);
        },
    };
    let pool = split_string(text.as_str(), '\n');
    proof {
        crate::strtab::lemma_split_pieces_clean(text@, '\n');
        crate::strtab::lemma_split_len(text@, '\n');
        assert forall|pv: Seq<Seq<char>>, q: int|
            (pool_wf(pv) && size == #[trigger] brotli_str(pool_text(pv), q).len() && starts_with(
                iv,
                brotli_str(pool_text(pv), q),
            )) implies pool.deep_view() == pool_norm(pv) by {
            assert(text@ == pool_text(pv));
            if pv.len() == 0 {
                assert(pool_text(pv) =~= Seq::<char>::empty());
                assert(pool.deep_view() =~= seq![Seq::<char>::empty()]);
            } else {
                lemma_split_join(pv, '\n');
            }
        }
    }
    Ok(pool)
}

/// The per-entry pair counts, as the stored 16-bit length column.
pub open spec fn entry_lens(entries: Seq<Seq<(u32, u32)>>) -> Seq<u16> {
    entries.map_values(|e: Seq<(u32, u32)>| e.len() as u16)
}

/// All key indices of all entries, in entry order.
pub open spec fn concat_keys(entries: Seq<Seq<(u32, u32)>>) -> Seq<u32>
    decreases entries.len(),
{
    if entries.len() == 0 {
        Seq::<u32>::empty()
    } else {
        concat_keys(entries.drop_last()) + entries.last().map_values(|p: (u32, u32)| p.0)
    }
}

/// All value indices of all entries, in entry order.
pub open spec fn concat_vals(entries: Seq<Seq<(u32, u32)>>) -> Seq<u32>
    decreases entries.len(),
{
    if entries.len() == 0 {
        Seq::<u32>::empty()
    } else {
        concat_vals(entries.drop_last()) + entries.last().map_values(|p: (u32, u32)| p.1)
    }
}

/// Every entry is short enough for its 16-bit stored length.
pub open spec fn sm_wf(entries: Seq<Seq<(u32, u32)>>) -> bool {
    forall|i: int| 0 <= i < entries.len() ==> #[trigger] entries[i].len() <= 0xffff
}

/// Key and value index columns have one slot per pair.
pub proof fn lemma_concat_len(entries: Seq<Seq<(u32, u32)>>)
    ensures
        concat_keys(entries).len() == concat_vals(entries).len(),
        entries.len() > 0 ==> concat_keys(entries).len() == concat_keys(
            entries.drop_last(),
        ).len() + entries.last().len(),
    decreases entries.len(),
{
    if entries.len() > 0 {
        lemma_concat_len(entries.drop_last());
    }
}

/// The column bytes of the header-map codec: both pools, the length column,
/// both index columns, then the handle column.
pub open spec fn sm_col(
    kp: Seq<Seq<char>>,
    vp: Seq<Seq<char>>,
    entries: Seq<Seq<(u32, u32)>>,
    handles: Seq<u32>,
    q: int,
) -> Seq<u8> {
    brotli_str(pool_text(kp), q) + brotli_str(pool_text(vp), q) + sm_lens_col(entries)
        + sm_idx_col(concat_keys(entries)) + sm_idx_col(concat_vals(entries)) + (
    if handles.len() == 0 {
        Seq::<u8>::empty()
    } else {
        pco_of_u32(handles, DeltaMode::Auto.spec_code())
    })
}

/// The compressed length column, absent when no entry exists.
pub open spec fn sm_lens_col(entries: Seq<Seq<(u32, u32)>>) -> Seq<u8> {
    if entries.len() == 0 {
        Seq::<u8>::empty()
    } else {
        pco_of_u16(entry_lens(entries), DeltaMode::NoOp.spec_code())
    }
}

/// One compressed index column, absent when no pair exists.
pub open spec fn sm_idx_col(idx: Seq<u32>) -> Seq<u8> {
    if idx.len() == 0 {
        Seq::<u8>::empty()
    } else {
        pco_of_u32(idx, DeltaMode::Auto.spec_code())
    }
}

/// The pairs of header text a handle stands for, resolved against the
/// pools; an empty map always resolves to no pairs, and a handle or index
/// out of range resolves to nothing.
pub open spec fn sm_get(
    kp: Seq<Seq<char>>,
    vp: Seq<Seq<char>>,
    entries: Seq<Seq<(u32, u32)>>,
    h: u32,
) -> Option<Seq<(Seq<char>, Seq<char>)>> {
    if entries.len() == 0 {
        Some(Seq::<(Seq<char>, Seq<char>)>::empty())
    } else if h >= entries.len() {
        None
    } else if forall|j: int|
        0 <= j < entries[h as int].len() ==> (#[trigger] entries[h as int][j]).0 < kp.len()
            && entries[h as int][j].1 < vp.len() {
        Some(
            entries[h as int].map_values(
                |p: (u32, u32)| (kp[p.0 as int], vp[p.1 as int]),
            ),
        )
    } else {
        None
    }
}

/// Interning a sequence of header pairs: both pools grow as each key and
/// value is interned in order, and the entry collects the handles.
pub open spec fn sm_add_pairs(
    kp: Seq<Seq<char>>,
    vp: Seq<Seq<char>>,
    items: Seq<(Seq<char>, Seq<char>)>,
) -> (Seq<Seq<char>>, Seq<Seq<char>>, Seq<(u32, u32)>)
    decreases items.len(),
{
    if items.len() == 0 {
        (kp, vp, Seq::<(u32, u32)>::empty())
    } else {
        let kh = pool_handle(kp, items[0].0) as u32;
        let vh = pool_handle(vp, items[0].1) as u32;
        let kp1 = pool_intern(kp, items[0].0);
        let vp1 = pool_intern(vp, items[0].1);
        let r = sm_add_pairs(kp1, vp1, items.skip(1));
        (r.0, r.1, seq![(kh, vh)] + r.2)
    }
}

/// The pair views of a vector of owned header pairs.
pub open spec fn pairs_view(items: Seq<(String, String)>) -> Seq<(Seq<char>, Seq<char>)> {
    items.map_values(|p: (String, String)| (p.0@, p.1@))
}

/// Small key/value maps: interned key and value pools and an ordered set of
/// distinct entries.  A handle is the slot of its entry.
pub struct StringMap {
    keys: HashStrings,
    values: HashStrings,
    entries: Vec<Vec<(u32, u32)>>,
}

impl View for StringMap {
    type V = (Seq<Seq<char>>, Seq<Seq<char>>, Seq<Seq<(u32, u32)>>);

    closed spec fn view(&self) -> (Seq<Seq<char>>, Seq<Seq<char>>, Seq<Seq<(u32, u32)>>) {
        (self.keys@, self.values@, Seq::new(self.entries@.len(), |i: int| self.entries@[i]@))
    }
}

impl StringMap {
    pub fn entries_len(&self) -> (n: usize)
        ensures
            n == self@.2.len(),
    {
        self.entries.len()
    }

    pub fn keys_len(&self) -> (n: usize)
        ensures
            n == self@.0.len(),
    {
        self.keys.len()
    }

    pub fn values_len(&self) -> (n: usize)
        ensures
            n == self@.1.len(),
    {
        self.values.len()
    }

    pub fn new() -> (r: StringMap)
        ensures
            r@.0 == Seq::<Seq<char>>::empty(),
            r@.1 == Seq::<Seq<char>>::empty(),
            r@.2 == Seq::<Seq<(u32, u32)>>::empty(),
    {
        let r = StringMap { keys: HashStrings::new(), values: HashStrings::new(), entries: Vec::new() };
        proof {
            assert(r@.2 =~= Seq::<Seq<(u32, u32)>>::empty());
        }
        r
    }

    /// The slot of the first entry equal to `entry`, if one exists.
    fn lookup(&self, entry: &Vec<(u32, u32)>) -> (r: Option<usize>)
        ensures
            match r {
                Some(i) => i == pool_find(self@.2, entry@) && i < self@.2.len(),
                None => pool_find(self@.2, entry@) < 0,
            },
    {
        let n = self.entries.len();
        let mut i: usize = 0;
        while i < n
            invariant
                i <= n,
                n == self@.2.len(),
                self@.2 == Seq::new(self.entries@.len(), |k: int| self.entries@[k]@),
                forall|j: int| 0 <= j < i ==> self@.2[j] != entry@,
            decreases n - i,
        {
            if pairs_eq(&self.entries[i], entry) {
                proof {
                    lemma_pool_find_at(self@.2, entry@, i as int);
                }
                return Some(i);
            }
            i = i + 1;
        }
        proof {
            lemma_pool_find(self@.2, entry@);
            if pool_find(self@.2, entry@) >= 0 {
                assert(self@.2[pool_find(self@.2, entry@)] == entry@);
            }
        }
        None
    }

    /// Interns one header map: every key and value joins its pool, the
    /// handle sequence forms the entry, and the entry joins the entry set.
    pub fn add(&mut self, item: &Vec<(String, String)>) -> (h: u32)
        requires
            old(self)@.0.len() + item@.len() < 0xffff_ffffu32,
            old(self)@.1.len() + item@.len() < 0xffff_ffffu32,
            old(self)@.2.len() < 0xffff_ffffu32,
        ensures
            ({
                let r = sm_add_pairs(old(self)@.0, old(self)@.1, pairs_view(item@));
                &&& final(self)@.0 == r.0
                &&& final(self)@.1 == r.1
                &&& final(self)@.2 == pool_intern(old(self)@.2, r.2)
                &&& h == pool_handle(old(self)@.2, r.2)
                &&& h < final(self)@.2.len()
                &&& final(self)@.2[h as int] == r.2
            }),
    {
        let ghost kp0 = self@.0;
        let ghost vp0 = self@.1;
        let ghost dv = pairs_view(item@);
        let mut entry: Vec<(u32, u32)> = Vec::new();
        let mut i: usize = 0;
        proof {
            assert(dv.skip(0) =~= dv);
        }
        while i < item.len()
            invariant
                i <= item@.len(),
                dv == pairs_view(item@),
                dv.len() == item@.len(),
                self@.0.len() <= kp0.len() + i,
                self@.1.len() <= vp0.len() + i,
                kp0.len() + item@.len() < 0xffff_ffffu32,
                vp0.len() + item@.len() < 0xffff_ffffu32,
                self@.2 == old(self)@.2,
                ({
                    let r = sm_add_pairs(self@.0, self@.1, dv.skip(i as int));
                    let full = sm_add_pairs(kp0, vp0, dv);
                    r.0 == full.0 && r.1 == full.1 && entry@ + r.2 == full.2
                }),
            decreases item@.len() - i,
        {
            let ghost kp_cur = self@.0;
            let ghost vp_cur = self@.1;
            let ghost entry_prev = entry@;
            let kh = self.keys.add(item[i].0.as_str());
            let vh = self.values.add(item[i].1.as_str());
            entry.push((kh, vh));
            proof {
                let items = dv.skip(i as int);
                assert(items[0] == dv[i as int]);
                assert(dv[i as int] == (item@[i as int].0@, item@[i as int].1@));
                assert(items.skip(1) =~= dv.skip(i + 1));
                let r = sm_add_pairs(kp_cur, vp_cur, items);
                let r1 = sm_add_pairs(self@.0, self@.1, dv.skip(i + 1));
                assert(r.2 == seq![(kh, vh)] + r1.2);
                assert(entry@ =~= entry_prev.push((kh, vh)));
                assert(entry@ + r1.2 =~= entry_prev + r.2);
            }
            i = i + 1;
        }
        proof {
            assert(dv.skip(item@.len() as int) =~= Seq::<(Seq<char>, Seq<char>)>::empty());
            let full = sm_add_pairs(kp0, vp0, dv);
            assert(entry@ + Seq::<(u32, u32)>::empty() =~= entry@);
            assert(entry@ == full.2);
        }
        let ghost entries0 = self@.2;
        proof {
            lemma_pool_find(entries0, entry@);
        }
        match self.lookup(&entry) {
            Some(i) => {
                proof {
                    assert(entries0.contains(entry@)) by {
                        assert(entries0[i as int] == entry@);
                    }
                }
                i as u32
            },
            None => {
                let n = self.entries.len();
                let ghost prev = self.entries@;
                self.entries.push(entry);
                proof {
                    assert(self@.2 =~= entries0.push(
                        sm_add_pairs(kp0, vp0, dv).2,
                    ));
                }
                n as u32
            },
        }
    }

    /// The header pairs a handle stands for, or nothing when the handle or
    /// any stored index is out of range.
    pub fn get(&self, h: u32) -> (r: Option<Vec<(String, String)>>)
        ensures
            match r {
                Some(pairs) => sm_get(self@.0, self@.1, self@.2, h) == Some(
                    pairs_view(pairs@),
                ),
                None => sm_get(self@.0, self@.1, self@.2, h) is None,
            },
    {
        if self.entries.len() == 0 {
            let empty: Vec<(String, String)> = Vec::new();
            proof {
                assert(pairs_view(empty@) =~= Seq::<(Seq<char>, Seq<char>)>::empty());
            }
            return Some(empty);
        }
        if (h as usize) >= self.entries.len() {
            return None;
        }
        let entry = &self.entries[h as usize];
        let mut out: Vec<(String, String)> = Vec::new();
        let mut j: usize = 0;
        while j < entry.len()
            invariant
                j <= entry@.len(),
                entry@ == self@.2[h as int],
                h < self@.2.len(),
                self@.2.len() > 0,
                forall|t: int|
                    0 <= t < j ==> (#[trigger] entry@[t]).0 < self@.0.len() && entry@[t].1
                        < self@.1.len(),
                out@.len() == j,
                pairs_view(out@) =~= self@.2[h as int].take(j as int).map_values(
                    |p: (u32, u32)| (self@.0[p.0 as int], self@.1[p.1 as int]),
                ),
            decreases entry@.len() - j,
        {
            let (ki, vi) = entry[j];
            let k = match self.keys.get(ki) {
                Some(k) => k,
                None => {
                    return None;
                },
            };
            let v = match self.values.get(vi) {
                Some(v) => v,
                None => {
                    return None;
                },
            };
            let ghost prev = out@;
            out.push((k.to_owned(), v.to_owned()));
            proof {
                let f = |p: (u32, u32)| (self@.0[p.0 as int], self@.1[p.1 as int]);
                assert(self@.2[h as int].take(j + 1) =~= self@.2[h as int].take(j as int).push(
                    entry@[j as int],
                ));
                assert(pairs_view(out@) =~= pairs_view(prev).push(f(entry@[j as int])));
            }
            j = j + 1;
        }
        proof {
            assert(self@.2[h as int].take(entry@.len() as int) =~= self@.2[h as int]);
        }
        Some(out)
    }
}

/// Element-for-element equality of two handle-pair vectors.
fn pairs_eq(a: &Vec<(u32, u32)>, b: &Vec<(u32, u32)>) -> (r: bool)
    ensures
        r == (a@ == b@),
{
    if a.len() != b.len() {
        proof {
            assert(a@.len() != b@.len());
        }
        return false;
    }
    let mut i: usize = 0;
    while i < a.len()
        invariant
            i <= a@.len(),
            a@.len() == b@.len(),
            forall|j: int| 0 <= j < i ==> a@[j] == b@[j],
        decreases a@.len() - i,
    {
        let x = a[i];
        let y = b[i];
        if x.0 != y.0 || x.1 != y.1 {
            return false;
        }
        i = i + 1;
    }
    proof {
        assert(a@ =~= b@);
    }
    true
}


/// The total pair count of a length column.
pub open spec fn lens_total(lens: Seq<u16>) -> int
    decreases lens.len(),
{
    if lens.len() == 0 {
        0
    } else {
        lens_total(lens.drop_last()) + lens.last()
    }
}

/// The length column accounts for every slot of the index columns.
pub proof fn lemma_lens_total(entries: Seq<Seq<(u32, u32)>>)
    requires
        sm_wf(entries),
    ensures
        lens_total(entry_lens(entries)) == concat_keys(entries).len(),
        concat_keys(entries).len() == concat_vals(entries).len(),
    decreases entries.len(),
{
    lemma_concat_len(entries);
    if entries.len() > 0 {
        assert(sm_wf(entries.drop_last())) by {
            assert(forall|i: int|
                0 <= i < entries.drop_last().len() ==> #[trigger] entries.drop_last()[i]
                    == entries[i]);
        }
        lemma_lens_total(entries.drop_last());
        assert(entry_lens(entries).drop_last() =~= entry_lens(entries.drop_last()));
        assert(entry_lens(entries).last() == entries.last().len() as u16);
    }
}

/// A non-negative total never shrinks as entries are appended.
pub proof fn lemma_lens_total_mono(lens: Seq<u16>, i: int)
    requires
        0 <= i <= lens.len(),
    ensures
        lens_total(lens.take(i)) <= lens_total(lens),
        lens_total(lens) >= 0,
    decreases lens.len(),
{
    if lens.len() == 0 {
        assert(lens.take(i) =~= lens);
    } else if i == lens.len() {
        assert(lens.take(i) =~= lens);
        lemma_lens_total_mono(lens.drop_last(), lens.drop_last().len() as int);
    } else {
        assert(lens.take(i) =~= lens.drop_last().take(i));
        lemma_lens_total_mono(lens.drop_last(), i);
    }
}

/// The index columns decompose around any entry boundary.
pub proof fn lemma_concat_decomp(entries: Seq<Seq<(u32, u32)>>, i: int)
    requires
        0 <= i <= entries.len(),
    ensures
        concat_keys(entries) == concat_keys(entries.take(i)) + concat_keys(entries.skip(i)),
        concat_vals(entries) == concat_vals(entries.take(i)) + concat_vals(entries.skip(i)),
    decreases entries.len(),
{
    if i == entries.len() {
        assert(entries.take(i) =~= entries);
        assert(entries.skip(i) =~= Seq::<Seq<(u32, u32)>>::empty());
        assert(concat_keys(entries) =~= concat_keys(entries.take(i)) + concat_keys(
            entries.skip(i),
        ));
        assert(concat_vals(entries) =~= concat_vals(entries.take(i)) + concat_vals(
            entries.skip(i),
        ));
    } else {
        let dl = entries.drop_last();
        lemma_concat_decomp(dl, i);
        assert(entries.take(i) =~= dl.take(i));
        assert(entries.skip(i).drop_last() =~= dl.skip(i));
        assert(entries.skip(i).last() == entries.last());
        assert(concat_keys(entries.skip(i)) == concat_keys(dl.skip(i)) + entries.last().map_values(
            |p: (u32, u32)| p.0,
        ));
        assert(concat_keys(entries) =~= concat_keys(entries.take(i)) + concat_keys(
            entries.skip(i),
        ));
        assert(concat_vals(entries.skip(i)) == concat_vals(dl.skip(i)) + entries.last().map_values(
            |p: (u32, u32)| p.1,
        ));
        assert(concat_vals(entries) =~= concat_vals(entries.take(i)) + concat_vals(
            entries.skip(i),
        ));
    }
}

/// Short entries keep the concatenated index columns within a bound of the
/// entry count.
pub proof fn lemma_concat_bounded(entries: Seq<Seq<(u32, u32)>>)
    requires
        sm_wf(entries),
    ensures
        concat_keys(entries).len() <= 0xffff * entries.len(),
    decreases entries.len(),
{
    lemma_concat_len(entries);
    if entries.len() > 0 {
        assert(sm_wf(entries.drop_last())) by {
            assert(forall|i: int|
                0 <= i < entries.drop_last().len() ==> #[trigger] entries.drop_last()[i]
                    == entries[i]);
        }
        lemma_concat_bounded(entries.drop_last());
        assert(entries.last().len() <= 0xffff);
        assert(0xffff * entries.drop_last().len() + 0xffff == 0xffff * entries.len())
            by (nonlinear_arith)
            requires
                entries.len() >= 1,
                entries.drop_last().len() == entries.len() - 1,
        ;
    }
}

/// Two entry sets with the same length column and the same index columns
/// are the same entries: what lets the reader rebuild them exactly.
pub proof fn lemma_entries_unique(e1: Seq<Seq<(u32, u32)>>, e2: Seq<Seq<(u32, u32)>>)
    requires
        sm_wf(e1),
        sm_wf(e2),
        entry_lens(e1) == entry_lens(e2),
        concat_keys(e1) == concat_keys(e2),
        concat_vals(e1) == concat_vals(e2),
    ensures
        e1 == e2,
    decreases e1.len(),
{
    assert(e1.len() == e2.len()) by {
        assert(entry_lens(e1).len() == e1.len());
        assert(entry_lens(e2).len() == e2.len());
    }
    if e1.len() == 0 {
        assert(e1 =~= e2);
    } else {
        let n = e1.len() as int;
        lemma_concat_len(e1);
        lemma_concat_len(e2);
        assert(sm_wf(e1.drop_last())) by {
            assert(forall|k: int|
                0 <= k < e1.drop_last().len() ==> #[trigger] e1.drop_last()[k] == e1[k]);
        }
        assert(sm_wf(e2.drop_last())) by {
            assert(forall|k: int|
                0 <= k < e2.drop_last().len() ==> #[trigger] e2.drop_last()[k] == e2[k]);
        }
        assert(e1.last().len() == e2.last().len()) by {
            assert(entry_lens(e1)[n - 1] == e1.last().len() as u16);
            assert(entry_lens(e2)[n - 1] == e2.last().len() as u16);
            assert(e1.last().len() <= 0xffff);
            assert(e2.last().len() <= 0xffff);
        }
        assert(concat_keys(e1.drop_last()).len() == concat_keys(e2.drop_last()).len());
        assert(concat_keys(e1) == concat_keys(e1.drop_last()) + e1.last().map_values(
            |p: (u32, u32)| p.0,
        ));
        assert(concat_keys(e2) == concat_keys(e2.drop_last()) + e2.last().map_values(
            |p: (u32, u32)| p.0,
        ));
        assert(concat_vals(e1) == concat_vals(e1.drop_last()) + e1.last().map_values(
            |p: (u32, u32)| p.1,
        ));
        assert(concat_vals(e2) == concat_vals(e2.drop_last()) + e2.last().map_values(
            |p: (u32, u32)| p.1,
        ));
        assert(concat_keys(e1.drop_last()) =~= concat_keys(e2.drop_last())) by {
            assert forall|k: int|
                0 <= k < concat_keys(e1.drop_last()).len() implies concat_keys(e1.drop_last())[k]
                == concat_keys(e2.drop_last())[k] by {
                assert(concat_keys(e1)[k] == (concat_keys(e1.drop_last()) + e1.last().map_values(
                    |p: (u32, u32)| p.0,
                ))[k]);
                assert(concat_keys(e2)[k] == (concat_keys(e2.drop_last()) + e2.last().map_values(
                    |p: (u32, u32)| p.0,
                ))[k]);
                assert(concat_keys(e1)[k] == concat_keys(e2)[k]);
            }
        }
        assert(concat_vals(e1.drop_last()) =~= concat_vals(e2.drop_last())) by {
            assert forall|k: int|
                0 <= k < concat_vals(e1.drop_last()).len() implies concat_vals(e1.drop_last())[k]
                == concat_vals(e2.drop_last())[k] by {
                assert(concat_vals(e1)[k] == (concat_vals(e1.drop_last()) + e1.last().map_values(
                    |p: (u32, u32)| p.1,
                ))[k]);
                assert(concat_vals(e2)[k] == (concat_vals(e2.drop_last()) + e2.last().map_values(
                    |p: (u32, u32)| p.1,
                ))[k]);
                assert(concat_vals(e1)[k] == concat_vals(e2)[k]);
            }
        }
        assert(entry_lens(e1.drop_last()) =~= entry_lens(e2.drop_last())) by {
            assert forall|k: int|
                0 <= k < e1.len() - 1 implies entry_lens(e1.drop_last())[k] == entry_lens(
                e2.drop_last(),
            )[k] by {
                assert(entry_lens(e1.drop_last())[k] == e1.drop_last()[k].len() as u16);
                assert(entry_lens(e2.drop_last())[k] == e2.drop_last()[k].len() as u16);
                assert(entry_lens(e1)[k] == e1[k].len() as u16);
                assert(entry_lens(e2)[k] == e2[k].len() as u16);
                assert(entry_lens(e1)[k] == entry_lens(e2)[k]);
            }
        }
        lemma_entries_unique(e1.drop_last(), e2.drop_last());
        assert(e1.last() =~= e2.last()) by {
            let off = concat_keys(e1.drop_last()).len();
            let m1k = e1.last().map_values(|p: (u32, u32)| p.0);
            let m2k = e2.last().map_values(|p: (u32, u32)| p.0);
            let m1v = e1.last().map_values(|p: (u32, u32)| p.1);
            let m2v = e2.last().map_values(|p: (u32, u32)| p.1);
            assert forall|j: int| 0 <= j < e1.last().len() implies e1.last()[j] == e2.last()[j] by {
                assert(concat_keys(e1)[off + j] == m1k[j]);
                assert(concat_keys(e2)[off + j] == m2k[j]);
                assert(concat_vals(e1)[off + j] == m1v[j]);
                assert(concat_vals(e2)[off + j] == m2v[j]);
                assert(e1.last()[j].0 == e2.last()[j].0);
                assert(e1.last()[j].1 == e2.last()[j].1);
            }
        }
        assert(e1 =~= e1.drop_last().push(e1.last()));
        assert(e2 =~= e2.drop_last().push(e2.last()));
    }
}

/// Rebuilds the entry set from its length and index columns.  Fails only
/// when the lengths do not add up to the columns, which no written column
/// ever does.
fn rebuild_entries(lens: &Vec<u16>, ck: &Vec<u32>, cv: &Vec<u32>) -> (r: Result<
    Vec<Vec<(u32, u32)>>,
    DecodeError,
>)
    requires
        ck@.len() == cv@.len(),
    ensures
        r matches Ok(v) ==> ({
            let ov = Seq::new(v@.len(), |i: int| v@[i]@);
            &&& sm_wf(ov)
            &&& entry_lens(ov) == lens@
            &&& concat_keys(ov) == ck@
            &&& concat_vals(ov) == cv@
        }),
        forall|e: Seq<Seq<(u32, u32)>>|
            (sm_wf(e) && lens@ == #[trigger] entry_lens(e) && ck@ == concat_keys(e) && cv@
                == concat_vals(e)) ==> r is Ok && Seq::new(
                r->Ok_0@.len(),
                |i: int| r->Ok_0@[i]@,
            ) == e,
{
    let n = lens.len();
    let total = ck.len();
    let mut out: Vec<Vec<(u32, u32)>> = Vec::new();
    let mut cursor: usize = 0;
    let mut i: usize = 0;
    proof {
        assert(Seq::new(out@.len(), |k: int| out@[k]@) =~= Seq::<Seq<(u32, u32)>>::empty());
        assert(entry_lens(Seq::<Seq<(u32, u32)>>::empty()) =~= Seq::<u16>::empty());
        assert(concat_keys(Seq::<Seq<(u32, u32)>>::empty()) =~= Seq::<u32>::empty());
        assert(concat_vals(Seq::<Seq<(u32, u32)>>::empty()) =~= Seq::<u32>::empty());
    }
    while i < n
        invariant
            i <= n,
            n == lens@.len(),
            total == ck@.len(),
            ck@.len() == cv@.len(),
            cursor <= total,
            out@.len() == i,
            ({
                let ov = Seq::new(out@.len(), |k: int| out@[k]@);
                &&& sm_wf(ov)
                &&& entry_lens(ov) == lens@.take(i as int)
                &&& concat_keys(ov) == ck@.take(cursor as int)
                &&& concat_vals(ov) == cv@.take(cursor as int)
                &&& cursor == concat_keys(ov).len()
            }),
        decreases n - i,
    {
        let len = lens[i] as usize;
        if total - cursor < len {
            proof {
                lemma_rebuild_mismatch(lens@, ck@, cv@, i as int, cursor as int);
            }
            return Err(DecodeError::Malformed);
        }
        let ghost ov_prev = Seq::new(out@.len(), |k: int| out@[k]@);
        let mut entry: Vec<(u32, u32)> = Vec::new();
        let mut j: usize = 0;
        while j < len
            invariant
                j <= len,
                cursor + len <= total,
                total == ck@.len(),
                ck@.len() == cv@.len(),
                entry@.len() == j,
                forall|t: int|
                    0 <= t < j ==> #[trigger] entry@[t] == (
                        ck@[cursor + t],
                        cv@[cursor + t],
                    ),
            decreases len - j,
        {
            entry.push((ck[cursor + j], cv[cursor + j]));
            j = j + 1;
        }
        out.push(entry);
        proof {
            let ov = Seq::new(out@.len(), |k: int| out@[k]@);
            assert(ov =~= ov_prev.push(entry@));
            assert(ov.drop_last() =~= ov_prev);
            assert(entry_lens(ov) =~= lens@.take(i + 1)) by {
                assert(entry_lens(ov).drop_last() =~= entry_lens(ov_prev));
            }
            assert(entry@.map_values(|p: (u32, u32)| p.0) =~= ck@.subrange(
                cursor as int,
                cursor + len,
            ));
            assert(entry@.map_values(|p: (u32, u32)| p.1) =~= cv@.subrange(
                cursor as int,
                cursor + len,
            ));
            assert(concat_keys(ov) =~= ck@.take(cursor + len));
            assert(concat_vals(ov) =~= cv@.take(cursor + len));
        }
        cursor = cursor + len;
        i = i + 1;
    }
    if cursor != total {
        proof {
            let ov = Seq::new(out@.len(), |k: int| out@[k]@);
            assert forall|e: Seq<Seq<(u32, u32)>>|
                !(sm_wf(e) && lens@ == #[trigger] entry_lens(e) && ck@ == concat_keys(e) && cv@
                    == concat_vals(e)) by {
                if sm_wf(e) && lens@ == entry_lens(e) && ck@ == concat_keys(e) && cv@
                    == concat_vals(e) {
                    assert(lens@.take(n as int) =~= lens@);
                    lemma_concat_same_lens(ov, e);
                    assert(ck@.take(cursor as int).len() == ck@.len());
                }
            }
        }
        return Err(DecodeError::Malformed);
    }
    let ghost ov = Seq::new(out@.len(), |k: int| out@[k]@);
    proof {
        assert forall|e: Seq<Seq<(u32, u32)>>|
            (sm_wf(e) && lens@ == #[trigger] entry_lens(e) && ck@ == concat_keys(e) && cv@
                == concat_vals(e)) implies ov == e by {
            assert(lens@.take(n as int) =~= lens@);
            assert(ck@.take(cursor as int) =~= ck@);
            assert(cv@.take(cursor as int) =~= cv@);
            lemma_entries_unique(ov, e);
        }
    }
    Ok(out)
}

/// When the columns run short, no well-formed entry set has them.
proof fn lemma_rebuild_mismatch(lens: Seq<u16>, ck: Seq<u32>, cv: Seq<u32>, i: int, cursor: int)
    requires
        0 <= i < lens.len(),
        0 <= cursor,
        ck.len() - cursor < lens[i],
        exists|ov: Seq<Seq<(u32, u32)>>|
            {
                &&& sm_wf(ov)
                &&& #[trigger] entry_lens(ov) == lens.take(i)
                &&& concat_keys(ov) == ck.take(cursor)
                &&& cursor == concat_keys(ov).len()
            },
    ensures
        forall|e: Seq<Seq<(u32, u32)>>|
            !(sm_wf(e) && lens == #[trigger] entry_lens(e) && ck == concat_keys(e) && cv
                == concat_vals(e)),
{
    assert forall|e: Seq<Seq<(u32, u32)>>|
        !(sm_wf(e) && lens == #[trigger] entry_lens(e) && ck == concat_keys(e) && cv
            == concat_vals(e)) by {
        if sm_wf(e) && lens == entry_lens(e) && ck == concat_keys(e) && cv == concat_vals(e) {
            let ov = choose|ov: Seq<Seq<(u32, u32)>>|
                {
                    &&& sm_wf(ov)
                    &&& #[trigger] entry_lens(ov) == lens.take(i)
                    &&& concat_keys(ov) == ck.take(cursor)
                    &&& cursor == concat_keys(ov).len()
                };
            assert(e.len() == lens.len()) by {
                assert(entry_lens(e).len() == e.len());
            }
            lemma_concat_decomp(e, i);
            assert(entry_lens(e.take(i)) =~= lens.take(i)) by {
                assert forall|k: int| 0 <= k < i implies entry_lens(e.take(i))[k] == lens.take(
                    i,
                )[k] by {
                    assert(entry_lens(e)[k] == lens[k]);
                }
            }
            assert(sm_wf(e.take(i))) by {
                assert(forall|k: int| 0 <= k < i ==> #[trigger] e.take(i)[k] == e[k]);
            }
            lemma_concat_same_lens(ov, e.take(i));
            assert(concat_keys(e.take(i)) =~= ck.take(cursor)) by {
                assert(concat_keys(e.take(i)).len() == cursor);
                assert forall|k: int| 0 <= k < cursor implies concat_keys(e.take(i))[k]
                    == ck.take(cursor)[k] by {
                    assert(concat_keys(e)[k] == ck[k]);
                }
            }
            assert(false) by {
                // the next entry needs lens[i] more slots than the key column has
                lemma_concat_decomp(e, i + 1);
                assert(concat_keys(e.take(i + 1)).len() <= ck.len());
                assert(concat_keys(e.take(i + 1)) == concat_keys(e.take(i)) + e[i].map_values(
                    |p: (u32, u32)| p.0,
                )) by {
                    assert(e.take(i + 1).drop_last() =~= e.take(i));
                    assert(e.take(i + 1).last() == e[i]);
                }
                assert(e[i].len() == lens[i]) by {
                    assert(entry_lens(e)[i] == e[i].len() as u16);
                }
            }
        }
    }
}

/// Two entry sets with the same columns have equally long concatenations.
proof fn lemma_concat_same_lens(a: Seq<Seq<(u32, u32)>>, b: Seq<Seq<(u32, u32)>>)
    requires
        entry_lens(a) == entry_lens(b),
        sm_wf(a),
        sm_wf(b),
    ensures
        concat_keys(a).len() == concat_keys(b).len(),
        concat_vals(a).len() == concat_vals(b).len(),
    decreases a.len(),
{
    assert(a.len() == b.len()) by {
        assert(entry_lens(a).len() == a.len());
        assert(entry_lens(b).len() == b.len());
    }
    lemma_concat_len(a);
    lemma_concat_len(b);
    if a.len() > 0 {
        assert(entry_lens(a.drop_last()) =~= entry_lens(b.drop_last())) by {
            assert forall|k: int|
                0 <= k < a.len() - 1 implies entry_lens(a.drop_last())[k] == entry_lens(
                b.drop_last(),
            )[k] by {
                assert(entry_lens(a.drop_last())[k] == a.drop_last()[k].len() as u16);
                assert(entry_lens(b.drop_last())[k] == b.drop_last()[k].len() as u16);
                assert(entry_lens(a)[k] == a[k].len() as u16);
                assert(entry_lens(b)[k] == b[k].len() as u16);
                assert(entry_lens(a)[k] == entry_lens(b)[k]);
            }
        }
        assert(sm_wf(a.drop_last())) by {
            assert(forall|k: int|
                0 <= k < a.drop_last().len() ==> #[trigger] a.drop_last()[k] == a[k]);
        }
        assert(sm_wf(b.drop_last())) by {
            assert(forall|k: int|
                0 <= k < b.drop_last().len() ==> #[trigger] b.drop_last()[k] == b[k]);
        }
        lemma_concat_same_lens(a.drop_last(), b.drop_last());
        assert(a.last().len() == b.last().len()) by {
            assert(entry_lens(a)[a.len() - 1] == a.last().len() as u16);
            assert(entry_lens(b)[b.len() - 1] == b.last().len() as u16);
            assert(a.last().len() <= 0xffff);
            assert(b.last().len() <= 0xffff);
        }
    }
}


/// The header-map reader's hypothesis: the input begins with the column of
/// these pools, entries and handles, and the columns fit the machine.
pub open spec fn sm_hyp(
    iv: Seq<u8>,
    fd: pco::wrapped::FileDecompressor,
    n: usize,
    ksz: u32,
    vsz: u32,
    ne: u32,
    kp: Seq<Seq<char>>,
    vp: Seq<Seq<char>>,
    entries: Seq<Seq<(u32, u32)>>,
    handles: Seq<u32>,
    q: int,
) -> bool {
    &&& handles.len() == n
    &&& entries.len() == ne
    &&& sm_wf(entries)
    &&& pool_wf(kp)
    &&& pool_wf(vp)
    &&& concat_keys(entries).len() <= usize::MAX
    &&& pco_version_of(fd) == 0
    &&& ksz == brotli_str(pool_text(kp), q).len()
    &&& vsz == brotli_str(pool_text(vp), q).len()
    &&& starts_with(iv, sm_col(kp, vp, entries, handles, q))
}

/// The header-map column cut into its six parts.
pub open spec fn sm_split(
    iv: Seq<u8>,
    kp: Seq<Seq<char>>,
    vp: Seq<Seq<char>>,
    entries: Seq<Seq<(u32, u32)>>,
    handles: Seq<u32>,
    q: int,
) -> bool {
    let a = brotli_str(pool_text(kp), q);
    let b = brotli_str(pool_text(vp), q);
    let c = sm_lens_col(entries);
    let d = sm_idx_col(concat_keys(entries));
    let e = sm_idx_col(concat_vals(entries));
    let f = sm_handles_col(handles);
    &&& starts_with(iv, a)
    &&& starts_with(iv.skip(a.len() as int), b)
    &&& starts_with(iv.skip(a.len() + b.len() as int), c)
    &&& starts_with(iv.skip(a.len() + b.len() + c.len() as int), d)
    &&& starts_with(iv.skip(a.len() + b.len() + c.len() + d.len() as int), e)
    &&& starts_with(iv.skip(a.len() + b.len() + c.len() + d.len() + e.len() as int), f)
}

/// The compressed handle column of the header-map codec.
pub open spec fn sm_handles_col(handles: Seq<u32>) -> Seq<u8> {
    if handles.len() == 0 {
        Seq::<u8>::empty()
    } else {
        pco_of_u32(handles, DeltaMode::Auto.spec_code())
    }
}

/// A starts-with hypothesis on a concatenation splits at every boundary.
pub proof fn lemma_sm_split(
    iv: Seq<u8>,
    kp: Seq<Seq<char>>,
    vp: Seq<Seq<char>>,
    entries: Seq<Seq<(u32, u32)>>,
    handles: Seq<u32>,
    q: int,
)
    requires
        starts_with(iv, sm_col(kp, vp, entries, handles, q)),
    ensures
        sm_split(iv, kp, vp, entries, handles, q),
{
    let a = brotli_str(pool_text(kp), q);
    let b = brotli_str(pool_text(vp), q);
    let c = sm_lens_col(entries);
    let d = sm_idx_col(concat_keys(entries));
    let e = sm_idx_col(concat_vals(entries));
    let f = sm_handles_col(handles);
    let enc = sm_col(kp, vp, entries, handles, q);
    assert(enc == a + b + c + d + e + f);
    lemma_chop(iv, enc, a.len() as int);
    assert(enc.take(a.len() as int) =~= a);
    assert(enc.skip(a.len() as int) =~= b + c + d + e + f);
    let iv1 = iv.skip(a.len() as int);
    lemma_chop(iv1, b + c + d + e + f, b.len() as int);
    assert((b + c + d + e + f).take(b.len() as int) =~= b);
    assert((b + c + d + e + f).skip(b.len() as int) =~= c + d + e + f);
    let iv2 = iv1.skip(b.len() as int);
    assert(iv2 =~= iv.skip(a.len() + b.len() as int));
    lemma_chop(iv2, c + d + e + f, c.len() as int);
    assert((c + d + e + f).take(c.len() as int) =~= c);
    assert((c + d + e + f).skip(c.len() as int) =~= d + e + f);
    let iv3 = iv2.skip(c.len() as int);
    assert(iv3 =~= iv.skip(a.len() + b.len() + c.len() as int));
    lemma_chop(iv3, d + e + f, d.len() as int);
    assert((d + e + f).take(d.len() as int) =~= d);
    assert((d + e + f).skip(d.len() as int) =~= e + f);
    let iv4 = iv3.skip(d.len() as int);
    assert(iv4 =~= iv.skip(a.len() + b.len() + c.len() + d.len() as int));
    lemma_chop(iv4, e + f, e.len() as int);
    assert((e + f).take(e.len() as int) =~= e);
    assert((e + f).skip(e.len() as int) =~= f);
    let iv5 = iv4.skip(e.len() as int);
    assert(iv5 =~= iv.skip(a.len() + b.len() + c.len() + d.len() + e.len() as int));
}

impl StringMap {
    /// Writes the column: both pools, the length column, both index columns,
    /// then the handle column.  Returns the size descriptor (key pool bytes,
    /// value pool bytes, entry count).
    pub fn write(&self, handles: &[u32], opt: &Options, out: &mut Vec<u8>) -> (r: Result<
        (u32, u32, u32),
        EncodeError,
    >)
        requires
            sm_wf(self@.2),
            self@.2.len() <= u32::MAX,
        ensures
            (handles@.len() <= 0x100_0000 && self@.2.len() <= 0x100_0000 && concat_keys(
                self@.2,
            ).len() <= 0x100_0000 && brotli_str(pool_text(self@.0), opt.brotli_level as int).len()
                <= u32::MAX && brotli_str(pool_text(self@.1), opt.brotli_level as int).len()
                <= u32::MAX) ==> r is Ok,
            match r {
                Ok((ksz, vsz, ne)) => {
                    &&& final(out)@ == old(out)@ + sm_col(
                        self@.0,
                        self@.1,
                        self@.2,
                        handles@,
                        opt.brotli_level as int,
                    )
                    &&& ksz == brotli_str(pool_text(self@.0), opt.brotli_level as int).len()
                    &&& vsz == brotli_str(pool_text(self@.1), opt.brotli_level as int).len()
                    &&& ne == self@.2.len()
                },
                Err(_) => true,
            },
    {
        let ghost ev = self@.2;
        let ksz = match self.keys.write_pool(opt, out) {
            Ok(sz) => sz,
            Err(e) => {
                return Err(e);
            },
        };
        let vsz = match self.values.write_pool(opt, out) {
            Ok(sz) => sz,
            Err(e) => {
                return Err(e);
            },
        };
        let ne = self.entries.len();
        let mut lens: Vec<u16> = Vec::new();
        let mut ck: Vec<u32> = Vec::new();
        let mut cv: Vec<u32> = Vec::new();
        let mut i: usize = 0;
        proof {
            assert(entry_lens(ev.take(0int)) =~= Seq::<u16>::empty());
            assert(concat_keys(ev.take(0int)) =~= Seq::<u32>::empty());
            assert(concat_vals(ev.take(0int)) =~= Seq::<u32>::empty());
        }
        while i < ne
            invariant
                i <= ne,
                ne == self@.2.len(),
                ev == self@.2,
                sm_wf(ev),
                self@.2 == Seq::new(self.entries@.len(), |k: int| self.entries@[k]@),
                ne == self.entries@.len(),
                lens@ == entry_lens(ev.take(i as int)),
                ck@ == concat_keys(ev.take(i as int)),
                cv@ == concat_vals(ev.take(i as int)),
            decreases ne - i,
        {
            let entry = &self.entries[i];
            proof {
                assert(entry@ == ev[i as int]);
                assert(ev[i as int].len() <= 0xffff);
            }
            lens.push(entry.len() as u16);
            let ghost ck_prev = ck@;
            let ghost cv_prev = cv@;
            let mut j: usize = 0;
            while j < entry.len()
                invariant
                    j <= entry@.len(),
                    entry@ == ev[i as int],
                    0 <= i < ev.len(),
                    ck@ == ck_prev + entry@.take(j as int).map_values(|p: (u32, u32)| p.0),
                    cv@ == cv_prev + entry@.take(j as int).map_values(|p: (u32, u32)| p.1),
                decreases entry@.len() - j,
            {
                let pair = entry[j];
                ck.push(pair.0);
                cv.push(pair.1);
                proof {
                    assert(entry@.take(j + 1) =~= entry@.take(j as int).push(entry@[j as int]));
                    assert(ck@ =~= ck_prev + entry@.take(j + 1).map_values(
                        |p: (u32, u32)| p.0,
                    ));
                    assert(cv@ =~= cv_prev + entry@.take(j + 1).map_values(
                        |p: (u32, u32)| p.1,
                    ));
                }
                j = j + 1;
            }
            proof {
                assert(ev.take(i + 1).drop_last() =~= ev.take(i as int));
                assert(ev.take(i + 1).last() == ev[i as int]);
                assert(entry@.take(entry@.len() as int) =~= entry@);
                assert(lens@ =~= entry_lens(ev.take(i + 1))) by {
                    assert(entry_lens(ev.take(i + 1)) =~= entry_lens(ev.take(i as int)).push(
                        ev[i as int].len() as u16,
                    ));
                }
                assert(ck@ =~= concat_keys(ev.take(i + 1)));
                assert(cv@ =~= concat_vals(ev.take(i + 1)));
            }
            i = i + 1;
        }
        proof {
            assert(ev.take(ne as int) =~= ev);
            lemma_concat_len(ev);
        }
        if lens.len() > 0 {
            match pco_compress_u16(lens.as_slice(), DeltaMode::NoOp, out) {
                Ok(()) => {},
                Err(e) => {
                    return Err(e);
                },
            }
        }
        if ck.len() > 0 {
            match pco_compress_u32(ck.as_slice(), DeltaMode::Auto, out) {
                Ok(()) => {},
                Err(e) => {
                    return Err(e);
                },
            }
        }
        if cv.len() > 0 {
            match pco_compress_u32(cv.as_slice(), DeltaMode::Auto, out) {
                Ok(()) => {},
                Err(e) => {
                    return Err(e);
                },
            }
        }
        if handles.len() > 0 {
            match pco_compress_u32(handles, DeltaMode::Auto, out) {
                Ok(()) => {},
                Err(e) => {
                    return Err(e);
                },
            }
        }
        proof {
            lemma_concat_len(ev);
            assert(out@ =~= old(out)@ + sm_col(
                self@.0,
                self@.1,
                self@.2,
                handles@,
                opt.brotli_level as int,
            ));
        }
        Ok((ksz, vsz, ne as u32))
    }

    /// Reads the column back: both pools, `ne` entry lengths, the two index
    /// columns, then `n` handles.
    #[verifier::rlimit(100)]
    #[verifier::spinoff_prover]
    pub fn read(
        fd: &pco::wrapped::FileDecompressor,
        input: &[u8],
        n: usize,
        ksz: u32,
        vsz: u32,
        ne: u32,
    ) -> (r: Result<(StringMap, Vec<u32>, usize), DecodeError>)
        ensures
            match r {
                Ok((sm, handles, used)) => {
                    &&& handles@.len() == n
                    &&& used <= input@.len()
                    &&& pool_wf(sm@.0)
                    &&& pool_wf(sm@.1)
                    &&& sm@.0.len() >= 1
                    &&& sm@.1.len() >= 1
                    &&& sm_wf(sm@.2)
                    &&& sm@.2.len() == ne
                    &&& concat_keys(sm@.2).len() <= usize::MAX
                },
                Err(_) => true,
            },
            forall|
                kp: Seq<Seq<char>>,
                vp: Seq<Seq<char>>,
                entries: Seq<Seq<(u32, u32)>>,
                handles: Seq<u32>,
                q: int,
            |
                #[trigger] sm_hyp(input@, *fd, n, ksz, vsz, ne, kp, vp, entries, handles, q)
                    ==> r is Ok && r->Ok_0.0@.0 == pool_norm(kp) && r->Ok_0.0@.1 == pool_norm(vp)
                    && r->Ok_0.0@.2 == entries && r->Ok_0.1@ == handles && r->Ok_0.2 == sm_col(
                    kp,
                    vp,
                    entries,
                    handles,
                    q,
                ).len(),
    {
        let ghost iv = input@;
        proof {
            assert forall|
                kp: Seq<Seq<char>>,
                vp: Seq<Seq<char>>,
                entries: Seq<Seq<(u32, u32)>>,
                hd: Seq<u32>,
                q: int,
            |
                sm_hyp(iv, *fd, n, ksz, vsz, ne, kp, vp, entries, hd, q) implies sm_split(
                iv,
                kp,
                vp,
                entries,
                hd,
                q,
            ) by {
                lemma_sm_split(iv, kp, vp, entries, hd, q);
            }
        }
        let ilen = input.len();
        if (ksz as usize) > ilen || (vsz as usize) > ilen - ksz as usize {
            proof {
                assert forall|
                    kp: Seq<Seq<char>>,
                    vp: Seq<Seq<char>>,
                    entries: Seq<Seq<(u32, u32)>>,
                    hd: Seq<u32>,
                    q: int,
                | !sm_hyp(iv, *fd, n, ksz, vsz, ne, kp, vp, entries, hd, q) by {
                    if sm_hyp(iv, *fd, n, ksz, vsz, ne, kp, vp, entries, hd, q) {
                        assert(sm_split(iv, kp, vp, entries, hd, q));
                        let a = brotli_str(pool_text(kp), q);
                        assert(starts_with(iv.skip(a.len() as int), brotli_str(
                            pool_text(vp),
                            q,
                        )));
                    }
                }
            }
            return Err(DecodeError::Truncated);
        }
        let keys = match read_pool(input, ksz) {
            Ok(p) => p,
            Err(e) => {
                proof {
                    assert forall|
                        kp: Seq<Seq<char>>,
                        vp: Seq<Seq<char>>,
                        entries: Seq<Seq<(u32, u32)>>,
                        hd: Seq<u32>,
                        q: int,
                    | !sm_hyp(iv, *fd, n, ksz, vsz, ne, kp, vp, entries, hd, q) by {
                        if sm_hyp(iv, *fd, n, ksz, vsz, ne, kp, vp, entries, hd, q) {
                            assert(sm_split(iv, kp, vp, entries, hd, q));
                            assert(starts_with(iv, brotli_str(pool_text(kp), q)));
                        }
                    }
                }
                return Err(e);
            },
        };
        let rest1 = vstd::slice::slice_subrange(input, ksz as usize, ilen);
        let values = match read_pool(rest1, vsz) {
            Ok(p) => p,
            Err(e) => {
                proof {
                    assert forall|
                        kp: Seq<Seq<char>>,
                        vp: Seq<Seq<char>>,
                        entries: Seq<Seq<(u32, u32)>>,
                        hd: Seq<u32>,
                        q: int,
                    | !sm_hyp(iv, *fd, n, ksz, vsz, ne, kp, vp, entries, hd, q) by {
                        if sm_hyp(iv, *fd, n, ksz, vsz, ne, kp, vp, entries, hd, q) {
                            assert(sm_split(iv, kp, vp, entries, hd, q));
                            assert(rest1@ == iv.skip(
                                brotli_str(pool_text(kp), q).len() as int,
                            ));
                            assert(starts_with(rest1@, brotli_str(pool_text(vp), q)));
                        }
                    }
                }
                return Err(e);
            },
        };
        let ghost keys_view = keys.deep_view();
        let ghost values_view = values.deep_view();
        let mut pos: usize = ksz as usize + vsz as usize;
        proof {
            assert forall|
                kp: Seq<Seq<char>>,
                vp: Seq<Seq<char>>,
                entries: Seq<Seq<(u32, u32)>>,
                hd: Seq<u32>,
                q: int,
            |
                sm_hyp(iv, *fd, n, ksz, vsz, ne, kp, vp, entries, hd, q) implies keys_view
                == pool_norm(kp) && values_view == pool_norm(vp) by {
                assert(sm_split(iv, kp, vp, entries, hd, q));
                assert(rest1@ == iv.skip(brotli_str(pool_text(kp), q).len() as int));
            }
        }
        let mut lens: Vec<u16> = Vec::new();
        let mut used3: usize = 0;
        if ne > 0 {
            let rest = vstd::slice::slice_subrange(input, pos, ilen);
            let (v, u) = match pco_decompress_u16(fd, rest, ne as usize) {
                Ok(p) => p,
                Err(e) => {
                    proof {
                        assert forall|
                            kp: Seq<Seq<char>>,
                            vp: Seq<Seq<char>>,
                            entries: Seq<Seq<(u32, u32)>>,
                            hd: Seq<u32>,
                            q: int,
                        | !sm_hyp(iv, *fd, n, ksz, vsz, ne, kp, vp, entries, hd, q) by {
                            if sm_hyp(iv, *fd, n, ksz, vsz, ne, kp, vp, entries, hd, q) {
                                assert(sm_split(iv, kp, vp, entries, hd, q));
                                assert(rest@ == iv.skip(brotli_str(pool_text(kp), q).len()
                                    + brotli_str(pool_text(vp), q).len() as int));
                                assert(entry_lens(entries).len() == entries.len());
                                assert(starts_with(rest@, pco_of_u16(
                                    entry_lens(entries),
                                    DeltaMode::NoOp.spec_code(),
                                )));
                            }
                        }
                    }
                    return Err(e);
                },
            };
            lens = v;
            used3 = u;
        }
        let ghost lens_view = lens@;
        proof {
            assert forall|
                kp: Seq<Seq<char>>,
                vp: Seq<Seq<char>>,
                entries: Seq<Seq<(u32, u32)>>,
                hd: Seq<u32>,
                q: int,
            |
                sm_hyp(iv, *fd, n, ksz, vsz, ne, kp, vp, entries, hd, q) implies lens_view
                == entry_lens(entries) && used3 == sm_lens_col(entries).len() by {
                assert(sm_split(iv, kp, vp, entries, hd, q));
                let off = brotli_str(pool_text(kp), q).len() + brotli_str(
                    pool_text(vp),
                    q,
                ).len() as int;
                if ne == 0 {
                    assert(entries =~= Seq::<Seq<(u32, u32)>>::empty());
                    assert(entry_lens(entries) =~= Seq::<u16>::empty());
                    assert(sm_lens_col(entries) =~= Seq::<u8>::empty());
                } else {
                    assert(entry_lens(entries).len() == entries.len());
                    assert(starts_with(iv.skip(off), pco_of_u16(
                        entry_lens(entries),
                        DeltaMode::NoOp.spec_code(),
                    )));
                }
            }
        }
        if ilen - pos < used3 {
            return Err(DecodeError::Malformed);
        }
        pos = pos + used3;
        let mut total64: u64 = 0;
        let mut i: usize = 0;
        while i < lens.len()
            invariant
                i <= lens@.len(),
                lens@.len() <= u32::MAX,
                total64 == lens_total(lens@.take(i as int)),
                total64 <= 0xffff * (i as u64),
            decreases lens@.len() - i,
        {
            proof {
                assert(lens@.take(i + 1).drop_last() =~= lens@.take(i as int));
            }
            total64 = total64 + lens[i] as u64;
            i = i + 1;
        }
        proof {
            assert(lens@.take(lens@.len() as int) =~= lens@);
        }
        if total64 > usize::MAX as u64 {
            proof {
                assert forall|
                    kp: Seq<Seq<char>>,
                    vp: Seq<Seq<char>>,
                    entries: Seq<Seq<(u32, u32)>>,
                    hd: Seq<u32>,
                    q: int,
                | !sm_hyp(iv, *fd, n, ksz, vsz, ne, kp, vp, entries, hd, q) by {
                    if sm_hyp(iv, *fd, n, ksz, vsz, ne, kp, vp, entries, hd, q) {
                        lemma_lens_total(entries);
                    }
                }
            }
            return Err(DecodeError::Malformed);
        }
        let total = total64 as usize;
        let ghost total_g = total;
        proof {
            assert forall|
                kp: Seq<Seq<char>>,
                vp: Seq<Seq<char>>,
                entries: Seq<Seq<(u32, u32)>>,
                hd: Seq<u32>,
                q: int,
            |
                sm_hyp(iv, *fd, n, ksz, vsz, ne, kp, vp, entries, hd, q) implies total_g
                == concat_keys(entries).len() by {
                lemma_lens_total(entries);
            }
        }
        let mut ck: Vec<u32> = Vec::new();
        let mut used4: usize = 0;
        if total > 0 {
            let rest = vstd::slice::slice_subrange(input, pos, ilen);
            let (v, u) = match pco_decompress_u32(fd, rest, total) {
                Ok(p) => p,
                Err(e) => {
                    proof {
                        assert forall|
                            kp: Seq<Seq<char>>,
                            vp: Seq<Seq<char>>,
                            entries: Seq<Seq<(u32, u32)>>,
                            hd: Seq<u32>,
                            q: int,
                        | !sm_hyp(iv, *fd, n, ksz, vsz, ne, kp, vp, entries, hd, q) by {
                            if sm_hyp(iv, *fd, n, ksz, vsz, ne, kp, vp, entries, hd, q) {
                                assert(sm_split(iv, kp, vp, entries, hd, q));
                                lemma_lens_total(entries);
                                assert(rest@ == iv.skip(brotli_str(pool_text(kp), q).len()
                                    + brotli_str(pool_text(vp), q).len() + sm_lens_col(
                                    entries,
                                ).len() as int));
                                assert(starts_with(rest@, pco_of_u32(
                                    concat_keys(entries),
                                    DeltaMode::Auto.spec_code(),
                                )));
                            }
                        }
                    }
                    return Err(e);
                },
            };
            ck = v;
            used4 = u;
        }
        let ghost ck_view = ck@;
        proof {
            assert forall|
                kp: Seq<Seq<char>>,
                vp: Seq<Seq<char>>,
                entries: Seq<Seq<(u32, u32)>>,
                hd: Seq<u32>,
                q: int,
            |
                sm_hyp(iv, *fd, n, ksz, vsz, ne, kp, vp, entries, hd, q) implies ck_view
                == concat_keys(entries) && used4 == sm_idx_col(concat_keys(entries)).len() by {
                assert(sm_split(iv, kp, vp, entries, hd, q));
                let off = brotli_str(pool_text(kp), q).len() + brotli_str(
                    pool_text(vp),
                    q,
                ).len() + sm_lens_col(entries).len() as int;
                if total_g == 0 {
                    assert(concat_keys(entries) =~= Seq::<u32>::empty());
                    assert(sm_idx_col(concat_keys(entries)) =~= Seq::<u8>::empty());
                } else {
                    assert(starts_with(iv.skip(off), pco_of_u32(
                        concat_keys(entries),
                        DeltaMode::Auto.spec_code(),
                    )));
                }
            }
        }
        if ilen - pos < used4 {
            return Err(DecodeError::Malformed);
        }
        pos = pos + used4;
        let mut cv: Vec<u32> = Vec::new();
        let mut used5: usize = 0;
        if total > 0 {
            let rest = vstd::slice::slice_subrange(input, pos, ilen);
            let (v, u) = match pco_decompress_u32(fd, rest, total) {
                Ok(p) => p,
                Err(e) => {
                    proof {
                        assert forall|
                            kp: Seq<Seq<char>>,
                            vp: Seq<Seq<char>>,
                            entries: Seq<Seq<(u32, u32)>>,
                            hd: Seq<u32>,
                            q: int,
                        | !sm_hyp(iv, *fd, n, ksz, vsz, ne, kp, vp, entries, hd, q) by {
                            if sm_hyp(iv, *fd, n, ksz, vsz, ne, kp, vp, entries, hd, q) {
                                assert(sm_split(iv, kp, vp, entries, hd, q));
                                lemma_lens_total(entries);
                                assert(rest@ == iv.skip(brotli_str(pool_text(kp), q).len()
                                    + brotli_str(pool_text(vp), q).len() + sm_lens_col(
                                    entries,
                                ).len() + sm_idx_col(concat_keys(entries)).len() as int));
                                assert(starts_with(rest@, pco_of_u32(
                                    concat_vals(entries),
                                    DeltaMode::Auto.spec_code(),
                                )));
                            }
                        }
                    }
                    return Err(e);
                },
            };
            cv = v;
            used5 = u;
        }
        let ghost cv_view = cv@;
        proof {
            assert forall|
                kp: Seq<Seq<char>>,
                vp: Seq<Seq<char>>,
                entries: Seq<Seq<(u32, u32)>>,
                hd: Seq<u32>,
                q: int,
            |
                sm_hyp(iv, *fd, n, ksz, vsz, ne, kp, vp, entries, hd, q) implies cv_view
                == concat_vals(entries) && used5 == sm_idx_col(concat_vals(entries)).len() by {
                assert(sm_split(iv, kp, vp, entries, hd, q));
                lemma_concat_len(entries);
                let off = brotli_str(pool_text(kp), q).len() + brotli_str(
                    pool_text(vp),
                    q,
                ).len() + sm_lens_col(entries).len() + sm_idx_col(
                    concat_keys(entries),
                ).len() as int;
                if total_g == 0 {
                    assert(concat_vals(entries) =~= Seq::<u32>::empty());
                    assert(sm_idx_col(concat_vals(entries)) =~= Seq::<u8>::empty());
                } else {
                    assert(starts_with(iv.skip(off), pco_of_u32(
                        concat_vals(entries),
                        DeltaMode::Auto.spec_code(),
                    )));
                }
            }
        }
        if ilen - pos < used5 {
            return Err(DecodeError::Malformed);
        }
        pos = pos + used5;
        if ck.len() != cv.len() {
            proof {
                assert forall|
                    kp: Seq<Seq<char>>,
                    vp: Seq<Seq<char>>,
                    entries: Seq<Seq<(u32, u32)>>,
                    hd: Seq<u32>,
                    q: int,
                | !sm_hyp(iv, *fd, n, ksz, vsz, ne, kp, vp, entries, hd, q) by {
                    if sm_hyp(iv, *fd, n, ksz, vsz, ne, kp, vp, entries, hd, q) {
                        lemma_concat_len(entries);
                    }
                }
            }
            return Err(DecodeError::Malformed);
        }
        let entries = match rebuild_entries(&lens, &ck, &cv) {
            Ok(ev) => ev,
            Err(e) => {
                return Err(e);
            },
        };
        let ghost entries_view = Seq::new(entries@.len(), |k: int| entries@[k]@);
        let mut handles: Vec<u32> = Vec::new();
        let mut used6: usize = 0;
        if n > 0 {
            let rest = vstd::slice::slice_subrange(input, pos, ilen);
            let (v, u) = match pco_decompress_u32(fd, rest, n) {
                Ok(p) => p,
                Err(e) => {
                    proof {
                        assert forall|
                            kp: Seq<Seq<char>>,
                            vp: Seq<Seq<char>>,
                            entries: Seq<Seq<(u32, u32)>>,
                            hd: Seq<u32>,
                            q: int,
                        | !sm_hyp(iv, *fd, n, ksz, vsz, ne, kp, vp, entries, hd, q) by {
                            if sm_hyp(iv, *fd, n, ksz, vsz, ne, kp, vp, entries, hd, q) {
                                assert(sm_split(iv, kp, vp, entries, hd, q));
                                lemma_concat_len(entries);
                                assert(rest@ == iv.skip(brotli_str(pool_text(kp), q).len()
                                    + brotli_str(pool_text(vp), q).len() + sm_lens_col(
                                    entries,
                                ).len() + sm_idx_col(concat_keys(entries)).len() + sm_idx_col(
                                    concat_vals(entries),
                                ).len() as int));
                                assert(starts_with(rest@, pco_of_u32(
                                    hd,
                                    DeltaMode::Auto.spec_code(),
                                )));
                            }
                        }
                    }
                    return Err(e);
                },
            };
            handles = v;
            used6 = u;
        }
        let ghost handles_view = handles@;
        if ilen - pos < used6 {
            return Err(DecodeError::Malformed);
        }
        let used = pos + used6;
        if entries.len() != ne as usize {
            proof {
                assert forall|
                    kp: Seq<Seq<char>>,
                    vp: Seq<Seq<char>>,
                    ev: Seq<Seq<(u32, u32)>>,
                    hd: Seq<u32>,
                    q: int,
                | !sm_hyp(iv, *fd, n, ksz, vsz, ne, kp, vp, ev, hd, q) by {
                    if sm_hyp(iv, *fd, n, ksz, vsz, ne, kp, vp, ev, hd, q) {
                        assert(lens_view == entry_lens(ev));
                        assert(entry_lens(ev).len() == ev.len());
                        assert(entries_view == ev);
                    }
                }
            }
            return Err(DecodeError::Malformed);
        }
        let ghost ck_len_ground = ck.len();
        let sm = StringMap {
            keys: HashStrings::from_pool(keys),
            values: HashStrings::from_pool(values),
            entries,
        };
        proof {
            assert(sm@.2 == entries_view);
            assert(concat_keys(sm@.2).len() <= usize::MAX) by {
                assert(concat_keys(entries_view) == ck_view);
            }
            assert forall|
                kp: Seq<Seq<char>>,
                vp: Seq<Seq<char>>,
                ev: Seq<Seq<(u32, u32)>>,
                hd: Seq<u32>,
                q: int,
            |
                sm_hyp(iv, *fd, n, ksz, vsz, ne, kp, vp, ev, hd, q) implies entries_view == ev
                && handles_view == hd && used == sm_col(kp, vp, ev, hd, q).len() by {
                assert(sm_split(iv, kp, vp, ev, hd, q));
                lemma_concat_len(ev);
                let off = brotli_str(pool_text(kp), q).len() + brotli_str(pool_text(vp), q).len()
                    + sm_lens_col(ev).len() + sm_idx_col(concat_keys(ev)).len() + sm_idx_col(
                    concat_vals(ev),
                ).len() as int;
                if n == 0 {
                    assert(hd =~= Seq::<u32>::empty());
                    assert(sm_handles_col(hd) =~= Seq::<u8>::empty());
                } else {
                    assert(starts_with(iv.skip(off), pco_of_u32(
                        hd,
                        DeltaMode::Auto.spec_code(),
                    )));
                }
                assert(sm_col(kp, vp, ev, hd, q).len() == brotli_str(pool_text(kp), q).len()
                    + brotli_str(pool_text(vp), q).len() + sm_lens_col(ev).len() + sm_idx_col(
                    concat_keys(ev),
                ).len() + sm_idx_col(concat_vals(ev)).len() + sm_handles_col(hd).len());
            }
        }
        Ok((sm, handles, used))
    }
}

} // verus!

//! A uniform view over the two map representations: a decoded JSON source
//! map, and a sealed memdb buffer.  Both answer lookups, token and source
//! queries; only a JSON view can be dumped into a memdb.

use vstd::prelude::*;
use vstd::utf8::{decode_utf8, valid_utf8};
use std::borrow::Cow;
use crate::errors::ErrorKind;
use crate::memdb::{
    build_memdb, dst_le, dst_pair_le, sorted_by_dst, spec_contents_bytes, spec_head,
    spec_name_bytes, spec_source_bytes, spec_token, spec_tokens, valid_memdb, DumpOptions, MemDb,
};
use crate::record::{layout_spec, persisted};
use crate::smap;
use crate::types::RawToken;

verus! {

/// What a lookup or token query reports: the token's positions and ids,
/// and its resolved name and source strings.
#[derive(Debug)]
pub struct TokenMatch<'a> {
    pub dst_line: u32,
    pub dst_col: u32,
    pub src_line: u32,
    pub src_col: u32,
    pub name: Option<&'a str>,
    pub src: Option<&'a str>,
    pub src_id: u32,
}

/// The position and id fields of a match are those of a token.
pub open spec fn tm_core(tm: TokenMatch<'_>, t: RawToken) -> bool {
    &&& tm.dst_line == t.dst_line
    &&& tm.dst_col == t.dst_col
    &&& tm.src_line == t.src_line
    &&& tm.src_col == t.src_col
    &&& tm.src_id == t.src_id
}

/// How a memdb resolves name `id` into an optional string.
pub open spec fn mem_name_match(b: Seq<u8>, id: u32, name: Option<&str>) -> bool {
    match spec_name_bytes(b, id as int) {
        None => name is None,
        Some(bs) => if valid_utf8(bs) {
            name matches Some(s) && s@ == decode_utf8(bs)
        } else {
            name is None
        },
    }
}

/// How a memdb resolves source `id` into an optional string.
pub open spec fn mem_source_match(b: Seq<u8>, id: u32, src: Option<&str>) -> bool {
    match spec_source_bytes(b, id as int) {
        None => src is None,
        Some(bs) => if valid_utf8(bs) {
            src matches Some(s) && s@ == decode_utf8(bs)
        } else {
            src is None
        },
    }
}

/// How a JSON map resolves name `id`: the absent sentinel and ids past
/// the table resolve to nothing.
pub open spec fn json_name_match(sm: sourcemap::SourceMap, id: u32, name: Option<&str>) -> bool {
    if id == !0u32 {
        name is None
    } else {
        &&& (name is Some <==> (id as int) < smap::sm_names(sm).len())
        &&& (name matches Some(s) ==> s@ == smap::sm_names(sm)[id as int])
    }
}

/// How a JSON map resolves source `id`.
pub open spec fn json_source_match(sm: sourcemap::SourceMap, id: u32, src: Option<&str>) -> bool {
    &&& (src is Some <==> (id as int) < smap::sm_sources(sm).len())
    &&& (src matches Some(s) ==> s@ == smap::sm_sources(sm)[id as int])
}

enum MapRepr {
    Json(sourcemap::SourceMap),
    Mem(MemDb),
}

/// A uniform, read-only view over a JSON source map or a memdb buffer.
pub struct MapView {
    repr: MapRepr,
}

/// A sectioned source-map index; it can be flattened into a plain view
/// when every section carries an embedded map.
pub struct Index {
    index: sourcemap::SourceMapIndex,
}

/// What a buffer decoded to: a plain view or a sectioned index.
pub enum ViewOrIndex {
    View(MapView),
    Index(Index),
}

/// Relies on `alloc::borrow::Cow::Borrowed`: wraps a borrowed string.
#[verifier::external_body]
fn cow_borrowed<'a>(s: &'a str) -> (r: Cow<'a, str>)
    ensures
        r@ == s@,
{
    Cow::Borrowed(s)
}

/// Relies on `alloc::borrow::Cow::Owned`: wraps an owned string.
#[verifier::external_body]
fn cow_owned<'a>(s: String) -> (r: Cow<'a, str>)
    ensures
        r@ == s@,
{
    Cow::Owned(s)
}

impl MapView {
    /// Whether the view sits on a memdb buffer.
    pub closed spec fn is_memdb(self) -> bool {
        self.repr is Mem
    }

    /// The backing bytes of a memdb view (empty for a JSON view).
    pub closed spec fn mem_bytes(self) -> Seq<u8> {
        match self.repr {
            MapRepr::Mem(db) => db@,
            MapRepr::Json(_) => Seq::empty(),
        }
    }

    /// The decoded map behind a JSON view.
    pub closed spec fn json_map(self) -> sourcemap::SourceMap
        recommends
            !self.is_memdb(),
    {
        self.repr->Json_0
    }

    /// The token stream the view answers from.
    pub open spec fn tokens(self) -> Seq<RawToken> {
        if self.is_memdb() {
            spec_tokens(self.mem_bytes())
        } else {
            smap::sm_tokens(self.json_map())
        }
    }

    /// A view is well-formed when its backing is: a validated memdb, or a
    /// decoded map with its sorted token stream.
    pub closed spec fn wf(self) -> bool {
        match self.repr {
            MapRepr::Mem(db) => db.wf(),
            MapRepr::Json(sm) => smap::sm_wf(sm),
        }
    }

    /// Decodes a plain JSON source map into a view: succeeds exactly when
    /// the bytes decode as one, and the view answers from that decoding.
    pub fn json_from_slice(buffer: &[u8]) -> (r: Result<MapView, ErrorKind>)
        ensures
            r is Ok <==> smap::sm_decode_of(buffer@) is Some,
            r matches Ok(v) ==> v.wf() && !v.is_memdb() && smap::sm_decode_of(buffer@) == Some(
                (
                    smap::sm_tokens(v.json_map()),
                    smap::sm_names(v.json_map()),
                    smap::sm_sources(v.json_map()),
                    smap::sm_source_contents(v.json_map()),
                ),
            ),
            r matches Err(e) ==> e is SourceMap,
    {
        match smap::sm_from_slice(buffer) {
            Ok(sm) => Ok(MapView { repr: MapRepr::Json(sm) }),
            Err(e) => Err(ErrorKind::SourceMap(e)),
        }
    }

    /// Opens a memdb buffer as a view; fails as `MemDb::from_vec` does.
    pub fn memdb_from_vec(vec: Vec<u8>) -> (r: Result<MapView, ErrorKind>)
        ensures
            r is Ok <==> valid_memdb(vec@),
            r matches Ok(v) ==> v.wf() && v.is_memdb() && v.mem_bytes() == vec@,
            r matches Err(e) ==> (e is UnsupportedMemDbVersion || e is BadMemDb) && (
            e is UnsupportedMemDbVersion <==> vec@.len() >= 36 && spec_head(vec@).version != 1),
    {
        match MemDb::from_vec(vec) {
            Ok(db) => Ok(MapView { repr: MapRepr::Mem(db) }),
            Err(e) => Err(e),
        }
    }

    /// Wraps an already decoded map.
    pub fn from_sourcemap(sm: sourcemap::SourceMap) -> (r: Result<MapView, ErrorKind>)
        requires
            smap::sm_wf(sm),
        ensures
            r matches Ok(v) ==> v.wf() && !v.is_memdb() && v.json_map() == sm,
            r is Ok,
    {
        Ok(MapView { repr: MapRepr::Json(sm) })
    }

    /// Serializes the view into a memdb buffer.  A view that is already a
    /// memdb cannot be dumped again.
    pub fn dump_memdb(&self, opts: DumpOptions) -> (r: Result<Vec<u8>, ErrorKind>)
        requires
            self.wf(),
        ensures
            (r matches Err(e) && e is AlreadyMemDb) <==> self.is_memdb(),
            !self.is_memdb() ==> dumped_memdb(self.json_map(), opts, r),
    {
        match &self.repr {
            MapRepr::Json(sm) => dump_sourcemap(sm, &opts),
            MapRepr::Mem(_) => Err(ErrorKind::AlreadyMemDb),
        }
    }

    /// Finds the token covering a generated position, resolving its name
    /// and source strings from whichever backing is present: `None` when
    /// the query precedes every token, else the greatest token at or
    /// before the query, ties resolving to the greatest index.
    pub fn lookup_token<'a>(&'a self, line: u32, col: u32) -> (r: Option<TokenMatch<'a>>)
        requires
            self.wf(),
        ensures
            r matches Some(tm) ==> exists|i: int|
                0 <= i < self.tokens().len() && tm_core(tm, #[trigger] self.tokens()[i]),
            self.is_memdb() && sorted_by_dst(self.tokens()) ==> match r {
                None => forall|i: int|
                    0 <= i < self.tokens().len() ==> !dst_le(
                        #[trigger] self.tokens()[i],
                        line,
                        col,
                    ),
                Some(tm) => exists|i: int|
                    {
                        &&& 0 <= i < self.tokens().len()
                        &&& tm_core(tm, #[trigger] self.tokens()[i])
                        &&& dst_le(self.tokens()[i], line, col)
                        &&& (forall|j: int|
                            i < j < self.tokens().len() ==> !dst_le(
                                #[trigger] self.tokens()[j],
                                line,
                                col,
                            ))
                        &&& mem_name_match(self.mem_bytes(), self.tokens()[i].name_id, tm.name)
                        &&& mem_source_match(self.mem_bytes(), self.tokens()[i].src_id, tm.src)
                    },
            },
            !self.is_memdb() ==> match r {
                None => forall|i: int|
                    0 <= i < self.tokens().len() ==> !dst_le(
                        #[trigger] self.tokens()[i],
                        line,
                        col,
                    ),
                Some(tm) => exists|i: int|
                    {
                        &&& 0 <= i < self.tokens().len()
                        &&& tm_core(tm, #[trigger] self.tokens()[i])
                        &&& dst_le(self.tokens()[i], line, col)
                        &&& (forall|j: int|
                            i < j < self.tokens().len() ==> !dst_le(
                                #[trigger] self.tokens()[j],
                                line,
                                col,
                            ))
                        &&& json_name_match(self.json_map(), self.tokens()[i].name_id, tm.name)
                        &&& json_source_match(self.json_map(), self.tokens()[i].src_id, tm.src)
                    },
            },
    {
        match &self.repr {
            MapRepr::Json(sm) => {
                match json_lookup(sm, line, col) {
                    None => None,
                    Some(t) => {
                        let name = if t.name_id == !0u32 {
                            None
                        } else {
                            smap::sm_get_name(sm, t.name_id)
                        };
                        let src = smap::sm_get_source(sm, t.src_id);
                        let tm = TokenMatch {
                            dst_line: t.dst_line,
                            dst_col: t.dst_col,
                            src_line: t.src_line,
                            src_col: t.src_col,
                            name,
                            src,
                            src_id: t.src_id,
                        };
                        proof {
                            let toks = smap::sm_tokens(*sm);
                            let w = choose|i: int|
                                {
                                    &&& 0 <= i < toks.len()
                                    &&& t == toks[i]
                                    &&& dst_le(#[trigger] toks[i], line, col)
                                    &&& forall|j: int|
                                        i < j < toks.len() ==> !dst_le(
                                            #[trigger] toks[j],
                                            line,
                                            col,
                                        )
                                };
                            assert(tm_core(tm, self.tokens()[w]));
                            assert(json_name_match(self.json_map(), t.name_id, tm.name));
                            assert(json_source_match(self.json_map(), t.src_id, tm.src));
                        }
                        Some(tm)
                    },
                }
            },
            MapRepr::Mem(db) => {
                match db.lookup_token(line, col) {
                    None => None,
                    Some(tok) => {
                        let t = tok.raw;
                        let name = db.get_name(t.name_id);
                        let src = db.get_source(t.src_id);
                        let tm = TokenMatch {
                            dst_line: t.dst_line,
                            dst_col: t.dst_col,
                            src_line: t.src_line,
                            src_col: t.src_col,
                            name,
                            src,
                            src_id: t.src_id,
                        };
                        proof {
                            assert(self.mem_bytes() == db@);
                            let w0 = choose|i: int|
                                0 <= i < db.tokens().len() && tok.raw == db.tokens()[i];
                            assert(tm_core(tm, self.tokens()[w0]));
                            if sorted_by_dst(self.tokens()) {
                                let w = choose|i: int|
                                    {
                                        &&& 0 <= i < db.tokens().len()
                                        &&& tok.raw == db.tokens()[i]
                                        &&& dst_le(#[trigger] db.tokens()[i], line, col)
                                        &&& forall|j: int|
                                            i < j < db.tokens().len() ==> !dst_le(
                                                #[trigger] db.tokens()[j],
                                                line,
                                                col,
                                            )
                                    };
                                assert(tm_core(tm, self.tokens()[w]));
                                assert(mem_name_match(
                                    self.mem_bytes(),
                                    self.tokens()[w].name_id,
                                    tm.name,
                                ));
                                assert(mem_source_match(
                                    self.mem_bytes(),
                                    self.tokens()[w].src_id,
                                    tm.src,
                                ));
                            }
                        }
                        Some(tm)
                    },
                }
            },
        }
    }

    /// Reads token `idx`, resolving its strings.
    pub fn get_token<'a>(&'a self, idx: u32) -> (r: Option<TokenMatch<'a>>)
        requires
            self.wf(),
        ensures
            r is Some <==> (idx as int) < self.tokens().len(),
            r matches Some(tm) ==> {
                &&& tm_core(tm, self.tokens()[idx as int])
                &&& (self.is_memdb() ==> mem_name_match(
                    self.mem_bytes(),
                    self.tokens()[idx as int].name_id,
                    tm.name,
                ) && mem_source_match(self.mem_bytes(), self.tokens()[idx as int].src_id, tm.src))
                &&& (!self.is_memdb() ==> json_name_match(
                    self.json_map(),
                    self.tokens()[idx as int].name_id,
                    tm.name,
                ) && json_source_match(self.json_map(), self.tokens()[idx as int].src_id, tm.src))
            },
    {
        match &self.repr {
            MapRepr::Json(sm) => {
                match smap::sm_get_raw_token(sm, idx as usize) {
                    None => None,
                    Some(t) => {
                        let name = if t.name_id == !0u32 {
                            None
                        } else {
                            smap::sm_get_name(sm, t.name_id)
                        };
                        let src = smap::sm_get_source(sm, t.src_id);
                        Some(
                            TokenMatch {
                                dst_line: t.dst_line,
                                dst_col: t.dst_col,
                                src_line: t.src_line,
                                src_col: t.src_col,
                                name,
                                src,
                                src_id: t.src_id,
                            },
                        )
                    },
                }
            },
            MapRepr::Mem(db) => {
                match db.get_token(idx) {
                    None => None,
                    Some(tok) => {
                        let t = tok.raw;
                        let name = db.get_name(t.name_id);
                        let src = db.get_source(t.src_id);
                        Some(
                            TokenMatch {
                                dst_line: t.dst_line,
                                dst_col: t.dst_col,
                                src_line: t.src_line,
                                src_col: t.src_col,
                                name,
                                src,
                                src_id: t.src_id,
                            },
                        )
                    },
                }
            },
        }
    }

    /// The number of tokens the view holds.
    pub fn get_token_count(&self) -> (r: u32)
        requires
            self.wf(),
        ensures
            self.is_memdb() ==> r == spec_head(self.mem_bytes()).index_size,
            !self.is_memdb() ==> r == self.tokens().len(),
    {
        match &self.repr {
            MapRepr::Json(sm) => smap::sm_get_token_count(sm),
            MapRepr::Mem(db) => db.get_token_count(),
        }
    }

    /// The number of sources the view holds.
    pub fn get_source_count(&self) -> (r: u32)
        requires
            self.wf(),
        ensures
            self.is_memdb() ==> r == spec_head(self.mem_bytes()).sources_count,
            !self.is_memdb() ==> r == smap::sm_sources(self.json_map()).len(),
    {
        match &self.repr {
            MapRepr::Json(sm) => smap::sm_get_source_count(sm),
            MapRepr::Mem(db) => db.get_source_count(),
        }
    }

    /// Resolves source `src_id` to its file name.
    pub fn get_source(&self, src_id: u32) -> (r: Option<&str>)
        requires
            self.wf(),
        ensures
            self.is_memdb() ==> mem_source_match(self.mem_bytes(), src_id, r),
            !self.is_memdb() ==> json_source_match(self.json_map(), src_id, r),
    {
        match &self.repr {
            MapRepr::Json(sm) => smap::sm_get_source(sm, src_id),
            MapRepr::Mem(db) => db.get_source(src_id),
        }
    }

    /// The contents of source `src_id`: a borrow out of a JSON map, an
    /// owned decompressed string out of a memdb.
    pub fn get_source_contents<'a>(&'a self, src_id: u32) -> (r: Option<Cow<'a, str>>)
        requires
            self.wf(),
        ensures
            self.is_memdb() ==> match spec_contents_bytes(self.mem_bytes(), src_id as int) {
                None => r is None,
                Some(cb) => match crate::compress::unbrotli_of(cb) {
                    None => r is None,
                    Some(plain) => if valid_utf8(plain) {
                        r matches Some(s) && s@ == decode_utf8(plain)
                    } else {
                        r is None
                    },
                },
            },
            !self.is_memdb() && (src_id as int) < smap::sm_source_contents(
                self.json_map(),
            ).len() ==> match smap::sm_source_contents(self.json_map())[src_id as int] {
                None => r is None,
                Some(c) => r matches Some(s) && s@ == c,
            },
    {
        match &self.repr {
            MapRepr::Json(sm) => {
                match smap::sm_get_source_contents(sm, src_id) {
                    None => None,
                    Some(s) => Some(cow_borrowed(s)),
                }
            },
            MapRepr::Mem(db) => {
                match db.get_source_contents(src_id) {
                    None => None,
                    Some(s) => Some(cow_owned(s)),
                }
            },
        }
    }
}

/// Binary search over a decoded map's sorted token stream: the greatest
/// token at or before the query, ties to the greatest index, `None` when
/// the query precedes every token.
fn json_lookup(sm: &sourcemap::SourceMap, line: u32, col: u32) -> (r: Option<RawToken>)
    requires
        smap::sm_wf(*sm),
    ensures
        match r {
            None => forall|i: int|
                0 <= i < smap::sm_tokens(*sm).len() ==> !dst_le(
                    #[trigger] smap::sm_tokens(*sm)[i],
                    line,
                    col,
                ),
            Some(t) => exists|i: int|
                {
                    &&& 0 <= i < smap::sm_tokens(*sm).len()
                    &&& t == smap::sm_tokens(*sm)[i]
                    &&& dst_le(#[trigger] smap::sm_tokens(*sm)[i], line, col)
                    &&& forall|j: int|
                        i < j < smap::sm_tokens(*sm).len() ==> !dst_le(
                            #[trigger] smap::sm_tokens(*sm)[j],
                            line,
                            col,
                        )
                },
        },
{
    let n = smap::sm_get_token_count(sm);
    let ghost toks = smap::sm_tokens(*sm);
    let mut low: u32 = 0;
    let mut high: u32 = n;
    while low < high
        invariant
            smap::sm_wf(*sm),
            toks == smap::sm_tokens(*sm),
            n == toks.len(),
            low <= high <= n,
            low > 0 ==> dst_le(toks[low - 1], line, col),
            forall|j: int| high <= j < n ==> !dst_le(#[trigger] toks[j], line, col),
        decreases high - low,
    {
        let mid = low + (high - low) / 2;
        let raw = match smap::sm_get_raw_token(sm, mid as usize) {
            Some(t) => t,
            None => unreached(),
        };
        if line < raw.dst_line || (line == raw.dst_line && col < raw.dst_col) {
            proof {
                assert forall|j: int| mid <= j < n implies !dst_le(
                    #[trigger] toks[j],
                    line,
                    col,
                ) by {
                    if j > mid {
                        assert(dst_pair_le(toks[mid as int], toks[j]));
                    }
                }
            }
            high = mid;
        } else {
            low = mid + 1;
        }
    }
    if low > 0 {
        match smap::sm_get_raw_token(sm, (low - 1) as usize) {
            Some(t) => Some(t),
            None => unreached(),
        }
    } else {
        None
    }
}

/// What a successful dump of a decoded map guarantees: a well-formed
/// memdb whose index, layout and tables hold exactly what the map held,
/// names kept or dropped and contents compressed per the options.
pub open spec fn dumped_memdb(
    sm: sourcemap::SourceMap,
    opts: DumpOptions,
    r: Result<Vec<u8>, ErrorKind>,
) -> bool {
    let toks = smap::sm_tokens(sm);
    let lay = layout_spec(toks, opts.with_names);
    let has = opts.with_source_contents && (exists|i: int|
        0 <= i < smap::sm_sources(sm).len() && smap::sm_source_contents(sm)[i] is Some);
    match r {
        Ok(b) => {
            &&& valid_memdb(b@)
            &&& spec_head(b@).index_layout == lay
            &&& spec_head(b@).index_size == toks.len()
            &&& forall|i: int|
                0 <= i < toks.len() ==> #[trigger] spec_token(b@, i) == persisted(toks[i], lay)
            &&& spec_head(b@).names_count == (if opts.with_names {
                smap::sm_names(sm).len() as int
            } else {
                0
            })
            &&& (opts.with_names ==> forall|i: int|
                0 <= i < smap::sm_names(sm).len() ==> #[trigger] spec_name_bytes(b@, i) == Some(
                    vstd::utf8::encode_utf8(smap::sm_names(sm)[i]),
                ))
            &&& spec_head(b@).sources_count == smap::sm_sources(sm).len()
            &&& forall|i: int|
                0 <= i < smap::sm_sources(sm).len() ==> #[trigger] spec_source_bytes(b@, i)
                    == Some(vstd::utf8::encode_utf8(smap::sm_sources(sm)[i]))
            &&& spec_head(b@).source_contents_count == (if has {
                smap::sm_sources(sm).len() as int
            } else {
                0
            })
            &&& (has ==> forall|i: int|
                0 <= i < smap::sm_sources(sm).len() ==> match smap::sm_source_contents(sm)[i] {
                    None => #[trigger] spec_contents_bytes(b@, i) is None,
                    Some(c) => (spec_contents_bytes(b@, i) matches Some(cb)
                        && crate::compress::unbrotli_of(cb) == Some(vstd::utf8::encode_utf8(c))),
                })
        },
        Err(e) => {
            &&& (e is TooManySources || e is TooManyNames || e is InternalError)
            &&& (e is TooManySources <==> lay.src_id_bits > 32)
            &&& (e is TooManyNames <==> lay.src_id_bits <= 32 && lay.name_id_bits > 32)
            &&& !(!opts.with_source_contents && lay.src_id_bits <= 32 && lay.name_id_bits <= 32
                && crate::memdb::nocontents_size(
                toks,
                smap::sm_names(sm).map_values(|c: Seq<char>| vstd::utf8::encode_utf8(c)),
                smap::sm_sources(sm).map_values(|c: Seq<char>| vstd::utf8::encode_utf8(c)),
                opts.with_names,
            ) <= 0xffffffff)
        },
    }
}

/// Serializes a decoded map into a memdb buffer: the compute half of the
/// original dump-to-writer entry points.
pub fn sourcemap_to_memdb_vec(sm: &sourcemap::SourceMap, opts: DumpOptions) -> (r: Result<
    Vec<u8>,
    ErrorKind,
>)
    requires
        smap::sm_wf(*sm),
    ensures
        dumped_memdb(*sm, opts, r),
{
    dump_sourcemap(sm, &opts)
}

/// Walks the decoded map once per table, collects plain values, and hands
/// them to the verified builder.
fn dump_sourcemap(sm: &sourcemap::SourceMap, opts: &DumpOptions) -> (r: Result<
    Vec<u8>,
    ErrorKind,
>)
    requires
        smap::sm_wf(*sm),
    ensures
        dumped_memdb(*sm, *opts, r),
{
    let n = smap::sm_get_token_count(sm);
    let mut tokens: Vec<RawToken> = Vec::new();
    for i in 0..n
        invariant
            smap::sm_wf(*sm),
            n == smap::sm_tokens(*sm).len(),
            tokens@ =~= smap::sm_tokens(*sm).take(i as int),
    {
        match smap::sm_get_raw_token(sm, i as usize) {
            Some(t) => {
                tokens.push(t);
                proof {
                    assert(tokens@ =~= smap::sm_tokens(*sm).take(i + 1));
                }
            },
            None => {
                proof {
                    assert(false);
                }
            },
        }
    }
    proof {
        assert(tokens@ =~= smap::sm_tokens(*sm));
    }

    let mut names: Vec<String> = Vec::new();
    if opts.with_names {
        let nn = smap::sm_get_name_count(sm);
        for i in 0..nn
            invariant
                smap::sm_wf(*sm),
                nn == smap::sm_names(*sm).len(),
                names@.len() == i,
                forall|j: int| 0 <= j < i ==> #[trigger] names@[j]@ == smap::sm_names(*sm)[j],
        {
            match smap::sm_get_name(sm, i) {
                Some(s) => {
                    names.push(s.to_owned());
                },
                None => {
                    proof {
                        assert(false);
                    }
                },
            }
        }
    }

    let sc = smap::sm_get_source_count(sm);
    let mut sources: Vec<String> = Vec::new();
    let mut source_contents: Vec<Option<String>> = Vec::new();
    for i in 0..sc
        invariant
            smap::sm_wf(*sm),
            sc == smap::sm_sources(*sm).len(),
            sources@.len() == i,
            forall|j: int| 0 <= j < i ==> #[trigger] sources@[j]@ == smap::sm_sources(*sm)[j],
            source_contents@.len() == (if opts.with_source_contents {
                i as int
            } else {
                0
            }),
            opts.with_source_contents ==> forall|j: int|
                0 <= j < i ==> match smap::sm_source_contents(*sm)[j] {
                    None => (#[trigger] source_contents@[j]) is None,
                    Some(c) => source_contents@[j] matches Some(s) && s@ == c,
                },
    {
        match smap::sm_get_source(sm, i) {
            Some(s) => {
                sources.push(s.to_owned());
            },
            None => {
                proof {
                    assert(false);
                }
            },
        }
        if opts.with_source_contents {
            match smap::sm_get_source_contents(sm, i) {
                Some(s) => {
                    source_contents.push(Some(s.to_owned()));
                },
                None => {
                    source_contents.push(None);
                },
            }
        }
    }

    let r = build_memdb(&tokens, &names, &sources, &source_contents, opts);
    proof {
        let toks = smap::sm_tokens(*sm);
        let snames = smap::sm_names(*sm);
        let ssrcs = smap::sm_sources(*sm);
        let scont = smap::sm_source_contents(*sm);
        assert(tokens@ =~= toks);
        assert(names@.map_values(|s: String| vstd::utf8::encode_utf8(s@)) =~= (if opts.with_names {
            snames.map_values(|c: Seq<char>| vstd::utf8::encode_utf8(c))
        } else {
            Seq::<String>::empty().map_values(|s: String| vstd::utf8::encode_utf8(s@))
        }));
        assert(sources@.map_values(|s: String| vstd::utf8::encode_utf8(s@)) =~= ssrcs.map_values(
            |c: Seq<char>| vstd::utf8::encode_utf8(c),
        ));
        let rg = r;
        match rg {
            Ok(b) => {
                if opts.with_names {
                    assert forall|i: int| 0 <= i < snames.len() implies #[trigger] spec_name_bytes(
                        b@,
                        i,
                    ) == Some(vstd::utf8::encode_utf8(snames[i])) by {
                        assert(names@[i]@ == snames[i]);
                        assert(spec_name_bytes(b@, i) == Some(
                            vstd::utf8::encode_utf8(names@[i]@),
                        ));
                    }
                }
                assert forall|i: int| 0 <= i < ssrcs.len() implies #[trigger] spec_source_bytes(
                    b@,
                    i,
                ) == Some(vstd::utf8::encode_utf8(ssrcs[i])) by {
                    assert(sources@[i]@ == ssrcs[i]);
                    assert(spec_source_bytes(b@, i) == Some(
                        vstd::utf8::encode_utf8(sources@[i]@),
                    ));
                }
                let has_b = opts.with_source_contents && (exists|i: int|
                    0 <= i < sources@.len() && source_contents@[i] is Some);
                let has_d = opts.with_source_contents && (exists|i: int|
                    0 <= i < ssrcs.len() && scont[i] is Some);
                if has_b {
                    let w = choose|i: int| 0 <= i < sources@.len() && source_contents@[i] is Some;
                    assert(scont[w] is Some);
                    assert(has_d);
                }
                if has_d {
                    let w = choose|i: int| 0 <= i < ssrcs.len() && scont[i] is Some;
                    assert(source_contents@[w] is Some);
                    assert(has_b);
                }
                assert(has_b == has_d);
                if has_d {
                    assert forall|i: int| 0 <= i < ssrcs.len() implies match scont[i] {
                        None => #[trigger] spec_contents_bytes(b@, i) is None,
                        Some(c) => (spec_contents_bytes(b@, i) matches Some(cb)
                            && crate::compress::unbrotli_of(cb) == Some(
                            vstd::utf8::encode_utf8(c),
                        )),
                    } by {
                        match scont[i] {
                            None => {
                                assert(source_contents@[i] is None);
                            },
                            Some(c) => {
                                assert(source_contents@[i] matches Some(s2) && s2@ == c);
                            },
                        }
                    }
                }
            },
            Err(_) => {},
        }
    }
    r
}

/// Law: names round-trip end to end.  In a buffer whose name table holds
/// the encodings of a decoded map's names, every token's present name id
/// resolves, under the reader's contract, to exactly the original name:
/// the decoded map never carries a dangling id.
pub proof fn lemma_dumped_name_round_trip(sm: sourcemap::SourceMap, b: Seq<u8>, i: int)
    requires
        smap::sm_wf(sm),
        0 <= i < smap::sm_tokens(sm).len(),
        smap::sm_tokens(sm)[i].name_id != !0u32,
        forall|j: int|
            0 <= j < smap::sm_names(sm).len() ==> #[trigger] spec_name_bytes(b, j) == Some(
                vstd::utf8::encode_utf8(smap::sm_names(sm)[j]),
            ),
    ensures
        ({
            let n = smap::sm_tokens(sm)[i].name_id as int;
            &&& n < smap::sm_names(sm).len()
            &&& (spec_name_bytes(b, n) matches Some(bs) && valid_utf8(bs) && decode_utf8(bs)
                == smap::sm_names(sm)[n])
        }),
{
    let n = smap::sm_tokens(sm)[i].name_id as int;
    assert(n < smap::sm_names(sm).len());
    assert(spec_name_bytes(b, n) == Some(vstd::utf8::encode_utf8(smap::sm_names(sm)[n])));
    crate::memdb::lemma_utf8_round_trip(smap::sm_names(sm)[n]);
}

impl Index {
    /// The wrapped index.
    pub closed spec fn smi(self) -> sourcemap::SourceMapIndex {
        self.index
    }

    /// Decodes a sectioned source-map index: succeeds exactly when the
    /// bytes decode as one.
    pub fn json_from_slice(buffer: &[u8]) -> (r: Result<Index, ErrorKind>)
        ensures
            r is Ok <==> smap::smi_decode_of(buffer@) is Some,
            r matches Ok(ix) ==> smap::smi_decode_of(buffer@) == Some(
                smap::smi_section_maps(ix.smi()),
            ),
            r matches Err(e) ==> e is SourceMap,
    {
        match smap::smi_from_slice(buffer) {
            Ok(smi) => Index::from_sourcemap_index(smi),
            Err(e) => Err(ErrorKind::SourceMap(e)),
        }
    }

    /// Wraps an already decoded index.
    pub fn from_sourcemap_index(smi: sourcemap::SourceMapIndex) -> (r: Result<Index, ErrorKind>)
        ensures
            r is Ok,
            r matches Ok(ix) ==> ix.smi() == smi,
    {
        Ok(Index { index: smi })
    }

    /// Flattens the index into a plain view; a section without an
    /// embedded map forces the failure.  The flattener's offset
    /// arithmetic is unchecked upstream, so the flattened positions must
    /// be known to fit 32 bits.
    pub fn into_view(self) -> (r: Result<MapView, ErrorKind>)
        requires
            smap::smi_flatten_fits(self.smi()),
        ensures
            r matches Ok(v) ==> v.wf() && !v.is_memdb(),
            (exists|i: int|
                0 <= i < smap::smi_section_maps(self.smi()).len() && !smap::smi_section_maps(
                    self.smi(),
                )[i]) ==> r is Err,
            r matches Err(e) ==> e is SourceMap,
    {
        match smap::smi_flatten(&self.index) {
            Ok(sm) => MapView::from_sourcemap(sm),
            Err(e) => Err(ErrorKind::SourceMap(e)),
        }
    }

    /// Whether every section carries an embedded map, so that the index
    /// can be flattened without fetching anything.
    pub fn can_flatten(&self) -> (r: bool)
        ensures
            smap::smi_section_maps(self.smi()).len() <= 0xffffffff ==> r == (forall|i: int|
                0 <= i < smap::smi_section_maps(self.smi()).len()
                    ==> #[trigger] smap::smi_section_maps(self.smi())[i]),
    {
        let n = smap::smi_get_section_count(&self.index);
        for i in 0..n
            invariant
                smap::smi_section_maps(self.smi()).len() <= 0xffffffff ==> n
                    == smap::smi_section_maps(self.smi()).len(),
                smap::smi_section_maps(self.smi()).len() <= 0xffffffff ==> forall|j: int|
                    0 <= j < i ==> #[trigger] smap::smi_section_maps(self.smi())[j],
        {
            if !smap::smi_section_has_map(&self.index, i) {
                return false;
            }
        }
        true
    }
}

impl ViewOrIndex {
    /// Decodes a buffer into whichever representation it holds: a view
    /// exactly when the bytes are a plain map, an index exactly when they
    /// are a sectioned one.
    pub fn from_slice(buffer: &[u8]) -> (r: Result<ViewOrIndex, ErrorKind>)
        ensures
            (r matches Ok(k) && k is View) <==> smap::sm_decode_of(buffer@) is Some,
            (r matches Ok(k) && k is Index) <==> smap::smi_decode_of(buffer@) is Some,
            r matches Ok(ViewOrIndex::View(v)) ==> v.wf() && !v.is_memdb() && smap::sm_decode_of(
                buffer@,
            ) == Some(
                (
                    smap::sm_tokens(v.json_map()),
                    smap::sm_names(v.json_map()),
                    smap::sm_sources(v.json_map()),
                    smap::sm_source_contents(v.json_map()),
                ),
            ),
            r matches Ok(ViewOrIndex::Index(ix)) ==> smap::smi_decode_of(buffer@) == Some(
                smap::smi_section_maps(ix.smi()),
            ),
            r matches Err(e) ==> e is SourceMap,
    {
        match smap::decode_map_slice(buffer) {
            Ok(smap::DecodedKind::Regular(sm)) => {
                match MapView::from_sourcemap(sm) {
                    Ok(v) => Ok(ViewOrIndex::View(v)),
                    Err(e) => Err(e),
                }
            },
            Ok(smap::DecodedKind::Index(smi)) => {
                match Index::from_sourcemap_index(smi) {
                    Ok(ix) => Ok(ViewOrIndex::Index(ix)),
                    Err(e) => Err(e),
                }
            },
            Err(e) => Err(ErrorKind::SourceMap(e)),
        }
    }
}

} // verus!

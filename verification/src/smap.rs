//! Trusted boundary to the `sourcemap` crate, which decodes the JSON
//! source-map format and hands this library its token stream and string
//! tables.
//!
//! A decoded map is an opaque collection; its contents are named by the
//! spec functions below (`sm_tokens`, `sm_names`, `sm_sources`,
//! `sm_source_contents`, `smi_section_maps`), and each wrapped method says
//! what it returns over those names, as the crate's source shows it.

use vstd::prelude::*;
use crate::memdb::sorted_by_dst;
use crate::types::RawToken;

verus! {

#[verifier::external_type_specification]
#[verifier::external_body]
pub struct ExSourceMap(sourcemap::SourceMap);

#[verifier::external_type_specification]
#[verifier::external_body]
pub struct ExSourceMapIndex(sourcemap::SourceMapIndex);

/// The tokens a decoded map holds, in index order.
pub uninterp spec fn sm_tokens(sm: sourcemap::SourceMap) -> Seq<RawToken>;

/// The name table of a decoded map.
pub uninterp spec fn sm_names(sm: sourcemap::SourceMap) -> Seq<Seq<char>>;

/// The source-name table of a decoded map, as `get_source` reports it.
pub uninterp spec fn sm_sources(sm: sourcemap::SourceMap) -> Seq<Seq<char>>;

/// The per-source contents of a decoded map, one entry per source id.
pub uninterp spec fn sm_source_contents(sm: sourcemap::SourceMap) -> Seq<Option<Seq<char>>>;

/// Which sections of a source-map index carry an embedded map.
pub uninterp spec fn smi_section_maps(smi: sourcemap::SourceMapIndex) -> Seq<bool>;

/// What every map the decoder or the flattener yields satisfies: the
/// token stream is sorted by destination position (every constructor
/// sorts it); there is one contents entry per source; the tables are
/// addressed by `u32` ids, so none of them outgrows a `u32` count; and
/// every token id is the absent sentinel or a valid index into its table
/// (the decoder rejects dangling references, and the flattener remaps
/// ids through its own tables).
pub open spec fn sm_wf(sm: sourcemap::SourceMap) -> bool {
    &&& sorted_by_dst(sm_tokens(sm))
    &&& sm_source_contents(sm).len() == sm_sources(sm).len()
    &&& sm_tokens(sm).len() <= 0xffffffff
    &&& sm_names(sm).len() <= 0xffffffff
    &&& sm_sources(sm).len() <= 0xffffffff
    &&& forall|i: int|
        0 <= i < sm_tokens(sm).len() ==> ((#[trigger] sm_tokens(sm)[i]).src_id == !0u32
            || sm_tokens(sm)[i].src_id < sm_sources(sm).len())
    &&& forall|i: int|
        0 <= i < sm_tokens(sm).len() ==> ((#[trigger] sm_tokens(sm)[i]).name_id == !0u32
            || sm_tokens(sm)[i].name_id < sm_names(sm).len())
}

/// What the bytes decode to when they hold a plain JSON source map: its
/// token, name, source and contents tables.  Decoding is a function of
/// the bytes alone; `None` when they do not decode as a plain map.
pub uninterp spec fn sm_decode_of(b: Seq<u8>) -> Option<
    (Seq<RawToken>, Seq<Seq<char>>, Seq<Seq<char>>, Seq<Option<Seq<char>>>),
>;

/// The per-section embedded-map flags the bytes decode to when they hold
/// a sectioned index; `None` when they do not decode as one.
pub uninterp spec fn smi_decode_of(b: Seq<u8>) -> Option<Seq<bool>>;

/// Whether the destination positions produced by flattening the index
/// stay within 32 bits, so that the flattener's offset arithmetic cannot
/// overflow.
pub uninterp spec fn smi_flatten_fits(smi: sourcemap::SourceMapIndex) -> bool;

/// A decoded JSON map or a composite index of maps.
pub enum DecodedKind {
    Regular(sourcemap::SourceMap),
    Index(sourcemap::SourceMapIndex),
}

/// Relies on `SourceMap::from_slice`: it succeeds exactly when the bytes
/// decode as a plain JSON source map, yielding that map's tables; the
/// constructor sorts the tokens, the tables are addressed by `u32` ids,
/// and the decoder rejects dangling token ids.
#[verifier::external_body]
pub fn sm_from_slice(buffer: &[u8]) -> (r: Result<sourcemap::SourceMap, sourcemap::Error>)
    ensures
        r is Ok <==> sm_decode_of(buffer@) is Some,
        r matches Ok(sm) ==> sm_wf(sm) && sm_decode_of(buffer@) == Some(
            (sm_tokens(sm), sm_names(sm), sm_sources(sm), sm_source_contents(sm)),
        ),
{
    sourcemap::SourceMap::from_slice(buffer)
}

/// Relies on `decode_slice`: bytes decode as a plain map, as a sectioned
/// index, or not at all.  A Hermes map (a plain map with extra function
/// metadata) is reported as incompatible here, as `SourceMap::from_slice`
/// itself does for every non-regular map.
#[verifier::external_body]
pub fn decode_map_slice(buffer: &[u8]) -> (r: Result<DecodedKind, sourcemap::Error>)
    ensures
        (r matches Ok(k) && k is Regular) <==> sm_decode_of(buffer@) is Some,
        (r matches Ok(k) && k is Index) <==> smi_decode_of(buffer@) is Some,
        r matches Ok(k) ==> match k {
            DecodedKind::Regular(sm) => sm_wf(sm) && sm_decode_of(buffer@) == Some(
                (sm_tokens(sm), sm_names(sm), sm_sources(sm), sm_source_contents(sm)),
            ),
            DecodedKind::Index(smi) => smi_decode_of(buffer@) == Some(smi_section_maps(smi)),
        },
{
    match sourcemap::decode_slice(buffer) {
        Ok(sourcemap::DecodedMap::Regular(sm)) => Ok(DecodedKind::Regular(sm)),
        Ok(sourcemap::DecodedMap::Index(smi)) => Ok(DecodedKind::Index(smi)),
        Ok(sourcemap::DecodedMap::Hermes(_)) => Err(sourcemap::Error::IncompatibleSourceMap),
        Err(e) => Err(e),
    }
}

/// Relies on `SourceMap::get_token` and `Token::get_raw_token`: token
/// `idx` of the stream, as plain fields.
#[verifier::external_body]
pub fn sm_get_raw_token(sm: &sourcemap::SourceMap, idx: usize) -> (r: Option<RawToken>)
    ensures
        r is Some <==> (idx as int) < sm_tokens(*sm).len(),
        r matches Some(t) ==> t == sm_tokens(*sm)[idx as int],
{
    sm.get_token(idx).map(
        |t|
            {
                let rt = t.get_raw_token();
                RawToken {
                    dst_line: rt.dst_line,
                    dst_col: rt.dst_col,
                    src_line: rt.src_line,
                    src_col: rt.src_col,
                    src_id: rt.src_id,
                    name_id: rt.name_id,
                }
            },
    )
}

/// Relies on `SourceMap::get_token_count`: the token count, reported as a
/// `u32`.
#[verifier::external_body]
pub fn sm_get_token_count(sm: &sourcemap::SourceMap) -> (r: u32)
    ensures
        sm_tokens(*sm).len() <= 0xffffffff ==> r == sm_tokens(*sm).len(),
{
    sm.get_token_count()
}

/// Relies on `SourceMap::get_source`: source name `idx`, present exactly
/// for ids below the table's length.
#[verifier::external_body]
pub fn sm_get_source<'a>(sm: &'a sourcemap::SourceMap, idx: u32) -> (r: Option<&'a str>)
    ensures
        r is Some <==> (idx as int) < sm_sources(*sm).len(),
        r matches Some(s) ==> s@ == sm_sources(*sm)[idx as int],
{
    sm.get_source(idx)
}

/// Relies on `SourceMap::get_source_count`: the source count, reported as
/// a `u32`.
#[verifier::external_body]
pub fn sm_get_source_count(sm: &sourcemap::SourceMap) -> (r: u32)
    ensures
        sm_sources(*sm).len() <= 0xffffffff ==> r == sm_sources(*sm).len(),
{
    sm.get_source_count()
}

/// Relies on `SourceMap::get_source_contents`: the stored contents of
/// source `idx`, when the map carries them.
#[verifier::external_body]
pub fn sm_get_source_contents<'a>(sm: &'a sourcemap::SourceMap, idx: u32) -> (r: Option<&'a str>)
    ensures
        (idx as int) < sm_source_contents(*sm).len() ==> match sm_source_contents(
            *sm,
        )[idx as int] {
            None => r is None,
            Some(c) => r matches Some(s) && s@ == c,
        },
{
    sm.get_source_contents(idx)
}

/// Relies on `SourceMap::get_name`: name `idx`, present exactly for ids
/// below the table's length.
#[verifier::external_body]
pub fn sm_get_name<'a>(sm: &'a sourcemap::SourceMap, idx: u32) -> (r: Option<&'a str>)
    ensures
        r is Some <==> (idx as int) < sm_names(*sm).len(),
        r matches Some(s) ==> s@ == sm_names(*sm)[idx as int],
{
    sm.get_name(idx)
}

/// Relies on `SourceMap::get_name_count`: the name count, reported as a
/// `u32`.
#[verifier::external_body]
pub fn sm_get_name_count(sm: &sourcemap::SourceMap) -> (r: u32)
    ensures
        sm_names(*sm).len() <= 0xffffffff ==> r == sm_names(*sm).len(),
{
    sm.get_name_count()
}

/// Relies on `SourceMapIndex::from_slice`: it succeeds exactly when the
/// bytes decode as a sectioned index.
#[verifier::external_body]
pub fn smi_from_slice(buffer: &[u8]) -> (r: Result<
    sourcemap::SourceMapIndex,
    sourcemap::Error,
>)
    ensures
        r is Ok <==> smi_decode_of(buffer@) is Some,
        r matches Ok(smi) ==> smi_decode_of(buffer@) == Some(smi_section_maps(smi)),
{
    sourcemap::SourceMapIndex::from_slice(buffer)
}

/// Relies on `SourceMapIndex::get_section_count`: the section count,
/// reported as a `u32`.
#[verifier::external_body]
pub fn smi_get_section_count(smi: &sourcemap::SourceMapIndex) -> (r: u32)
    ensures
        smi_section_maps(*smi).len() <= 0xffffffff ==> r == smi_section_maps(*smi).len(),
{
    smi.get_section_count()
}

/// Relies on `SourceMapIndex::get_section` and
/// `SourceMapSection::get_sourcemap`: whether section `idx` carries an
/// embedded map.
#[verifier::external_body]
pub fn smi_section_has_map(smi: &sourcemap::SourceMapIndex, idx: u32) -> (r: bool)
    ensures
        (idx as int) < smi_section_maps(*smi).len() ==> r == smi_section_maps(*smi)[idx as int],
{
    match smi.get_section(idx) {
        Some(section) => section.get_sourcemap().is_some(),
        None => false,
    }
}

/// Relies on `SourceMapIndex::flatten`: on success it yields one plain
/// map, built through the same sorting constructor as the decoder, with
/// every token id remapped through the builder's own tables.  A section
/// without an embedded map makes it fail.  Its offset arithmetic is
/// unchecked, so the caller must know the flattened positions fit 32
/// bits; under that bound a successful flatten witnesses the bound, which
/// the second clause records.
#[verifier::external_body]
pub fn smi_flatten(smi: &sourcemap::SourceMapIndex) -> (r: Result<
    sourcemap::SourceMap,
    sourcemap::Error,
>)
    requires
        smi_flatten_fits(*smi),
    ensures
        r matches Ok(sm) ==> sm_wf(sm) && smi_flatten_fits(*smi),
        (exists|i: int|
            0 <= i < smi_section_maps(*smi).len() && !smi_section_maps(*smi)[i]) ==> r is Err,
{
    smi.flatten()
}

} // verus!

//! Building memdb buffers and reading them back: round trips, lookup
//! semantics, layout sizing, and reader-side rejection.

use sourcemap_db::memdb::{build_memdb, parse_head, DumpOptions, MemDb};
use sourcemap_db::record::layout_for;
use sourcemap_db::types::RawToken;
use sourcemap_db::ErrorKind;

fn tok(dst_line: u32, dst_col: u32, src_line: u32, src_col: u32, src_id: u32, name_id: u32) -> RawToken {
    RawToken { dst_line, dst_col, src_line, src_col, src_id, name_id }
}

fn s1_tokens() -> Vec<RawToken> {
    vec![tok(0, 0, 10, 5, 0, !0), tok(0, 10, 10, 20, 0, !0), tok(1, 0, 11, 0, 1, !0)]
}

fn build(
    tokens: &Vec<RawToken>,
    names: &Vec<String>,
    sources: &Vec<String>,
    contents: &Vec<Option<String>>,
    with_source_contents: bool,
    with_names: bool,
) -> Vec<u8> {
    let opts = DumpOptions { with_source_contents, with_names };
    build_memdb(tokens, names, sources, contents, &opts).unwrap()
}

fn open(bytes: Vec<u8>) -> MemDb {
    MemDb::from_vec(bytes).unwrap()
}

#[test]
fn lookup_semantics_on_s1() {
    let tokens = s1_tokens();
    let sources = vec![String::from("a.js"), String::from("b.js")];
    let bytes = build(&tokens, &vec![], &sources, &vec![], false, false);
    let db = open(bytes);
    assert_eq!(db.get_token_count(), 3);

    let expect = [
        ((0u32, 0u32), 0usize),
        ((0, 9), 0),
        ((0, 10), 1),
        ((0, 11), 1),
        ((1, 0), 2),
        ((2, 0), 2),
    ];
    for &((line, col), want) in expect.iter() {
        let t = db.lookup_token(line, col).unwrap();
        assert_eq!(t.get_raw_token(), tokens[want], "lookup ({}, {})", line, col);
    }
}

#[test]
fn lookup_before_first_token_is_none() {
    let tokens = vec![tok(2, 4, 0, 0, 0, !0)];
    let sources = vec![String::from("a.js")];
    let bytes = build(&tokens, &vec![], &sources, &vec![], false, false);
    let db = open(bytes);
    assert!(db.lookup_token(0, 0).is_none());
    assert!(db.lookup_token(2, 3).is_none());
    assert!(db.lookup_token(1, 100).is_none());
    assert!(db.lookup_token(2, 4).is_some());
}

#[test]
fn lookup_ties_break_to_greatest_index() {
    // Two tokens at the same destination: the later record wins.
    let tokens = vec![tok(0, 5, 1, 1, 0, !0), tok(0, 5, 2, 2, 0, !0)];
    let sources = vec![String::from("a.js")];
    let bytes = build(&tokens, &vec![], &sources, &vec![], false, false);
    let db = open(bytes);
    let t = db.lookup_token(0, 5).unwrap();
    assert_eq!(t.get_src(), (2, 2));
}

#[test]
fn round_trip_without_names() {
    // S2: built with names dropped, every token reads back an absent name,
    // and the source names still resolve.
    let tokens = s1_tokens();
    let names = vec![String::from("x"), String::from("y")];
    let sources = vec![String::from("a.js"), String::from("b.js")];
    let bytes = build(&tokens, &names, &sources, &vec![], false, false);
    let db = open(bytes);
    for i in 0..3u32 {
        let t = db.get_token(i).unwrap();
        assert_eq!(t.get_name(), None);
        assert!(!t.has_name());
        let want = &tokens[i as usize];
        assert_eq!(t.get_dst(), (want.dst_line, want.dst_col));
        assert_eq!(t.get_src(), (want.src_line, want.src_col));
        assert_eq!(t.get_raw_token().src_id, want.src_id);
        assert_eq!(t.get_raw_token().name_id, !0);
    }
    assert_eq!(db.get_source(0), Some("a.js"));
    assert_eq!(db.get_source(1), Some("b.js"));
    assert_eq!(db.get_source(2), None);
    assert_eq!(db.get_source_count(), 2);
}

#[test]
fn round_trip_with_names() {
    let tokens = vec![tok(0, 0, 1, 1, 0, 0), tok(0, 7, 1, 5, 0, 1), tok(0, 9, 2, 0, 0, !0)];
    let names = vec![String::from("alpha"), String::from("beta")];
    let sources = vec![String::from("src/lib.js")];
    let bytes = build(&tokens, &names, &sources, &vec![], false, true);
    let db = open(bytes);
    let t = db.lookup_token(0, 0).unwrap();
    assert_eq!(t.get_name(), Some("alpha"));
    let t = db.lookup_token(0, 8).unwrap();
    assert_eq!(t.get_name(), Some("beta"));
    let t = db.lookup_token(0, 9).unwrap();
    assert_eq!(t.get_name(), None);
    assert_eq!(t.get_source(), Some("src/lib.js"));
    assert_eq!(t.to_tuple(), ("src/lib.js", 2, 0, None));
}

#[test]
fn multibyte_names_survive() {
    let tokens = vec![tok(0, 0, 0, 0, 0, 0)];
    let names = vec![String::from("caf\u{e9}\u{1F600}")];
    let sources = vec![String::from("\u{fc}ber.js")];
    let bytes = build(&tokens, &names, &sources, &vec![], false, true);
    let db = open(bytes);
    assert_eq!(db.get_name(0), Some("caf\u{e9}\u{1F600}"));
    assert_eq!(db.get_source(0), Some("\u{fc}ber.js"));
}

#[test]
fn wide_destination_line_widens_layout() {
    // S3: a single token at line 200000 needs an 18-bit line field.
    let tokens = vec![tok(200_000, 0, 3, 4, 0, !0)];
    let layout = layout_for(&tokens, false);
    assert_eq!(layout.dst_line_bits, 18);
    assert_eq!(layout.name_id_bits, 0);
    let sources = vec![String::from("a.js")];
    let bytes = build(&tokens, &vec![], &sources, &vec![], false, false);
    let db = open(bytes);
    let t = db.get_token(0).unwrap();
    assert_eq!(t.get_dst(), (200_000, 0));
    assert_eq!(t.get_src(), (3, 4));
}

#[test]
fn absent_ids_round_trip_with_names_kept() {
    // S4: the sentinel survives encoding even when names are persisted.
    let tokens = vec![tok(1, 2, 3, 4, !0, !0)];
    let bytes = build(&tokens, &vec![String::from("n")], &vec![], &vec![], false, true);
    let db = open(bytes);
    let raw = db.get_token(0).unwrap().get_raw_token();
    assert_eq!(raw.src_id, !0);
    assert_eq!(raw.name_id, !0);
}

#[test]
fn source_contents_present_and_absent() {
    // S5: one present and one absent contents entry.
    let tokens = vec![tok(0, 0, 0, 0, 0, !0)];
    let sources = vec![String::from("a.js"), String::from("b.js")];
    let contents = vec![Some(String::from("var x = 1;\nalert(x);\n")), None];
    let bytes = build(&tokens, &vec![], &sources, &contents, true, false);
    let db = open(bytes);
    assert_eq!(db.get_source_contents(0), Some(String::from("var x = 1;\nalert(x);\n")));
    assert_eq!(db.get_source_contents(1), None);
    assert_eq!(db.get_source_contents(2), None);
}

#[test]
fn contents_table_absent_when_nothing_provided() {
    let tokens = vec![tok(0, 0, 0, 0, 0, !0)];
    let sources = vec![String::from("a.js")];
    let contents = vec![None];
    let bytes = build(&tokens, &vec![], &sources, &contents, true, false);
    let db = open(bytes);
    assert_eq!(db.get_source_contents(0), None);
}

#[test]
fn reopen_matches_build() {
    // S6: build to bytes, reopen, and compare counts and lookups.
    let tokens = vec![
        tok(0, 0, 10, 5, 0, 0),
        tok(0, 10, 10, 20, 0, 1),
        tok(1, 0, 11, 0, 1, !0),
        tok(5, 3, 12, 7, 1, 0),
    ];
    let names = vec![String::from("n0"), String::from("n1")];
    let sources = vec![String::from("a.js"), String::from("b.js")];
    let bytes = build(&tokens, &names, &sources, &vec![], false, true);
    let db = open(bytes);
    assert_eq!(db.get_token_count(), 4);
    assert_eq!(db.get_source_count(), 2);
    for &(line, col, want) in [(0u32, 3u32, 0usize), (0, 10, 1), (4, 9, 2)].iter() {
        let t = db.lookup_token(line, col).unwrap();
        assert_eq!(t.get_raw_token(), tokens[want]);
    }
}

#[test]
fn version_rejection() {
    // P7: any version but 1 is refused.
    let tokens = s1_tokens();
    let sources = vec![String::from("a.js"), String::from("b.js")];
    let mut bytes = build(&tokens, &vec![], &sources, &vec![], false, false);
    bytes[0] = 2;
    bytes[1] = 0;
    assert!(matches!(MemDb::from_vec(bytes.clone()), Err(ErrorKind::UnsupportedMemDbVersion)));
    bytes[0] = 0;
    assert!(matches!(MemDb::from_vec(bytes), Err(ErrorKind::UnsupportedMemDbVersion)));
}

#[test]
fn bounds_rejection() {
    // P8: buffers smaller than the header, or with a table out of
    // bounds, are refused as bad data.
    assert!(matches!(MemDb::from_vec(vec![]), Err(ErrorKind::BadMemDb)));
    assert!(matches!(MemDb::from_vec(vec![1u8, 0, 0, 0]), Err(ErrorKind::BadMemDb)));
    let tokens = s1_tokens();
    let sources = vec![String::from("a.js"), String::from("b.js")];
    let good = build(&tokens, &vec![], &sources, &vec![], false, false);

    // A truncated buffer loses its tables.
    let short = good[..good.len() - 1].to_vec();
    assert!(matches!(MemDb::from_vec(short), Err(ErrorKind::BadMemDb)));

    // Corrupting sources_start past the end of the buffer.
    let mut bad = good.clone();
    bad[20] = 0xff;
    bad[21] = 0xff;
    bad[22] = 0xff;
    bad[23] = 0x7f;
    assert!(matches!(MemDb::from_vec(bad), Err(ErrorKind::BadMemDb)));

    // An oversized layout width is refused before any decoding.
    let mut bad = good.clone();
    bad[2] = 64;
    assert!(matches!(MemDb::from_vec(bad), Err(ErrorKind::BadMemDb)));

    let db = open(good);
    assert!(db.get_token(3).is_none());
    assert!(db.get_name(0).is_none());
}

#[test]
fn minimal_layout_for_sample_stream() {
    // P6 on concrete values: each width is the largest the stream needs,
    // one bit less would lose a record.
    let tokens = vec![tok(3, 1, 0, 9, 0, !0), tok(3, 2, 7, 0, 1, !0)];
    let layout = layout_for(&tokens, false);
    assert_eq!(layout.dst_line_bits, 2);
    assert_eq!(layout.dst_col_bits, 2);
    assert_eq!(layout.src_line_bits, 3);
    assert_eq!(layout.src_col_bits, 4);
    assert_eq!(layout.src_id_bits, 2);
    assert_eq!(layout.name_id_bits, 0);
    let with_names = layout_for(&tokens, true);
    assert_eq!(with_names.name_id_bits, 1);
    assert_eq!(layout.item_size(), 2);
}

#[test]
fn header_round_trips_through_bytes() {
    let tokens = vec![tok(0, 1, 2, 3, 0, !0)];
    let sources = vec![String::from("a.js")];
    let bytes = build(&tokens, &vec![], &sources, &vec![], false, false);
    let head = parse_head(bytes.as_slice());
    assert_eq!(head.version, 1);
    assert_eq!(head.index_size, 1);
    assert_eq!(head.names_count, 0);
    assert_eq!(head.sources_count, 1);
    assert_eq!(head.source_contents_count, 0);
    let db = open(bytes.clone());
    assert_eq!(db.buffer(), bytes.as_slice());
}

#[test]
fn empty_map_builds_and_opens() {
    let bytes = build(&vec![], &vec![], &vec![], &vec![], false, false);
    let db = open(bytes);
    assert_eq!(db.get_token_count(), 0);
    assert_eq!(db.get_source_count(), 0);
    assert!(db.lookup_token(0, 0).is_none());
    assert!(db.get_token(0).is_none());
}

#[test]
fn builder_rejects_ids_too_wide_for_the_codec() {
    // A non-sentinel id at or above two to the 31st would need a 33-bit
    // field; the builder reports the table as too large instead.
    let tokens = vec![tok(0, 0, 0, 0, 0x8000_0000, !0)];
    let opts = DumpOptions { with_source_contents: false, with_names: false };
    assert!(matches!(
        build_memdb(&tokens, &vec![], &vec![], &vec![], &opts),
        Err(ErrorKind::TooManySources)
    ));
    let tokens = vec![tok(0, 0, 0, 0, 0, 0x8000_0000)];
    let opts = DumpOptions { with_source_contents: false, with_names: true };
    assert!(matches!(
        build_memdb(&tokens, &vec![], &vec![], &vec![], &opts),
        Err(ErrorKind::TooManyNames)
    ));
}

#[test]
fn from_cow_accepts_borrowed_and_owned() {
    let tokens = s1_tokens();
    let sources = vec![String::from("a.js"), String::from("b.js")];
    let bytes = build(&tokens, &vec![], &sources, &vec![], false, false);
    let db = MemDb::from_cow(std::borrow::Cow::Borrowed(bytes.as_slice())).unwrap();
    assert_eq!(db.get_token_count(), 3);
    let db = MemDb::from_cow(std::borrow::Cow::Owned(bytes)).unwrap();
    assert_eq!(db.get_token_count(), 3);
}

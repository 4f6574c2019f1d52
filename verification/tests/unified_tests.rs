//! The unified view over JSON maps and memdb buffers, end to end through
//! the real JSON decoder and the real compressor.

use sourcemap_db::memdb::DumpOptions;
use sourcemap_db::unified::sourcemap_to_memdb_vec;
use sourcemap_db::writer::serialize_map;
use sourcemap_db::types::RawToken;
use sourcemap_db::{ErrorKind, Index, MapView, ViewOrIndex};

// Two tokens on generated line 0: (0,0) -> a.js:0:0 name x, and
// (0,4) -> a.js:1:0 name y.
const MAP_JSON: &str = "{\"version\":3,\"sources\":[\"a.js\"],\
\"sourcesContent\":[\"var x = 1;\\nalert(x);\\n\"],\
\"names\":[\"x\",\"y\"],\"mappings\":\"AAAAA,IACAC\"}";

const INDEX_JSON: &str = "{\"version\":3,\"sections\":[{\"offset\":{\"line\":0,\"column\":0},\
\"map\":{\"version\":3,\"sources\":[\"a.js\"],\"names\":[],\"mappings\":\"AAAA\"}}]}";

#[test]
fn json_view_answers_lookups() {
    let view = MapView::json_from_slice(MAP_JSON.as_bytes()).unwrap();
    assert_eq!(view.get_token_count(), 2);
    assert_eq!(view.get_source_count(), 1);
    assert_eq!(view.get_source(0), Some("a.js"));
    assert_eq!(view.get_source(1), None);

    let tm = view.lookup_token(0, 0).unwrap();
    assert_eq!((tm.dst_line, tm.dst_col), (0, 0));
    assert_eq!((tm.src_line, tm.src_col), (0, 0));
    assert_eq!(tm.src_id, 0);
    assert_eq!(tm.name, Some("x"));
    assert_eq!(tm.src, Some("a.js"));

    let tm = view.lookup_token(0, 9).unwrap();
    assert_eq!((tm.src_line, tm.src_col), (1, 0));
    assert_eq!(tm.name, Some("y"));

    let contents = view.get_source_contents(0).unwrap();
    assert_eq!(contents.as_ref(), "var x = 1;\nalert(x);\n");
}

#[test]
fn dump_and_reopen_agree_with_json_view() {
    let view = MapView::json_from_slice(MAP_JSON.as_bytes()).unwrap();
    let opts = DumpOptions { with_source_contents: true, with_names: true };
    let bytes = view.dump_memdb(opts).unwrap();
    let mem = MapView::memdb_from_vec(bytes).unwrap();

    assert_eq!(mem.get_token_count(), view.get_token_count());
    assert_eq!(mem.get_source_count(), view.get_source_count());
    for &(line, col) in [(0u32, 0u32), (0, 3), (0, 4), (0, 100)].iter() {
        let a = view.lookup_token(line, col).unwrap();
        let b = mem.lookup_token(line, col).unwrap();
        assert_eq!((a.dst_line, a.dst_col), (b.dst_line, b.dst_col));
        assert_eq!((a.src_line, a.src_col), (b.src_line, b.src_col));
        assert_eq!(a.src_id, b.src_id);
        assert_eq!(a.name, b.name);
        assert_eq!(a.src, b.src);
    }
    for idx in 0..2u32 {
        let a = view.get_token(idx).unwrap();
        let b = mem.get_token(idx).unwrap();
        assert_eq!((a.dst_line, a.dst_col, a.src_line, a.src_col), (
            b.dst_line,
            b.dst_col,
            b.src_line,
            b.src_col,
        ));
    }
    // The Brotli round trip through the real compressor.
    let contents = mem.get_source_contents(0).unwrap();
    assert_eq!(contents.as_ref(), "var x = 1;\nalert(x);\n");
    // A memdb view cannot be dumped again.
    assert!(matches!(mem.dump_memdb(opts), Err(ErrorKind::AlreadyMemDb)));
    // Lookups before the first token fail on both views.
    assert!(mem.lookup_token(1, 0).is_some());
}

#[test]
fn dump_without_names_drops_them() {
    let view = MapView::json_from_slice(MAP_JSON.as_bytes()).unwrap();
    let opts = DumpOptions { with_source_contents: false, with_names: false };
    let bytes = view.dump_memdb(opts).unwrap();
    let mem = MapView::memdb_from_vec(bytes).unwrap();
    for &(line, col) in [(0u32, 0u32), (0, 9)].iter() {
        let tm = mem.lookup_token(line, col).unwrap();
        assert_eq!(tm.name, None);
        assert_eq!(tm.src, Some("a.js"));
    }
    assert!(mem.get_source_contents(0).is_none());
}

#[test]
fn sourcemap_to_memdb_vec_matches_view_dump() {
    let sm = sourcemap::SourceMap::from_slice(MAP_JSON.as_bytes()).unwrap();
    let opts = DumpOptions { with_source_contents: false, with_names: true };
    let bytes = sourcemap_to_memdb_vec(&sm, opts).unwrap();
    let mem = MapView::memdb_from_vec(bytes).unwrap();
    assert_eq!(mem.get_token_count(), 2);
    let tm = mem.lookup_token(0, 4).unwrap();
    assert_eq!(tm.name, Some("y"));
}

#[test]
fn view_or_index_distinguishes_the_kinds() {
    match ViewOrIndex::from_slice(MAP_JSON.as_bytes()).unwrap() {
        ViewOrIndex::View(v) => {
            assert_eq!(v.get_token_count(), 2);
        },
        ViewOrIndex::Index(_) => panic!("plain map decoded as index"),
    }
    match ViewOrIndex::from_slice(INDEX_JSON.as_bytes()).unwrap() {
        ViewOrIndex::View(_) => panic!("index decoded as plain map"),
        ViewOrIndex::Index(ix) => {
            assert!(ix.can_flatten());
        },
    }
    assert!(matches!(
        ViewOrIndex::from_slice(b"not json"),
        Err(ErrorKind::SourceMap(_))
    ));
}

#[test]
fn index_flattens_into_a_view() {
    let ix = Index::json_from_slice(INDEX_JSON.as_bytes()).unwrap();
    assert!(ix.can_flatten());
    let view = ix.into_view().unwrap();
    assert_eq!(view.get_token_count(), 1);
    assert_eq!(view.get_source(0), Some("a.js"));
}

#[test]
fn bad_memdb_bytes_are_refused_at_the_view() {
    assert!(matches!(
        MapView::memdb_from_vec(vec![0u8; 10]),
        Err(ErrorKind::BadMemDb)
    ));
    let mut junk = vec![0u8; 64];
    junk[0] = 9;
    assert!(matches!(
        MapView::memdb_from_vec(junk),
        Err(ErrorKind::UnsupportedMemDbVersion)
    ));
}

#[test]
fn old_format_serializer_lays_out_records_and_markers() {
    let tokens = vec![
        RawToken { dst_line: 1, dst_col: 2, src_line: 3, src_col: 4, src_id: 0, name_id: 0 },
    ];
    let names = vec![String::from("nm")];
    let sources = vec![String::from("s.js")];
    let bytes = serialize_map(&tokens, &names, &sources).unwrap();

    let word = |p: usize| -> u32 {
        u32::from_le_bytes([bytes[p], bytes[p + 1], bytes[p + 2], bytes[p + 3]])
    };
    assert_eq!(word(0), 1, "index_size");
    assert_eq!(word(8), 1, "names_count");
    assert_eq!(word(16), 1, "sources_count");
    // The record.
    assert_eq!(word(20), 1);
    assert_eq!(word(24), 2);
    assert_eq!(word(28), 0);
    assert_eq!(word(32), 0);
    // The name marker points at the raw name bytes.
    let names_start = word(4) as usize;
    let pos = word(names_start) as usize;
    let len = word(names_start + 4) as usize;
    assert_eq!(&bytes[pos..pos + len], b"nm");
    let sources_start = word(12) as usize;
    let pos = word(sources_start) as usize;
    let len = word(sources_start + 4) as usize;
    assert_eq!(&bytes[pos..pos + len], b"s.js");
}

#[test]
fn json_lookup_ties_break_to_greatest_index() {
    // Two tokens at the same generated position: the greatest record
    // index wins, on the JSON view and on its memdb dump alike.
    let json = "{\"version\":3,\"sources\":[\"a.js\"],\"names\":[],\
\"mappings\":\"AAAA,AACA\"}";
    let view = MapView::json_from_slice(json.as_bytes()).unwrap();
    let tm = view.lookup_token(0, 0).unwrap();
    assert_eq!((tm.src_line, tm.src_col), (1, 0));
    let bytes = view
        .dump_memdb(DumpOptions { with_source_contents: false, with_names: false })
        .unwrap();
    let mem = MapView::memdb_from_vec(bytes).unwrap();
    let tm = mem.lookup_token(0, 0).unwrap();
    assert_eq!((tm.src_line, tm.src_col), (1, 0));
}

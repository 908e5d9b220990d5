use plato_room::knowledge_base::{block_diagonal, KnowledgeBase};
use plato_room::room::{Link, Room};
use plato_room::text::{chars_of, is_whitespace, join_strings, list_items_of, same_text, trim_text};
use plato_room::tile::{
    kind_str, parse_kind, parse_status, parse_yaml_simple, status_str, Tile, TileKind, TileStatus,
};

fn tile(id: &str, status: TileStatus, deps: &[&str], confidence: f64) -> Tile<f64> {
    Tile {
        id: id.to_string(),
        room: "r".to_string(),
        kind: TileKind::Fact,
        status,
        title: String::new(),
        content: String::new(),
        dependencies: deps.iter().map(|d| d.to_string()).collect(),
        confidence,
        tags: vec![],
    }
}

fn room_of(tiles: Vec<Tile<f64>>) -> Room<f64> {
    Room { name: "r".to_string(), tiles }
}

#[test]
fn whitespace_matches_std_for_every_char() {
    for u in 0u32..=0x10FFFF {
        if let Some(c) = char::from_u32(u) {
            assert_eq!(is_whitespace(c), c.is_whitespace(), "char {:x}", u);
        }
    }
}

#[test]
fn trim_matches_std() {
    for s in ["", "  ", " a b ", "\t\r\nx\u{3000}", "\u{85}y\u{a0}", "z"] {
        assert_eq!(trim_text(s), s.trim());
    }
}

#[test]
fn chars_and_same_text() {
    assert_eq!(chars_of("añb"), vec!['a', 'ñ', 'b']);
    assert!(same_text("añb", "añb"));
    assert!(!same_text("ab", "abc"));
    assert!(!same_text("ab", "ac"));
}

#[test]
fn list_items_trim_and_skip_empty() {
    assert_eq!(list_items_of(" a, b ,,c ,"), vec!["a", "b", "c"]);
    assert!(list_items_of("").is_empty());
    assert!(list_items_of(" , ").is_empty());
}

#[test]
fn join_puts_separator_between() {
    let parts = vec!["a".to_string(), "b".to_string(), "c".to_string()];
    assert_eq!(join_strings(&parts, ", "), "a, b, c");
    assert_eq!(join_strings(&vec![], ", "), "");
}

#[test]
fn kind_and_status_names() {
    assert_eq!(kind_str(&TileKind::Observation), "Observation");
    assert_eq!(status_str(&TileStatus::Partial), "Partial");
}

#[test]
fn parse_kind_ignores_case_and_space() {
    assert_eq!(parse_kind("FACT"), Ok(TileKind::Fact));
    assert_eq!(parse_kind("  proof "), Ok(TileKind::Proof));
    assert_eq!(parse_kind("Retracted"), Ok(TileKind::Retracted));
    // The Kelvin sign lowercases to `k`.
    assert_eq!(parse_kind("BENCHMAR\u{212A}"), Ok(TileKind::Benchmark));
    assert_eq!(parse_kind("theorem"), Err("unknown kind: theorem".to_string()));
    assert_eq!(parse_kind(" x "), Err("unknown kind:  x ".to_string()));
}

#[test]
fn parse_status_ignores_case_and_space() {
    assert_eq!(parse_status("VERIFIED"), Ok(TileStatus::Verified));
    assert_eq!(parse_status(" failed"), Ok(TileStatus::Failed));
    assert_eq!(parse_status("done"), Err("unknown status: done".to_string()));
}

#[test]
fn yaml_reads_entries() {
    let m = parse_yaml_simple("a: 1\n  b :  two words \nno colon\n\na: 3\nc:x:y").unwrap();
    assert_eq!(m.get("a"), Some(&"3".to_string()));
    assert_eq!(m.get("b"), Some(&"two words".to_string()));
    assert_eq!(m.get("c"), Some(&"x:y".to_string()));
    assert_eq!(m.get("no colon"), None);
    assert_eq!(m.get("d"), None);
}

#[test]
fn from_markdown_errors() {
    assert_eq!(Tile::from_markdown("").unwrap_err(), "empty input");
    assert_eq!(Tile::from_markdown("id: a\n---").unwrap_err(), "expected opening ---");
    assert_eq!(Tile::from_markdown("---\nid: a\n").unwrap_err(), "expected closing ---");
    assert_eq!(Tile::from_markdown("---\nkind: Fact\n---").unwrap_err(), "missing id");
    assert_eq!(Tile::from_markdown("---\nid: a\n---").unwrap_err(), "missing kind");
    assert_eq!(Tile::from_markdown("---\nid: a\nkind: Nope\n---").unwrap_err(), "unknown kind: Nope");
    assert_eq!(Tile::from_markdown("---\nid: a\nkind: Code\n---").unwrap_err(), "missing status");
    assert_eq!(
        Tile::from_markdown("---\nid: a\nkind: Code\nstatus: Gone\n---").unwrap_err(),
        "unknown status: Gone"
    );
}

#[test]
fn from_markdown_defaults_and_crlf() {
    let md = "  ---  \r\nid: x\r\nkind: code\r\nstatus: partial\r\n---\r\n\r\n line one\r\nline two \r\n";
    let t = Tile::from_markdown(md).unwrap();
    assert_eq!(t.id, "x");
    assert_eq!(t.room, "");
    assert_eq!(t.title, "");
    assert_eq!(t.kind, TileKind::Code);
    assert_eq!(t.status, TileStatus::Partial);
    assert_eq!(t.confidence, None);
    assert!(t.dependencies.is_empty());
    assert!(t.tags.is_empty());
    assert_eq!(t.content, "line one\nline two");
}

#[test]
fn to_markdown_writes_every_field() {
    let mut t = tile("t1", TileStatus::Conjecture, &["a", "b"], 0.5);
    t.tags = vec!["x".to_string()];
    t.title = "T".to_string();
    t.content = "body".to_string();
    assert_eq!(
        t.to_markdown("0.5"),
        "---\nid: t1\nroom: r\nkind: Fact\nstatus: Conjecture\ntitle: T\nconfidence: 0.5\ndependencies: a, b\ntags: x\n---\nbody"
    );
}

#[test]
fn markdown_roundtrip_keeps_fields() {
    let mut t = tile("t9", TileStatus::Retracted, &["p", "q r"], 0.25);
    t.kind = TileKind::Observation;
    t.tags = vec!["one".to_string(), "two".to_string()];
    t.title = "A: title".to_string();
    t.content = "first\n\nsecond".to_string();
    let back = Tile::from_markdown(&t.to_markdown("0.25")).unwrap();
    assert_eq!(back.id, t.id);
    assert_eq!(back.room, t.room);
    assert_eq!(back.kind, t.kind);
    assert_eq!(back.status, t.status);
    assert_eq!(back.title, t.title);
    assert_eq!(back.content, t.content);
    assert_eq!(back.dependencies, t.dependencies);
    assert_eq!(back.tags, t.tags);
    assert_eq!(back.confidence, Some("0.25".to_string()));
}

#[test]
fn insert_replaces_first_with_same_id() {
    let mut room = room_of(vec![]);
    room.insert(tile("a", TileStatus::Partial, &[], 0.1));
    room.insert(tile("b", TileStatus::Partial, &[], 0.2));
    room.insert(tile("a", TileStatus::Verified, &[], 0.3));
    assert_eq!(room.tiles.len(), 2);
    assert_eq!(room.tiles[0].status, TileStatus::Verified);
    assert_eq!(room.get("a").unwrap().confidence, 0.3);
    assert_eq!(room.get("b").unwrap().confidence, 0.2);
    assert_eq!(room.name, "r");
}

#[test]
fn get_takes_first_of_duplicates() {
    let room = room_of(vec![tile("a", TileStatus::Partial, &[], 0.1), tile("a", TileStatus::Failed, &[], 0.2)]);
    assert_eq!(room.get("a").unwrap().confidence, 0.1);
}

#[test]
fn what_changed_with_nothing_known_is_everything() {
    let room = room_of(vec![tile("a", TileStatus::Partial, &[], 0.1), tile("b", TileStatus::Failed, &[], 0.2)]);
    let changed = room.what_changed(&[]);
    assert_eq!(changed.len(), 2);
    let all = room.what_changed(&["b".to_string(), "a".to_string()]);
    assert!(all.is_empty());
}

#[test]
fn verified_keeps_order() {
    let room = room_of(vec![
        tile("a", TileStatus::Verified, &[], 0.1),
        tile("b", TileStatus::Failed, &[], 0.2),
        tile("c", TileStatus::Verified, &[], 0.3),
    ]);
    let v: Vec<&str> = room.verified().iter().map(|t| t.id.as_str()).collect();
    assert_eq!(v, vec!["a", "c"]);
}

#[test]
fn frontier_ignores_missing_and_settled_dependencies() {
    let room = room_of(vec![
        tile("c", TileStatus::Conjecture, &[], 0.5),
        tile("x", TileStatus::Verified, &["nowhere"], 0.5),
        tile("y", TileStatus::Verified, &["x"], 0.5),
        tile("z", TileStatus::Partial, &["x", "c"], 0.5),
    ]);
    let f: Vec<&str> = room.frontier().iter().map(|t| t.id.as_str()).collect();
    assert_eq!(f, vec!["z"]);
}

#[test]
fn gaps_in_first_order_once() {
    let room = room_of(vec![
        tile("a", TileStatus::Verified, &["m2", "b", "m1"], 0.5),
        tile("b", TileStatus::Verified, &["m1", "m3", "m2"], 0.5),
    ]);
    assert_eq!(room.gaps(), vec!["m2", "m1", "m3"]);
}

#[test]
fn suggest_next_falls_back() {
    let frontier_room = room_of(vec![
        tile("c", TileStatus::Conjecture, &[], 0.5),
        tile("d", TileStatus::Partial, &["c"], 0.5),
    ]);
    assert_eq!(frontier_room.suggest_next(), Some("d".to_string()));
    let gap_room = room_of(vec![tile("a", TileStatus::Verified, &["gone"], 0.5)]);
    assert_eq!(gap_room.suggest_next(), Some("gone".to_string()));
    let settled = room_of(vec![tile("a", TileStatus::Verified, &[], 0.5)]);
    assert_eq!(settled.suggest_next(), None);
}

#[test]
fn from_tiles_names_room_after_first_nonempty_room() {
    let mut a = tile("a", TileStatus::Verified, &[], 0.5);
    a.room = String::new();
    let mut b = tile("b", TileStatus::Verified, &[], 0.5);
    b.room = "physics".to_string();
    let mut c = tile("c", TileStatus::Verified, &[], 0.5);
    c.room = "math".to_string();
    let room = Room::from_tiles(vec![a, b, c]);
    assert_eq!(room.name, "physics");
    assert_eq!(room.tiles.len(), 3);
    let empty: Room<f64> = Room::from_tiles(vec![]);
    assert_eq!(empty.name, "");
}

#[test]
fn dependency_links_exact() {
    let room = room_of(vec![
        tile("a", TileStatus::Verified, &["c", "a"], 1.0),
        tile("b", TileStatus::Verified, &[], 0.5),
        tile("c", TileStatus::Verified, &["missing"], 0.2),
        tile("c", TileStatus::Verified, &["b"], 0.4),
    ]);
    let l = room.dependency_links();
    assert_eq!(l[0], vec![Link::Own(0), Link::Absent, Link::Absent, Link::Mean(0, 3)]);
    assert_eq!(l[1], vec![Link::Absent, Link::Own(1), Link::Absent, Link::Mean(1, 3)]);
    assert_eq!(l[2], vec![Link::Absent, Link::Absent, Link::Own(2), Link::Absent]);
    assert_eq!(l[3], vec![Link::Mean(0, 3), Link::Mean(1, 3), Link::Absent, Link::Own(3)]);
    let empty: Room<f64> = room_of(vec![]);
    assert!(empty.dependency_links().is_empty());
}

#[test]
fn block_diagonal_places_blocks() {
    let blocks = vec![vec![vec![1, 2], vec![3, 4]], vec![], vec![vec![5, 6, 7]]];
    assert_eq!(
        block_diagonal(&blocks, 0),
        vec![vec![1, 2, 0], vec![3, 4, 0], vec![0, 0, 5]]
    );
    let none: Vec<Vec<Vec<u8>>> = vec![];
    assert!(block_diagonal(&none, 0).is_empty());
}

#[test]
fn knowledge_base_lookup_and_bridges() {
    let mut kb: KnowledgeBase<f64> = KnowledgeBase::default();
    assert!(kb.rooms.is_empty());
    for name in ["a", "b", "a", "c"] {
        kb.add_room(Room { name: name.to_string(), tiles: vec![] });
    }
    assert_eq!(kb.room_index("a"), Some(0));
    assert_eq!(kb.room_index("c"), Some(3));
    assert_eq!(kb.room_index("z"), None);
    let mut low = vec![vec![false; 4]; 4];
    low[0][3] = true;
    low[1][2] = true;
    low[2][1] = true; // below the diagonal: never consulted
    low[0][1] = true;
    let bridges = kb.missing_bridges(&low);
    let expected: Vec<(String, String)> = vec![
        ("a".to_string(), "b".to_string()),
        ("a".to_string(), "c".to_string()),
        ("b".to_string(), "a".to_string()),
    ];
    assert_eq!(bridges, expected);
}

#[test]
fn insert_same_tile_twice_changes_nothing() {
    let mut room = room_of(vec![tile("a", TileStatus::Partial, &[], 0.1), tile("b", TileStatus::Failed, &[], 0.2)]);
    let t = tile("b", TileStatus::Verified, &["a"], 0.9);
    room.insert(t.clone());
    let ids_once: Vec<(String, f64)> = room.tiles.iter().map(|x| (x.id.clone(), x.confidence)).collect();
    room.insert(t.clone());
    let ids_twice: Vec<(String, f64)> = room.tiles.iter().map(|x| (x.id.clone(), x.confidence)).collect();
    assert_eq!(ids_once, ids_twice);
    assert_eq!(room.tiles.iter().filter(|x| x.id == "b").count(), 1);
    assert_eq!(room.get("b").unwrap().status, TileStatus::Verified);
}

use plato_room::knowledge_base::KnowledgeBase;
use plato_room::room::{Link, Room};
use plato_room::tile::{Tile, TileKind, TileStatus};

fn make_tile(id: &str, room: &str, kind: TileKind, status: TileStatus, deps: Vec<&str>, confidence: f64) -> Tile<f64> {
    Tile {
        id: id.into(),
        room: room.into(),
        kind,
        status,
        title: format!("Tile {}", id),
        content: format!("Content of {}", id),
        dependencies: deps.into_iter().map(|s| s.into()).collect(),
        confidence,
        tags: vec![],
    }
}

/// The confidence that a written confidence text stands for.
fn confidence_of(text: &Option<String>) -> f64 {
    text.as_deref().and_then(|s| s.parse().ok()).unwrap_or(0.0)
}

/// The weighted dependency graph that the links of a room describe.
fn dependency_graph(room: &Room<f64>) -> Vec<Vec<f64>> {
    room.dependency_links()
        .iter()
        .map(|row| {
            row.iter()
                .map(|l| match *l {
                    Link::Absent => 0.0,
                    Link::Own(i) => room.tiles[i].confidence,
                    Link::Mean(i, j) => (room.tiles[i].confidence + room.tiles[j].confidence) / 2.0,
                })
                .collect()
        })
        .collect()
}

#[test]
fn test_tile_parse_roundtrip() {
    let md = "---\nid: t1\nroom: math\nkind: Fact\nstatus: Verified\ntitle: Test tile\nconfidence: 0.9\ndependencies: a, b\ntags: math, core\n---\nSome content here";
    let tile = Tile::from_markdown(md).unwrap();
    let confidence = confidence_of(&tile.confidence);
    let tile = tile.with_confidence(confidence);
    assert_eq!(tile.id, "t1");
    assert_eq!(tile.room, "math");
    assert_eq!(tile.kind, TileKind::Fact);
    assert_eq!(tile.status, TileStatus::Verified);
    assert_eq!(tile.title, "Test tile");
    assert_eq!(tile.confidence, 0.9);
    assert_eq!(tile.dependencies, vec!["a", "b"]);
    assert_eq!(tile.tags, vec!["math", "core"]);
    assert_eq!(tile.content, "Some content here");

    let serialized = tile.to_markdown(&tile.confidence.to_string());
    let roundtrip = Tile::from_markdown(&serialized).unwrap();
    let roundtrip_confidence = confidence_of(&roundtrip.confidence);
    assert_eq!(roundtrip.id, tile.id);
    assert_eq!(roundtrip.kind, tile.kind);
    assert_eq!(roundtrip.status, tile.status);
    assert_eq!(roundtrip_confidence, tile.confidence);
}

#[test]
fn test_is_failure() {
    let t = make_tile("f1", "r", TileKind::Failure, TileStatus::Failed, vec![], 0.0);
    assert!(t.is_failure());
    let t2 = make_tile("f2", "r", TileKind::Fact, TileStatus::Failed, vec![], 0.5);
    assert!(t2.is_failure());
    let t3 = make_tile("f3", "r", TileKind::Fact, TileStatus::Verified, vec![], 0.9);
    assert!(!t3.is_failure());
}

#[test]
fn test_is_verified() {
    let t = make_tile("v1", "r", TileKind::Fact, TileStatus::Verified, vec![], 1.0);
    assert!(t.is_verified());
    let t2 = make_tile("v2", "r", TileKind::Fact, TileStatus::Partial, vec![], 0.5);
    assert!(!t2.is_verified());
}

#[test]
fn test_room_insert_and_get() {
    let mut room = Room { name: "test".into(), tiles: vec![] };
    let t = make_tile("a", "test", TileKind::Fact, TileStatus::Verified, vec![], 1.0);
    room.insert(t);
    assert!(room.get("a").is_some());
    assert!(room.get("b").is_none());
}

#[test]
fn test_room_what_changed() {
    let mut room = Room { name: "test".into(), tiles: vec![] };
    room.insert(make_tile("a", "test", TileKind::Fact, TileStatus::Verified, vec![], 1.0));
    room.insert(make_tile("b", "test", TileKind::Fact, TileStatus::Verified, vec![], 1.0));
    let known = vec!["a".into()];
    let changed = room.what_changed(&known);
    assert_eq!(changed.len(), 1);
    assert_eq!(changed[0].id, "b");
}

#[test]
fn test_room_failures_first() {
    let mut room = Room { name: "test".into(), tiles: vec![] };
    room.insert(make_tile("ok", "test", TileKind::Fact, TileStatus::Verified, vec![], 1.0));
    room.insert(make_tile("bad", "test", TileKind::Failure, TileStatus::Failed, vec![], 0.0));
    let failures = room.failures();
    assert_eq!(failures.len(), 1);
    assert_eq!(failures[0].id, "bad");
}

#[test]
fn test_room_frontier() {
    let mut room = Room { name: "test".into(), tiles: vec![] };
    room.insert(make_tile("c1", "test", TileKind::Conjecture, TileStatus::Conjecture, vec![], 0.5));
    room.insert(make_tile("d1", "test", TileKind::Fact, TileStatus::Partial, vec!["c1"], 0.7));
    room.insert(make_tile("d2", "test", TileKind::Fact, TileStatus::Verified, vec![], 1.0));
    let frontier = room.frontier();
    assert_eq!(frontier.len(), 1);
    assert_eq!(frontier[0].id, "d1");
}

#[test]
fn test_room_gaps() {
    let mut room = Room { name: "test".into(), tiles: vec![] };
    room.insert(make_tile("a", "test", TileKind::Fact, TileStatus::Verified, vec!["missing_dep"], 1.0));
    let gaps = room.gaps();
    assert_eq!(gaps, vec!["missing_dep"]);
}

#[test]
fn test_room_gaps_no_missing() {
    let mut room = Room { name: "test".into(), tiles: vec![] };
    room.insert(make_tile("a", "test", TileKind::Fact, TileStatus::Verified, vec![], 1.0));
    assert!(room.gaps().is_empty());
}

#[test]
fn test_dependency_graph_shape() {
    let mut room = Room { name: "test".into(), tiles: vec![] };
    room.insert(make_tile("a", "test", TileKind::Fact, TileStatus::Verified, vec!["b"], 1.0));
    room.insert(make_tile("b", "test", TileKind::Fact, TileStatus::Verified, vec![], 0.8));
    let g = dependency_graph(&room);
    assert_eq!(g.len(), 2);
    assert_eq!(g[0].len(), 2);
    // Should be symmetric
    assert!((g[0][1] - g[1][0]).abs() < 1e-10);
    // Non-zero connection
    assert!(g[0][1] > 0.0);
}

#[test]
fn test_suggest_next_failures_first() {
    let mut room = Room { name: "test".into(), tiles: vec![] };
    room.insert(make_tile("ok", "test", TileKind::Fact, TileStatus::Verified, vec![], 1.0));
    room.insert(make_tile("bad", "test", TileKind::Failure, TileStatus::Failed, vec![], 0.0));
    assert_eq!(room.suggest_next(), Some("bad".into()));
}

#[test]
fn test_knowledge_base_rooms_added_in_order() {
    let mut kb = KnowledgeBase::new();
    let mut r1 = Room { name: "room1".into(), tiles: vec![] };
    r1.insert(make_tile("a", "room1", TileKind::Fact, TileStatus::Verified, vec!["b"], 1.0));
    r1.insert(make_tile("b", "room1", TileKind::Fact, TileStatus::Verified, vec![], 0.8));
    let mut r2 = Room { name: "room2".into(), tiles: vec![] };
    r2.insert(make_tile("x", "room2", TileKind::Fact, TileStatus::Verified, vec!["y"], 0.9));
    r2.insert(make_tile("y", "room2", TileKind::Fact, TileStatus::Verified, vec![], 0.7));
    kb.add_room(r1);
    kb.add_room(r2);
    assert_eq!(kb.rooms.len(), 2);
    assert_eq!(kb.room_index("room1"), Some(0));
    assert_eq!(kb.room_index("room2"), Some(1));
    assert_eq!(kb.room_index("room3"), None);
}

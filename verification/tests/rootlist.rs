use rootlist::ident::{IdentifierParseError, NamedId};
use rootlist::laws::flatten_playlists;
use rootlist::root::{entries_admissible, forest_eq, item_eq, Entry, Item, RootPlaylist, RootPlaylistEntry};
use rootlist::uri::{split_colons, str_eq};
use rootlist::availability::UnavailabilityReason;

fn entry(uri: &str, timestamp: i64) -> Entry {
    Entry { uri: uri.to_string(), timestamp }
}

fn playlist(username: &str, kind: &str, id: &str, timestamp: i64) -> Item {
    Item::Playlist(RootPlaylistEntry {
        id: NamedId {
            username: username.to_string(),
            kind: kind.to_string(),
            id: id.to_string(),
        },
        timestamp,
    })
}

#[test]
fn empty_input_yields_empty_forest() {
    let built = RootPlaylist::from_entries(&vec![]).unwrap();
    assert!(built.items.is_empty());
}

#[test]
fn single_playlist_keeps_identifier_and_timestamp() {
    let entries = vec![entry("spotify:user:alice:playlist:aaa", 42)];
    let built = RootPlaylist::from_entries(&entries).unwrap();
    assert_eq!(built.items.len(), 1);
    match &built.items[0] {
        Item::Playlist(e) => {
            assert_eq!(e.id.username, "alice");
            assert_eq!(e.id.kind, "playlist");
            assert_eq!(e.id.id, "aaa");
            assert_eq!(e.timestamp, 42);
        }
        Item::Group(_, _) => panic!("expected a playlist node"),
    }
}

#[test]
fn unmatched_end_group_at_root_is_ignored() {
    let entries = vec![
        entry("spotify:end-group:gid", 1),
        entry("spotify:user:alice:playlist:aaa", 2),
    ];
    let built = RootPlaylist::from_entries(&entries).unwrap();
    let expected = vec![playlist("alice", "playlist", "aaa", 2)];
    assert!(forest_eq(&built.items, &expected));
}

#[test]
fn nested_groups_assemble_in_order() {
    let entries = vec![
        entry("spotify:start-group:g1:Rock", 1),
        entry("spotify:user:u:playlist:trackA", 2),
        entry("spotify:start-group:g2:80s", 3),
        entry("spotify:user:u:playlist:trackB", 4),
        entry("spotify:end-group:g2", 5),
        entry("spotify:user:u:playlist:trackC", 6),
        entry("spotify:end-group:g1", 7),
        entry("spotify:user:u:playlist:trackD", 8),
    ];
    let built = RootPlaylist::from_entries(&entries).unwrap();
    let expected = vec![
        Item::Group(
            "Rock".to_string(),
            vec![
                playlist("u", "playlist", "trackA", 2),
                Item::Group("80s".to_string(), vec![playlist("u", "playlist", "trackB", 4)]),
                playlist("u", "playlist", "trackC", 6),
            ],
        ),
        playlist("u", "playlist", "trackD", 8),
    ];
    assert!(forest_eq(&built.items, &expected));
}

#[test]
fn open_group_closes_at_end_of_input() {
    let entries = vec![entry("spotify:start-group:g1:X", 1)];
    let built = RootPlaylist::from_entries(&entries).unwrap();
    let expected = vec![Item::Group("X".to_string(), vec![])];
    assert!(forest_eq(&built.items, &expected));
}

#[test]
fn malformed_reference_aborts_build() {
    let entries = vec![
        entry("spotify:user:alice:playlist:aaa", 1),
        entry("spotify:user:alice", 2),
    ];
    let built = RootPlaylist::from_entries(&entries);
    assert!(matches!(built, Err(IdentifierParseError)));
}

#[test]
fn builder_is_deterministic() {
    let entries = vec![
        entry("spotify:start-group:g1:Rock", 1),
        entry("spotify:user:u:playlist:trackA", 2),
        entry("spotify:end-group:g1", 3),
        entry("spotify:user:u:playlist:trackB", 4),
    ];
    let once = RootPlaylist::from_entries(&entries).unwrap();
    let twice = RootPlaylist::from_entries(&entries).unwrap();
    assert!(forest_eq(&once.items, &twice.items));
}

#[test]
fn from_uri_accepts_five_segments() {
    let id = NamedId::from_uri("spotify:user:alice:playlist:abc").unwrap();
    assert_eq!(id.username, "alice");
    assert_eq!(id.kind, "playlist");
    assert_eq!(id.id, "abc");
}

#[test]
fn from_uri_reads_fixed_segment_positions() {
    let id = NamedId::from_uri("a:b:c:d:e:f").unwrap();
    assert_eq!(id.username, "c");
    assert_eq!(id.kind, "d");
    assert_eq!(id.id, "e");
}

#[test]
fn from_uri_rejects_missing_segments() {
    assert!(NamedId::from_uri("spotify:user:alice").is_err());
    assert!(NamedId::from_uri("spotify:user:alice:playlist").is_err());
    assert!(NamedId::from_uri("alice").is_err());
    assert!(NamedId::from_uri("").is_err());
}

#[test]
fn to_uri_restores_canonical_text() {
    let id = NamedId::from_uri("spotify:user:alice:playlist:xyz").unwrap();
    assert_eq!(id.to_uri(), "spotify:user:alice:playlist:xyz");
}

#[test]
fn parse_error_message_text() {
    assert_eq!(IdentifierParseError.message(), "malformed playlist reference URI");
}

#[test]
fn split_colons_keeps_empty_segments() {
    assert_eq!(split_colons("a:b::c"), vec!["a", "b", "", "c"]);
    assert_eq!(split_colons("abc"), vec!["abc"]);
    assert_eq!(split_colons(":"), vec!["", ""]);
    assert_eq!(split_colons(""), vec![""]);
}

#[test]
fn str_eq_compares_characters() {
    assert!(str_eq("start-group", "start-group"));
    assert!(!str_eq("start-group", "end-group"));
    assert!(!str_eq("a", "ab"));
    assert!(str_eq("", ""));
}

#[test]
fn admissible_accepts_complete_markers() {
    let entries = vec![
        entry("spotify:start-group:g1:Rock", 1),
        entry("spotify:end-group:g1", 2),
        entry("spotify:user:u:playlist:trackA", 3),
    ];
    assert!(entries_admissible(&entries));
}

#[test]
fn admissible_rejects_marker_missing_segments() {
    assert!(!entries_admissible(&vec![entry("spotify:start-group:gid", 1)]));
    assert!(!entries_admissible(&vec![entry("x:end-group", 1)]));
}

#[test]
fn group_name_is_fourth_segment() {
    let entries = vec![entry("spotify:start-group:g1:Jazz:extra", 1)];
    let built = RootPlaylist::from_entries(&entries).unwrap();
    match &built.items[0] {
        Item::Group(name, children) => {
            assert_eq!(name, "Jazz");
            assert!(children.is_empty());
        }
        Item::Playlist(_) => panic!("expected a group node"),
    }
}

#[test]
fn item_eq_distinguishes_structure() {
    let a = Item::Group("X".to_string(), vec![playlist("u", "playlist", "a", 1)]);
    let b = Item::Group("X".to_string(), vec![playlist("u", "playlist", "a", 1)]);
    let c = Item::Group("X".to_string(), vec![playlist("u", "playlist", "b", 1)]);
    let d = Item::Group("Y".to_string(), vec![playlist("u", "playlist", "a", 1)]);
    assert!(item_eq(&a, &b));
    assert!(!item_eq(&a, &c));
    assert!(!item_eq(&a, &d));
    assert!(!item_eq(&a, &playlist("u", "playlist", "a", 1)));
}

#[test]
fn flatten_reproduces_reference_order() {
    let entries = vec![
        entry("spotify:start-group:g1:Rock", 1),
        entry("spotify:user:u:playlist:trackA", 2),
        entry("spotify:start-group:g2:80s", 3),
        entry("spotify:user:u:playlist:trackB", 4),
        entry("spotify:end-group:g2", 5),
        entry("spotify:user:u:playlist:trackC", 6),
        entry("spotify:end-group:g1", 7),
        entry("spotify:user:u:playlist:trackD", 8),
    ];
    let built = RootPlaylist::from_entries(&entries).unwrap();
    let flat = flatten_playlists(&built.items);
    let ids: Vec<&str> = flat.iter().map(|e| e.id.id.as_str()).collect();
    assert_eq!(ids, vec!["trackA", "trackB", "trackC", "trackD"]);
    let stamps: Vec<i64> = flat.iter().map(|e| e.timestamp).collect();
    assert_eq!(stamps, vec![2, 4, 6, 8]);
}

#[test]
fn depth_matches_nesting_scenario() {
    let entries = vec![
        entry("spotify:start-group:g1:outer", 1),
        entry("spotify:start-group:g2:inner", 2),
        entry("spotify:end-group:g2", 3),
        entry("spotify:end-group:g1", 4),
        entry("spotify:user:u:playlist:aaa", 5),
    ];
    let built = RootPlaylist::from_entries(&entries).unwrap();
    let expected = vec![
        Item::Group("outer".to_string(), vec![Item::Group("inner".to_string(), vec![])]),
        playlist("u", "playlist", "aaa", 5),
    ];
    assert!(forest_eq(&built.items, &expected));
}

#[test]
fn unavailability_reason_descriptions() {
    assert_eq!(
        UnavailabilityReason::Blacklisted.describe(),
        "blacklist present and country on it"
    );
    assert_eq!(UnavailabilityReason::Embargo.describe(), "available date is in the future");
    assert_eq!(UnavailabilityReason::NoData.describe(), "required data was not present");
    assert_eq!(
        UnavailabilityReason::NotWhitelisted.describe(),
        "whitelist present and country not on it"
    );
}

use image_captioner::CaptionError;
use image_captioner::resolve_output;
use image_captioner::codec::read_caption_table;
use image_captioner::codec::write_caption_table;
use image_captioner::discovery::GalleryEntry;
use image_captioner::discovery::filter_image_entries;
use image_captioner::reconcile::DiscoveredImage;
use image_captioner::reconcile::KeyedRecord;
use image_captioner::reconcile::reconcile;
use image_captioner::reconcile::strip_keys;
use image_captioner::record::CaptionRecord;
use image_captioner::record::ViewCommand;
use image_captioner::record::generate_empty_captions;
use image_captioner::session::EditSession;
use image_captioner::session::SessionAction;
use image_captioner::session::SessionEvent;
use image_captioner::session::SessionState;
use image_captioner::session::build_viewer_invocation;
use image_captioner::session::strip_backslashes;

fn record(path: &str, caption: &str) -> CaptionRecord {
    CaptionRecord::new(&path.to_string(), caption.to_string())
}

fn keyed(path: &str, caption: &str, key: &str) -> KeyedRecord {
    KeyedRecord { record: record(path, caption), key: key.to_string() }
}

fn image(path: &str, key: &str) -> DiscoveredImage {
    DiscoveredImage { path: path.to_string(), key: key.to_string() }
}

fn entry(path: &str, is_dir: bool) -> GalleryEntry {
    GalleryEntry { path: path.to_string(), is_dir }
}

#[test]
fn discovery_keeps_supported_extensions_in_listing_order() {
    let entries = vec![
        entry("gal/b.png", false),
        entry("gal/a.jpg", false),
        entry("gal/c.txt", false),
    ];
    let found = filter_image_entries(&entries);
    assert_eq!(found, vec!["gal/b.png".to_string(), "gal/a.jpg".to_string()]);
}

#[test]
fn discovery_is_case_insensitive_and_skips_directories() {
    let entries = vec![
        entry("g/x.JPG", false),
        entry("g/y.JpEg", false),
        entry("g/z.PNG", false),
        entry("g/w.jpgx", false),
        entry("g/d.jpg", true),
        entry("g/.jpg", false),
        entry("g/noext", false),
    ];
    let found = filter_image_entries(&entries);
    assert_eq!(
        found,
        vec!["g/x.JPG".to_string(), "g/y.JpEg".to_string(), "g/z.PNG".to_string()]
    );
}

#[test]
fn discovery_is_stable_under_rescan() {
    let entries = vec![entry("g/a.jpg", false), entry("g/b.txt", false)];
    let first = filter_image_entries(&entries);
    let second = filter_image_entries(&entries);
    assert_eq!(first, second);
}

#[test]
fn fresh_table_is_sorted_with_empty_captions() {
    let entries = vec![
        entry("gal/b.png", false),
        entry("gal/a.jpg", false),
        entry("gal/c.txt", false),
    ];
    let found = filter_image_entries(&entries);
    let discovered: Vec<DiscoveredImage> =
        found.iter().map(|p| image(p, p)).collect();
    let table = strip_keys(&reconcile(&Vec::new(), &discovered));
    assert_eq!(table.len(), 2);
    assert_eq!(table[0].image_path, "gal/a.jpg");
    assert_eq!(table[0].caption, "");
    assert_eq!(table[1].image_path, "gal/b.png");
    assert_eq!(table[1].caption, "");
}

#[test]
fn round_trip_preserves_special_characters() {
    let records = vec![
        record("gal/a.jpg", "hello, world"),
        record("gal/b.png", "say \"hi\"\nsecond line"),
        record("gal/c.jpeg", ""),
    ];
    let text = write_caption_table(&records);
    let back = read_caption_table(&text, "gal").unwrap();
    assert_eq!(back.len(), 3);
    assert_eq!(back[0].image_path, "gal/a.jpg");
    assert_eq!(back[0].caption, "hello, world");
    assert_eq!(back[1].image_path, "gal/b.png");
    assert_eq!(back[1].caption, "say \"hi\"\nsecond line");
    assert_eq!(back[2].image_path, "gal/c.jpeg");
    assert_eq!(back[2].caption, "");
}

#[test]
fn written_table_has_header_and_bare_filenames() {
    let records = vec![record("gal/a.jpg", "cat")];
    let text = write_caption_table(&records);
    assert_eq!(text, "Image,Caption\na.jpg,cat\n");
}

#[test]
fn written_table_is_read_by_the_csv_crate() {
    let records = vec![
        record("g/a.jpg", "he,llo"),
        record("g/b.png", "a \"quoted\" word\nand more"),
    ];
    let text = write_caption_table(&records);
    let mut rdr = csv::Reader::from_reader(text.as_bytes());
    let rows: Vec<csv::StringRecord> = rdr.records().map(|r| r.unwrap()).collect();
    assert_eq!(rows.len(), 2);
    assert_eq!(&rows[0][0], "a.jpg");
    assert_eq!(&rows[0][1], "he,llo");
    assert_eq!(&rows[1][0], "b.png");
    assert_eq!(&rows[1][1], "a \"quoted\" word\nand more");
}

#[test]
fn csv_crate_output_is_read_back() {
    let mut wtr = csv::Writer::from_writer(Vec::new());
    wtr.write_record(&["Image", "Caption"]).unwrap();
    wtr.write_record(&["a.jpg", "quote \" comma, line\nend"]).unwrap();
    let data = String::from_utf8(wtr.into_inner().unwrap()).unwrap();
    let recs = read_caption_table(&data, "g").unwrap();
    assert_eq!(recs.len(), 1);
    assert_eq!(recs[0].image_path, "g/a.jpg");
    assert_eq!(recs[0].caption, "quote \" comma, line\nend");
}

#[test]
fn empty_text_is_an_empty_table() {
    assert_eq!(read_caption_table("", "g").unwrap().len(), 0);
    assert_eq!(read_caption_table("Image,Caption\n", "g").unwrap().len(), 0);
}

#[test]
fn short_row_is_reported_with_its_number() {
    let err = read_caption_table("Image,Caption\nonlyfield\n", "g").unwrap_err();
    assert_eq!(err, CaptionError::Format { row: 1 });
    let err = read_caption_table("Image,Caption\na.jpg,ok\nbad\n", "g").unwrap_err();
    assert_eq!(err, CaptionError::Format { row: 2 });
}

#[test]
fn unterminated_quote_is_reported() {
    let err = read_caption_table("Image,Caption\n\"broken\n", "g").unwrap_err();
    assert_eq!(err, CaptionError::Format { row: 1 });
}

#[test]
fn reconcile_preserves_captions_and_appends_new_images() {
    let existing = vec![keyed("gal/a.jpg", "hi", "/abs/gal/a.jpg")];
    let discovered = vec![
        image("gal/a.jpg", "/abs/gal/a.jpg"),
        image("gal/b.jpg", "/abs/gal/b.jpg"),
    ];
    let merged = reconcile(&existing, &discovered);
    assert_eq!(merged.len(), 2);
    assert_eq!(merged[0].record.image_path, "gal/a.jpg");
    assert_eq!(merged[0].record.caption, "hi");
    assert_eq!(merged[1].record.image_path, "gal/b.jpg");
    assert_eq!(merged[1].record.caption, "");
}

#[test]
fn reconcile_scenario_with_new_image() {
    let existing = vec![keyed("gal/a.jpg", "cat", "/abs/gal/a.jpg")];
    let discovered = vec![
        image("gal/a.jpg", "/abs/gal/a.jpg"),
        image("gal/z.png", "/abs/gal/z.png"),
    ];
    let merged = reconcile(&existing, &discovered);
    assert_eq!(merged.len(), 2);
    assert_eq!(merged[0].record.image_path, "gal/a.jpg");
    assert_eq!(merged[0].record.caption, "cat");
    assert_eq!(merged[1].record.image_path, "gal/z.png");
    assert_eq!(merged[1].record.caption, "");
}

#[test]
fn reconcile_matches_by_canonical_key_not_by_name() {
    let existing = vec![keyed("other/repr/a.jpg", "kept", "/abs/gal/a.jpg")];
    let discovered = vec![image("gal/a.jpg", "/abs/gal/a.jpg")];
    let merged = reconcile(&existing, &discovered);
    assert_eq!(merged.len(), 1);
    assert_eq!(merged[0].record.caption, "kept");
}

#[test]
fn reconcile_sorts_regardless_of_input_order() {
    let one = vec![
        image("g/c.png", "/c"),
        image("g/a.jpg", "/a"),
        image("g/b.jpg", "/b"),
    ];
    let two = vec![
        image("g/b.jpg", "/b"),
        image("g/c.png", "/c"),
        image("g/a.jpg", "/a"),
    ];
    let r1 = reconcile(&Vec::new(), &one);
    let r2 = reconcile(&Vec::new(), &two);
    let names1: Vec<String> =
        r1.iter().map(|k| k.record.image_path.clone()).collect();
    let names2: Vec<String> =
        r2.iter().map(|k| k.record.image_path.clone()).collect();
    assert_eq!(names1, vec!["g/a.jpg", "g/b.jpg", "g/c.png"]);
    assert_eq!(names1, names2);
}

#[test]
fn reconcile_is_idempotent() {
    let existing = vec![keyed("gal/m.jpg", "middle", "/m")];
    let discovered = vec![
        image("gal/z.png", "/z"),
        image("gal/a.jpg", "/a"),
        image("gal/m.jpg", "/m"),
    ];
    let once = reconcile(&existing, &discovered);
    let twice = reconcile(&once, &discovered);
    assert_eq!(once.len(), twice.len());
    for (a, b) in once.iter().zip(twice.iter()) {
        assert_eq!(a.record.image_path, b.record.image_path);
        assert_eq!(a.record.caption, b.record.caption);
        assert_eq!(a.key, b.key);
    }
}

#[test]
fn generate_empty_captions_keeps_order() {
    let paths = vec!["g/b.png".to_string(), "g/a.jpg".to_string()];
    let records = generate_empty_captions(&paths);
    assert_eq!(records.len(), 2);
    assert_eq!(records[0].image_path, "g/b.png");
    assert_eq!(records[0].caption, "");
    assert_eq!(records[1].image_path, "g/a.jpg");
}

#[test]
fn record_labels_use_the_bare_filename() {
    let r = record("gal/a.jpg", "a cat");
    assert_eq!(r.get_filename(), "a.jpg");
    assert_eq!(r.get_label(), "a.jpg: a cat");
    let empty = CaptionRecord::empty_caption(&"gal/b.png".to_string());
    assert_eq!(empty.get_label(), "b.png: ");
}

#[test]
fn strip_backslashes_removes_every_backslash() {
    assert_eq!(strip_backslashes("\\-\\-fullscreen"), "--fullscreen");
    assert_eq!(strip_backslashes("plain"), "plain");
    assert_eq!(strip_backslashes("\\\\"), "");
}

#[test]
fn viewer_invocation_appends_the_image_path() {
    let vc = ViewCommand::new(
        &"feh".to_string(),
        &Some(vec!["\\-\\-fullscreen".to_string(), "slow".to_string()]),
    );
    let inv = build_viewer_invocation(&vc, &"gal/a.jpg".to_string());
    assert_eq!(inv.program, "feh");
    assert_eq!(
        inv.args,
        vec!["--fullscreen".to_string(), "slow".to_string(), "gal/a.jpg".to_string()]
    );
    let bare = ViewCommand::new(&"xdg-open".to_string(), &None);
    let inv = build_viewer_invocation(&bare, &"gal/b.png".to_string());
    assert_eq!(inv.args, vec!["gal/b.png".to_string()]);
}

#[test]
fn editing_changes_only_the_selected_record() {
    let records = vec![record("g/a.jpg", "one"), record("g/b.png", "two")];
    let mut session = EditSession::new(records);
    let opened = session.step(SessionEvent::Select { index: 1 }, &None);
    match opened {
        SessionAction::OpenEditor { viewer, prefill } => {
            assert!(viewer.is_none());
            assert_eq!(prefill, "two");
        }
        _ => panic!("selecting a listed item must open the editor"),
    }
    let refreshed = session.step(SessionEvent::Submit { text: "TWO".to_string() }, &None);
    match refreshed {
        SessionAction::RefreshRow { index, label } => {
            assert_eq!(index, 1);
            assert_eq!(label, "b.png: TWO");
        }
        _ => panic!("submitting must refresh the edited row"),
    }
    assert_eq!(session.records.len(), 2);
    assert_eq!(session.records[0].image_path, "g/a.jpg");
    assert_eq!(session.records[0].caption, "one");
    assert_eq!(session.records[1].caption, "TWO");
    assert_eq!(session.state, SessionState::Listing);
}

#[test]
fn cancelling_discards_the_edit() {
    let records = vec![record("g/a.jpg", "one")];
    let mut session = EditSession::new(records);
    session.step(SessionEvent::Select { index: 0 }, &None);
    let action = session.step(SessionEvent::Cancel, &None);
    assert!(matches!(action, SessionAction::Ignore));
    assert_eq!(session.records[0].caption, "one");
    assert_eq!(session.state, SessionState::Listing);
}

#[test]
fn quitting_terminates_the_session() {
    let records = vec![record("g/a.jpg", "one")];
    let mut session = EditSession::new(records);
    let action = session.step(SessionEvent::Quit, &None);
    assert!(matches!(action, SessionAction::End));
    assert_eq!(session.state, SessionState::Terminated);
    let ignored = session.step(SessionEvent::Select { index: 0 }, &None);
    assert!(matches!(ignored, SessionAction::Ignore));
}

#[test]
fn selection_with_viewer_carries_the_invocation() {
    let records = vec![record("g/a.jpg", "one")];
    let mut session = EditSession::new(records);
    let vc = Some(ViewCommand::new(&"feh".to_string(), &None));
    let opened = session.step(SessionEvent::Select { index: 0 }, &vc);
    match opened {
        SessionAction::OpenEditor { viewer, prefill } => {
            let inv = viewer.expect("a configured viewer must be launched");
            assert_eq!(inv.program, "feh");
            assert_eq!(inv.args, vec!["g/a.jpg".to_string()]);
            assert_eq!(prefill, "one");
        }
        _ => panic!("selecting a listed item must open the editor"),
    }
}

#[test]
fn out_of_range_selection_is_ignored() {
    let records = vec![record("g/a.jpg", "one")];
    let mut session = EditSession::new(records);
    let action = session.step(SessionEvent::Select { index: 5 }, &None);
    assert!(matches!(action, SessionAction::Ignore));
    assert_eq!(session.state, SessionState::Listing);
}

#[test]
fn unsupported_output_type_is_rejected_before_any_write() {
    let err = resolve_output(&"xml".to_string(), &None).unwrap_err();
    assert_eq!(err, CaptionError::UnsupportedOutputType);
}

#[test]
fn csv_output_resolves_to_a_file_name() {
    let name = resolve_output(&"csv".to_string(), &None).unwrap();
    assert_eq!(name, "captions.csv");
    let name =
        resolve_output(&"csv".to_string(), &Some("mine.csv".to_string())).unwrap();
    assert_eq!(name, "mine.csv");
}

use emmm_core::archive::{asset_entry, classify_entry, document_entry, EntryAction, PackPlan, Tracker, Unpacker};
use emmm_core::rewrite::rewrite_for_pack;
use emmm_core::BackendEvent;

#[test]
fn entry_names() {
    assert_eq!(document_entry(), "source.emmm");
    assert_eq!(asset_entry("a.png"), "assets/a.png");
    assert_eq!(asset_entry("0_x.png"), "assets/0_x.png");
}

#[test]
fn entries_to_extract() {
    assert!(matches!(classify_entry(Some("assets/a.png"), true), EntryAction::Extract { name } if name == "a.png"));
    assert!(matches!(classify_entry(Some("source.emmm"), true), EntryAction::Skip));
    assert!(matches!(classify_entry(Some("assets/"), false), EntryAction::Skip));
    assert!(matches!(classify_entry(None, true), EntryAction::Skip));
}

#[test]
fn progress_rises_to_whole() {
    let mut t = Tracker::new(3);
    let mut seen = Vec::new();
    while !t.finished() {
        let p = t.advance();
        seen.push((p.done, p.total));
    }
    assert_eq!(seen, vec![(1, 3), (2, 3), (3, 3)]);
    let fractions: Vec<f64> = seen.iter().map(|(d, n)| *d as f64 / *n as f64).collect();
    assert!(fractions.windows(2).all(|w| w[0] <= w[1]));
    assert_eq!(*fractions.last().unwrap(), 1.0);
}

#[test]
fn progress_of_nothing() {
    let t = Tracker::new(0);
    assert!(t.finished());
}

#[test]
fn backend_events() {
    let e = BackendEvent::Failed { msg: "x".to_string() };
    assert!(matches!(e.clone(), BackendEvent::Failed { msg } if msg == "x"));
    assert!(matches!(BackendEvent::Done, BackendEvent::Done));
    assert!(matches!(BackendEvent::Inlined { result: "r".to_string() }, BackendEvent::Inlined { .. }));
}

#[test]
fn unpacker_records_extracted_entries() {
    let mut u = Unpacker::new("/out".to_string(), 4);
    let (t, p) = u.entry(Some("source.emmm"), true);
    assert_eq!((t, p.done, p.total), (None, 1, 4));
    let (t, p) = u.entry(Some("assets/"), false);
    assert_eq!((t, p.done), (None, 2));
    let (t, _) = u.entry(Some("assets/a.png"), true);
    assert_eq!(t, Some("/out/a.png".to_string()));
    let (t, p) = u.entry(Some("assets/0_a.png"), true);
    assert_eq!((t, p.done, p.total), (Some("/out/0_a.png".to_string()), 4, 4));
    let text = u.restore("x asset:a.png; y asset:0_a.png] z asset:b.png\n");
    assert_eq!(text, "x file:/out/a.png; y file:/out/0_a.png] z asset:b.png\n");
}

#[test]
fn pack_then_unpack_scenario() {
    let (doc, map) = rewrite_for_pack("see file:/tmp/a.png;");
    assert_eq!(doc, "see asset:a.png;");
    let mut u = Unpacker::new("/home/u/out".to_string(), map.len() + 2);
    u.entry(Some(&document_entry()), true);
    u.entry(Some("assets/"), false);
    for i in 0..map.len() {
        let (t, _) = u.entry(Some(&asset_entry(map.key_at(i))), true);
        assert_eq!(t, Some("/home/u/out/a.png".to_string()));
    }
    assert_eq!(u.restore(&doc), "see file:/home/u/out/a.png;");
}

#[test]
fn pack_plan_entries() {
    let plan = PackPlan::new("a file:/a/x.png; b file:/b/x.png]");
    assert_eq!(plan.document(), "a asset:x.png; b asset:0_x.png]");
    assert_eq!(plan.asset_count(), 2);
    let (n0, p0) = plan.asset(0);
    let (n1, p1) = plan.asset(1);
    assert_eq!((n0.as_str(), p0.as_str()), ("assets/x.png", "/a/x.png"));
    assert_eq!((n1.as_str(), p1.as_str()), ("assets/0_x.png", "/b/x.png"));
}

use kerf::ingest::{is_gcode, Ingester};
use kerf::queue::{MemQueue, Queue};
use kerf::store::MemStore;

const GCODE: &str = "M83\nG21\n;LAYER_CHANGE\n;Z:0.2\nG1 X10 Y0 E.4";

#[test]
fn gcode_extension_ignores_case_and_needs_a_name() {
    assert!(is_gcode("/tmp/in/a.gcode"));
    assert!(is_gcode("/tmp/in/PART.GCode"));
    assert!(is_gcode("b.x.gcode"));
    assert!(!is_gcode("/tmp/in/notes.txt"));
    assert!(!is_gcode("/tmp/in/.gcode"));
    assert!(!is_gcode("/tmp/in/gcode"));
    assert!(!is_gcode("/tmp/dir.gcode/file"));
    assert!(!is_gcode("/tmp/in/a.gcodes"));
    assert!(!is_gcode("/tmp/in/a."));
}

#[test]
fn selects_new_gcode_once_and_ignores_others() {
    let mut store: MemStore<()> = MemStore::new();
    let mut queue = MemQueue::default();
    let mut ing = Ingester::new("/watch".to_string(), "acme".to_string(), 200);

    let first = vec!["/watch/a.gcode".to_string(), "/watch/notes.txt".to_string()];
    let picked = ing.select(&first);
    assert_eq!(picked, vec!["/watch/a.gcode".to_string()]);
    for p in picked {
        ing.submit(p, GCODE.as_bytes(), &mut store, &mut queue);
    }
    assert_eq!(queue.pending(), 1);
    assert!(ing.has_seen(&"/watch/a.gcode".to_string()));

    // a second scan of the same directory submits nothing
    assert!(ing.select(&first).is_empty());

    let third = vec!["/watch/a.gcode".to_string(), "/watch/b.gcode".to_string(), "/watch/notes.txt".to_string()];
    let picked = ing.select(&third);
    assert_eq!(picked, vec!["/watch/b.gcode".to_string()]);
    for p in picked {
        let job = ing.submit(p, GCODE.as_bytes(), &mut store, &mut queue);
        assert_eq!(job, 1);
    }
    assert_eq!(store.list_jobs("acme").len(), 2);
    assert_eq!(queue.pending(), 2);
}

#[test]
fn identical_files_share_one_blob() {
    let mut store: MemStore<()> = MemStore::new();
    let mut queue = MemQueue::default();
    let mut ing = Ingester::new("/watch".to_string(), "acme".to_string(), 100);
    let a = ing.submit("/watch/a.gcode".to_string(), GCODE.as_bytes(), &mut store, &mut queue);
    let b = ing.submit("/watch/b.gcode".to_string(), GCODE.as_bytes(), &mut store, &mut queue);
    assert_eq!((a, b), (0, 1));
    let ja = store.get_job(a).unwrap();
    let jb = store.get_job(b).unwrap();
    assert_eq!(ja.spec, jb.spec);
    assert_eq!(ja.resolution_um, 100);
    assert_eq!(queue.lease(5), vec![0, 1]);
}

use gene_core::hash::fnv1a;
use gene_core::runs::{content_hash_text, snapshot_file};

#[test]
fn stable_and_distinct() {
    assert_eq!(fnv1a(b""), 0xcbf2_9ce4_8422_2325);
    assert_ne!(fnv1a(b"a"), fnv1a(b"b"));
    assert_eq!(fnv1a(b"gene"), fnv1a(b"gene"));
}

#[test]
fn known_values() {
    assert_eq!(fnv1a(b"a"), 0xaf63_dc4c_8601_ec8c);
    assert_eq!(fnv1a(b"gene"), 0x6749_f171_efc9_72b0);
    assert_eq!(fnv1a("é\n".as_bytes()), 0x5feb_2d1c_1dfb_0cb1);
}

#[test]
fn content_hash_is_sixteen_digits() {
    assert_eq!(content_hash_text(""), "cbf29ce484222325");
    assert_eq!(content_hash_text("é\n"), "5feb2d1c1dfb0cb1");
}

#[test]
fn snapshots_are_named_by_content() {
    assert_eq!(snapshot_file("gene"), "6749f171efc972b0.jsonl");
    assert_eq!(snapshot_file("gene"), snapshot_file("gene"));
    assert_ne!(snapshot_file("gene"), snapshot_file("gene "));
}

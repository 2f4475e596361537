use std::collections::BTreeSet;

use gene_core::clock::Timestamp;
use gene_core::commands::merge_import;
use gene_core::dataset::{
    dedup, make_split, parse, stats, ChatMsg, Meta, Share, SplitSpec, SplitStrategy,
    TrainingExample,
};
use gene_core::dataset::shuffle::shuffle;

fn ex(conversation: &str, user: &str) -> TrainingExample {
    TrainingExample {
        messages: vec![ChatMsg {
            role: "user".into(),
            content: user.into(),
        }],
        meta: Meta {
            conversation_id: conversation.into(),
            model: "m".into(),
            created_at: Timestamp::from_parts(0, 0).unwrap(),
            edited: false,
            source: "test".into(),
            original_assistant: None,
        },
    }
}

fn share(fraction: f64, n: usize) -> Share {
    Share {
        rounded: ((n as f64) * fraction).round() as usize,
        positive: fraction > 0.0,
    }
}

#[test]
fn dedup_removes_content_duplicates() {
    let mut data = vec![ex("a", "hello"), ex("b", " hello "), ex("c", "world")];
    // "hello" and " hello " normalize equal; "world" is distinct.
    assert_eq!(dedup(&mut data), 1);
    assert_eq!(data.len(), 2);
}

#[test]
fn by_conversation_split_has_no_leakage() {
    // 3 conversations, 2 examples each.
    let data: Vec<_> = ["a", "b", "c"]
        .iter()
        .flat_map(|c| [ex(c, &format!("{c}-1")), ex(c, &format!("{c}-2"))])
        .collect();
    let split = make_split(
        &data,
        &SplitSpec {
            strategy: SplitStrategy::ByConversation { seed: 7 },
            valid: share(0.34, data.len()),
            test: share(0.0, data.len()),
        },
    );
    let conv = |idxs: &[usize]| -> BTreeSet<String> {
        idxs.iter()
            .map(|&i| data[i].meta.conversation_id.clone())
            .collect()
    };
    let train_convs = conv(&split.train);
    let valid_convs = conv(&split.valid);
    // No conversation appears on both sides, and neither side is empty.
    assert!(train_convs.is_disjoint(&valid_convs));
    assert!(!split.train.is_empty());
    assert!(!split.valid.is_empty());
    assert_eq!(split.train.len() + split.valid.len(), data.len());
}

#[test]
fn random_split_is_deterministic() {
    let data: Vec<_> = (0..10).map(|i| ex(&format!("c{i}"), "x")).collect();
    let spec = SplitSpec {
        strategy: SplitStrategy::Random { seed: 42 },
        valid: share(0.2, data.len()),
        test: share(0.0, data.len()),
    };
    let a = make_split(&data, &spec);
    let b = make_split(&data, &spec);
    assert_eq!(a.valid, b.valid);
    assert_eq!(a.valid.len(), 2);
}

#[test]
fn tiny_valid_fraction_still_holds_out_one() {
    // n = 3, valid 0.1 rounds to 0 — but a positive fraction must hold out
    // at least one example rather than yield an empty validation set.
    let data: Vec<_> = (0..3).map(|i| ex(&format!("c{i}"), "x")).collect();
    let split = make_split(
        &data,
        &SplitSpec {
            strategy: SplitStrategy::Random { seed: 1 },
            valid: share(0.1, data.len()),
            test: share(0.0, data.len()),
        },
    );
    assert_eq!(split.valid.len(), 1);
    assert_eq!(split.train.len(), 2);
}

#[test]
fn dedup_keeps_first_occurrence() {
    let mut data = vec![ex("a", "dup"), ex("b", "dup"), ex("c", "unique")];
    assert_eq!(dedup(&mut data), 1);
    // The first "dup" (conversation a) is kept; the second (b) is dropped.
    assert_eq!(data[0].meta.conversation_id, "a");
    assert_eq!(data[1].meta.conversation_id, "c");
}

#[test]
fn dedup_heeds_roles_and_case() {
    let mut data = vec![ex("a", "x"), ex("b", "X"), ex("c", "x")];
    data[2].messages[0].role = "assistant".into();
    assert_eq!(dedup(&mut data), 0);
    assert_eq!(dedup(&mut data), 0);
    assert_eq!(data.len(), 3);
}

#[test]
fn shuffle_is_splitmix_and_fisher_yates() {
    let mut v: Vec<usize> = (0..10).collect();
    shuffle(&mut v, 42);
    assert_eq!(v, vec![0, 9, 5, 8, 6, 4, 7, 2, 1, 3]);
    let mut w: Vec<usize> = (0..5).collect();
    shuffle(&mut w, 0);
    assert_eq!(w, vec![2, 3, 1, 4, 0]);
    let mut none: Vec<usize> = Vec::new();
    shuffle(&mut none, 9);
    assert!(none.is_empty());
}

#[test]
fn random_split_slices_the_shuffled_order() {
    let data: Vec<_> = (0..10).map(|i| ex(&format!("c{i}"), "x")).collect();
    let s = make_split(
        &data,
        &SplitSpec {
            strategy: SplitStrategy::Random { seed: 42 },
            valid: share(0.2, 10),
            test: share(0.3, 10),
        },
    );
    assert_eq!(s.valid, vec![0, 9]);
    assert_eq!(s.test, vec![5, 8, 6]);
    assert_eq!(s.train, vec![4, 7, 2, 1, 3]);
}

#[test]
fn conversation_split_deals_whole_groups() {
    // Order of the groups under seed 7 is b, c, a.
    let data = vec![
        ex("a", "1"),
        ex("b", "2"),
        ex("a", "3"),
        ex("c", "4"),
        ex("b", "5"),
    ];
    let s = make_split(
        &data,
        &SplitSpec {
            strategy: SplitStrategy::ByConversation { seed: 7 },
            valid: Share { rounded: 1, positive: true },
            test: Share { rounded: 1, positive: true },
        },
    );
    assert_eq!(s.valid, vec![1, 4]);
    assert_eq!(s.test, vec![3]);
    assert_eq!(s.train, vec![0, 2]);
}

#[test]
fn split_edge_cases() {
    let one = vec![ex("a", "1")];
    let spec = SplitSpec {
        strategy: SplitStrategy::Random { seed: 1 },
        valid: share(0.1, 1),
        test: share(0.1, 1),
    };
    // A single example is not spared for validation, but test may have it.
    let s = make_split(&one, &spec);
    assert_eq!((s.train.len(), s.valid.len(), s.test.len()), (0, 0, 1));
    let s = make_split(&[], &spec);
    assert_eq!((s.train.len(), s.valid.len(), s.test.len()), (0, 0, 0));
    // More than there is.
    let s = make_split(
        &one,
        &SplitSpec {
            strategy: SplitStrategy::Random { seed: 1 },
            valid: share(2.0, 1),
            test: share(2.0, 1),
        },
    );
    assert_eq!((s.train.len(), s.valid.len(), s.test.len()), (0, 1, 0));
}

#[test]
fn stats_count() {
    let mut data = vec![ex("a", "1"), ex("b", "2"), ex("a", "3")];
    data[1].meta.edited = true;
    data[1].meta.source = "edit".into();
    let s = stats(&data);
    assert_eq!(s.total, 3);
    assert_eq!(s.edited, 1);
    assert_eq!(s.conversations, 2);
    assert_eq!(s.by_source.name_list(), vec!["edit".to_string(), "test".to_string()]);
    assert_eq!(s.by_source.get("edit"), Some(&1));
    assert_eq!(s.by_source.get("test"), Some(&2));
    assert_eq!(s.by_source.get("accept"), None);
}

#[test]
fn parse_skips_blank_and_unparseable_lines() {
    let got = parse("1\n\n  \nx\r\n2", |l: &String| l.parse::<u32>().ok());
    assert_eq!(got, vec![1, 2]);
    assert_eq!(parse("", |l: &String| Some(l.clone())), Vec::<String>::new());
    assert_eq!(parse("a\r\nb\r\n", |l: &String| Some(l.clone())), vec!["a", "b"]);
}

#[test]
fn import_appends_or_replaces() {
    let old = || vec![ex("a", "1")];
    let new = || vec![ex("b", "2"), ex("c", "3")];
    let ids = |v: Vec<TrainingExample>| -> Vec<String> {
        v.into_iter().map(|e| e.meta.conversation_id).collect()
    };
    assert_eq!(ids(merge_import(old(), new(), false).unwrap()), vec!["a", "b", "c"]);
    assert_eq!(ids(merge_import(old(), new(), true).unwrap()), vec!["b", "c"]);
    assert_eq!(ids(merge_import(old(), vec![], false).unwrap()), vec!["a"]);
    assert!(merge_import(old(), vec![], true).is_err());
}

#[test]
fn dedup_tells_contents_apart() {
    let said = |role: &str, parts: &[&str]| {
        let mut e = ex("a", "");
        e.messages = parts
            .iter()
            .map(|p| ChatMsg { role: role.into(), content: p.to_string() })
            .collect();
        e
    };
    let mut data = vec![
        said("user", &["ab"]),
        said("user", &["Ab"]),
        said("user", &["a", "b"]),
        said("system", &["ab"]),
        said("user", &[]),
        said("user", &["a b"]),
        said("user", &["\ta b\n"]),
    ];
    assert_eq!(dedup(&mut data), 1);
    assert_eq!(data.len(), 6);
    assert_eq!(dedup(&mut data), 0);
}

#[test]
fn dedup_tells_marks_in_contents_apart() {
    let said = |turns: &[(&str, &str)]| {
        let mut e = ex("a", "");
        e.messages = turns
            .iter()
            .map(|(role, content)| ChatMsg { role: role.to_string(), content: content.to_string() })
            .collect();
        e
    };
    // One message that spells out the end of a message and the start of another.
    let one = || said(&[("user", "a\u{2}user\u{1}b")]);
    let two = || said(&[("user", "a"), ("user", "b")]);
    let mut data = vec![one(), two()];
    assert_eq!(dedup(&mut data), 0);
    assert_eq!(data.len(), 2);
    assert_eq!(data[0].messages.len(), 1);
    assert_eq!(data[1].messages.len(), 2);
    let mut data = vec![two(), one(), one(), two()];
    assert_eq!(dedup(&mut data), 2);
    assert_eq!(data[0].messages.len(), 2);
    assert_eq!(data[1].messages.len(), 1);
    // Roles and contents that differ in marks, or in how marks could be written.
    let mut data = vec![
        said(&[("user\u{1}x", "y")]),
        said(&[("user", "x\u{1}y")]),
        said(&[("u", "\u{0}1")]),
        said(&[("u", "\u{1}")]),
        said(&[("u", "\u{0}01")]),
        said(&[("u", "\u{0}")]),
        said(&[("u", "\u{2}")]),
        said(&[("u", "\u{0}2")]),
        said(&[("u", " \u{2}\n")]),
    ];
    assert_eq!(dedup(&mut data), 1);
    assert_eq!(data.len(), 8);
    assert_eq!(data[6].messages[0].content, "\u{2}");
}

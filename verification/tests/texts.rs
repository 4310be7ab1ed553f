use issundb_core::graph::Graph;
use issundb_core::schema::NodeId;
use issundb_core::store::Store;
use issundb_core::tables::Props;
use issundb_core::value::PropValue;

const ENGLISH: u8 = 0;

fn note(body: &str) -> Props {
    let mut out = Props::new();
    out.set("body", PropValue::Str(body.to_string()));
    out
}

fn words(s: &str) -> Vec<(String, u32)> {
    let mut out: Vec<(String, u32)> = Vec::new();
    for word in s.split_whitespace() {
        match out.iter().position(|t| t.0 == word) {
            Some(i) => out[i].1 += 1,
            None => out.push((word.to_string(), 1)),
        }
    }
    out
}

fn create(g: &mut Graph, label: &str, property: &str) {
    let documents: Vec<(NodeId, Vec<(String, u32)>)> = g
        .texts_to_index(label, property)
        .into_iter()
        .map(|(id, body)| (id, words(&body)))
        .collect();
    g.create_node_text_index_with_language(label, property, ENGLISH, &documents);
}

fn indexed() -> (Graph, Vec<NodeId>) {
    let mut g = Graph::open(Store::new());
    let ids = vec![
        g.add_node("Note", &note("red fish blue fish")).unwrap(),
        g.add_node("Note", &note("blue sky")).unwrap(),
        g.add_node("Note", &note("   ")).unwrap(),
        g.add_node("Other", &note("blue")).unwrap(),
    ];
    create(&mut g, "Note", "body");
    (g, ids)
}

#[test]
fn a_text_index_counts_terms() {
    let (g, ids) = indexed();
    assert!(g.has_node_text_index("Note", "body"));
    assert!(!g.has_node_text_index("Other", "body"));
    assert_eq!(
        g.active_text_indexes(),
        vec![("Note".to_string(), "body".to_string(), ENGLISH)]
    );
    assert_eq!(g.fts_stats("Note", "body"), Some((2, 6)));
    assert_eq!(g.fts_stats("Other", "body"), None);
    assert_eq!(g.fts_doc_len("Note", "body", ids[0]), Some(4));
    assert_eq!(g.fts_doc_len("Note", "body", ids[2]), None);
    assert_eq!(g.fts_postings("Note", "body", "fish"), vec![(ids[0], 2)]);
    assert_eq!(g.fts_postings("Note", "body", "blue"), vec![(ids[0], 1), (ids[1], 1)]);
    assert!(g.fts_postings("Note", "body", "blu").is_empty());
    assert!(g.fts_postings("Nope", "body", "blue").is_empty());
}

#[test]
fn removing_a_document_undoes_adding_it() {
    let (mut g, ids) = indexed();
    let id = g.add_node("Note", &note("blue blue")).unwrap();
    assert_eq!(g.fts_doc_len("Note", "body", id), None);
    let texts = g.node_texts(id);
    assert_eq!(texts.len(), 1);
    let (label, prop, body) = (texts[0].0, texts[0].1, texts[0].2.clone());
    assert_eq!(body, "blue blue");
    g.add_node_prop_fts_entry(id, label, prop, &words(&body));
    assert_eq!(g.fts_stats("Note", "body"), Some((3, 8)));
    assert_eq!(
        g.fts_postings("Note", "body", "blue"),
        vec![(ids[0], 1), (ids[1], 1), (id, 2)]
    );
    g.remove_node_prop_fts_entry(id, label, prop, &words(&body));
    assert_eq!(g.fts_stats("Note", "body"), Some((2, 6)));
    assert_eq!(g.fts_postings("Note", "body", "blue"), vec![(ids[0], 1), (ids[1], 1)]);
}

#[test]
fn a_text_index_is_made_once_and_can_be_dropped() {
    let (mut g, ids) = indexed();
    g.add_node("Note", &note("late")).unwrap();
    create(&mut g, "Note", "body");
    assert_eq!(g.fts_stats("Note", "body"), Some((2, 6)));
    g.drop_node_text_index("Note", "body");
    assert!(!g.has_node_text_index("Note", "body"));
    assert_eq!(g.fts_doc_len("Note", "body", ids[0]), None);
    assert!(g.node_texts(ids[0]).is_empty());
    create(&mut g, "Note", "body");
    assert_eq!(g.fts_stats("Note", "body"), Some((3, 7)));
}

fn split(text: &str, _language: u8) -> Vec<(String, u32)> {
    words(text)
}

#[test]
fn indexed_writes_keep_the_text_index_in_step() {
    let mut g = Graph::open(Store::new());
    let first = g.add_indexed_node(&["Note"], &note("old text"), &split).unwrap();
    g.build_node_text_index("Note", "body", ENGLISH, &split);
    assert_eq!(g.fts_stats("Note", "body"), Some((1, 2)));

    let second = g.add_indexed_node(&["Note"], &note("new text text"), &split).unwrap();
    assert_eq!(g.fts_postings("Note", "body", "text"), vec![(first, 1), (second, 2)]);

    g.update_indexed_node(first, &note("other"), &split).unwrap();
    assert_eq!(g.fts_postings("Note", "body", "text"), vec![(second, 2)]);
    assert_eq!(g.fts_postings("Note", "body", "other"), vec![(first, 1)]);
    assert!(g.update_indexed_node(99, &note("x"), &split).is_err());
    assert_eq!(g.fts_stats("Note", "body"), Some((2, 4)));

    g.remove_indexed_label(first, "Note", &split);
    assert_eq!(g.fts_stats("Note", "body"), Some((1, 3)));
    g.add_indexed_label(first, "Note", &split).unwrap();
    assert_eq!(g.fts_stats("Note", "body"), Some((2, 4)));

    g.delete_indexed_node(second, &split);
    assert_eq!(g.fts_stats("Note", "body"), Some((1, 1)));
    assert!(g.fts_postings("Note", "body", "text").is_empty());
}

#[test]
fn a_transaction_brings_the_text_index_in_step() {
    let mut g = Graph::open(Store::new());
    let a = g.add_indexed_node(&["Note"], &note("one"), &split).unwrap();
    let b = g.add_indexed_node(&["Note"], &note("two"), &split).unwrap();
    g.build_node_text_index("Note", "body", ENGLISH, &split);
    let c = g
        .update_indexed(
            |txn| {
                txn.delete_node(a);
                txn.update_node(b, &note("two two"))?;
                txn.update_node(b, &note("three three"))?;
                txn.add_node("Note", &note("two"))
            },
            &split,
        )
        .unwrap();
    assert!(g.fts_postings("Note", "body", "one").is_empty());
    assert_eq!(g.fts_postings("Note", "body", "two"), vec![(c, 1)]);
    assert_eq!(g.fts_postings("Note", "body", "three"), vec![(b, 2)]);
    assert_eq!(g.fts_stats("Note", "body"), Some((2, 3)));

    let refused = g.update_indexed(
        |txn| {
            txn.delete_node(b);
            txn.update_node(77, &note("x"))
        },
        &split,
    );
    assert!(refused.is_err());
    assert_eq!(g.fts_stats("Note", "body"), Some((2, 3)));
}

#[test]
fn indexed_writes_keep_every_text_index() {
    let split = |t: &str, _: u8| words(t);
    let mut g = Graph::open(Store::new());
    g.build_node_text_index("Note", "body", 3, &split);
    g.build_node_text_index("Memo", "body", 1, &split);
    let mut made = g.active_text_indexes();
    made.sort();
    assert_eq!(
        made,
        vec![
            ("Memo".to_string(), "body".to_string(), 1),
            ("Note".to_string(), "body".to_string(), 3),
        ]
    );
    let same = |g: &Graph| {
        let mut now = g.active_text_indexes();
        now.sort();
        now
    };
    let a = g.add_indexed_node(&["Note"], &note("one two"), &split).unwrap();
    assert_eq!(same(&g), made);
    g.update_indexed_node(a, &note("three"), &split).unwrap();
    assert_eq!(same(&g), made);
    assert!(g.update_indexed_node(a + 9, &note("x"), &split).is_err());
    assert!(g.add_indexed_label(a + 9, "Memo", &split).is_err());
    assert_eq!(g.fts_stats("Note", "body"), Some((1, 1)));
    g.add_indexed_label(a, "Memo", &split).unwrap();
    assert_eq!(g.fts_stats("Memo", "body"), Some((1, 1)));
    g.remove_indexed_label(a, "Memo", &split);
    assert_eq!(same(&g), made);
    assert_eq!(g.fts_doc_len("Memo", "body", a), None);
    let mut txn = g.begin();
    txn.add_node("Memo", &note("four four")).unwrap();
    g.commit_indexed(txn, &split);
    assert_eq!(same(&g), made);
    assert_eq!(g.fts_stats("Memo", "body"), Some((1, 2)));
    g.delete_indexed_node(a, &split);
    assert_eq!(same(&g), made);
    assert_eq!(g.fts_doc_len("Note", "body", a), None);
}

use mistral_sdk::document::{index_path, key_path, push_decimal, Document, Intercepted, Leaf, Primitive};
use mistral_sdk::select::{select_by_scores, select_matching};

fn num(t: &str) -> Document {
    Document::Number(t.to_string())
}

fn obj(entries: Vec<(&str, Document)>) -> Document {
    Document::Mapping(entries.into_iter().map(|(k, v)| (k.to_string(), v)).collect())
}

fn leaf(path: &str, value: Primitive) -> Leaf {
    Leaf { path: path.to_string(), value }
}

fn pnum(t: &str) -> Primitive {
    Primitive::Number(t.to_string())
}

#[test]
fn order_of_mapping_and_sequence() {
    let d = obj(vec![("a", num("1")), ("b", Document::Sequence(vec![num("2"), num("3")]))]);
    let r = Intercepted::from_document(d);
    assert_eq!(r.leaves, vec![leaf(".a", pnum("1")), leaf(".b[0]", pnum("2")), leaf(".b[1]", pnum("3"))]);
}

#[test]
fn empty_container_emits_nothing() {
    let d = obj(vec![("a", Document::Sequence(vec![]))]);
    assert_eq!(Intercepted::from_document(d).leaves, vec![]);
    assert_eq!(Intercepted::from_document(obj(vec![])).leaves, vec![]);
}

#[test]
fn root_terminal_has_empty_path() {
    assert_eq!(Intercepted::from_document(num("42")).leaves, vec![leaf("", pnum("42"))]);
    assert_eq!(
        Intercepted::from_document(Document::String("x".to_string())).leaves,
        vec![leaf("", Primitive::String("x".to_string()))]
    );
}

#[test]
fn nested_null() {
    let d = obj(vec![("a", obj(vec![("b", obj(vec![("c", Document::Null)]))]))]);
    assert_eq!(Intercepted::from_document(d).leaves, vec![leaf(".a.b.c", Primitive::Null)]);
}

#[test]
fn fuzzy_query_selects_only_matching_leaf() {
    let d = obj(vec![
        ("a", obj(vec![("b", obj(vec![("c", Document::Null)]))])),
        ("x", Document::Bool(true)),
    ]);
    let leaves = Intercepted::from_document(d).leaves;
    assert_eq!(leaves.len(), 2);
    let picked = select_matching(&leaves, "abc");
    assert_eq!(picked, vec![leaf(".a.b.c", Primitive::Null)]);
}

#[test]
fn empty_query_keeps_every_leaf() {
    let d = Document::Sequence(vec![num("1"), Document::Null]);
    let leaves = Intercepted::from_document(d).leaves;
    let picked = select_matching(&leaves, "");
    assert_eq!(picked, vec![leaf("[0]", pnum("1")), leaf("[1]", Primitive::Null)]);
}

#[test]
fn select_by_scores_keeps_order() {
    let leaves = vec![leaf(".a", pnum("1")), leaf(".b", pnum("2")), leaf(".c", pnum("3"))];
    let r = select_by_scores(&leaves, &vec![Some(5), None, Some(0)]);
    assert_eq!(r, vec![leaf(".a", pnum("1")), leaf(".c", pnum("3"))]);
}

#[test]
fn leaf_count_equals_terminal_count() {
    let d = Document::Sequence(vec![
        obj(vec![("k", Document::Sequence(vec![Document::Null, Document::Bool(false)]))]),
        Document::Sequence(vec![]),
        Document::String("s".to_string()),
    ]);
    let r = Intercepted::from_document(d);
    assert_eq!(
        r.leaves,
        vec![
            leaf("[0].k[0]", Primitive::Null),
            leaf("[0].k[1]", Primitive::Bool(false)),
            leaf("[2]", Primitive::String("s".to_string())),
        ]
    );
}

#[test]
fn paths_are_distinct() {
    let items: Vec<Document> = (0..12).map(|i| num(&i.to_string())).collect();
    let d = obj(vec![("a", Document::Sequence(items)), ("ab", num("7"))]);
    let leaves = Intercepted::from_document(d).leaves;
    assert_eq!(leaves.len(), 13);
    for i in 0..leaves.len() {
        for j in 0..leaves.len() {
            if i != j {
                assert_ne!(leaves[i].path, leaves[j].path);
            }
        }
    }
    assert_eq!(leaves[11].path, ".a[11]");
    assert_eq!(leaves[12].path, ".ab");
}

#[test]
fn flatten_appends_with_prefix() {
    let mut acc = vec![leaf("first", Primitive::Null)];
    mistral_sdk::document::flatten(
        "$".to_string(),
        &mut acc,
        Document::Sequence(vec![Document::Bool(true)]),
    );
    assert_eq!(acc, vec![leaf("first", Primitive::Null), leaf("$[0]", Primitive::Bool(true))]);
}

#[test]
fn rendering_of_leaves() {
    assert_eq!(leaf(".a", pnum("1.50")).render(), ".a : 1.50");
    assert_eq!(leaf(".s", Primitive::String("hi".to_string())).render(), ".s : \"hi\"");
    assert_eq!(leaf("[0]", Primitive::Bool(false)).render(), "[0] : false");
    assert_eq!(leaf("", Primitive::Bool(true)).render(), " : true");
    assert_eq!(leaf(".n", Primitive::Null).render(), ".n : null");
}

#[test]
fn decimal_paths() {
    let mut s = "n=".to_string();
    push_decimal(&mut s, 0);
    assert_eq!(s, "n=0");
    let mut s = String::new();
    push_decimal(&mut s, 1209);
    assert_eq!(s, "1209");
    assert_eq!(index_path(&".x".to_string(), 10), ".x[10]");
    assert_eq!(key_path(&"[3]".to_string(), &"k".to_string()), "[3].k");
}

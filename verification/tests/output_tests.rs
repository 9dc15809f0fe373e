use cthulu::output::{ContentItem, ContextMap, ExecutionResult, NodeOutput};

fn item(title: &str) -> ContentItem {
    ContentItem {
        title: title.to_string(),
        url: String::new(),
        summary: String::new(),
        published: None,
        image_url: None,
    }
}

fn context(pairs: &[(&str, &str)]) -> ContextMap {
    let mut map = ContextMap::new();
    for (k, v) in pairs {
        map.insert(k.to_string(), v.to_string());
    }
    map
}

fn titles(items: &Vec<ContentItem>) -> String {
    items
        .iter()
        .map(|i| i.title.clone())
        .collect::<Vec<_>>()
        .join(",")
}

#[test]
fn test_merge_empty() {
    let result = NodeOutput::merge(vec![]);
    assert!(matches!(result, NodeOutput::Empty));
}

#[test]
fn test_merge_failed_propagation() {
    let result = NodeOutput::merge(vec![NodeOutput::Items(vec![]), NodeOutput::Failed]);
    assert!(matches!(result, NodeOutput::Failed));
}

#[test]
fn test_merge_items_concatenation() {
    let item1 = ContentItem {
        title: "A".to_string(),
        url: String::new(),
        summary: String::new(),
        published: None,
        image_url: None,
    };
    let item2 = ContentItem {
        title: "B".to_string(),
        url: String::new(),
        summary: String::new(),
        published: None,
        image_url: None,
    };

    let result = NodeOutput::merge(vec![
        NodeOutput::Items(vec![item1]),
        NodeOutput::Items(vec![item2]),
    ]);
    match result {
        NodeOutput::Items(items) => {
            assert_eq!(items.len(), 2);
            assert_eq!(items[0].title, "A");
            assert_eq!(items[1].title, "B");
        }
        _ => panic!("expected Items"),
    }
}

#[test]
fn test_merge_context_maps() {
    let mut ctx1 = ContextMap::new();
    ctx1.insert("a".to_string(), "1".to_string());
    let mut ctx2 = ContextMap::new();
    ctx2.insert("b".to_string(), "2".to_string());

    let result = NodeOutput::merge(vec![NodeOutput::Context(ctx1), NodeOutput::Context(ctx2)]);
    match result {
        NodeOutput::Context(map) => {
            assert_eq!(map.len(), 2);
            assert_eq!(map.get("a").unwrap(), "1");
            assert_eq!(map.get("b").unwrap(), "2");
        }
        _ => panic!("expected Context"),
    }
}

#[test]
fn test_merge_text() {
    let result = NodeOutput::merge(vec![
        NodeOutput::Text("hello".to_string(), None),
        NodeOutput::Text("world".to_string(), None),
    ]);
    match result {
        NodeOutput::Text(t, _) => assert_eq!(t, "hello\nworld"),
        _ => panic!("expected Text"),
    }
}

#[test]
fn test_merge_empty_ignored() {
    let result = NodeOutput::merge(vec![
        NodeOutput::Empty,
        NodeOutput::Text("hello".to_string(), None),
        NodeOutput::Empty,
    ]);
    match result {
        NodeOutput::Text(t, _) => assert_eq!(t, "hello"),
        _ => panic!("expected Text"),
    }
}

#[test]
fn merge_prefers_items_over_context_and_empty() {
    let result = NodeOutput::merge(vec![
        NodeOutput::Items(vec![item("x")]),
        NodeOutput::Context(context(&[("a", "1")])),
        NodeOutput::Empty,
    ]);
    match result {
        NodeOutput::Items(items) => {
            assert_eq!(items.len(), 1);
            assert_eq!(items[0].title, "x");
        }
        _ => panic!("expected Items"),
    }
}

#[test]
fn merge_prefers_text_over_context() {
    let result = NodeOutput::merge(vec![
        NodeOutput::Text("p".to_string(), None),
        NodeOutput::Context(context(&[("a", "1")])),
    ]);
    match result {
        NodeOutput::Text(t, provenance) => {
            assert_eq!(t, "p");
            assert!(provenance.is_none());
        }
        _ => panic!("expected Text"),
    }
}

#[test]
fn merge_context_last_writer_wins() {
    let result = NodeOutput::merge(vec![
        NodeOutput::Context(context(&[("a", "1")])),
        NodeOutput::Context(context(&[("a", "2")])),
    ]);
    match result {
        NodeOutput::Context(map) => {
            assert_eq!(map.len(), 1);
            assert_eq!(map.get("a").unwrap(), "2");
        }
        _ => panic!("expected Context"),
    }
}

#[test]
fn merge_of_only_empty_is_empty() {
    let result = NodeOutput::merge(vec![NodeOutput::Empty, NodeOutput::Empty]);
    assert!(matches!(result, NodeOutput::Empty));
}

#[test]
fn merge_failed_beats_every_other_kind() {
    let result = NodeOutput::merge(vec![
        NodeOutput::Text("t".to_string(), None),
        NodeOutput::Context(context(&[("a", "1")])),
        NodeOutput::Failed,
        NodeOutput::Items(vec![item("x")]),
    ]);
    assert!(matches!(result, NodeOutput::Failed));
}

#[test]
fn merge_text_drops_provenance() {
    let provenance = ExecutionResult {
        cost_micro_usd: 1200,
        turns: 3,
        duration_ms: 4500,
    };
    let result = NodeOutput::merge(vec![NodeOutput::Text("only".to_string(), Some(provenance))]);
    match result {
        NodeOutput::Text(t, r) => {
            assert_eq!(t, "only");
            assert_eq!(r, None);
        }
        _ => panic!("expected Text"),
    }
}

#[test]
fn merge_items_keeps_parent_order() {
    let result = NodeOutput::merge(vec![
        NodeOutput::Items(vec![item("A"), item("B")]),
        NodeOutput::Text("ignored".to_string(), None),
        NodeOutput::Items(vec![item("C")]),
    ]);
    assert_eq!(result.as_text(titles), "A,B,C");
}

#[test]
fn merge_context_keeps_first_arrival_order() {
    let result = NodeOutput::merge(vec![
        NodeOutput::Context(context(&[("a", "1"), ("b", "2")])),
        NodeOutput::Context(context(&[("c", "3"), ("a", "9")])),
    ]);
    assert_eq!(result.as_text(titles), "a: 9\nb: 2\nc: 3");
}

#[test]
fn as_text_of_each_kind() {
    assert_eq!(
        NodeOutput::Items(vec![item("A"), item("B")]).as_text(titles),
        "A,B"
    );
    assert_eq!(
        NodeOutput::Text("body".to_string(), None).as_text(titles),
        "body"
    );
    assert_eq!(
        NodeOutput::Context(context(&[("k", "v")])).as_text(titles),
        "k: v"
    );
    assert_eq!(NodeOutput::Empty.as_text(titles), "");
    assert_eq!(NodeOutput::Failed.as_text(titles), "");
}

#[test]
fn as_items_and_as_context_project_only_their_kind() {
    let items = NodeOutput::Items(vec![item("A")]);
    assert_eq!(items.as_items().len(), 1);
    assert_eq!(items.as_items()[0].title, "A");
    assert!(items.as_context().is_none());

    let ctx = NodeOutput::Context(context(&[("k", "v")]));
    assert!(ctx.as_items().is_empty());
    assert_eq!(ctx.as_context().unwrap().get("k").unwrap(), "v");

    assert!(NodeOutput::Text("t".to_string(), None).as_items().is_empty());
    assert!(NodeOutput::Empty.as_context().is_none());
    assert!(NodeOutput::Failed.as_context().is_none());
}

#[test]
fn duplicate_copies_every_field() {
    let original = NodeOutput::Items(vec![ContentItem {
        title: "T".to_string(),
        url: "https://example.com".to_string(),
        summary: "S".to_string(),
        published: Some(1_700_000_000),
        image_url: Some("https://example.com/i.png".to_string()),
    }]);
    match original.duplicate() {
        NodeOutput::Items(items) => {
            assert_eq!(items[0].title, "T");
            assert_eq!(items[0].url, "https://example.com");
            assert_eq!(items[0].summary, "S");
            assert_eq!(items[0].published, Some(1_700_000_000));
            assert_eq!(
                items[0].image_url.as_deref(),
                Some("https://example.com/i.png")
            );
        }
        _ => panic!("expected Items"),
    }
}

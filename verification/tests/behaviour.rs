use block_parser_wasm::{block_list, block_list_inner, parse_blocks_internal, Block};

fn empty_object() -> serde_json::Value {
    serde_json::Value::Object(serde_json::Map::new())
}

fn json(text: &str) -> serde_json::Value {
    serde_json::from_str::<serde_json::Value>(text).unwrap()
}

fn freeform_of(text: &str) -> Block {
    Block {
        block_name: None,
        attrs: empty_object(),
        inner_blocks: vec![],
        inner_html: text.to_string(),
        inner_content: vec![Some(text.to_string())],
    }
}

#[test]
fn freeform_block_has_its_html_as_content() {
    let b = Block::freeform("<p>x</p>".to_string());
    assert_eq!(b, freeform_of("<p>x</p>"));
}

#[test]
fn blank_documents_give_no_blocks() {
    assert_eq!(parse_blocks_internal("").len(), 0);
    assert_eq!(parse_blocks_internal("  \n\t\r ").len(), 0);
    assert_eq!(parse_blocks_internal("\u{a0}\u{3000}\u{2028}").len(), 0);
    assert_eq!(parse_blocks_internal(" x ").len(), 1);
}

#[test]
fn surrounding_whitespace_is_ignored() {
    assert_eq!(
        parse_blocks_internal("  \n<!-- wp:a /-->\t\u{3000}"),
        parse_blocks_internal("<!-- wp:a /-->")
    );
    assert_eq!(parse_blocks_internal("\u{a0} text \u{85}"), vec![freeform_of("text")]);
}

#[test]
fn block_list_does_not_trim() {
    let blocks = block_list("  x").unwrap();
    assert_eq!(blocks, vec![freeform_of("  x")]);
    assert_eq!(block_list("").unwrap().len(), 0);
}

#[test]
fn unreadable_document_is_one_freeform_block() {
    assert!(block_list("abc<!-- wp:foo").is_none());
    assert_eq!(
        parse_blocks_internal(" abc<!-- wp:foo\n"),
        vec![freeform_of("abc<!-- wp:foo")]
    );
}

#[test]
fn names_keep_or_gain_a_namespace() {
    let blocks = parse_blocks_internal("<!-- wp:my-ns/my_block2 /--><!-- wp:x9 /-->");
    assert_eq!(blocks.len(), 2);
    assert_eq!(blocks[0].block_name.as_deref(), Some("my-ns/my_block2"));
    assert_eq!(blocks[1].block_name.as_deref(), Some("core/x9"));
}

#[test]
fn slash_without_second_name_is_not_a_block() {
    let blocks = parse_blocks_internal("<!-- wp:core/ /-->");
    assert_eq!(blocks, vec![freeform_of("<!-- wp:core/ /-->")]);
}

#[test]
fn braces_inside_quoted_strings_stay_in_attributes() {
    let blocks = parse_blocks_internal(r#"<!-- wp:a {"b":"}","c":{"d":[1,2]}} /-->"#);
    assert_eq!(blocks.len(), 1);
    assert_eq!(blocks[0].block_name.as_deref(), Some("core/a"));
    assert_eq!(blocks[0].attrs, json(r#"{"b":"}","c":{"d":[1,2]}}"#));
}

#[test]
fn unbalanced_attributes_make_the_comment_free_form() {
    let blocks = parse_blocks_internal(r#"<!-- wp:a {"b":{} /-->"#);
    assert_eq!(blocks, vec![freeform_of(r#"<!-- wp:a {"b":{} /-->"#)]);
}

#[test]
fn closer_of_another_name_still_closes() {
    let blocks = parse_blocks_internal("<!-- wp:a -->x<!-- /wp:b -->y");
    assert_eq!(blocks.len(), 2);
    assert_eq!(blocks[0].block_name.as_deref(), Some("core/a"));
    assert_eq!(blocks[0].inner_html, "x");
    assert_eq!(blocks[1], freeform_of("y"));
}

#[test]
fn stray_closer_at_top_level_is_text() {
    assert_eq!(
        parse_blocks_internal("<!-- /wp:a -->"),
        vec![freeform_of("<!-- /wp:a -->")]
    );
}

#[test]
fn void_and_empty_balanced_blocks_agree() {
    assert_eq!(
        parse_blocks_internal(r#"<!-- wp:x {"a":1} /-->"#),
        parse_blocks_internal(r#"<!-- wp:x {"a":1} --><!-- /wp:x -->"#)
    );
    let b = &parse_blocks_internal("<!-- wp:x -->\n<!-- /wp:x -->")[0];
    assert_eq!(b.inner_content, vec![Some("\n".to_string())]);
}

fn check_well_formed(b: &Block) {
    let joined: String = b
        .inner_content
        .iter()
        .filter_map(|c| c.clone())
        .collect::<Vec<String>>()
        .concat();
    assert_eq!(b.inner_html, joined);
    let holes = b.inner_content.iter().filter(|c| c.is_none()).count();
    assert_eq!(b.inner_blocks.len(), holes);
    for c in &b.inner_content {
        if let Some(t) = c {
            assert!(!t.is_empty());
        }
    }
    for w in b.inner_content.windows(2) {
        assert!(!(w[0].is_some() && w[1].is_some()));
    }
    assert!(b.attrs.is_object() || b.attrs.is_null());
    match &b.block_name {
        None => {
            assert_eq!(*b, freeform_of(&b.inner_html));
            assert!(!b.inner_html.is_empty());
        },
        Some(n) => assert!(n.contains('/')),
    }
    for inner in &b.inner_blocks {
        assert!(inner.block_name.is_some());
        check_well_formed(inner);
    }
}

#[test]
fn parsed_blocks_are_well_formed() {
    let doc = "pre<!-- wp:a -->x<!-- wp:b {\"k\":2} -->y<!-- wp:c /-->z<!-- /wp:b -->w<!-- /wp:a -->post<!-- wp:d";
    for b in parse_blocks_internal(doc) {
        check_well_formed(&b);
    }
    let doc = "<!-- wp:a -->x<!-- wp:b -->y<!-- wp:c /-->z<!-- /wp:b -->w<!-- /wp:a -->tail";
    let blocks = parse_blocks_internal(doc);
    assert_eq!(blocks.len(), 2);
    for b in &blocks {
        check_well_formed(b);
    }
    assert_eq!(blocks[0].inner_html, "xw");
    assert_eq!(blocks[0].inner_blocks[0].inner_html, "yz");
    assert_eq!(
        blocks[0].inner_blocks[0].inner_content,
        vec![Some("y".to_string()), None, Some("z".to_string())]
    );
    assert_eq!(blocks[0].inner_blocks[0].attrs, empty_object());
}

#[test]
fn nested_blocks_are_all_named() {
    let blocks = parse_blocks_internal("<!-- wp:a --><!-- wp:b --><!-- wp:c --><!-- wp:d /-->");
    assert_eq!(blocks.len(), 1);
    let mut b = &blocks[0];
    for name in ["core/a", "core/b", "core/c"] {
        assert_eq!(b.block_name.as_deref(), Some(name));
        assert_eq!(b.inner_blocks.len(), 1);
        b = &b.inner_blocks[0];
    }
    assert_eq!(b.block_name.as_deref(), Some("core/d"));
}

#[test]
fn invalid_json_attributes_are_null() {
    let blocks = parse_blocks_internal("<!-- wp:a {not json} --><!-- /wp:a -->");
    assert_eq!(blocks.len(), 1);
    assert_eq!(blocks[0].block_name.as_deref(), Some("core/a"));
    assert_eq!(blocks[0].attrs, serde_json::Value::Null);
}

#[test]
fn whitespace_inside_comments_is_optional() {
    let blocks = parse_blocks_internal("<!--wp:a{\"x\":true}--><!--/wp:a -->");
    assert_eq!(blocks.len(), 1);
    assert_eq!(blocks[0].block_name.as_deref(), Some("core/a"));
    assert_eq!(blocks[0].attrs, json(r#"{"x":true}"#));
    assert_eq!(blocks[0].inner_content, Vec::<Option<String>>::new());
}

#[test]
fn text_between_top_level_blocks_is_free_form() {
    let blocks = parse_blocks_internal("a<!-- wp:x /-->b<!-- wp:y /-->c");
    assert_eq!(blocks.len(), 5);
    assert_eq!(blocks[0], freeform_of("a"));
    assert_eq!(blocks[2], freeform_of("b"));
    assert_eq!(blocks[4], freeform_of("c"));
    assert_eq!(blocks[1].block_name.as_deref(), Some("core/x"));
    assert_eq!(blocks[3].block_name.as_deref(), Some("core/y"));
}

#[test]
fn dashes_belong_to_names() {
    // `a--` is read as the name in the closer, which then lacks its `-->`.
    let blocks = parse_blocks_internal("<!-- wp:a --><!--/wp:a-->");
    assert_eq!(blocks.len(), 2);
    assert_eq!(blocks[0].block_name.as_deref(), Some("core/a"));
    assert_eq!(blocks[0].inner_content, Vec::<Option<String>>::new());
    assert_eq!(blocks[1], freeform_of("<!--/wp:a-->"));
}

#[test]
fn void_and_empty_balanced_documents_agree_for_names() {
    for n in ["block", "my/bus", "a-b_9/c"] {
        let void = format!("<!-- wp:{} /-->", n);
        let balanced = format!("<!-- wp:{} --><!-- /wp:{} -->", n, n);
        let a = parse_blocks_internal(&void);
        assert_eq!(a, parse_blocks_internal(&balanced));
        assert_eq!(a.len(), 1);
        assert_eq!(a[0].inner_content, Vec::<Option<String>>::new());
        assert_eq!(a[0].attrs, empty_object());
    }
}

#[test]
fn missing_closer_gives_the_closed_document() {
    for n in ["block", "my/x"] {
        let open = format!("<!-- wp:{} -->hello there", n);
        let closed = format!("{}<!-- /wp:{} -->", open, n);
        let a = parse_blocks_internal(&open);
        assert_eq!(a, parse_blocks_internal(&closed));
        assert_eq!(a.len(), 1);
        assert_eq!(a[0].inner_content, vec![Some("hello there".to_string())]);
    }
    // With a block inside, as in the malformed-block test.
    assert_eq!(
        parse_blocks_internal("<!-- wp:block --><!-- wp:inner /-->"),
        parse_blocks_internal("<!-- wp:block --><!-- wp:inner /--><!-- /wp:block -->")
    );
}

#[test]
fn missing_closer_around_nested_content() {
    let open = "<!-- wp:outer -->x<!-- wp:b /-->y<!-- wp:my/c -->z<!-- wp:d /--><!-- /wp:my/c -->w";
    let closed = format!("{}<!-- /wp:outer -->", open);
    let a = parse_blocks_internal(open);
    assert_eq!(a, parse_blocks_internal(&closed));
    assert_eq!(a.len(), 1);
    assert_eq!(a[0].block_name.as_deref(), Some("core/outer"));
    assert_eq!(a[0].inner_html, "xyw");
    assert_eq!(a[0].inner_blocks.len(), 2);
    assert_eq!(a[0].inner_blocks[1].block_name.as_deref(), Some("my/c"));
    assert_eq!(a[0].inner_blocks[1].inner_content, vec![Some("z".to_string()), None]);
}

#[test]
fn block_list_inner_reads_like_block_list() {
    assert_eq!(block_list_inner("a<!-- wp:x /-->b"), block_list("a<!-- wp:x /-->b"));
    assert_eq!(block_list_inner("a<!-- wp:x /-->b").unwrap().len(), 3);
    assert!(block_list_inner("abc<!-- wp:foo").is_none());
    assert_eq!(block_list_inner("").unwrap().len(), 0);
}

#[test]
fn free_form_blocks_are_named_core_freeform_on_request() {
    let blocks = parse_blocks_internal("text<!-- wp:my/x /-->");
    assert_eq!(blocks[0].name_or_freeform(), "core/freeform");
    assert_eq!(blocks[1].name_or_freeform(), "my/x");
}

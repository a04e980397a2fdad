use bumbling::markup::{walk, Attribute, Node, NodeData};

fn text(content: &str) -> Node {
    Node { data: NodeData::Text(content.to_string()), children: Vec::new() }
}

fn element(name: &str, attrs: &[(&str, &str)], children: Vec<Node>) -> Node {
    Node {
        data: NodeData::Element {
            name: name.to_string(),
            attrs: attrs
                .iter()
                .map(|(n, v)| Attribute { name: n.to_string(), value: v.to_string() })
                .collect(),
        },
        children,
    }
}

fn document(children: Vec<Node>) -> Node {
    Node { data: NodeData::Other, children }
}

fn page() -> Node {
    document(vec![element(
        "html",
        &[],
        vec![
            element("head", &[], vec![element("title", &[], vec![text("Bee")])]),
            element(
                "body",
                &[("class", "main")],
                vec![
                    element("p", &[], vec![text("not an answer")]),
                    element(
                        "div",
                        &[("class", "answers"), ("id", "main-answer-list")],
                        vec![element(
                            "ul",
                            &[],
                            vec![
                                text("\n  "),
                                element("li", &[], vec![text(" bling ")]),
                                element(
                                    "li",
                                    &[],
                                    vec![element("strong", &[], vec![text("bumbling")])],
                                ),
                                element("li", &[], vec![text("mug\n")]),
                                element(
                                    "li",
                                    &[],
                                    vec![element("strong", &[], vec![text("mumbling")])],
                                ),
                            ],
                        )],
                    ),
                    element("p", &[], vec![element("strong", &[], vec![text("footer")])]),
                ],
            ),
        ],
    )])
}

#[test]
fn the_answers_are_the_texts_inside_the_list() {
    let mut words: Vec<String> = Vec::new();
    walk(&page(), &mut words, false, false);
    assert_eq!(words, vec!["mumbling", "bumbling", "bling", "mug"]);
}

#[test]
fn words_are_added_to_those_that_are_there() {
    let mut words = vec!["old".to_string()];
    walk(&page(), &mut words, false, false);
    assert_eq!(words, vec!["mumbling", "bumbling", "old", "bling", "mug"]);
}

#[test]
fn outside_the_list_nothing_is_taken() {
    let mut words: Vec<String> = Vec::new();
    walk(
        &document(vec![element("strong", &[], vec![text("loud")]), text("quiet")]),
        &mut words,
        false,
        false,
    );
    assert!(words.is_empty());
}

#[test]
fn the_flags_hold_for_what_is_below_a_node() {
    let mut words: Vec<String> = Vec::new();
    walk(&text(" cat "), &mut words, true, false);
    walk(&text("dog"), &mut words, true, true);
    walk(&text("emu"), &mut words, false, true);
    walk(&text("   "), &mut words, true, true);
    walk(&text(""), &mut words, true, false);
    assert_eq!(words, vec!["dog", "cat"]);
}

#[test]
fn the_mark_of_the_list_is_the_id_with_its_value() {
    for (attrs, inside) in [
        (vec![("id", "main-answer-list")], true),
        (vec![("class", "x"), ("id", "main-answer-list")], true),
        (vec![("id", "other"), ("id", "main-answer-list")], true),
        (vec![("id", "main-answer-lists")], false),
        (vec![("ID", "main-answer-list")], false),
        (vec![("name", "main-answer-list")], false),
        (vec![("id", "")], false),
        (vec![], false),
    ] {
        let mut words: Vec<String> = Vec::new();
        walk(&element("div", &attrs, vec![text("cat")]), &mut words, false, false);
        assert_eq!(!words.is_empty(), inside, "{:?}", attrs);
    }
}

#[test]
fn strong_counts_inside_the_list_alone() {
    let tree = element(
        "strong",
        &[("id", "main-answer-list")],
        vec![text("plain"), element("strong", &[], vec![text("whole")])],
    );
    let mut words: Vec<String> = Vec::new();
    walk(&tree, &mut words, false, false);
    assert_eq!(words, vec!["whole", "plain"]);
}

#[test]
fn a_sibling_of_the_list_is_outside_it() {
    let tree = document(vec![
        element("div", &[("id", "main-answer-list")], vec![text("in")]),
        element("div", &[], vec![text("out")]),
    ]);
    let mut words: Vec<String> = Vec::new();
    walk(&tree, &mut words, false, false);
    assert_eq!(words, vec!["in"]);
}

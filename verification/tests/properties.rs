use table_grid::dom::{Attr, Node, NodeData};
use table_grid::layout::{Block, BlockData, DeviceContext, Orient, Size, TestDC};
use table_grid::normalize::remove_decoration;
use table_grid::query::{collect_text, find_elements, get_attr, get_elem_name};
use table_grid::table::{extract_tables, Table};
use table_grid::text::{contains_str, parse_u32, str_eq, strip_breaks, trim_text};

fn elem(tag: &str, attrs: Vec<(&str, &str)>, children: Vec<Node>) -> Node {
    Node {
        data: NodeData::Element {
            name: tag.to_string(),
            attrs: attrs
                .into_iter()
                .map(|(n, v)| Attr { name: n.to_string(), value: v.to_string() })
                .collect(),
        },
        children,
    }
}

fn text(s: &str) -> Node {
    Node { data: NodeData::Text { contents: s.to_string() }, children: Vec::new() }
}

fn count_decorative(n: &Node) -> usize {
    let own = match &n.data {
        NodeData::Element { name, .. } => {
            matches!(name.as_str(), "a" | "b" | "i" | "sup" | "cite" | "span") as usize
        }
        _ => 0,
    };
    own + n.children.iter().map(count_decorative).sum::<usize>()
}

fn has_adjacent_texts(n: &Node) -> bool {
    for w in n.children.windows(2) {
        let both = matches!(&w[0].data, NodeData::Text { .. })
            && matches!(&w[1].data, NodeData::Text { .. });
        if both {
            return true;
        }
    }
    n.children.iter().any(has_adjacent_texts)
}

fn tree_equal(a: &Node, b: &Node) -> bool {
    let data_eq = match (&a.data, &b.data) {
        (NodeData::Document, NodeData::Document) => true,
        (NodeData::Comment, NodeData::Comment) => true,
        (NodeData::Doctype, NodeData::Doctype) => true,
        (NodeData::ProcessingInstruction, NodeData::ProcessingInstruction) => true,
        (NodeData::Text { contents: c1 }, NodeData::Text { contents: c2 }) => c1 == c2,
        (
            NodeData::Element { name: n1, attrs: a1 },
            NodeData::Element { name: n2, attrs: a2 },
        ) => {
            n1 == n2
                && a1.len() == a2.len()
                && a1.iter().zip(a2.iter()).all(|(x, y)| x.name == y.name && x.value == y.value)
        }
        _ => false,
    };
    data_eq
        && a.children.len() == b.children.len()
        && a.children.iter().zip(b.children.iter()).all(|(x, y)| tree_equal(x, y))
}

#[test]
fn normalize_unwraps_nested_decorations() {
    // A span nested around a bold element: one pass per tag is not enough.
    let mut root = elem(
        "div",
        vec![],
        vec![
            text("A"),
            elem("span", vec![], vec![elem("b", vec![], vec![text("B")]), text("C")]),
            text("D"),
        ],
    );
    remove_decoration(&mut root);
    assert_eq!(root.children.len(), 1);
    match &root.children[0].data {
        NodeData::Text { contents } => assert_eq!(contents, "ABCD"),
        _ => panic!("expected one merged text node"),
    }
}

#[test]
fn normalize_postcondition_holds() {
    let mut root = elem(
        "div",
        vec![],
        vec![
            elem("a", vec![("href", "x")], vec![text("link")]),
            elem("p", vec![], vec![elem("i", vec![], vec![text("t")]), text("u")]),
            elem("cite", vec![], vec![elem("sup", vec![], vec![text("v")])]),
        ],
    );
    remove_decoration(&mut root);
    assert_eq!(count_decorative(&root), 0);
    assert!(!has_adjacent_texts(&root));
}

#[test]
fn normalize_is_idempotent_on_clean_tree() {
    let mut root = elem(
        "div",
        vec![],
        vec![text("x"), elem("p", vec![], vec![text("y")]), elem("q", vec![], vec![])],
    );
    let before = root.deep_copy();
    remove_decoration(&mut root);
    assert!(tree_equal(&before, &root));
    // And normalizing any tree twice changes nothing the second time.
    let mut messy = elem("div", vec![], vec![elem("b", vec![], vec![text("z")]), text("w")]);
    remove_decoration(&mut messy);
    let once = messy.deep_copy();
    remove_decoration(&mut messy);
    assert!(tree_equal(&once, &messy));
}

#[test]
fn find_elements_in_document_order() {
    let root = elem(
        "div",
        vec![],
        vec![
            elem("p", vec![("id", "1")], vec![elem("p", vec![("id", "2")], vec![])]),
            elem("p", vec![("id", "3")], vec![]),
        ],
    );
    let found = find_elements(&root, "p");
    let ids: Vec<String> = found.iter().map(|n| get_attr(n, "id").unwrap()).collect();
    assert_eq!(ids, vec!["1", "2", "3"]);
    // The root itself is included when it matches.
    let found_div = find_elements(&root, "div");
    assert_eq!(found_div.len(), 1);
    assert_eq!(get_elem_name(&found_div[0]), "div");
}

#[test]
fn collect_text_trims_and_concatenates() {
    let root = elem(
        "div",
        vec![],
        vec![
            text("  a   b "),
            elem("p", vec![], vec![text("c")]),
            text(" d "),
        ],
    );
    assert_eq!(collect_text(&root), "a bcd");
}

#[test]
fn trim_text_collapses_blanks() {
    assert_eq!(trim_text("  a   b  "), "a b");
    assert_eq!(trim_text(""), "");
    assert_eq!(trim_text("   "), "");
    assert_eq!(trim_text("\u{3000}x\u{3000}"), "x");
    assert_eq!(trim_text("\t a  b \n"), "a b");
}

#[test]
fn strip_breaks_removes_newlines_and_tabs() {
    assert_eq!(strip_breaks("a\nb\tc"), "abc");
    assert_eq!(strip_breaks("\n\t"), "");
    assert_eq!(strip_breaks("plain"), "plain");
}

#[test]
fn parse_u32_accepts_digits_only() {
    assert_eq!(parse_u32("2"), Some(2));
    assert_eq!(parse_u32("+7"), Some(7));
    assert_eq!(parse_u32("007"), Some(7));
    assert_eq!(parse_u32(""), None);
    assert_eq!(parse_u32("+"), None);
    assert_eq!(parse_u32("abc"), None);
    assert_eq!(parse_u32("12x"), None);
    assert_eq!(parse_u32("4294967295"), Some(4294967295));
    assert_eq!(parse_u32("4294967296"), None);
}

#[test]
fn str_helpers() {
    assert!(str_eq("日本", "日本"));
    assert!(!str_eq("日本", "日木"));
    assert!(contains_str("width: 300px;", "width"));
    assert!(!contains_str("height: 300px;", "width"));
    assert!(contains_str("anything", ""));
}

#[test]
fn measure_text_edges() {
    let dc = TestDC::new();
    assert_eq!(dc.measure_text(""), Size { width: 0, height: 20 });
    assert_eq!(dc.measure_text("a\n"), Size { width: 20, height: 40 });
    assert_eq!(dc.measure_text("\n\n"), Size { width: 0, height: 60 });
}

fn simple_table(colspan: Option<&str>, cell_text: &str) -> Node {
    let attrs = match colspan {
        Some(v) => vec![("colspan", v)],
        None => vec![],
    };
    elem(
        "table",
        vec![],
        vec![elem(
            "tbody",
            vec![],
            vec![elem("tr", vec![], vec![elem("td", attrs, vec![text(cell_text)])])],
        )],
    )
}

#[test]
fn colspan_defaults_to_one_on_parse_failure() {
    for bad in [None, Some("abc"), Some("-2"), Some("4294967296")] {
        let t = Table::new_from(&simple_table(bad, "xy"));
        assert_eq!(t.cols, 1);
        assert_eq!(t.cells[0].col_range, vec![0]);
        assert_eq!(t.cells[0].text_block.size.width, 40);
    }
    let t = Table::new_from(&simple_table(Some("3"), "xy"));
    assert_eq!(t.cols, 3);
    assert_eq!(t.cells[0].col_range, vec![0, 1, 2]);
}

#[test]
fn empty_cell_consumes_columns_but_not_width() {
    let table = elem(
        "table",
        vec![],
        vec![elem(
            "tbody",
            vec![],
            vec![elem(
                "tr",
                vec![],
                vec![elem("td", vec![], vec![]), elem("td", vec![], vec![text("ab")])],
            )],
        )],
    );
    let t = Table::new_from(&table);
    assert_eq!(t.cells.len(), 1);
    assert_eq!(t.cols, 2);
    assert_eq!(t.max_width_cols, vec![0, 40]);
    assert_eq!(t.size, Size { width: 40, height: 20 });
    assert_eq!(t.cells[0].col_range, vec![1]);
    assert_eq!(t.cells[0].text_block.pos.x, 0);
}

#[test]
fn tables_without_exactly_one_tbody_are_skipped() {
    let good = simple_table(None, "ok");
    let none = elem("table", vec![], vec![elem("tr", vec![], vec![])]);
    let two = elem(
        "table",
        vec![],
        vec![elem("tbody", vec![], vec![]), elem("tbody", vec![], vec![])],
    );
    let doc = elem("html", vec![], vec![none, good, two]);
    let tables = extract_tables(&doc);
    assert_eq!(tables.len(), 1);
    assert_eq!(tables[0].rows, 1);
    // Built directly, a skipped table is an empty shell.
    let shell = Table::new_from(&elem("table", vec![], vec![]));
    assert_eq!(shell.rows, 0);
    assert_eq!(shell.cols, 0);
    assert_eq!(shell.size, Size { width: 0, height: 0 });
    assert_eq!(shell.cells.len(), 0);
}

#[test]
fn style_width_forces_total_even_when_skipped_tables_keep_zero() {
    let mut table = simple_table(None, "abcd");
    match &mut table.data {
        NodeData::Element { attrs, .. } => {
            attrs.push(Attr { name: "style".to_string(), value: "width:50%".to_string() })
        }
        _ => unreachable!(),
    }
    let t = Table::new_from(&table);
    assert_eq!(t.size.width, 300);
    assert_eq!(t.block_props.width, Some(300));
    // Without the word "width" in the style, the measured total stands.
    let mut table2 = simple_table(None, "abcd");
    match &mut table2.data {
        NodeData::Element { attrs, .. } => {
            attrs.push(Attr { name: "style".to_string(), value: "color:red".to_string() })
        }
        _ => unreachable!(),
    }
    let t2 = Table::new_from(&table2);
    assert_eq!(t2.size.width, 80);
}

#[test]
fn spanned_cell_width_covers_measured_width() {
    // One character (measured width 20) over three columns: the even split
    // rounds up to 7 per column, and the widened cell covers the text.
    let t = Table::new_from(&simple_table(Some("3"), "a"));
    assert_eq!(t.max_width_cols, vec![7, 7, 7]);
    assert_eq!(t.size.width, 21);
    assert_eq!(t.cells[0].text_block.size.width, 21);
    assert!(t.cells[0].text_block.size.width >= t.cells[0].text_block.max_width);
}

#[test]
fn zero_colspan_cell_yields_no_record() {
    // A cell whose colspan reads as zero has no column to stand in: it is
    // dropped from the grid and does not advance the cursor.
    let t = Table::new_from(&simple_table(Some("0"), "ab"));
    assert_eq!(t.cells.len(), 0);
    assert_eq!(t.rows, 1);
    assert_eq!(t.cols, 0);
    assert_eq!(t.size, Size { width: 0, height: 0 });
    // A later sibling cell starts where the cursor stands.
    let table = elem(
        "table",
        vec![],
        vec![elem(
            "tbody",
            vec![],
            vec![elem(
                "tr",
                vec![],
                vec![
                    elem("td", vec![("colspan", "0")], vec![text("gone")]),
                    elem("td", vec![], vec![text("cd")]),
                ],
            )],
        )],
    );
    let t2 = Table::new_from(&table);
    assert_eq!(t2.cells.len(), 1);
    assert_eq!(t2.cells[0].col_range, vec![0]);
    assert_eq!(t2.cols, 1);
}

#[test]
fn try_new_from_builds_within_limits() {
    let t = Table::try_new_from(&simple_table(None, "xy")).unwrap();
    assert_eq!(t.rows, 1);
    assert_eq!(t.cols, 1);
    assert_eq!(t.size, Size { width: 40, height: 20 });
    // A table the builder skips is always built, as its empty shell.
    let shell = Table::try_new_from(&elem("table", vec![], vec![])).unwrap();
    assert_eq!(shell.rows, 0);
    assert_eq!(shell.cells.len(), 0);
}

#[test]
fn try_new_from_rejects_grid_beyond_limits() {
    // Two cells of the largest span push the column cursor past 32 bits:
    // the guard reports that instead of building.
    let table = elem(
        "table",
        vec![],
        vec![elem(
            "tbody",
            vec![],
            vec![elem(
                "tr",
                vec![],
                vec![
                    elem("td", vec![("colspan", "4294967295")], vec![text("a")]),
                    elem("td", vec![("colspan", "4294967295")], vec![text("b")]),
                ],
            )],
        )],
    );
    assert!(Table::try_new_from(&table).is_none());
}

#[test]
fn block_starts_empty_at_origin() {
    let b = Block::new_from(BlockData::Text { text: "t".to_string() });
    assert!(b.children.is_empty());
    assert_eq!(b.pos, table_grid::layout::Point { x: 0, y: 0 });
    assert_eq!(b.size.size, Size { width: 0, height: 0 });
    assert!(!b.size.expand_h && !b.size.expand_v);
    match b.data {
        BlockData::Text { text } => assert_eq!(text, "t"),
        _ => panic!("payload changed"),
    }
    let sizer = Block::new_from(BlockData::Sizer { orient: Orient::H });
    assert!(matches!(sizer.data, BlockData::Sizer { orient: Orient::H }));
    let space = Block::new_from(BlockData::Space);
    assert!(matches!(space.data, BlockData::Space));
}

#[test]
fn get_attr_returns_first_match() {
    let n = elem("p", vec![("k", "v1"), ("k", "v2"), ("other", "x")], vec![]);
    assert_eq!(get_attr(&n, "k"), Some("v1".to_string()));
    assert_eq!(get_attr(&n, "missing"), None);
    assert_eq!(get_attr(&text("t"), "k"), None);
}

use html5ever::driver::ParseOpts;
use html5ever::parse_document;
use html5ever::tendril::TendrilSink;
use markup5ever_rcdom::{Handle, NodeData as RcNodeData, RcDom};

use table_grid::dom::{Attr, Node, NodeData};
use table_grid::layout::{DeviceContext, Size, TestDC};
use table_grid::query::find_elements;
use table_grid::table::{BlockProps, Table};

/// Turns a reference-counted parser node into the library's owned tree.
fn convert(h: &Handle) -> Node {
    let data = match &h.data {
        RcNodeData::Document => NodeData::Document,
        RcNodeData::Doctype { .. } => NodeData::Doctype,
        RcNodeData::Text { contents } => NodeData::Text { contents: contents.borrow().to_string() },
        RcNodeData::Comment { .. } => NodeData::Comment,
        RcNodeData::Element { name, attrs, .. } => NodeData::Element {
            name: name.local.to_string(),
            attrs: attrs
                .borrow()
                .iter()
                .map(|a| Attr { name: a.name.local.to_string(), value: a.value.to_string() })
                .collect(),
        },
        RcNodeData::ProcessingInstruction { .. } => NodeData::ProcessingInstruction,
    };
    let children = h.children.borrow().iter().map(convert).collect();
    Node { data, children }
}

fn parse_to_tree(html: &str) -> Node {
    let parser = parse_document(RcDom::default(), ParseOpts::default());
    let dom = parser.one(html);
    convert(&dom.document)
}

#[test]
fn it_works() {
    assert_eq!(2 + 2, 4);
}

#[test]
fn measure_text() {
    let dc = TestDC::new();
    let size = dc.measure_text("ab\nc");
    assert_eq!(size, Size { width: 40, height: 40 });
}

#[test]
fn table() {
    let html_data = r##"
        <table>
        <tbody>
            <tr>
                <td colspan="2">1543年頃 - 1596年1月28日</td>
            </tr>
            <tr>
                <th>生誕</th>
                <td>イングランド、デヴォン、タヴィストック</td>
            </tr>
            <tr>
                <th>最終階級</th>
                <td>イギリス海軍中将</td>
            </tr>
        </tbody>
        </table>
        "##;

    // max-width
    // ----------
    // 380
    //  40, 380
    //  80, 160
    // ----------
    // 190, 380

    let doc = parse_to_tree(html_data);
    let node = &doc.children[0];

    let table_nodes = find_elements(node, "table");
    let table = Table::new_from(&table_nodes[0]);

    assert_eq!(table.rows, 3);
    assert_eq!(table.cols, 2);

    assert_eq!(table.size, Size { width: 570, height: 60 });

    assert_eq!(table.cells[0].text_block.pos, table_grid::layout::Point { x: 0, y: 0 });
    assert_eq!(table.cells[1].text_block.pos, table_grid::layout::Point { x: 0, y: 20 });
    assert_eq!(table.cells[2].text_block.pos, table_grid::layout::Point { x: 190, y: 20 });
    assert_eq!(table.cells[3].text_block.pos, table_grid::layout::Point { x: 0, y: 40 });
    assert_eq!(table.cells[4].text_block.pos, table_grid::layout::Point { x: 190, y: 40 });

    assert_eq!(table.cells[0].text_block.size.width, 570);
    assert_eq!(table.cells[1].text_block.size.width, 190);
    assert_eq!(table.cells[2].text_block.size.width, 380);
    assert_eq!(table.cells[3].text_block.size.width, 190);
    assert_eq!(table.cells[4].text_block.size.width, 380);
}

#[test]
fn table_width() {
    let html_data = r##"
        <table style="width: 300px;">
        <tbody>
            <tr>
                <td colspan="2">1543年頃 - 1596年1月28日</td>
            </tr>
            <tr>
                <th>生誕</th>
                <td>イングランド、デヴォン、タヴィストック</td>
            </tr>
            <tr>
                <th>最終階級</th>
                <td>イギリス海軍中将</td>
            </tr>
        </tbody>
        </table>
        "##;

    // max-width
    // ----------
    // 380
    //  40, 380
    //  80, 160
    // ----------
    // 190, 380  = 570

    // width = 300
    // 100, 200

    let doc = parse_to_tree(html_data);
    let node = &doc.children[0];

    let table_nodes = find_elements(node, "table");
    let table = Table::new_from(&table_nodes[0]);

    assert_eq!(table.size.width, 300);
}

#[test]
fn parse_css() {
    let _css = "width: 300px; height: 200px;";

    let mut block_props = BlockProps::new();

    block_props.width = Some(300);
    block_props.height = Some(200);

    assert_eq!(block_props.width, Some(300));
    assert_eq!(block_props.height, Some(200));
}

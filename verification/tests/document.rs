use vlsp::document::DocumentData;

fn starts(doc: &DocumentData, row: usize) -> Vec<(String, u32)> {
    doc.rows[row].cells.iter().map(|c| (c.value.clone(), c.col_start)).collect()
}

#[test]
fn cells_know_where_they_start() {
    let doc = DocumentData::parse("name\tid\nsword\t1\n\tx\t", '\t');
    assert_eq!(doc.headers, vec!["name", "id"]);
    assert_eq!(doc.rows.len(), 2);
    assert_eq!(doc.rows[0].line, 1);
    assert_eq!(starts(&doc, 0), vec![("sword".to_string(), 0), ("1".to_string(), 6)]);
    assert_eq!(doc.rows[1].line, 2);
    assert_eq!(
        starts(&doc, 1),
        vec![("".to_string(), 0), ("x".to_string(), 1), ("".to_string(), 3)]
    );
}

#[test]
fn columns_are_counted_in_characters() {
    let doc = DocumentData::parse("ä,b\nüü,c", ',');
    assert_eq!(starts(&doc, 0), vec![("üü".to_string(), 0), ("c".to_string(), 3)]);
}

#[test]
fn line_ends_are_dropped() {
    let doc = DocumentData::parse("a\r\nb\r\n\r\nc\r", '\t');
    assert_eq!(doc.headers, vec!["a"]);
    assert_eq!(doc.rows.len(), 3);
    assert_eq!(doc.rows[0].cells[0].value, "b");
    assert_eq!(doc.rows[1].cells[0].value, "");
    assert_eq!(doc.rows[2].cells[0].value, "c\r");
    assert_eq!("a\r\nb\r\n\r\nc\r".lines().count(), 4);
}

#[test]
fn empty_text_has_no_header() {
    let doc = DocumentData::parse("", '\t');
    assert!(doc.headers.is_empty());
    assert!(doc.rows.is_empty());
    let blank = DocumentData::parse("\n", '\t');
    assert_eq!(blank.headers, vec![""]);
    assert!(blank.rows.is_empty());
}

#[test]
fn cell_under_the_cursor() {
    let doc = DocumentData::parse("name\tid\nab\tcd\n", '\t');
    let at = |line, character| doc.cell_at(line, character).map(|(i, c)| (i, c.value.clone()));
    assert_eq!(at(1, 0), Some((0, "ab".to_string())));
    assert_eq!(at(1, 2), Some((0, "ab".to_string())));
    assert_eq!(at(1, 3), Some((1, "cd".to_string())));
    assert_eq!(at(1, 5), Some((1, "cd".to_string())));
    assert_eq!(at(1, 6), None);
    assert_eq!(at(0, 0), None);
    assert_eq!(at(2, 0), None);
}

#[test]
fn header_under_the_cursor() {
    let doc = DocumentData::parse("name\tid\n", '\t');
    assert_eq!(doc.header_at(0), Some(0));
    assert_eq!(doc.header_at(4), Some(0));
    assert_eq!(doc.header_at(5), Some(1));
    assert_eq!(doc.header_at(7), Some(1));
    assert_eq!(doc.header_at(8), None);
    assert_eq!(doc.header_start(0), 0);
    assert_eq!(doc.header_start(1), 5);
}

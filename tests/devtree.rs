use devtree::{DevTree, DevTreeNode, DtError, MemReservation, Property};

const BEGIN_NODE: u32 = 1;
const END_NODE: u32 = 2;
const PROP: u32 = 3;
const NOP: u32 = 4;
const END: u32 = 9;

fn word(out: &mut Vec<u8>, w: u32) {
    out.extend_from_slice(&w.to_be_bytes());
}

fn pad(out: &mut Vec<u8>) {
    while out.len() % 4 != 0 {
        out.push(0);
    }
}

fn begin(out: &mut Vec<u8>, name: &str) {
    word(out, BEGIN_NODE);
    out.extend_from_slice(name.as_bytes());
    out.push(0);
    pad(out);
}

fn end_node(out: &mut Vec<u8>) {
    word(out, END_NODE);
}

fn prop(out: &mut Vec<u8>, name_off: u32, value: &[u8]) {
    word(out, PROP);
    word(out, value.len() as u32);
    word(out, name_off);
    out.extend_from_slice(value);
    pad(out);
}

/// A blob with the given structure and strings blocks and reservation records
/// (the zero terminator is added).
fn blob_with(structure: &[u8], strings: &[u8], rsv: &[(u64, u64)]) -> Vec<u8> {
    let rsv_off = 40u32;
    let rsv_len = 16 * (rsv.len() as u32 + 1);
    let struct_off = rsv_off + rsv_len;
    let strings_off = struct_off + structure.len() as u32;
    let total = strings_off + strings.len() as u32;
    let mut out = Vec::new();
    for w in [
        0xd00dfeed,
        total,
        struct_off,
        strings_off,
        rsv_off,
        17,
        16,
        3,
        strings.len() as u32,
        structure.len() as u32,
    ] {
        word(&mut out, w);
    }
    for (a, s) in rsv {
        out.extend_from_slice(&a.to_be_bytes());
        out.extend_from_slice(&s.to_be_bytes());
    }
    out.extend_from_slice(&[0u8; 16]);
    out.extend_from_slice(structure);
    out.extend_from_slice(strings);
    out
}

fn names_of_children(node: &DevTreeNode) -> Vec<String> {
    let mut it = node.children();
    let mut names = Vec::new();
    while let Some(c) = it.next() {
        names.push(c.name().to_string());
    }
    assert_eq!(it.error(), None);
    names
}

fn descendant_names(node: &DevTreeNode) -> Vec<String> {
    let mut it = node.iter_descendants();
    let mut names = Vec::new();
    while let Some(n) = it.next() {
        names.push(n.name().to_string());
    }
    assert_eq!(it.error(), None);
    names
}

fn empty_tree_structure() -> Vec<u8> {
    let mut s = Vec::new();
    begin(&mut s, "");
    end_node(&mut s);
    word(&mut s, END);
    s
}

fn two_children_structure() -> Vec<u8> {
    let mut s = Vec::new();
    begin(&mut s, "");
    begin(&mut s, "cpu@0");
    end_node(&mut s);
    begin(&mut s, "cpu@1");
    end_node(&mut s);
    end_node(&mut s);
    word(&mut s, END);
    s
}

#[test]
fn test_sum() {
    let sum: i32 = vec![1, 2, 3].iter().sum();
    assert_eq!(sum, 6);
}

#[test]
fn empty_tree_has_no_properties_or_children() {
    let blob = blob_with(&empty_tree_structure(), b"", &[]);
    let tree = DevTree::new(&blob).unwrap();
    let root = tree.root();
    assert_eq!(root.name(), "");
    let mut props = root.properties();
    assert!(props.next().is_none());
    assert_eq!(props.error(), None);
    let mut kids = root.children();
    assert!(kids.next().is_none());
    assert_eq!(kids.error(), None);
    assert_eq!(descendant_names(root), vec![String::new()]);
}

#[test]
fn single_property_string_lookup() {
    let mut s = Vec::new();
    begin(&mut s, "");
    prop(&mut s, 0, b"foo\0");
    end_node(&mut s);
    word(&mut s, END);
    let blob = blob_with(&s, b"compatible\0", &[]);
    let tree = DevTree::new(&blob).unwrap();
    let p = tree.root().property("compatible").unwrap();
    assert_eq!(p.name(), "compatible");
    assert_eq!(p.value(), b"foo\0");
    assert_eq!(p.as_string(), Some("foo"));
    assert!(tree.root().property("model").is_none());
}

#[test]
fn two_children_in_file_order() {
    let blob = blob_with(&two_children_structure(), b"", &[]);
    let tree = DevTree::new(&blob).unwrap();
    let root = tree.root();
    assert_eq!(names_of_children(root), vec!["cpu@0", "cpu@1"]);
    assert_eq!(descendant_names(root), vec!["", "cpu@0", "cpu@1"]);
    assert_eq!(root.child("cpu@1").unwrap().name(), "cpu@1");
    assert!(root.child("cpu@2").is_none());
}

#[test]
fn reservation_table_in_file_order() {
    let blob = blob_with(&empty_tree_structure(), b"", &[(0x1000, 0x2000), (0x5000, 0x1000)]);
    let tree = DevTree::new(&blob).unwrap();
    let rsv = tree.mem_rsvmap();
    assert_eq!(rsv.len(), 2);
    assert_eq!(rsv.get(0), Some(MemReservation { address: 0x1000, size: 0x2000 }));
    assert_eq!(rsv.get(1), Some(MemReservation { address: 0x5000, size: 0x1000 }));
    assert_eq!(rsv.get(2), None);
}

#[test]
fn bad_magic_is_rejected() {
    let mut blob = blob_with(&empty_tree_structure(), b"", &[]);
    blob[0..4].copy_from_slice(&0xDEADBEEFu32.to_be_bytes());
    assert!(matches!(DevTree::new(&blob), Err(DtError::InvalidMagic)));
}

#[test]
fn truncated_property_ends_iteration_with_error() {
    let mut s = Vec::new();
    begin(&mut s, "");
    word(&mut s, PROP);
    word(&mut s, 1000);
    word(&mut s, 0);
    end_node(&mut s);
    word(&mut s, END);
    let blob = blob_with(&s, b"reg\0", &[]);
    let tree = DevTree::new(&blob).unwrap();
    let mut props = tree.root().properties();
    assert!(props.next().is_none());
    assert_eq!(props.error(), Some(DtError::OffsetOutOfBounds));
    let mut kids = tree.root().children();
    assert!(kids.next().is_none());
    assert_eq!(kids.error(), Some(DtError::OffsetOutOfBounds));
}

#[test]
fn short_region_is_a_truncated_header() {
    let blob = blob_with(&empty_tree_structure(), b"", &[]);
    assert!(matches!(DevTree::new(&blob[..39]), Err(DtError::TruncatedHeader)));
}

#[test]
fn zero_total_size_is_an_empty_blob() {
    let mut blob = blob_with(&empty_tree_structure(), b"", &[]);
    blob[4..8].copy_from_slice(&0u32.to_be_bytes());
    assert!(matches!(DevTree::new(&blob), Err(DtError::EmptyBlob)));
}

#[test]
fn block_past_total_size_is_out_of_bounds() {
    let mut blob = blob_with(&empty_tree_structure(), b"", &[]);
    blob[0x24..0x28].copy_from_slice(&0x1000u32.to_be_bytes());
    assert!(matches!(DevTree::new(&blob), Err(DtError::OffsetOutOfBounds)));
    let mut blob = blob_with(&empty_tree_structure(), b"", &[]);
    let len = blob.len() as u32;
    blob[4..8].copy_from_slice(&(len + 1).to_be_bytes());
    assert!(matches!(DevTree::new(&blob), Err(DtError::OffsetOutOfBounds)));
}

#[test]
fn root_without_begin_node_is_malformed() {
    let mut s = Vec::new();
    word(&mut s, END_NODE);
    word(&mut s, END);
    let blob = blob_with(&s, b"", &[]);
    assert!(matches!(DevTree::new(&blob), Err(DtError::MalformedToken)));
}

#[test]
fn unterminated_node_name_is_reported() {
    let mut s = Vec::new();
    word(&mut s, BEGIN_NODE);
    s.extend_from_slice(b"abcd");
    let blob = blob_with(&s, b"", &[]);
    assert!(matches!(DevTree::new(&blob), Err(DtError::UnterminatedString)));
}

#[test]
fn invalid_utf8_node_name_is_reported() {
    let mut s = Vec::new();
    word(&mut s, BEGIN_NODE);
    s.extend_from_slice(&[0xff, 0xfe, 0, 0]);
    end_node(&mut s);
    word(&mut s, END);
    let blob = blob_with(&s, b"", &[]);
    assert!(matches!(DevTree::new(&blob), Err(DtError::InvalidUtf8)));
}

#[test]
fn property_name_errors_are_reported() {
    // name offset past the strings block
    let mut s = Vec::new();
    begin(&mut s, "");
    prop(&mut s, 50, b"");
    end_node(&mut s);
    word(&mut s, END);
    let blob = blob_with(&s, b"reg\0", &[]);
    let tree = DevTree::new(&blob).unwrap();
    let mut props = tree.root().properties();
    assert!(props.next().is_none());
    assert_eq!(props.error(), Some(DtError::OffsetOutOfBounds));
    // name without a terminator
    let mut s = Vec::new();
    begin(&mut s, "");
    prop(&mut s, 0, b"");
    end_node(&mut s);
    word(&mut s, END);
    let blob = blob_with(&s, b"reg", &[]);
    let tree = DevTree::new(&blob).unwrap();
    let mut props = tree.root().properties();
    assert!(props.next().is_none());
    assert_eq!(props.error(), Some(DtError::UnterminatedString));
}

#[test]
fn unknown_token_is_malformed() {
    let mut s = Vec::new();
    begin(&mut s, "");
    word(&mut s, 7);
    end_node(&mut s);
    word(&mut s, END);
    let blob = blob_with(&s, b"", &[]);
    let tree = DevTree::new(&blob).unwrap();
    let mut props = tree.root().properties();
    assert!(props.next().is_none());
    assert_eq!(props.error(), Some(DtError::MalformedToken));
}

#[test]
fn nop_tokens_are_skipped() {
    let mut s = Vec::new();
    begin(&mut s, "");
    word(&mut s, NOP);
    prop(&mut s, 0, &[0, 0, 0, 1]);
    word(&mut s, NOP);
    prop(&mut s, 4, &[0, 0, 0, 0, 0, 0, 0, 2]);
    begin(&mut s, "a");
    end_node(&mut s);
    word(&mut s, NOP);
    begin(&mut s, "b");
    end_node(&mut s);
    end_node(&mut s);
    word(&mut s, END);
    let blob = blob_with(&s, b"one\0two\0", &[]);
    let tree = DevTree::new(&blob).unwrap();
    let root = tree.root();
    let mut props = root.properties();
    let first = props.next().unwrap();
    let second = props.next().unwrap();
    assert!(props.next().is_none());
    assert_eq!(props.error(), None);
    assert_eq!(first.name(), "one");
    assert_eq!(first.as_u32(), Some(1));
    assert_eq!(second.name(), "two");
    assert_eq!(second.as_u64(), Some(2));
    assert_eq!(names_of_children(root), vec!["a", "b"]);
}

#[test]
fn numeric_values_need_exact_lengths() {
    let bytes = [0x12, 0x34, 0x56, 0x78, 0x9a, 0xbc, 0xde, 0xf0];
    let p = Property::new("x", &bytes[..4]);
    assert_eq!(p.as_u32(), Some(0x12345678));
    assert_eq!(p.as_u32().unwrap().to_be_bytes(), [0x12, 0x34, 0x56, 0x78]);
    assert_eq!(p.as_u64(), None);
    let q = Property::new("y", &bytes);
    assert_eq!(q.as_u64(), Some(0x123456789abcdef0));
    assert_eq!(q.as_u64().unwrap().to_be_bytes(), bytes);
    assert_eq!(q.as_u32(), None);
    assert_eq!(Property::new("z", &bytes[..3]).as_u32(), None);
}

#[test]
fn string_values_need_a_terminator() {
    assert_eq!(Property::new("a", b"").as_string(), None);
    assert_eq!(Property::new("a", b"foo").as_string(), None);
    assert_eq!(Property::new("a", b"\0").as_string(), Some(""));
    assert_eq!(Property::new("a", &[0xff, 0]).as_string(), None);
}

#[test]
fn descendants_are_yielded_in_pre_order() {
    let mut s = Vec::new();
    begin(&mut s, "");
    prop(&mut s, 0, b"x\0");
    begin(&mut s, "soc");
    prop(&mut s, 0, &[1, 2, 3]);
    begin(&mut s, "uart@1000");
    end_node(&mut s);
    begin(&mut s, "uart@2000");
    end_node(&mut s);
    end_node(&mut s);
    begin(&mut s, "memory@0");
    end_node(&mut s);
    end_node(&mut s);
    word(&mut s, END);
    let blob = blob_with(&s, b"model\0", &[]);
    let tree = DevTree::new(&blob).unwrap();
    let root = tree.root();
    assert_eq!(
        descendant_names(root),
        vec!["", "soc", "uart@1000", "uart@2000", "memory@0"]
    );
    assert_eq!(names_of_children(root), vec!["soc", "memory@0"]);
    let soc = root.child("soc").unwrap();
    assert_eq!(names_of_children(&soc), vec!["uart@1000", "uart@2000"]);
    assert_eq!(descendant_names(&soc), vec!["soc", "uart@1000", "uart@2000"]);
    // repeated traversals agree
    assert_eq!(descendant_names(root), descendant_names(root));
}

#[test]
fn walk_stops_at_the_depth_limit() {
    let blob = blob_with(&two_children_structure(), b"", &[]);
    let tree = DevTree::new(&blob).unwrap();
    let mut it = tree.root().iter_descendants_within(1);
    assert_eq!(it.next().unwrap().name(), "");
    assert!(it.next().is_none());
    assert_eq!(it.error(), Some(DtError::TooDeep));
}

#[test]
fn unclosed_child_is_reported() {
    let mut s = Vec::new();
    begin(&mut s, "");
    begin(&mut s, "a");
    word(&mut s, END);
    let blob = blob_with(&s, b"", &[]);
    let tree = DevTree::new(&blob).unwrap();
    let mut kids = tree.root().children();
    assert!(kids.next().is_none());
    assert_eq!(kids.error(), Some(DtError::MalformedToken));
    let mut walk = tree.root().iter_descendants();
    assert_eq!(walk.next().unwrap().name(), "");
    assert_eq!(walk.next().unwrap().name(), "a");
    assert!(walk.next().is_none());
    assert_eq!(walk.error(), Some(DtError::MalformedToken));
}

#[test]
fn header_fields_are_decoded() {
    let blob = blob_with(&empty_tree_structure(), b"ab\0", &[(1, 2)]);
    let tree = DevTree::new(&blob).unwrap();
    let h = tree.header();
    assert_eq!(h.magic(), 0xd00dfeed);
    assert_eq!(h.totalsize() as usize, blob.len());
    assert_eq!(h.off_mem_rsvmap(), 40);
    assert_eq!(h.off_dt_struct(), 72);
    assert_eq!(h.size_dt_struct(), 16);
    assert_eq!(h.off_dt_strings(), 88);
    assert_eq!(h.size_dt_strings(), 3);
    assert_eq!(h.version(), 17);
    assert_eq!(h.last_comp_version(), 16);
    assert_eq!(h.boot_cpuid_phys(), 3);
}

#[test]
fn reservations_stop_at_the_blob_end() {
    // a table whose last record is not followed by a terminator inside the blob
    let mut blob = blob_with(&empty_tree_structure(), b"", &[]);
    let rsv_off = blob.len() as u32;
    blob.extend_from_slice(&7u64.to_be_bytes());
    blob.extend_from_slice(&0u64.to_be_bytes());
    let total = blob.len() as u32;
    blob[4..8].copy_from_slice(&total.to_be_bytes());
    blob[0x10..0x14].copy_from_slice(&rsv_off.to_be_bytes());
    let tree = DevTree::new(&blob).unwrap();
    let rsv = tree.mem_rsvmap();
    assert_eq!(rsv.len(), 1);
    assert_eq!(rsv.get(0), Some(MemReservation { address: 7, size: 0 }));
    assert_eq!(rsv.get(1), None);
}

#[test]
fn token_cursor_reads_are_bounds_checked() {
    let blob = blob_with(&two_children_structure(), b"", &[]);
    let tree = DevTree::new(&blob).unwrap();
    let root = tree.root();
    assert_eq!(root.read_token(0), Some(BEGIN_NODE));
    assert_eq!(root.read_token(8), Some(BEGIN_NODE));
    assert_eq!(root.read_byte(12), Some(b'c'));
    let len = root.dt_struct.len();
    assert_eq!(root.read_token(len - 4), Some(END));
    assert_eq!(root.read_token(len - 3), None);
    assert_eq!(root.read_byte(len), None);
}

#[test]
fn parse_child_node_finds_the_closing_token() {
    let blob = blob_with(&two_children_structure(), b"", &[]);
    let tree = DevTree::new(&blob).unwrap();
    let root = tree.root();
    let (child, after) = DevTreeNode::parse_child_node(root.dt_struct, root.dt_strings, 8).unwrap();
    assert_eq!(child.name(), "cpu@0");
    assert_eq!(after, 24);
    assert!(matches!(
        DevTreeNode::parse_child_node(root.dt_struct, root.dt_strings, 20),
        Err(DtError::MalformedToken)
    ));
}

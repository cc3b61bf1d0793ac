use olc_datafile_rust::Datafile;

fn get_datafile() -> Datafile {
    Datafile::new(None, None)
}

fn set_real(node: &mut Datafile, value: f32, index: usize) {
    node.set_string(&value.to_string(), index);
}

fn get_real(node: &Datafile, index: usize) -> f32 {
    let text = node.get_string(index);
    text.parse::<f32>()
        .unwrap_or_else(|_| text.replace(',', ".").parse::<f32>().unwrap_or(0.0))
}

#[test]
fn test_datafile_basic() {
    let mut datafile = get_datafile();
    assert_eq!(datafile.get_value_count(), 0);

    datafile.set_string("test", 0);
    assert_eq!(datafile.get_value_count(), 1);
    assert_eq!(datafile.get_string(0), "test");

    set_real(&mut datafile, 1.5, 1);
    assert_eq!(datafile.get_value_count(), 2);
    assert_eq!(get_real(&datafile, 1), 1.5);

    datafile.set_integer(1, 2);
    assert_eq!(datafile.get_value_count(), 3);
    assert_eq!(datafile.get_integer(2), 1);
}

#[test]
fn test_datafile_object() {
    let mut datafile = get_datafile();

    let some_node = datafile.get("some_node");
    some_node.get("name").set_string("Javid", 0);
    some_node.get("age").set_integer(24, 0);
    set_real(some_node.get("height"), 1.88, 0);

    some_node.get("some_list").set_string("item1", 0);
    some_node.get("some_list").set_string("item2", 1);
    some_node.get("some_list").set_string("item3", 2);

    let code = some_node.get("code");
    code.set_string("c++", 0);
    code.set_string("vhdl", 1);
    code.set_string("lua", 2);

    let pc = some_node.get("pc");
    pc.get("processor").set_string("intel", 0);
    pc.get("ram").set_integer(32, 0);

    // PC
    assert_eq!(pc.get("processor").get_value_count(), 1);
    assert_eq!(pc.get("processor").get_string(0), "intel");

    assert_eq!(pc.get("ram").get_value_count(), 1);
    assert_eq!(pc.get("ram").get_integer(0), 32);

    // Some node
    assert_eq!(some_node.get("name").get_value_count(), 1);
    assert_eq!(some_node.get("name").get_string(0), "Javid");

    assert_eq!(some_node.get("age").get_value_count(), 1);
    assert_eq!(some_node.get("age").get_integer(0), 24);

    assert_eq!(some_node.get("height").get_value_count(), 1);
    assert_eq!(get_real(some_node.get("height"), 0), 1.88);

    // Code
    assert_eq!(some_node.get("code").get_string(0), "c++");
    assert_eq!(some_node.get("code").get_string(1), "vhdl");
    assert_eq!(some_node.get("code").get_string(2), "lua");
}

#[test]
fn new_takes_defaults_for_what_is_not_given() {
    let datafile = Datafile::new(None, None);
    assert_eq!(datafile.list_separator, ',');
    assert_eq!(datafile.whitespace_sequence, "\t");

    let datafile = Datafile::new(Some(';'), Some("  "));
    assert_eq!(datafile.list_separator, ';');
    assert_eq!(datafile.whitespace_sequence, "  ");

    let datafile = Datafile::default();
    assert_eq!(datafile.list_separator, ',');
    assert_eq!(datafile.whitespace_sequence, "\t");
    assert_eq!(datafile.get_value_count(), 0);
}

#[test]
fn repeated_lookup_returns_the_same_child() {
    let mut datafile = get_datafile();
    assert!(!datafile.has_property("child"));

    datafile.get("child").set_string("first", 0);
    assert!(datafile.has_property("child"));
    assert_eq!(datafile.get("child").get_string(0), "first");

    datafile.get("child").set_string("second", 1);
    assert_eq!(datafile.get("child").get_value_count(), 2);
    assert_eq!(datafile.get("child").get_string(0), "first");
    assert_eq!(datafile.get("child").get_string(1), "second");

    // One entry only: the document names the child once.
    assert_eq!(datafile.write(), "child = first, second\n");
}

#[test]
fn child_inherits_the_formatting_of_its_parent() {
    let mut datafile = Datafile::new(Some(';'), Some("  "));
    let child = datafile.get("child");
    assert_eq!(child.list_separator, ';');
    assert_eq!(child.whitespace_sequence, "  ");

    datafile.list_separator = '|';
    assert_eq!(datafile.get("child").list_separator, ';');
    assert_eq!(datafile.get("other").list_separator, '|');
}

#[test]
fn set_value_beyond_the_end_fills_with_empty_values() {
    let mut datafile = get_datafile();
    datafile.set_string("six", 5);
    assert_eq!(datafile.get_value_count(), 6);
    for index in 0..5 {
        assert_eq!(datafile.get_string(index), "");
    }
    assert_eq!(datafile.get_string(5), "six");

    datafile.set_string("three", 2);
    assert_eq!(datafile.get_value_count(), 6);
    assert_eq!(datafile.get_string(2), "three");
    assert_eq!(datafile.get_string(5), "six");
}

#[test]
fn get_value_out_of_range_is_empty() {
    let mut datafile = get_datafile();
    assert_eq!(datafile.get_string(0), "");
    assert_eq!(datafile.get_integer(0), 0);
    datafile.set_string("x", 0);
    assert_eq!(datafile.get_string(1), "");
    assert_eq!(datafile.get_string(usize::MAX), "");
    assert_eq!(datafile.get_integer(7), 0);
}

#[test]
fn get_integer_reads_text_leniently() {
    let mut datafile = get_datafile();
    datafile.set_string("1.5", 0);
    datafile.set_string("1,5", 1);
    datafile.set_string("hello", 2);
    datafile.set_integer(-17, 3);
    assert_eq!(datafile.get_integer(0), 1);
    assert_eq!(datafile.get_integer(1), 1);
    assert_eq!(datafile.get_integer(2), 0);
    assert_eq!(datafile.get_integer(3), -17);
    assert_eq!(datafile.get_string(3), "-17");
}

#[test]
fn get_property_makes_every_node_of_the_path() {
    let mut datafile = get_datafile();
    assert_eq!(datafile.get_property("a.b.c").get_value_count(), 0);
    assert!(datafile.has_property("a"));
    assert!(datafile.get("a").has_property("b"));
    assert!(datafile.get("a").get("b").has_property("c"));
    assert!(!datafile.has_property("b"));
    assert!(!datafile.has_property("a.b.c"));

    datafile.get("a").get("b").get("c").set_string("deep", 0);
    assert_eq!(datafile.get_property("a.b.c").get_string(0), "deep");
    assert_eq!(datafile.get_property("a.b").get_value_count(), 0);
}

#[test]
fn get_property_without_a_period_is_a_lookup() {
    let mut datafile = get_datafile();
    datafile.get("plain").set_integer(3, 0);
    assert_eq!(datafile.get_property("plain").get_integer(0), 3);
    assert_eq!(datafile.get_property("fresh").get_value_count(), 0);
    assert!(datafile.has_property("fresh"));
}

#[test]
fn get_property_keeps_empty_names() {
    let mut datafile = get_datafile();
    datafile.get_property("a..b");
    assert!(datafile.get("a").has_property(""));
    assert!(datafile.get("a").get("").has_property("b"));
}

#[test]
fn get_indexed_property_looks_up_the_name_with_brackets() {
    let mut datafile = get_datafile();
    datafile.get_indexed_property("list", 3);
    assert!(datafile.has_property("list[3]"));
    assert!(!datafile.has_property("list"));

    datafile.get("list[10]").set_string("ten", 0);
    assert_eq!(datafile.get_indexed_property("list", 10).get_string(0), "ten");

    datafile.get_indexed_property("a.b", 0);
    assert!(datafile.get("a").has_property("b[0]"));
}

#[test]
fn clone_is_a_tree_of_its_own() {
    let mut datafile = get_datafile();
    datafile.get("a").set_integer(1, 0);
    datafile.get("b").get("c").set_string("x", 0);

    let mut copy = datafile.clone();
    assert_eq!(copy.write(), datafile.write());
    assert!(copy.has_property("a"));
    assert!(copy.get("b").has_property("c"));

    copy.get("a").set_integer(2, 0);
    copy.get("d").set_string("new", 0);
    assert_eq!(datafile.get("a").get_integer(0), 1);
    assert!(!datafile.has_property("d"));
    assert_eq!(copy.get("a").get_integer(0), 2);
    assert_eq!(copy.write(), "a = 2\n\nb\n{\n\tc = x\n}\nd = new\n");
}

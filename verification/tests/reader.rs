use olc_datafile_rust::Datafile;
use olc_datafile_rust::Reader;

fn lines(text: &[&str]) -> Vec<String> {
    text.iter().map(|line| line.to_string()).collect()
}

fn parse(text: &[&str]) -> Datafile {
    let mut datafile = Datafile::new(None, None);
    datafile.read(&lines(text));
    datafile
}

#[test]
fn value_line_assigns_values_in_order() {
    let mut datafile = parse(&["name = token1, token2, token3"]);
    assert!(datafile.has_property("name"));
    let name = datafile.get("name");
    assert_eq!(name.get_value_count(), 3);
    assert_eq!(name.get_string(0), "token1");
    assert_eq!(name.get_string(1), "token2");
    assert_eq!(name.get_string(2), "token3");
}

#[test]
fn quoted_value_keeps_the_separator() {
    let mut datafile = parse(&["name = token1, \"token, with separator\""]);
    let name = datafile.get("name");
    assert_eq!(name.get_value_count(), 2);
    assert_eq!(name.get_string(0), "token1");
    assert_eq!(name.get_string(1), "token, with separator");
}

#[test]
fn empty_value_leaves_the_key_absent() {
    let mut datafile = parse(&["key=", "other =   ", "third = 3"]);
    assert!(!datafile.has_property("key"));
    assert!(!datafile.has_property("other"));
    assert!(datafile.has_property("third"));
    assert_eq!(datafile.get("third").get_integer(0), 3);
    assert_eq!(datafile.write(), "third = 3\n");
}

#[test]
fn value_of_quotes_only_leaves_the_key_absent() {
    let datafile = parse(&["key=\"\""]);
    assert!(!datafile.has_property("key"));
}

#[test]
fn white_space_beside_quotes_is_an_empty_value() {
    let mut datafile = parse(&["key = \"\""]);
    assert!(datafile.has_property("key"));
    assert_eq!(datafile.get("key").get_value_count(), 1);
    assert_eq!(datafile.get("key").get_string(0), "");
}

#[test]
fn empty_values_between_separators_are_kept() {
    let mut datafile = parse(&["key = a,,b,"]);
    let key = datafile.get("key");
    assert_eq!(key.get_value_count(), 3);
    assert_eq!(key.get_string(0), "a");
    assert_eq!(key.get_string(1), "");
    assert_eq!(key.get_string(2), "b");
}

#[test]
fn value_is_split_at_the_first_equals_sign() {
    let mut datafile = parse(&["key = a = b"]);
    assert_eq!(datafile.get("key").get_value_count(), 1);
    assert_eq!(datafile.get("key").get_string(0), "a = b");
}

#[test]
fn values_and_keys_are_trimmed() {
    let mut datafile = parse(&["\t  spaced key   =    one  ,   two   "]);
    assert!(datafile.has_property("spaced key"));
    let key = datafile.get("spaced key");
    assert_eq!(key.get_string(0), "one");
    assert_eq!(key.get_string(1), "two");
}

#[test]
fn comment_line_becomes_a_comment_child() {
    let mut datafile = parse(&["node", "{", "    #hello", "    value = 1", "}"]);
    let node = datafile.get("node");
    assert!(!node.has_property("#hello"));
    assert!(!node.has_property("hello"));
    assert!(node.has_property("value"));
    assert_eq!(datafile.write(), "\nnode\n{\n\t#hello\n\tvalue = 1\n}\n".trim_start_matches('\n'));
}

#[test]
fn equal_comment_lines_make_two_children() {
    let datafile = parse(&["#same", "#same", "a = 1"]);
    assert_eq!(datafile.write(), "#same\n#same\na = 1\n");
}

#[test]
fn comment_with_equals_sign_stays_a_comment() {
    let datafile = parse(&["# key = value"]);
    assert!(!datafile.has_property("# key"));
    assert_eq!(datafile.write(), "# key = value\n");
}

#[test]
fn nested_scopes_are_read_by_descent() {
    let mut datafile = parse(&[
        "container_name",
        "{",
        "    child_a = 1",
        "    child_b",
        "    {",
        "        leaf = x",
        "    }",
        "    #a literal comment line",
        "    child_c = 3",
        "}",
        "after = 4",
    ]);
    let container = datafile.get("container_name");
    assert_eq!(container.get("child_a").get_integer(0), 1);
    assert_eq!(container.get("child_b").get("leaf").get_string(0), "x");
    assert_eq!(container.get("child_c").get_integer(0), 3);
    assert!(!container.has_property("after"));
    assert!(!container.get("child_b").has_property("child_c"));
    assert!(datafile.has_property("after"));
    assert_eq!(datafile.get("after").get_integer(0), 4);
}

#[test]
fn top_level_values_attach_to_the_root() {
    let mut datafile = parse(&["first = 1", "", "second = 2"]);
    assert_eq!(datafile.get("first").get_integer(0), 1);
    assert_eq!(datafile.get("second").get_integer(0), 2);
}

#[test]
fn unmatched_closing_brace_ends_the_reading() {
    let datafile = parse(&["a = 1", "}", "b = 2"]);
    assert!(datafile.has_property("a"));
    assert!(!datafile.has_property("b"));
}

#[test]
fn scope_left_open_ends_with_the_lines() {
    let mut datafile = parse(&["outer", "{", "inner", "{", "x = 1"]);
    assert_eq!(datafile.get("outer").get("inner").get("x").get_integer(0), 1);
}

#[test]
fn header_without_brace_still_opens_a_scope() {
    let mut datafile = parse(&["outer", "x = 1", "}", "y = 2"]);
    assert!(datafile.get("outer").has_property("x"));
    assert!(datafile.has_property("y"));
    assert!(!datafile.has_property("x"));
}

#[test]
fn duplicate_headers_open_the_same_child() {
    let mut datafile = parse(&["node", "{", "a = 1", "}", "node", "{", "b = 2", "}"]);
    let node = datafile.get("node");
    assert_eq!(node.get("a").get_integer(0), 1);
    assert_eq!(node.get("b").get_integer(0), 2);
    assert_eq!(datafile.write(), "node\n{\n\ta = 1\n\tb = 2\n}\n");
}

#[test]
fn reading_writes_over_values_and_keeps_the_rest() {
    let mut datafile = Datafile::new(None, None);
    let key = datafile.get("key");
    key.set_string("old0", 0);
    key.set_string("old1", 1);
    key.set_string("old2", 2);
    datafile.get("kept").set_string("here", 0);

    datafile.read(&lines(&["key = new0, new1"]));
    let key = datafile.get("key");
    assert_eq!(key.get_value_count(), 3);
    assert_eq!(key.get_string(0), "new0");
    assert_eq!(key.get_string(1), "new1");
    assert_eq!(key.get_string(2), "old2");
    assert_eq!(datafile.get("kept").get_string(0), "here");
}

#[test]
fn reader_fills_the_tree_it_was_made_for() {
    let mut datafile = Datafile::new(Some(';'), None);
    let reader = Reader::new(&mut datafile);
    reader.read(&lines(&["list = a; b, c; \"d; e\""]));
    let list = datafile.get("list");
    assert_eq!(list.get_value_count(), 3);
    assert_eq!(list.get_string(0), "a");
    assert_eq!(list.get_string(1), "b, c");
    assert_eq!(list.get_string(2), "d; e");
}

#[test]
fn read_inner_returns_the_line_behind_the_scope() {
    let text = lines(&["a = 1", "}", "b = 2", "sub", "{", "c = 3", "}", "d = 4"]);
    let mut datafile = Datafile::new(None, None);
    assert_eq!(Reader::read_inner(&mut datafile, &text, 0), 2);
    assert_eq!(Reader::read_inner(&mut datafile, &text, 2), 8);
    assert_eq!(Reader::read_inner(&mut datafile, &text, 8), 8);
    assert!(datafile.has_property("a"));
    assert!(datafile.has_property("b"));
    assert!(datafile.has_property("d"));
    assert_eq!(datafile.get("sub").get("c").get_integer(0), 3);
}

#[test]
fn trim_line_removes_white_space_at_both_ends() {
    assert_eq!(Reader::trim_line("  \t x = 1 \r"), "x = 1");
    assert_eq!(Reader::trim_line("\u{3000}wide\u{a0}"), "wide");
    assert_eq!(Reader::trim_line("   "), "");
    assert_eq!(Reader::trim_line(""), "");
    assert_eq!(Reader::trim_line("a b"), "a b");
}

#[test]
fn parse_value_from_line_counts_values_from_zero() {
    let mut datafile = Datafile::new(None, None);
    Reader::parse_value_from_line(&mut datafile, " key ", " 1, \"2, 3\" ,4");
    let key = datafile.get("key");
    assert_eq!(key.get_value_count(), 3);
    assert_eq!(key.get_string(0), "1");
    assert_eq!(key.get_string(1), "2, 3");
    assert_eq!(key.get_string(2), "4");
}

#[test]
fn quote_inside_a_value_joins_its_parts() {
    let mut datafile = Datafile::new(None, None);
    Reader::parse_value_from_line(&mut datafile, "key", "ab\"c,d\"ef, g");
    let key = datafile.get("key");
    assert_eq!(key.get_value_count(), 2);
    assert_eq!(key.get_string(0), "abc,def");
    assert_eq!(key.get_string(1), "g");
}

#[test]
fn large_document_is_read() {
    let mut text = Vec::new();
    for depth in 0..200 {
        text.push(format!("{}level{depth}", " ".repeat(depth)));
        text.push(format!("{}{{", " ".repeat(depth)));
    }
    for index in 0..20_000 {
        text.push(format!("key{index} = {index}, \"a, b\", c"));
    }
    for _ in 0..200 {
        text.push("}".to_string());
    }
    text.push("last = 1".to_string());

    let mut datafile = Datafile::new(None, None);
    datafile.read(&text);
    assert!(datafile.has_property("level0"));
    assert!(datafile.has_property("last"));
    let mut node = &mut datafile;
    for depth in 0..200 {
        node = node.get(&format!("level{depth}"));
    }
    assert_eq!(node.get("key19999").get_integer(0), 19999);
    assert_eq!(node.get("key19999").get_string(1), "a, b");
    assert_eq!(node.get("key0").get_value_count(), 3);
}

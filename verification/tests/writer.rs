use olc_datafile_rust::Datafile;
use olc_datafile_rust::Writer;

fn lines_of(text: &str) -> Vec<String> {
    text.lines().map(|line| line.to_string()).collect()
}

#[test]
fn value_nodes_are_written_as_lines() {
    let mut datafile = Datafile::new(None, None);
    datafile.get("a").set_integer(1, 0);
    let list = datafile.get("list");
    list.set_string("x", 0);
    list.set_string("y", 1);
    list.set_string("z", 2);
    assert_eq!(datafile.write(), "a = 1\nlist = x, y, z\n");
}

#[test]
fn container_is_written_as_a_block() {
    let mut datafile = Datafile::new(None, None);
    datafile.get("a").set_integer(1, 0);
    datafile.get("b").get("c").set_string("x", 0);
    datafile.get("d").set_integer(4, 0);
    assert_eq!(datafile.write(), "a = 1\n\nb\n{\n\tc = x\n}\nd = 4\n");
}

#[test]
fn leading_line_break_is_taken_off() {
    let mut datafile = Datafile::new(None, Some("  "));
    datafile.get("outer").get("inner").get("leaf").set_string("v", 0);
    assert_eq!(
        datafile.write(),
        "outer\n{\n\n  inner\n  {\n    leaf = v\n  }\n}\n"
    );
}

#[test]
fn empty_tree_is_an_empty_document() {
    let datafile = Datafile::new(None, None);
    assert_eq!(datafile.write(), "");
}

#[test]
fn node_without_values_is_written_with_an_empty_list() {
    let mut datafile = Datafile::new(None, None);
    datafile.get("empty");
    assert_eq!(datafile.write(), "empty = \n");
}

#[test]
fn values_of_a_container_are_not_written() {
    let mut datafile = Datafile::new(None, None);
    datafile.get("b").set_string("lost", 0);
    datafile.get("b").get("c").set_string("x", 0);
    assert_eq!(datafile.write(), "b\n{\n\tc = x\n}\n");
}

#[test]
fn value_with_separator_is_quoted() {
    let mut datafile = Datafile::new(Some(','), None);
    let node = datafile.get("foo");
    node.set_string("foo", 0);
    node.set_string("bar, baz", 1);
    let text = datafile.write();
    assert_eq!(text, "foo = foo, \"bar, baz\"\n");

    let mut read = Datafile::new(Some(','), None);
    read.read(&lines_of(&text));
    assert_eq!(read.get("foo").get_value_count(), 2);
    assert_eq!(read.get("foo").get_string(0), "foo");
    assert_eq!(read.get("foo").get_string(1), "bar, baz");
}

#[test]
fn formatting_of_the_root_is_used_for_the_whole_tree() {
    let mut datafile = Datafile::new(Some(';'), Some("--"));
    let list = datafile.get("outer").get("list");
    list.set_string("a;b", 0);
    list.set_string("c,d", 1);
    list.list_separator = ',';
    assert_eq!(datafile.write(), "outer\n{\n--list = \"a;b\"; c,d\n}\n");
}

#[test]
fn writer_collects_the_document() {
    let mut datafile = Datafile::new(None, None);
    datafile.get("a").set_integer(1, 0);
    let mut writer = Writer::new(&datafile);
    assert_eq!(writer.write(), "a = 1\n");
    assert_eq!(writer.write(), "a = 1\na = 1\n");
}

#[test]
fn write_and_read_recover_the_tree() {
    let mut datafile = Datafile::new(Some(','), Some(" "));

    let some_node = datafile.get("some_node");
    some_node.get("name").set_string("Javid", 0);
    some_node.get("age").set_integer(24, 0);
    some_node.get("height").set_string(&1.88f32.to_string(), 0);

    let code = some_node.get("code");
    code.set_string("c++", 0);
    code.set_string("vhdl", 1);
    code.set_string("lua", 2);

    let pc = some_node.get("pc");
    pc.get("processor").set_string("intel", 0);
    pc.get("ram").set_integer(32, 0);

    let text = datafile.write();
    assert_eq!(
        text,
        "some_node\n{\n name = Javid\n age = 24\n height = 1.88\n code = c++, vhdl, lua\n\n pc\n {\n  processor = intel\n  ram = 32\n }\n}\n"
    );

    let mut read = Datafile::new(Some(','), Some(" "));
    read.read(&lines_of(&text));

    assert!(read.has_property("some_node"));
    let some_node = read.get("some_node");
    assert!(some_node.has_property("name"));
    assert!(some_node.has_property("pc"));
    assert!(!some_node.has_property("processor"));
    assert_eq!(some_node.get("name").get_value_count(), 1);
    assert_eq!(some_node.get("name").get_string(0), "Javid");
    assert_eq!(some_node.get("age").get_value_count(), 1);
    assert_eq!(some_node.get("age").get_integer(0), 24);
    assert_eq!(some_node.get("height").get_value_count(), 1);
    assert_eq!(some_node.get("height").get_string(0).parse::<f32>(), Ok(1.88));
    assert_eq!(some_node.get("height").get_integer(0), 1);
    assert_eq!(some_node.get("code").get_value_count(), 3);
    assert_eq!(some_node.get("code").get_string(0), "c++");
    assert_eq!(some_node.get("code").get_string(1), "vhdl");
    assert_eq!(some_node.get("code").get_string(2), "lua");
    let pc = some_node.get("pc");
    assert_eq!(pc.get("processor").get_value_count(), 1);
    assert_eq!(pc.get("processor").get_string(0), "intel");
    assert_eq!(pc.get("ram").get_value_count(), 1);
    assert_eq!(pc.get("ram").get_integer(0), 32);

    assert_eq!(read.write(), text);
}

#[test]
fn comment_is_written_without_equals_sign() {
    let mut datafile = Datafile::new(None, None);
    datafile.read(&lines_of("node\n{\n\t#hello\n\tx = 1\n}\n#top"));
    assert_eq!(datafile.write(), "node\n{\n\t#hello\n\tx = 1\n}\n#top\n");
}

fn next(state: &mut u64) -> u64 {
    *state = state
        .wrapping_mul(6364136223846793005)
        .wrapping_add(1442695040888963407);
    *state >> 33
}

fn word(state: &mut u64, alphabet: &[char]) -> String {
    let length = 1 + next(state) % 6;
    let mut text = String::new();
    for _ in 0..length {
        text.push(alphabet[(next(state) % alphabet.len() as u64) as usize]);
    }
    text.trim().to_string()
}

fn fill(node: &mut Datafile, state: &mut u64, depth: u32) {
    let names = ['a', 'b', 'c', 'd', 'e', 'x', 'y', '_', '1', ' ', '.', '#', '{', '}'];
    let values = ['a', 'b', '0', '1', ' ', ',', ';', '=', '#', '{', '}', '.', '-'];
    let count = 1 + next(state) % 4;
    for _ in 0..count {
        let mut name = word(state, &names);
        if name.is_empty() || name.starts_with('#') || name == "{" || name == "}" {
            name.insert(0, 'n');
        }
        let child = node.get(&name);
        if child.get_value_count() > 0 || child.has_property("k") {
            continue;
        }
        if depth > 0 && next(state) % 3 == 0 {
            child.get("k").set_string("v", 0);
            fill(child, state, depth - 1);
        } else {
            let length = 1 + next(state) % 4;
            for index in 0..length {
                let mut value = word(state, &values);
                if value.is_empty() && index + 1 == length {
                    value.push('z');
                }
                child.set_string(&value, index as usize);
            }
        }
    }
}

#[test]
fn documents_of_many_trees_are_read_back() {
    let mut state = 42;
    for round in 0..200 {
        let separator = [',', ';', '|', '\t'][round % 4];
        let indentation = ["\t", " ", "    ", ""][round % 3];
        let mut datafile = Datafile::new(Some(separator), Some(indentation));
        fill(&mut datafile, &mut state, 3);
        let text = datafile.write();

        let mut read = Datafile::new(Some(separator), Some(indentation));
        read.read(&lines_of(&text));
        assert_eq!(read.write(), text, "round {round}");
    }
}

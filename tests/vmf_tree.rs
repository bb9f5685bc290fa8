use botpath::vmf::{Vmf, VmfEntry, VmfError};

fn parse(text: &str) -> Result<Vmf, VmfError> {
    Vmf::from_string(text)
}

fn leaf(e: &VmfEntry) -> String {
    e.to_str().unwrap().to_string()
}

#[test]
fn repeated_keys_keep_their_order() {
    let text = "world\n{\n\"id\" \"1\"\n\"id\" \"2\"\nsolid\n{\n\"id\" \"3\"\n}\n\"id\" \"4\"\n}\n";
    let vmf = parse(text).unwrap();
    let world = vmf.root.get_one("world").unwrap();
    let ids = world.get_all("id").unwrap();
    let got: Vec<String> = ids.iter().map(leaf).collect();
    assert_eq!(got, vec!["1", "2", "4"]);
    let solid = world.get_one("solid").unwrap();
    assert_eq!(leaf(solid.get_one("id").unwrap()), "3");
}

#[test]
fn nested_branches_under_one_key() {
    let text = "a\n{\nb\n{\n\"k\" \"x\"\n}\nb\n{\n\"k\" \"y\"\n}\n}\n";
    let vmf = parse(text).unwrap();
    let a = vmf.root.get_one("a").unwrap();
    let bs = a.get_all("b").unwrap();
    assert_eq!(bs.len(), 2);
    assert_eq!(leaf(bs[0].get_one("k").unwrap()), "x");
    assert_eq!(leaf(bs[1].get_one("k").unwrap()), "y");
}

#[test]
fn surrounding_whitespace_and_blank_lines_are_ignored() {
    let text = "\n   a  \r\n\t{\n   \"k\"   \"v\"\n\n  \"k2\" \"v2\"  \n}\n\n";
    let vmf = parse(text);
    // "k"   "v" is no leaf line (three spaces), so it opens a branch without a brace
    assert_eq!(vmf.err(), Some(VmfError::MissingOpenBrace));
    let text = "\n   a  \r\n\t{\n  \"k2\" \"v2\"  \n}\n\n";
    let vmf = parse(text).unwrap();
    let a = vmf.root.get_one("a").unwrap();
    assert_eq!(leaf(a.get_one("k2").unwrap()), "v2");
}

#[test]
fn leaf_key_takes_the_longest_match() {
    let vmf = parse("\"a\" \"b\" \"c\"\n").unwrap();
    let e = vmf.root.get_one("a\" \"b").unwrap();
    assert_eq!(leaf(e), "c");
    assert_eq!(vmf.root.get_one("a").err(), Some(VmfError::MissingKey));
}

#[test]
fn empty_key_and_value() {
    let vmf = parse("\"\" \"\"\n").unwrap();
    assert_eq!(leaf(vmf.root.get_one("").unwrap()), "");
}

#[test]
fn extra_closing_brace_fails() {
    assert_eq!(parse("a\n{\n}\n}\n").err(), Some(VmfError::UnbalancedClose));
    assert_eq!(parse("}").err(), Some(VmfError::UnbalancedClose));
}

#[test]
fn unclosed_branch_fails() {
    assert_eq!(parse("a\n{\n\"k\" \"v\"\n").err(), Some(VmfError::UnclosedBranch));
    assert_eq!(parse("a\n{\nb\n{\n}\n").err(), Some(VmfError::UnclosedBranch));
}

#[test]
fn branch_name_without_brace_fails() {
    assert_eq!(parse("a\n\"k\" \"v\"\n").err(), Some(VmfError::MissingOpenBrace));
    assert_eq!(parse("a").err(), Some(VmfError::MissingOpenBrace));
    assert_eq!(parse("a\n\n{\n}\n").err(), Some(VmfError::MissingOpenBrace));
}

#[test]
fn empty_text_is_an_empty_root() {
    let vmf = parse("").unwrap();
    assert_eq!(vmf.root.get_all("anything").unwrap().len(), 0);
}

#[test]
fn lookups_and_their_errors() {
    let vmf = parse("\"k\" \"1\"\n\"k\" \"2\"\n\"one\" \"x\"\nb\n{\n}\n").unwrap();
    let root = &vmf.root;
    assert_eq!(root.get_one("k").err(), Some(VmfError::NotSingle));
    assert_eq!(root.get_one("missing").err(), Some(VmfError::MissingKey));
    assert_eq!(root.get_all("missing").unwrap().len(), 0);
    let one = root.get_one("one").unwrap();
    assert_eq!(one.get_one("x").err(), Some(VmfError::NotBranch));
    assert_eq!(one.get_all("x").err(), Some(VmfError::NotBranch));
    let b = root.get_one("b").unwrap();
    assert_eq!(b.to_str().err(), Some(VmfError::NotLeaf));
    assert_eq!(b.to_vertex().err(), Some(VmfError::NotLeaf));
}

#[test]
fn vertex_fields() {
    let vmf = parse("\"v\" \"1 -2.5 3e2\"\n\"w\" \"1 2\"\n\"u\" \"1  2 3\"\n\"x\" \"1 2 3 4\"\n")
        .unwrap();
    let v = vmf.root.get_one("v").unwrap().to_vertex().unwrap();
    assert_eq!(v, vec!["1".to_string(), "-2.5".to_string(), "3e2".to_string()]);
    assert_eq!(vmf.root.get_one("w").unwrap().to_vertex().err(), Some(VmfError::BadVertex));
    assert_eq!(vmf.root.get_one("x").unwrap().to_vertex().err(), Some(VmfError::BadVertex));
    let u = vmf.root.get_one("u").unwrap().to_vertex().unwrap();
    assert_eq!(u, vec!["1".to_string(), "2".to_string(), "3".to_string()]);
}

#[test]
fn vertex_fields_split_on_any_whitespace() {
    let vmf = parse("\"t\" \"\t4\t5 \u{A0}6 \"\n\"e\" \" \"\n").unwrap();
    let t = vmf.root.get_one("t").unwrap().to_vertex().unwrap();
    assert_eq!(t, vec!["4".to_string(), "5".to_string(), "6".to_string()]);
    assert_eq!(vmf.root.get_one("e").unwrap().to_vertex().err(), Some(VmfError::BadVertex));
}

#[test]
fn unicode_whitespace_is_trimmed() {
    let vmf = parse("\u{3000}a\u{A0}\r\n{\u{2003}\n\t\"k\" \"v\"\u{85}\n}\n").unwrap();
    let a = vmf.root.get_one("a").unwrap();
    assert_eq!(leaf(a.get_one("k").unwrap()), "v");
}

#[test]
fn text_without_final_line_break() {
    let vmf = parse("a\n{\n\"k\" \"v\"\n}").unwrap();
    assert_eq!(leaf(vmf.root.get_one("a").unwrap().get_one("k").unwrap()), "v");
}

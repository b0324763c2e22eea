use rkui::proto_decoder::metadata::{
    collect_messages_from_descriptor, extract_from_file_descriptor, proto_metadata, sorted_unique,
    FileShape, MessageShape,
};

fn msg(name: &str, nested: Vec<MessageShape>) -> MessageShape {
    MessageShape { name: name.to_string(), nested }
}

fn names(list: &[&str]) -> Vec<String> {
    list.iter().map(|s| s.to_string()).collect()
}

#[test]
fn full_names_are_collected_outer_before_inner() {
    let person = msg(
        "Person",
        vec![msg("Address", vec![msg("Geo", vec![])]), msg("", vec![msg("Hidden", vec![])]), msg("Phone", vec![])],
    );
    let mut out = names(&["kept"]);
    collect_messages_from_descriptor("example", &person, &mut out, None);
    assert_eq!(
        out,
        names(&[
            "kept",
            "example.Person",
            "example.Person.Address",
            "example.Person.Address.Geo",
            "example.Person.Phone"
        ])
    );
    let mut bare = Vec::new();
    collect_messages_from_descriptor("", &person, &mut bare, Some(""));
    assert_eq!(bare, names(&["Person", "Person.Address", "Person.Address.Geo", "Person.Phone"]));
    let mut inner = Vec::new();
    collect_messages_from_descriptor("p", &msg("M", vec![]), &mut inner, Some("Outer.Mid"));
    assert_eq!(inner, names(&["p.Outer.Mid.M"]));
    let mut none = Vec::new();
    collect_messages_from_descriptor("p", &msg("", vec![msg("X", vec![])]), &mut none, None);
    assert!(none.is_empty());
}

#[test]
fn file_gives_its_package_and_its_messages() {
    let file = FileShape { package: "shop".to_string(), messages: vec![msg("Order", vec![msg("Line", vec![])]), msg("Item", vec![])] };
    let mut packages = Vec::new();
    let mut messages = Vec::new();
    extract_from_file_descriptor(&file, &mut packages, &mut messages);
    assert_eq!(packages, names(&["shop"]));
    assert_eq!(messages, names(&["shop.Order", "shop.Order.Line", "shop.Item"]));
    let unpackaged = FileShape { package: String::new(), messages: vec![msg("Loose", vec![])] };
    extract_from_file_descriptor(&unpackaged, &mut packages, &mut messages);
    assert_eq!(packages, names(&["shop"]));
    assert_eq!(messages.last().map(|s| s.as_str()), Some("Loose"));
}

#[test]
fn metadata_is_sorted_and_without_repeats() {
    let files = vec![
        FileShape { package: "shop".to_string(), messages: vec![msg("Order", vec![]), msg("Item", vec![])] },
        FileShape { package: "crm".to_string(), messages: vec![msg("Person", vec![])] },
        FileShape { package: "shop".to_string(), messages: vec![msg("Item", vec![])] },
        FileShape { package: String::new(), messages: vec![msg("Zed", vec![]), msg("Alpha", vec![])] },
    ];
    let meta = proto_metadata(&files);
    assert_eq!(meta.packages, names(&["crm", "shop"]));
    assert_eq!(meta.messages, names(&["Alpha", "Zed", "crm.Person", "shop.Item", "shop.Order"]));
    let none = proto_metadata(&vec![]);
    assert!(none.packages.is_empty() && none.messages.is_empty());
}

#[test]
fn names_are_sorted_as_strings_are() {
    assert_eq!(
        sorted_unique(names(&["b", "a", "B", "ab", "a", "", "\u{e9}", "b", "aa"])),
        names(&["", "B", "a", "aa", "ab", "b", "\u{e9}"])
    );
    assert!(sorted_unique(vec![]).is_empty());
}

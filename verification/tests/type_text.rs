use llzk_spec::ir::llzk::MemberType;
use llzk_spec::ir::type_text::{member_type_of, split_top, PrintedMember, PrintedStruct};

fn chars(s: &str) -> Vec<char> {
    s.chars().collect()
}

fn texts(parts: Vec<Vec<char>>) -> Vec<String> {
    parts.into_iter().map(|p| p.into_iter().collect()).collect()
}

#[test]
fn splitting_skips_separators_inside_brackets() {
    let parts = split_top(&chars("@a: !array.type<2,3 x i1>, @b: (i1, i1), [x,y]"), &chars(","));
    assert_eq!(texts(parts), vec!["@a: !array.type<2,3 x i1>", " @b: (i1, i1)", " [x,y]"]);
}

#[test]
fn splitting_without_separator_gives_the_whole_text() {
    assert_eq!(texts(split_top(&chars("abc"), &chars(","))), vec!["abc"]);
    assert_eq!(texts(split_top(&chars(""), &chars(","))), vec![""]);
}

fn structs() -> Vec<PrintedStruct> {
    vec![
        PrintedStruct {
            name: "Inner".to_string(),
            members: vec![
                PrintedMember { name: "x".to_string(), public: true, ty: "!felt.type".to_string() },
                PrintedMember { name: "y".to_string(), public: false, ty: "!array.type<4 x !felt.type>".to_string() },
            ],
        },
        PrintedStruct { name: "Inner".to_string(), members: vec![] },
    ]
}

#[test]
fn struct_types_follow_the_first_definition_of_their_name() {
    let t = member_type_of(&chars("  !struct.type<@Mod::@Inner<[]>>  "), &structs(), 2);
    let MemberType::Struct(Some(ms)) = t else { panic!() };
    assert_eq!(ms.len(), 2);
    assert_eq!(ms[0].name, "x");
    assert!(ms[0].public);
    assert!(matches!(ms[0].ty, MemberType::Other));
    assert!(!ms[1].public);
    let MemberType::Array(1, e) = &ms[1].ty else { panic!() };
    assert!(matches!(**e, MemberType::Other));
}

#[test]
fn struct_types_are_not_followed_past_the_depth() {
    assert!(matches!(member_type_of(&chars("!struct.type<@Inner>"), &structs(), 0), MemberType::Struct(None)));
    assert!(matches!(member_type_of(&chars("!struct.type<@Missing>"), &structs(), 3), MemberType::Struct(None)));
}

#[test]
fn pod_records_are_named_without_their_at_sign() {
    let t = member_type_of(&chars("!pod.type<[@a: !felt.type, @b: !array.type<2,3 x i1>]>"), &structs(), 1);
    let MemberType::Pod(rs) = t else { panic!() };
    assert_eq!(rs.len(), 2);
    assert_eq!(rs[0].0, "a");
    assert_eq!(rs[1].0, "b");
    let MemberType::Array(2, _) = &rs[1].1 else { panic!() };
    assert!(matches!(member_type_of(&chars("!pod.type<[ ]>"), &structs(), 1), MemberType::Pod(v) if v.is_empty()));
}

#[test]
fn other_types_stand_for_themselves() {
    assert!(matches!(member_type_of(&chars("!felt.type"), &structs(), 1), MemberType::Other));
    assert!(matches!(member_type_of(&chars("index"), &structs(), 1), MemberType::Other));
}

use arithmetic::replace::Replace;

fn table() -> Replace {
    let mut reps = Replace::default();
    reps.insert("name", "user");
    reps.insert("author", "Mll");
    reps
}

#[test]
fn aaa() {
    let reps = table();

    let s1 = String::from("// {{ author }} \nfn Get{{ name }}() {}");
    let s2 = String::from("fn put_{{ name }}() {}");
    println!("{}", reps.replace(&s1));
    println!("{}", reps.replace(&s2));
}

#[test]
fn replaces_placeholders_and_capitalizes_inside_a_capitalized_word() {
    let reps = table();
    assert_eq!(
        "// Mll \nfn GetUser() {}",
        reps.replace("// {{ author }} \nfn Get{{ name }}() {}")
    );
    assert_eq!("fn put_user() {}", reps.replace("fn put_{{ name }}() {}"));
}

#[test]
fn unknown_key_is_left_in_place() {
    let reps = table();
    assert_eq!("a {{ other }} b", reps.replace("a {{ other }} b"));
}

#[test]
fn key_is_trimmed_and_later_insert_wins() {
    let mut reps = table();
    reps.insert("name", "admin");
    assert_eq!("x admin y", reps.replace("x {{\tname  }} y"));
    assert_eq!("xadmin", reps.replace("x{{name}}"));
}

#[test]
fn unclosed_placeholder_is_dropped() {
    let reps = table();
    assert_eq!("abc {", reps.replace("abc {{ name"));
    assert_eq!("plain text", reps.replace("plain text"));
    assert_eq!("", reps.replace(""));
}

#[test]
fn get_finds_inserted_values() {
    let reps = table();
    let key: Vec<char> = "author".chars().collect();
    let missing: Vec<char> = "nobody".chars().collect();
    let expected: Vec<char> = "Mll".chars().collect();
    assert_eq!(Some(&expected), reps.get(&key));
    assert_eq!(None, reps.get(&missing));
}

#[test]
fn push_capitalizes_after_an_upper_case_word() {
    let mut out: Vec<char> = "let Big".chars().collect();
    Replace::push(&mut out, &"thing".chars().collect());
    assert_eq!("let BigThing", out.iter().collect::<String>());
    let mut out: Vec<char> = "Big.".chars().collect();
    Replace::push(&mut out, &"thing".chars().collect());
    assert_eq!("Big.thing", out.iter().collect::<String>());
}

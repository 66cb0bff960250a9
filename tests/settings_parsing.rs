use rtty_receiver::settings::{Field, ParseError, SerializeError, Settings};

fn number(f: Option<&Field>) -> Option<String> {
    match f {
        Some(Field::Number(t)) => Some(t.clone()),
        _ => None,
    }
}

fn string(f: Option<&Field>) -> Option<String> {
    match f {
        Some(Field::String(t)) => Some(t.clone()),
        _ => None,
    }
}

#[test]
fn correct() {
    let s = r#"
    #empty line
    
    #comment #another hash
    name = "aa"
    -a_ = 2
    shorhand_decimal = .1
    aaaaa = .1 # more edge cases >:
    c = 32.0
    0Bbia3 = "test"
    far     =       42
                offset =             0      # comment
    squished="" #comment on same line
    escaped="\n\r\t\0\'\""
    úňíčöďë = "yes"
    🍎 = "🚀"
    t̷̢̩͈̪̼͈̪̳͔̗̺̺̿͗̋̎̐̈́͌̋͜h̵̡͈̪͚͙̥̤͎̯̼̟̉̍͐̊̿̊͠͝i̶̘̠̬̬͓̗̬̠̬͇̮̞̥͆ś̷̢̛̈̋̃̍̎͆̈́̈̔͌̀̇͝_̶̛̦̘̩͚̦̯̣̮̼̲̩͌̿͑̿͛̔̋͐̀͜i̴̡̛͔̟̣̲̗̦̼͎̗͇͉̠͒͆̈́̈́̉̐́̾͊͊̋̚͘͠s̵̢̨̡̘̣̤̮̤̪̫̀̾̀̄̓̕̕_̴̢̧̲̗̘͍͍̞̱͚̞̦͌̒̓f̴̧̜͗͊̍̋̉̑̕͘͠į̶̫̞͇̭̦̝̼̖͓̥̦̇͊ņ̵̻͍͎̦̖̯̹̞̮̞̇̇̌̏̆̑͆̈́́̂͗͐͜e̴͇͊ = "this_is_fine" #any unicode identifier is allowed except whitespace, control, punctuation (except '_' and '-')
    "#;

    let (_settings, errors) = Settings::new(s);
    for e in &errors {
        println!("{:?}", e);
    }
    assert!(errors.is_empty());
}

#[test]
fn error() {
    let s = "invalid name with spaces = 1";
    let (_settings, errors) = Settings::new(s);
    assert!(!errors.is_empty());

    let s = "number_broke = 1.1.1";
    let (_settings, errors) = Settings::new(s);
    assert!(!errors.is_empty());

    let s = "forgot=";
    let (_settings, errors) = Settings::new(s);
    assert!(!errors.is_empty());

    let s = "forgot";
    let (_settings, errors) = Settings::new(s);
    assert!(!errors.is_empty());

    let s = "aaaaaaaaaaaaaa''2";
    let (_settings, errors) = Settings::new(s);
    assert!(!errors.is_empty());

    // zalgo with whitespace
    let s = "ẗ̷̜̳͚́͋̃h̵͇̞̩̟̫̅͜i̵̛̘̳̻̍́s̷̢̞͙̿̓͌̉̇̓͑͘ ̵̦̜̌̈́̈́͒̉̒͐̇i̵̯͆͌ś̵̢̛̗̣̜͇͚̼̺̗̳̘͙̲̮̰̈́̅̉̒̑̀͗̈́́̍̊͊ ̵̨̝̮̗͕̽̌̚͝f̵̦̼͎͒̀̈̆̇̌́̚͝ị̷̡̢̧̰̳̲̼̝̺̠̙͓̞̐́͆̌̎̚ņ̶̫̭̘̯̪̰̥͐̃̔̀̌͒̔̈́͂̈͒̈́͜͠͝e̸̜̣̦̲̫͕̎̋̽͒ = \"this is fine\"";
    let (_settings, errors) = Settings::new(s);
    assert!(!errors.is_empty());
}

#[test]
fn values_are_read() {
    let s = "name = \"aa\"\n-a_ = 2\nshort = .1\nc = 32.0 # note\nescaped=\"\\n\\t\\\"x\"\n";
    let (settings, errors) = Settings::new(s);
    assert!(errors.is_empty(), "{:?}", errors);
    assert_eq!(string(settings.get_field("name")), Some("aa".to_string()));
    assert_eq!(number(settings.get_field("-a_")), Some("2".to_string()));
    assert_eq!(number(settings.get_field("short")), Some(".1".to_string()));
    assert_eq!(number(settings.get_field("c")), Some("32.0".to_string()));
    assert_eq!(string(settings.get_field("escaped")), Some("\n\t\"x".to_string()));
    assert!(settings.get_field("missing").is_none());
}

#[test]
fn later_assignment_replaces_value() {
    let (settings, errors) = Settings::new("a = 1\nb = 2\na = \"x\"\n");
    assert!(errors.is_empty());
    assert_eq!(string(settings.get_field("a")), Some("x".to_string()));
    assert_eq!(settings.serialize().unwrap(), "a = \"x\"\nb = 2\n");
}

fn first_error(s: &str) -> ParseError {
    let (_, errors) = Settings::new(s);
    assert!(!errors.is_empty(), "no error for {:?}", s);
    errors[0].clone()
}

#[test]
fn error_positions_and_messages() {
    let e = first_error("ok = 1\nforgot\n");
    assert_eq!((e.line, e.col), (1, 6));
    assert_eq!(e.desc, "Unexpected end of statement, maybe missing a '=' or comment with '#'");
    let e = first_error("  bad.name = 1\n");
    assert_eq!((e.line, e.col), (0, 2));
    assert_eq!(e.desc, "Encountered unexpected character '.' while matching a name.");
    let e = first_error("s = \"a\\qb\"\n");
    assert_eq!((e.line, e.col), (0, 7));
    assert_eq!(e.desc, "Unknown escape sequence '\\q'.");
    let e = first_error("s = \"open\n");
    assert_eq!(e.desc, "Unclosed string.");
    let e = first_error("forgot=");
    assert_eq!(e.desc, "Expected value assignment to 'forgot'.");
    let e = first_error("x = true  \n");
    assert_eq!(e.desc, "Expected a number or a string while parsing a value, found 'true'.");
    assert_eq!((e.line, e.col), (0, 10));
    let e = first_error("n = 12a\n");
    assert_eq!(e.desc, "Expected an ascii digit or '.' while parsing a number, found 'a'.");
    let e = first_error("n = 1.2.3\n");
    assert_eq!(e.desc, "Expected an ascii digit while parsing the decimal part of a number, found '.'.");
    assert_eq!((e.line, e.col), (0, 7));
}

#[test]
fn invalid_name_is_not_kept() {
    let (settings, errors) = Settings::new("bad name = 1\ngood = 2\n");
    assert_eq!(errors.len(), 1);
    assert!(settings.get_field("bad name").is_none());
    assert!(settings.get_field("").is_none());
    assert_eq!(number(settings.get_field("good")), Some("2".to_string()));
}

#[test]
fn unreadable_value_is_kept_and_blocks_serializing() {
    let (settings, errors) = Settings::new("x = \"open\n");
    assert_eq!(errors.len(), 1);
    assert!(matches!(settings.get_field("x"), Some(Field::ParseError)));
    match settings.serialize() {
        Err(SerializeError::InvalidField { field_name }) => assert_eq!(field_name, "x"),
        other => panic!("unexpected {:?}", other),
    }
}

#[test]
fn set_and_serialize_round_trip() {
    let (mut settings, _) = Settings::new("");
    settings.set("baudrate", Field::Number("50".to_string()));
    settings.set("callsign", Field::String("balloon 1".to_string()));
    settings.set("baudrate", Field::Number("75.5".to_string()));
    let text = settings.serialize().unwrap();
    assert_eq!(text, "baudrate = 75.5\ncallsign = \"balloon 1\"\n");
    let (again, errors) = Settings::new(&text);
    assert!(errors.is_empty());
    assert_eq!(again.serialize().unwrap(), text);
}

#[test]
fn empty_and_comment_only_text() {
    for s in ["", "   \n\t\n", "# only a comment", "#a\n#b\n"] {
        let (settings, errors) = Settings::new(s);
        assert!(errors.is_empty());
        assert_eq!(settings.serialize().unwrap(), "");
    }
}

use clip::table::StrMap;
use clip::{create_arg, Clip, Mode, Type};

#[test]
fn create_arg_defaults() {
    let a = create_arg("--name");
    assert_eq!(a.name, "--name");
    assert!(a.aliases.is_empty());
    assert!(a.params.is_empty());
    assert_eq!(a.help, "");
    assert_eq!(a.arg_type, Type::Any);
    assert_eq!(a.mode, Mode::Flag);
}

#[test]
fn builders_set_their_field() {
    let a = create_arg("files")
        .variadic(Type::File)
        .help("input files");
    assert_eq!(a.mode, Mode::Variadic);
    assert_eq!(a.arg_type, Type::File);
    assert_eq!(a.help, "input files");

    let b = create_arg("n").positional(Type::Range { lower: 1, upper: 9 });
    assert_eq!(b.mode, Mode::Positional);
    assert_eq!(b.arg_type, Type::Range { lower: 1, upper: 9 });

    let c = create_arg("--level")
        .alias("-l")
        .alias("--lvl")
        .add_param("level", 2, Type::Integer)
        .add_param("rest", -1, Type::Any);
    assert_eq!(c.aliases, vec!["-l", "--lvl"]);
    assert_eq!(c.params.len(), 2);
    assert_eq!(c.params[0].ninputs, 2);
    assert_eq!(c.params[0].input_type, Type::Integer);
    assert_eq!(c.params[1].name, "rest");
    assert_eq!(c.params[1].ninputs, -1);
}

#[test]
fn add_records_aliases_modes_and_args() {
    let mut parser = Clip::new("prog");
    create_arg("inputs").variadic(Type::File).add(&mut parser);
    create_arg("first").positional(Type::String).add(&mut parser);
    create_arg("--out").alias("-o").alias("-O").add(&mut parser);

    assert_eq!(parser.variadic, Some("inputs"));
    assert_eq!(parser.positional, vec!["first"]);
    assert_eq!(parser.args.len(), 3);
    assert_eq!(parser.aliases.len(), 2);
    assert_eq!(parser.aliases.get("-o"), Some(&"--out"));
    assert_eq!(parser.aliases.get("-O"), Some(&"--out"));
    assert!(parser.aliases.get("--out").is_none());
    assert!(parser.args.contains_key("first"));
    assert!(!parser.args.contains_key("second"));
}

#[test]
fn clip_add_is_argument_add() {
    let mut parser = Clip::new("prog");
    parser.add(create_arg("--verbose").alias("-v"));
    assert_eq!(parser.args.get("--verbose").map(|a| a.name), Some("--verbose"));
    assert_eq!(parser.aliases.get("-v"), Some(&"--verbose"));
}

#[test]
fn fits_in_accepts_a_fresh_flag() {
    let mut parser = Clip::new("foo");
    create_arg("--file").alias("-f").add(&mut parser);
    assert!(create_arg("--out").alias("-o").fits_in(&parser));
}

#[test]
fn fits_in_rejects_alias_on_positional() {
    let parser = Clip::new("foo");
    let a = create_arg("file").positional(Type::File).alias("-f").help("input file");
    assert!(!a.fits_in(&parser));
}

#[test]
fn fits_in_rejects_param_on_variadic() {
    let parser = Clip::new("foo");
    let a = create_arg("file")
        .variadic(Type::File)
        .add_param("foo", 1, Type::String)
        .help("input file");
    assert!(!a.fits_in(&parser));
}

#[test]
fn fits_in_rejects_duplicate_name() {
    let mut parser = Clip::new("foo");
    create_arg("file").add_param("foo", 1, Type::String).help("input file").add(&mut parser);
    let again = create_arg("file").add_param("foo", 1, Type::String).help("input file");
    assert!(!again.fits_in(&parser));
}

#[test]
fn fits_in_rejects_duplicate_alias() {
    let mut parser = Clip::new("foo");
    create_arg("file").alias("-f").add_param("foo", 1, Type::String).add(&mut parser);
    let other = create_arg("foo").alias("-f").add_param("foo", 1, Type::String);
    assert!(!other.fits_in(&parser));
}

#[test]
fn fits_in_rejects_variadic_with_alias() {
    let parser = Clip::new("foo");
    let a = create_arg("file")
        .variadic(Type::File)
        .alias("-f")
        .add_param("foo", 1, Type::String)
        .help("input file");
    assert!(!a.fits_in(&parser));
}

#[test]
fn table_insert_replaces() {
    let mut m: StrMap<u32> = StrMap::new();
    assert_eq!(m.len(), 0);
    m.insert("a", 1);
    m.insert("b", 2);
    m.insert("a", 3);
    assert_eq!(m.len(), 2);
    assert_eq!(m.get("a"), Some(&3));
    assert_eq!(m.get("b"), Some(&2));
    assert_eq!(m.get("c"), None);
    assert!(m.contains_key("b"));
    assert!(!m.contains_key("c"));
}

#[test]
fn fits_in_rejects_second_variadic() {
    let mut parser = Clip::new("foo");
    create_arg("a").variadic(Type::File).add(&mut parser);
    let b = create_arg("b").variadic(Type::Any);
    assert!(!b.fits_in(&parser));
    assert_eq!(parser.variadic, Some("a"));
}

#[test]
fn verify_passes_a_fitting_argument() {
    let mut parser = Clip::new("foo");
    create_arg("--file").alias("-f").add(&mut parser);
    let a = create_arg("inputs").variadic(Type::File);
    a.verify(&parser);
    a.add(&mut parser);
    assert_eq!(parser.variadic, Some("inputs"));
}

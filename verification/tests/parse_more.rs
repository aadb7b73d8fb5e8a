use clip::{create_arg, Clip, Error, Type};

fn file_and_output() -> Clip {
    let mut parser = Clip::new("foo");
    create_arg("--file").alias("-f").add_param("file", -1, Type::String).add(&mut parser);
    create_arg("--output")
        .alias("-o")
        .alias("--out")
        .add_param("output", 1, Type::String)
        .add(&mut parser);
    parser
}

#[test]
fn unknown_argument() {
    let mut parser = file_and_output();
    let input = "bar".to_owned();
    match parser.parse(&input) {
        Err(Error::UnknownArgument(a)) => assert_eq!(a, "bar"),
        other => panic!("unexpected: {:?}", other),
    }
    let empty = "".to_owned();
    match parser.parse(&empty) {
        Err(Error::UnknownArgument(a)) => assert_eq!(a, ""),
        other => panic!("unexpected: {:?}", other),
    }
}

#[test]
fn missing_parameter() {
    let mut parser = file_and_output();
    let input = "--file a.rs -o".to_owned();
    match parser.parse(&input) {
        Err(Error::ExpectedParameter(p)) => assert_eq!(p, "output"),
        other => panic!("unexpected: {:?}", other),
    }
}

#[test]
fn variadic_argument_collects_free_words() {
    let mut parser = Clip::new("Clip");
    create_arg("input files").variadic(Type::File).help("input files").add(&mut parser);
    create_arg("--output").alias("-o").add_param("output", 1, Type::File).add(&mut parser);

    let input = "input1 input2 --output a.out input3".to_owned();
    let res = parser.parse(&input).unwrap();
    assert_eq!(res.len(), 2);
    assert_eq!(res[0].name, "input files");
    assert_eq!(res[0].values, vec!["input1", "input2", "input3"]);
    assert_eq!(res[1].name, "--output");
    assert_eq!(res[1].values, vec!["a.out"]);

    let nothing = "-o x".to_owned();
    let res = parser.parse(&nothing).unwrap();
    assert_eq!(res.len(), 2);
    assert_eq!(res[0].name, "input files");
    assert!(res[0].values.is_empty());
}

#[test]
fn positional_argument_by_name_takes_nothing() {
    let mut parser = Clip::new("p");
    create_arg("first").positional(Type::String).add(&mut parser);
    let input = "first".to_owned();
    let res = parser.parse(&input).unwrap();
    assert_eq!(res.len(), 1);
    assert_eq!(res[0].name, "first");
    assert!(res[0].values.is_empty());
}

#[test]
fn nonpositive_counts_take_nothing() {
    let mut parser = Clip::new("p");
    create_arg("--a").add_param("zero", 0, Type::Any).add_param("neg", -2, Type::Any).add(&mut parser);
    let input = "--a --a".to_owned();
    let res = parser.parse(&input).unwrap();
    assert_eq!(res.len(), 2);
    assert!(res[0].values.is_empty());
    assert!(res[1].values.is_empty());
}

#[test]
fn run_stops_at_alias_or_name() {
    let mut parser = file_and_output();
    let input = "-f a b -o c".to_owned();
    let res = parser.parse(&input).unwrap();
    assert_eq!(res.len(), 2);
    assert_eq!(res[0].name, "--file");
    assert_eq!(res[0].values, vec!["a", "b"]);
    assert_eq!(res[1].values, vec!["c"]);

    // a fixed-count parameter takes the next words whatever they are
    let input2 = "-o -f".to_owned();
    let res2 = parser.parse(&input2).unwrap();
    assert_eq!(res2.len(), 1);
    assert_eq!(res2[0].values, vec!["-f"]);
}

#[test]
fn parse_vec_on_given_words() {
    let parser = file_and_output();
    let words = vec!["--out", "x", "--file"];
    let res = parser.parse_vec(&words).unwrap();
    assert_eq!(res.len(), 2);
    assert_eq!(res[0].name, "--output");
    assert_eq!(res[0].values, vec!["x"]);
    assert_eq!(res[1].name, "--file");
    assert!(res[1].values.is_empty());
}

#[test]
fn parse_arg_reports_next_position() {
    let parser = file_and_output();
    let words = vec!["--output", "x", "y"];
    let arg = parser.args.get("--output").unwrap();
    let (input, next) = parser.parse_arg(&words, 1, arg).ok().unwrap();
    assert_eq!(input.name, "--output");
    assert_eq!(input.values, vec!["x"]);
    assert_eq!(next, 2);
    assert!(parser.parse_arg(&words, 3, arg).is_err());
}

fn names(v: &Vec<clip::Input>) -> Vec<(String, Vec<String>)> {
    v.iter()
        .map(|i| (i.name.to_string(), i.values.iter().map(|w| w.to_string()).collect()))
        .collect()
}

#[test]
fn concatenated_groups_read_in_order() {
    let mut parser = file_and_output();
    let a = "-o x".to_owned();
    let b = "--file p q".to_owned();
    let ab = "-o x --file p q".to_owned();
    let ba = "--file p q -o x".to_owned();
    let ra = parser.parse(&a).unwrap();
    let rb = parser.parse(&b).unwrap();
    let rab = parser.parse(&ab).unwrap();
    let rba = parser.parse(&ba).unwrap();
    let mut expected_ab = names(&ra);
    expected_ab.extend(names(&rb));
    let mut expected_ba = names(&rb);
    expected_ba.extend(names(&ra));
    assert_eq!(names(&rab), expected_ab);
    assert_eq!(names(&rba), expected_ba);
}

#[test]
fn alias_reads_as_its_name() {
    let mut parser = file_and_output();
    let a = "-o out.o -f x".to_owned();
    let n = "--output out.o -f x".to_owned();
    let ra = parser.parse(&a).unwrap();
    let rn = parser.parse(&n).unwrap();
    assert_eq!(ra.len(), rn.len());
    for (x, y) in ra.iter().zip(rn.iter()) {
        assert_eq!(x.name, y.name);
        assert_eq!(x.values, y.values);
    }
}

#[test]
fn every_word_read_once() {
    let mut parser = Clip::new("Clip");
    create_arg("rest").variadic(Type::Any).add(&mut parser);
    create_arg("--pair").add_param("p", 2, Type::Any).add(&mut parser);
    let input = "a --pair b c d --pair e f".to_owned();
    let res = parser.parse(&input).unwrap();
    let total: usize = res.iter().map(|i| 1 + i.values.len()).sum();
    assert_eq!(total, 8 + 1);
    assert_eq!(res[0].values, vec!["a", "d"]);
}

#[test]
fn alias_after_group_reads_as_its_name() {
    let mut parser = file_and_output();
    let a = "--file p q -o out.o".to_owned();
    let n = "--file p q --output out.o".to_owned();
    let ra = parser.parse(&a).unwrap();
    let rn = parser.parse(&n).unwrap();
    assert_eq!(names(&ra), names(&rn));
    assert_eq!(names(&ra)[1], ("--output".to_string(), vec!["out.o".to_string()]));
}

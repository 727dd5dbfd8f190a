use adel::{
    add, classify, control_chars, AdelWriter, CharToken, CharTokeniser, ContainsControlChar, File,
    FileTokeniser, Group, Record, Token, Unit, WriteError, FS, GS, RS, US,
};

type Model = Vec<Vec<Vec<Vec<String>>>>;

fn model_of(f: &File) -> Vec<Vec<Vec<String>>> {
    f.groups()
        .iter()
        .map(|g| {
            g.records()
                .iter()
                .map(|r| r.units().iter().map(|u| u.as_str().to_string()).collect())
                .collect()
        })
        .collect()
}

fn decode_all(text: &str) -> Model {
    let mut t = FileTokeniser::new(text.chars().collect(), None);
    let mut out = Vec::new();
    while let Some(r) = t.next() {
        out.push(model_of(&r.unwrap()));
    }
    out
}

fn unit(s: &str) -> Unit {
    Unit::new(s.to_string()).unwrap()
}

fn record(us: &[&str]) -> Record {
    Record::new(us.iter().map(|s| unit(s)).collect())
}

fn strs(v: &[&str]) -> Vec<String> {
    v.iter().map(|s| s.to_string()).collect()
}

#[test]
fn it_works() {
    let result = add(2, 2);
    assert_eq!(result, 4);
}

#[test]
fn decodes_two_files() {
    let text = format!("A{US}B{RS}C{GS}D{FS}E");
    let got = decode_all(&text);
    assert_eq!(
        got,
        vec![
            vec![vec![strs(&["A", "B"]), strs(&["C"])], vec![strs(&["D"])]],
            vec![vec![strs(&["E"])]],
        ]
    );
}

#[test]
fn empty_unit_between_separators() {
    let got = decode_all(&format!("A{US}{US}B"));
    assert_eq!(got, vec![vec![vec![strs(&["A", "", "B"])]]]);
}

#[test]
fn clean_end_adds_no_record() {
    let got = decode_all(&format!("A{RS}"));
    assert_eq!(got, vec![vec![vec![strs(&["A"])]]]);
}

#[test]
fn trailing_separator_changes_nothing() {
    for sep in [US, RS, GS, FS] {
        let base = format!("A{US}B{RS}C");
        assert_eq!(decode_all(&format!("{base}{sep}")), decode_all(&base));
    }
}

#[test]
fn two_trailing_separators_give_an_empty_container() {
    assert_eq!(decode_all(&format!("A{RS}{RS}")), vec![vec![vec![strs(&["A"]), strs(&[""])]]]);
    assert_eq!(decode_all(&format!("A{US}{US}")), vec![vec![vec![strs(&["A", ""])]]]);
    assert_eq!(decode_all(&format!("A{FS}{FS}")), vec![vec![vec![strs(&["A"])]], vec![vec![vec![String::new()]]]]);
}

#[test]
fn empty_text_has_no_file() {
    assert_eq!(decode_all(""), Model::new());
}

#[test]
fn lone_separator_gives_empty_unit() {
    assert_eq!(decode_all(&format!("{RS}")), vec![vec![vec![strs(&[""])]]]);
}

#[test]
fn failure_ends_the_stream() {
    let err = utf8_read::Error::IoError(std::io::Error::new(std::io::ErrorKind::Other, "broken"));
    let text = format!("A{FS}B{US}C");
    let mut t = FileTokeniser::new(text.chars().collect(), Some(err));
    let first = t.next().unwrap().unwrap();
    assert_eq!(model_of(&first), vec![vec![strs(&["A"])]]);
    assert!(t.next().unwrap().is_err());
    assert!(t.next().is_none());
    assert!(t.next().is_none());
}

#[test]
fn char_tokens() {
    assert_eq!(classify(FS), CharToken::FileSeparator);
    assert_eq!(classify(GS), CharToken::GroupSeparator);
    assert_eq!(classify(RS), CharToken::RecordSeparator);
    assert_eq!(classify(US), CharToken::UnitSeparator);
    assert_eq!(classify('x'), CharToken::Character('x'));
    assert!(classify(US).is_separator());
    assert!(!classify('x').is_separator());
    let mut t = CharTokeniser::new(vec!['a', RS], None);
    assert_eq!(t.next().unwrap().unwrap(), CharToken::Character('a'));
    assert_eq!(t.next().unwrap().unwrap(), CharToken::RecordSeparator);
    assert!(t.next().is_none());
}

#[test]
fn control_chars_are_the_four_separators() {
    assert_eq!(control_chars(), vec!['\u{241C}', '\u{241D}', '\u{241E}', '\u{241F}']);
}

#[test]
fn unit_rejects_reserved_characters() {
    for sep in [US, RS, GS, FS] {
        let text = format!("ab{sep}c");
        let e: ContainsControlChar = Unit::new(text.clone()).unwrap_err();
        assert_eq!(e.string(), text);
    }
    let u = unit("héllo");
    assert_eq!(u.as_str(), "héllo");
    assert_eq!(u.len(), 6);
    assert!(!u.is_empty());
    assert!(unit("").is_empty());
}

#[test]
fn writer_refuses_two_separators() {
    let mut w = AdelWriter::new();
    w.write_unit(&unit("a")).unwrap();
    w.write_us().unwrap();
    assert_eq!(w.write_rs(), Err(WriteError::ExpectedContent));
    assert_eq!(w.as_str(), format!("a{US}"));
}

#[test]
fn writer_refuses_two_contents() {
    let mut w = AdelWriter::new();
    w.write_unit(&unit("a")).unwrap();
    assert_eq!(w.write_unit(&unit("b")), Err(WriteError::ExpectedSeparator));
    assert_eq!(w.write_record(&[unit("b")]), Err(WriteError::ExpectedSeparator));
    assert_eq!(w.as_str(), "a");
}

#[test]
fn writer_refuses_leading_separator() {
    let mut w = AdelWriter::new();
    assert_eq!(w.write_fs(), Err(WriteError::ExpectedContent));
    assert_eq!(w.as_str(), "");
}

#[test]
fn writer_writes_separators_between() {
    let g1 = Group::new(vec![record(&["A", "B"]), record(&["C"])]);
    let g2 = Group::new(vec![record(&["D"])]);
    let mut w = AdelWriter::new();
    w.write_file(&[g1, g2]).unwrap();
    w.write_fs().unwrap();
    w.write_file(&[Group::new(vec![record(&["E"])])]).unwrap();
    assert_eq!(w.into_string(), format!("A{US}B{RS}C{GS}D{FS}E"));
}

#[test]
fn writer_empty_record_still_needs_separator() {
    let mut w = AdelWriter::new();
    w.write_record(&[]).unwrap();
    assert_eq!(w.write_record(&[unit("a")]), Err(WriteError::ExpectedSeparator));
    assert_eq!(w.write_unit(&unit("a")), Err(WriteError::ExpectedSeparator));
    assert_eq!(w.write_group(&[]), Err(WriteError::ExpectedSeparator));
    assert_eq!(w.write_file(&[]), Err(WriteError::ExpectedSeparator));
    assert_eq!(w.as_str(), "");
    w.write_rs().unwrap();
    assert_eq!(w.as_str(), format!("{RS}"));
}

#[test]
fn writer_writes_empty_record_in_group() {
    let mut w = AdelWriter::new();
    w.write_group(&[record(&["A"]), record(&[]), record(&["B"])]).unwrap();
    assert_eq!(w.as_str(), format!("A{RS}{RS}B"));
    assert_eq!(w.write_group(&[record(&["C"])]), Err(WriteError::ExpectedSeparator));
}

#[test]
fn two_trailing_separators_add_one_empty_container() {
    assert_eq!(decode_all(&format!("A{GS}{GS}")), vec![vec![vec![strs(&["A"])], vec![strs(&[""])]]]);
}

#[test]
fn round_trip() {
    let groups = vec![
        Group::new(vec![record(&["x", "", "y"]), record(&[""])]),
        Group::new(vec![record(&["1"]), record(&["2", "3"])]),
    ];
    let f = File::new(groups);
    let expected = model_of(&f);
    let mut w = AdelWriter::new();
    w.write_file(f.groups()).unwrap();
    let text = w.into_string();
    assert_eq!(decode_all(&text), vec![expected]);
}

#[test]
fn unit_width_and_height() {
    assert_eq!(unit("ab\ncde\r\nf").width_height(), (3, 1));
    assert_eq!(unit("").width_height(), (0, 0));
    assert_eq!(unit("\n").width_height(), (0, 1));
    assert_eq!(unit("héllo").width_height(), (6, 1));
    assert_eq!(unit("a\r").width_height(), (2, 1));
}

#[test]
fn record_widths_and_heights() {
    let r = record(&["abc", "", "x\nyyyy"]);
    assert_eq!(r.widths_heights(), (vec![3, 0, 4], vec![1, 0, 1]));
}

#[test]
fn files_decode_in_written_order() {
    let mut w = AdelWriter::new();
    for name in ["one", "two", "three"] {
        if name != "one" {
            w.write_fs().unwrap();
        }
        w.write_file(&[Group::new(vec![record(&[name, "z"])])]).unwrap();
    }
    let got = decode_all(&w.into_string());
    assert_eq!(
        got,
        vec![
            vec![vec![strs(&["one", "z"])]],
            vec![vec![strs(&["two", "z"])]],
            vec![vec![strs(&["three", "z"])]],
        ]
    );
}

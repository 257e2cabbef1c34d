use stl::lexeme::{is_float_word, is_whitespace};
use stl::{parse_stl, Coord, Facet, ParseError, Solid, StrParser, Vec3};

const CUBE_CORNER: &str = "solid corner
  facet normal -1 0 0
    outer loop
      vertex 0 19.809 0.412201
      vertex 0 19.809 1.58778
      vertex 0 20 1
    endloop
  endfacet
  facet normal 0 0 1
    outer loop
      vertex 1e1 -2.5E-1 +3
      vertex inf NaN .5
      vertex 7. 8 9
    endloop
  endfacet
endsolid corner
";

fn text(c: &Coord) -> &str {
    match c {
        Coord::Text(s) => s.as_str(),
        Coord::Bits(_) => panic!("a binary coordinate in an ASCII file"),
    }
}

fn texts(v: &Vec3) -> (&str, &str, &str) {
    (text(&v.0), text(&v.1), text(&v.2))
}

fn bits(v: &Vec3) -> (u32, u32, u32) {
    match v {
        (Coord::Bits(x), Coord::Bits(y), Coord::Bits(z)) => (*x, *y, *z),
        _ => panic!("a text coordinate in a binary file"),
    }
}

fn chars(s: &str) -> Vec<char> {
    s.chars().collect()
}

#[test]
fn it_works() {
    let mut parser = StrParser::new(CUBE_CORNER);
    let solid = parser.take_solid().unwrap();
    assert_eq!(solid.name.as_deref(), Some("corner"));
    assert_eq!(solid.facets.len(), 2);
}

#[test]
fn solid_facets_hold_the_words_of_the_file() {
    let mut parser = StrParser::new(CUBE_CORNER);
    let solid = parser.take_solid().unwrap();
    let f: &Facet = &solid.facets[0];
    assert_eq!(texts(&f.normal), ("-1", "0", "0"));
    assert_eq!(texts(&f.v1), ("0", "19.809", "0.412201"));
    assert_eq!(texts(&f.v2), ("0", "19.809", "1.58778"));
    assert_eq!(texts(&f.v3), ("0", "20", "1"));
    let g = &solid.facets[1];
    assert_eq!(texts(&g.v1), ("1e1", "-2.5E-1", "+3"));
    assert_eq!(texts(&g.v2), ("inf", "NaN", ".5"));
    assert_eq!(texts(&g.v3), ("7.", "8", "9"));
    assert_eq!(parser.take_word(), None);
}

#[test]
fn take_word_splits_on_unicode_whitespace() {
    let mut p = StrParser::new("  a\u{3000}bc\u{a0}\u{85}d\té\n ");
    assert_eq!(p.take_word(), Some("a"));
    assert_eq!(p.take_word(), Some("bc"));
    assert_eq!(p.take_word(), Some("d"));
    assert_eq!(p.take_word(), Some("é"));
    assert_eq!(p.take_word(), None);
    assert_eq!(p.take_word(), None);
}

#[test]
fn take_word_on_empty_text() {
    let mut p = StrParser::new("");
    assert_eq!(p.take_word(), None);
}

#[test]
fn take_word_keeps_multibyte_words_whole() {
    let mut p = StrParser::new("ζώο 🦀x y");
    assert_eq!(p.take_word(), Some("ζώο"));
    assert_eq!(p.take_word(), Some("🦀x"));
    assert_eq!(p.take_word(), Some("y"));
    assert_eq!(p.take_word(), None);
}

#[test]
fn expect_word_accepts_the_next_word() {
    let mut p = StrParser::new("  outer loop");
    assert!(p.expect_word("outer").is_ok());
    assert!(p.expect_word("loop").is_ok());
    assert_eq!(p.take_word(), None);
}

#[test]
fn expect_word_refusal_leaves_the_parser_in_place() {
    let mut p = StrParser::new("  endloop x");
    match p.expect_word("vertex") {
        Err(ParseError::ExpectedWord { expected, actual }) => {
            assert_eq!(expected, "vertex");
            assert_eq!(actual.as_deref(), Some("endloop"));
        }
        other => panic!("unexpected {:?}", other),
    }
    assert_eq!(p.take_word(), Some("endloop"));
    assert_eq!(p.take_word(), Some("x"));
}

#[test]
fn expect_word_at_the_end() {
    let mut p = StrParser::new("   ");
    match p.expect_word("endsolid") {
        Err(ParseError::ExpectedWord { expected, actual }) => {
            assert_eq!(expected, "endsolid");
            assert_eq!(actual, None);
        }
        other => panic!("unexpected {:?}", other),
    }
}

#[test]
fn expect_word_is_case_sensitive() {
    let mut p = StrParser::new("Solid");
    assert!(p.expect_word("solid").is_err());
}

#[test]
fn expect_f32_takes_a_number_word() {
    let mut p = StrParser::new(" -1.5e3 rest");
    match p.expect_f32() {
        Ok(Coord::Text(s)) => assert_eq!(s, "-1.5e3"),
        other => panic!("unexpected {:?}", other),
    }
    assert_eq!(p.take_word(), Some("rest"));
}

#[test]
fn expect_f32_refuses_another_word_and_moves_past_it() {
    let mut p = StrParser::new("1,5 2");
    match p.expect_f32() {
        Err(ParseError::ExpectedF32 { actual }) => assert_eq!(actual.as_deref(), Some("1,5")),
        other => panic!("unexpected {:?}", other),
    }
    assert_eq!(p.take_word(), Some("2"));
}

#[test]
fn expect_f32_at_the_end() {
    let mut p = StrParser::new("\n");
    match p.expect_f32() {
        Err(ParseError::ExpectedF32 { actual }) => assert_eq!(actual, None),
        other => panic!("unexpected {:?}", other),
    }
}

#[test]
fn take_vertex_reads_three_numbers() {
    let mut p = StrParser::new("vertex 0 19.809 0.412201");
    let v = p.take_vertex().unwrap();
    assert_eq!(texts(&v), ("0", "19.809", "0.412201"));
}

#[test]
fn take_vertex_needs_three_numbers() {
    let mut p = StrParser::new("vertex 0 19.809");
    match p.take_vertex() {
        Err(ParseError::ExpectedF32 { actual: None }) => {}
        other => panic!("unexpected {:?}", other),
    }
}

#[test]
fn take_oloop_reads_three_vertices() {
    let mut p = StrParser::new(
        "outer loop\n vertex 0 19.809 0.412201\n vertex 0 19.809 1.58778\n vertex 0 20 1\nendloop",
    );
    let (v1, v2, v3) = p.take_oloop().unwrap();
    assert_eq!(texts(&v1), ("0", "19.809", "0.412201"));
    assert_eq!(texts(&v2), ("0", "19.809", "1.58778"));
    assert_eq!(texts(&v3), ("0", "20", "1"));
}

#[test]
fn take_oloop_needs_endloop() {
    let mut p = StrParser::new("outer loop vertex 0 0 0 vertex 1 1 1 vertex 2 2 2 endfacet");
    match p.take_oloop() {
        Err(ParseError::ExpectedWord { expected, actual }) => {
            assert_eq!(expected, "endloop");
            assert_eq!(actual.as_deref(), Some("endfacet"));
        }
        other => panic!("unexpected {:?}", other),
    }
    assert_eq!(p.take_word(), Some("endfacet"));
}

#[test]
fn take_facet_reads_the_documented_example() {
    let mut p = StrParser::new(
        "facet normal -1 0 0
  outer loop
    vertex 0 19.809 0.412201
    vertex 0 19.809 1.58778
    vertex 0 20 1
  endloop
endfacet",
    );
    let f = p.take_facet().unwrap();
    assert_eq!(texts(&f.normal), ("-1", "0", "0"));
    assert_eq!(texts(&f.v3), ("0", "20", "1"));
    assert_eq!(p.take_word(), None);
}

#[test]
fn take_facet_refuses_a_bad_normal() {
    let mut p = StrParser::new("facet normal -1 x 0");
    match p.take_facet() {
        Err(ParseError::ExpectedF32 { actual }) => assert_eq!(actual.as_deref(), Some("x")),
        other => panic!("unexpected {:?}", other),
    }
}

#[test]
fn take_solid_without_facets() {
    let mut p = StrParser::new("solid empty endsolid empty");
    let s: Solid = p.take_solid().unwrap();
    assert_eq!(s.name.as_deref(), Some("empty"));
    assert!(s.facets.is_empty());
}

#[test]
fn take_solid_reports_the_first_bad_facet() {
    let mut p = StrParser::new("solid s facet normal 0 0 1 outer loop endloop endfacet endsolid s");
    match p.take_solid() {
        Err(ParseError::ExpectedWord { expected, actual }) => {
            assert_eq!(expected, "vertex");
            assert_eq!(actual.as_deref(), Some("endloop"));
        }
        other => panic!("unexpected {:?}", other),
    }
}

#[test]
fn take_solid_needs_endsolid() {
    let mut p = StrParser::new("solid s endfacet");
    match p.take_solid() {
        Err(ParseError::ExpectedWord { expected, actual }) => {
            assert_eq!(expected, "endsolid");
            assert_eq!(actual.as_deref(), Some("endfacet"));
        }
        other => panic!("unexpected {:?}", other),
    }
}

#[test]
fn take_solid_needs_solid() {
    let mut p = StrParser::new("facet");
    match p.take_solid() {
        Err(ParseError::ExpectedWord { expected, actual }) => {
            assert_eq!(expected, "solid");
            assert_eq!(actual.as_deref(), Some("facet"));
        }
        other => panic!("unexpected {:?}", other),
    }
}

#[test]
fn whitespace_is_the_unicode_white_space_property() {
    for u in 0u32..=0x10ffff {
        if let Some(c) = char::from_u32(u) {
            assert_eq!(is_whitespace(c), c.is_whitespace(), "{:x}", u);
        }
    }
}

#[test]
fn number_words_are_those_that_parse_as_f32() {
    let words = [
        "0", "1", "-1", "+1", "1.", ".5", "-.5", "+.5e3", "1e5", "1E5", "1e+5", "1e-5", "1.5e",
        "1.5e+", "e5", ".", "-", "+", "", "1..2", "1.2.3", "inf", "-inf", "+INF", "Infinity",
        "-infinity", "infinit", "infx", "nan", "NaN", "-nAn", "nana", "1_000", "0x10", "1f",
        "٣", "１", "1e5.", "00012", "1e0005", "--1", "+-1", ".e1", "5.e1", "3.14159", "1 ",
        "inF", "iNfInItY", "nan1", "e", "E", "1E", "2e-", "4.5E+06",
    ];
    for w in words {
        assert_eq!(is_float_word(&chars(w)), w.parse::<f32>().is_ok(), "{:?}", w);
    }
}

#[test]
fn number_words_agree_with_f32_on_short_strings() {
    let alphabet = ['0', '7', '.', 'e', 'E', '+', '-', 'i', 'n', 'a', 'x'];
    let mut stack: Vec<String> = vec![String::new()];
    while let Some(w) = stack.pop() {
        assert_eq!(is_float_word(&chars(&w)), w.parse::<f32>().is_ok(), "{:?}", w);
        if w.chars().count() < 5 {
            for c in alphabet {
                let mut n = w.clone();
                n.push(c);
                stack.push(n);
            }
        }
    }
}

fn binary_file(name_byte: u8, facets: &[[f32; 12]]) -> Vec<u8> {
    let mut b = vec![name_byte; 80];
    b.extend_from_slice(&(facets.len() as u32).to_le_bytes());
    for f in facets {
        for x in f {
            b.extend_from_slice(&x.to_le_bytes());
        }
        b.extend_from_slice(&[0xab, 0xcd]);
    }
    b
}

#[test]
fn parse_stl_reads_a_binary_file() {
    let data = [
        [0.0, 0.0, 1.0, 1.5, -2.25, 3.0, 4.0, 5.0, 6.0, -7.0, 8.5, 9.0],
        [1.0, 0.0, 0.0, 0.1, 0.2, 0.3, 1e10, -1e-10, f32::INFINITY, 0.0, -0.0, 2.0],
    ];
    let b = binary_file(b'x', &data);
    let s = parse_stl(&b).unwrap();
    assert!(s.name.is_none());
    assert_eq!(s.facets.len(), 2);
    for (f, d) in s.facets.iter().zip(data.iter()) {
        let bits_of = |i: usize| (d[i].to_bits(), d[i + 1].to_bits(), d[i + 2].to_bits());
        assert_eq!(bits(&f.normal), bits_of(0));
        assert_eq!(bits(&f.v1), bits_of(3));
        assert_eq!(bits(&f.v2), bits_of(6));
        assert_eq!(bits(&f.v3), bits_of(9));
    }
}

#[test]
fn parse_stl_reads_little_endian_words() {
    let mut b = vec![0u8; 80];
    b.extend_from_slice(&[1, 0, 0, 0]);
    for i in 0..48u8 {
        b.push(i);
    }
    b.extend_from_slice(&[0, 0]);
    let s = parse_stl(&b).unwrap();
    assert_eq!(bits(&s.facets[0].normal), (0x03020100, 0x07060504, 0x0b0a0908));
    assert_eq!(bits(&s.facets[0].v3), (0x27262524, 0x2b2a2928, 0x2f2e2d2c));
}

#[test]
fn parse_stl_reads_an_empty_binary_file() {
    let b = binary_file(0, &[]);
    let s = parse_stl(&b).unwrap();
    assert!(s.facets.is_empty());
}

#[test]
fn parse_stl_reads_an_ascii_file() {
    let s = parse_stl(CUBE_CORNER.as_bytes()).unwrap();
    assert_eq!(s.name.as_deref(), Some("corner"));
    assert_eq!(s.facets.len(), 2);
    assert_eq!(texts(&s.facets[1].v2), ("inf", "NaN", ".5"));
}

#[test]
fn parse_stl_reports_ascii_errors() {
    match parse_stl(b"solid a facet normal 1 2") {
        Err(ParseError::ExpectedF32 { actual: None }) => {}
        other => panic!("unexpected {:?}", other),
    }
}

#[test]
fn parse_stl_reads_a_header_that_does_not_open_with_solid_as_binary() {
    let mut b = binary_file(b' ', &[[0.0; 12]]);
    b[0] = b'S';
    let s = parse_stl(&b).unwrap();
    assert!(s.name.is_none());
    assert_eq!(s.facets.len(), 1);
}

#[test]
fn try_take_solid_refuses_a_closing_name_that_differs() {
    let mut p = StrParser::new("solid a endsolid b");
    assert!(p.try_take_solid().is_none());
}

#[test]
fn try_take_solid_refuses_a_missing_closing_name() {
    let mut p = StrParser::new("solid a endsolid");
    assert!(p.try_take_solid().is_none());
}

#[test]
fn try_take_solid_reads_a_solid() {
    let mut p = StrParser::new(CUBE_CORNER);
    let s = p.try_take_solid().unwrap().unwrap();
    assert_eq!(s.facets.len(), 2);
}

#[test]
fn try_take_solid_takes_the_first_word_as_the_name() {
    let mut p = StrParser::new("solid\nfacet normal 0 0 1 endfacet endsolid facet");
    match p.try_take_solid() {
        Some(Err(ParseError::ExpectedWord { expected, actual })) => {
            assert_eq!(expected, "endsolid");
            assert_eq!(actual.as_deref(), Some("normal"));
        }
        other => panic!("unexpected {:?}", other),
    }
}

#[test]
fn try_parse_stl_refuses_what_parse_stl_does_not_accept() {
    assert!(stl::try_parse_stl(b"solid \xff\xfe").is_none());
    assert!(stl::try_parse_stl(b"solid x endsolid y").is_none());
    assert!(stl::try_parse_stl(&[0u8; 83]).is_none());
    let mut b = binary_file(0, &[[1.0; 12], [2.0; 12]]);
    b.pop();
    assert!(stl::try_parse_stl(&b).is_none());
    b.push(0);
    assert_eq!(stl::try_parse_stl(&b).unwrap().unwrap().facets.len(), 2);
}

#[test]
fn try_parse_stl_gives_what_parse_stl_gives() {
    let r = stl::try_parse_stl(CUBE_CORNER.as_bytes()).unwrap().unwrap();
    let s = parse_stl(CUBE_CORNER.as_bytes()).unwrap();
    assert_eq!(format!("{:?}", r), format!("{:?}", s));
}

#[test]
fn parse_stl_reads_a_binary_file_with_only_a_count() {
    let mut b = vec![0u8; 84];
    assert_eq!(parse_stl(&b).unwrap().facets.len(), 0);
    b[80] = 1;
    assert!(stl::try_parse_stl(&b).is_none());
}

#[test]
fn expect_word_moves_as_take_word_does() {
    let t = "\t facet  normal 1 2 3";
    let mut a = StrParser::new(t);
    let mut b = StrParser::new(t);
    assert!(a.expect_word("facet").is_ok());
    assert_eq!(b.take_word(), Some("facet"));
    assert_eq!(a.take_word(), b.take_word());
    assert!(a.expect_word("1").is_ok());
    assert_eq!(b.take_word(), Some("1"));
    assert_eq!(a.take_word(), b.take_word());
}

#[test]
fn expect_f32_moves_as_take_word_does() {
    let t = "  abc 1.0 x";
    let mut a = StrParser::new(t);
    let mut b = StrParser::new(t);
    assert!(a.expect_f32().is_err());
    assert_eq!(b.take_word(), Some("abc"));
    assert!(a.expect_f32().is_ok());
    assert_eq!(b.take_word(), Some("1.0"));
    assert_eq!(a.take_word(), b.take_word());
}

#[test]
fn binary_solid_has_as_many_facets_as_announced() {
    let b = binary_file(7, &[[0.5; 12], [1.5; 12], [2.5; 12]]);
    assert_eq!(parse_stl(&b).unwrap().facets.len(), 3);
}

#[test]
fn binary_header_and_attributes_do_not_matter() {
    let data = [[1.0, 2.0, 3.0, 4.0, 5.0, 6.0, 7.0, 8.0, 9.0, 10.0, 11.0, 12.0]; 2];
    let a = binary_file(b'a', &data);
    let mut b = binary_file(b'b', &data);
    let n = b.len();
    b[84 + 48] = 0x11;
    b[n - 1] = 0x22;
    assert_eq!(
        format!("{:?}", parse_stl(&a).unwrap()),
        format!("{:?}", parse_stl(&b).unwrap())
    );
}

#[test]
fn a_solid_written_with_single_spaces_reads_back() {
    let text = "solid part facet normal 0 0 1 outer loop vertex 0 0 0 vertex 1 0 0 vertex 0 1 0 \
                endloop endfacet facet normal 0 0 -1 outer loop vertex 0 0 0 vertex 0 1 0 \
                vertex 1 0 0 endloop endfacet endsolid part";
    let s = parse_stl(text.as_bytes()).unwrap();
    assert_eq!(s.name.as_deref(), Some("part"));
    assert_eq!(s.facets.len(), 2);
    assert_eq!(texts(&s.facets[0].normal), ("0", "0", "1"));
    assert_eq!(texts(&s.facets[1].normal), ("0", "0", "-1"));
    assert_eq!(texts(&s.facets[1].v2), ("0", "1", "0"));
}

#[test]
fn an_ascii_solid_after_leading_whitespace_is_read_as_binary() {
    let mut text = String::from(" solid a endsolid a");
    while text.len() < 84 {
        text.push(' ');
    }
    // The count bytes are four spaces: a count far beyond the file.
    assert!(stl::try_parse_stl(text.as_bytes()).is_none());
}

#[test]
fn a_cloned_parser_reads_on_its_own() {
    let mut a = StrParser::new("one two three");
    assert_eq!(a.take_word(), Some("one"));
    let mut b = a.clone();
    assert_eq!(b.take_word(), Some("two"));
    assert_eq!(b.take_word(), Some("three"));
    assert_eq!(a.take_word(), Some("two"));
}

#[test]
fn a_cloned_solid_is_the_same_solid() {
    let s = parse_stl(CUBE_CORNER.as_bytes()).unwrap();
    let t = s.clone();
    assert_eq!(format!("{:?}", s), format!("{:?}", t));
    let e = ParseError::ExpectedWord { expected: "x".to_string(), actual: Some("y".to_string()) };
    assert_eq!(format!("{:?}", e), format!("{:?}", e.clone()));
}

#[test]
fn take_word_lists_the_words_then_none() {
    for text in ["", "  ", "a", " a  b\tc\n", "x\u{2003}y\u{85}z ", "solid s\n facet\r\nendsolid s"] {
        let mut p = StrParser::new(text);
        p.pos_in_text();
        for w in text.split_whitespace() {
            assert_eq!(p.take_word(), Some(w));
        }
        for _ in 0..3 {
            assert_eq!(p.take_word(), None);
        }
    }
}

#[test]
fn take_facet_reads_only_the_words() {
    let spread = "facet normal -1 0 0
  outer loop
    vertex 0 19.809 0.412201
    vertex 0 19.809 1.58778
    vertex 0 20 1
  endloop
endfacet
  tail";
    let line = "facet normal -1 0 0 outer loop vertex 0 19.809 0.412201 vertex 0 19.809 1.58778 vertex 0 20 1 endloop endfacet\ttail";
    let mut a = StrParser::new(spread);
    let mut b = StrParser::new(line);
    assert_eq!(format!("{:?}", a.take_facet()), format!("{:?}", b.take_facet()));
    assert_eq!(a.take_word(), b.take_word());
    let mut c = StrParser::new("facet normal 1 2 x outer");
    let mut d = StrParser::new("\n facet\u{3000}normal 1\t2   x outer");
    assert_eq!(format!("{:?}", c.take_facet()), format!("{:?}", d.take_facet()));
    assert_eq!(c.take_word(), d.take_word());
}

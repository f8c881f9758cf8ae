use rawmedia::error::DecodeError;
use rawmedia::riff::{color, decimal, parse_chunk, parse_chunk_list, Chunk};

fn same(a: &Chunk, b: &Chunk) -> bool {
    a.id == b.id
        && a.size == b.size
        && a.form_type == b.form_type
        && a.data == b.data
        && a.children.len() == b.children.len()
        && a.children.iter().zip(b.children.iter()).all(|(x, y)| same(x, y))
}

fn sample() -> Chunk {
    Chunk::list_with_id(
        "RIFF",
        "AVI ",
        vec![
            Chunk::list(
                "hdrl",
                vec![
                    Chunk::new("avih", vec![0u8; 56]),
                    Chunk::list(
                        "strl",
                        vec![Chunk::new("strh", vec![1u8; 56]), Chunk::new("strf", vec![2u8; 40])],
                    ),
                ],
            ),
            Chunk::list("movi", vec![Chunk::new("00dc", vec![1, 2]), Chunk::new("00dc", vec![3, 4])]),
            Chunk::new("idx1", vec![9u8; 32]),
        ],
    )
}

#[test]
fn constructors_declare_sizes() {
    let leaf = Chunk::new("data", vec![1, 2, 3, 4, 5, 6]);
    assert_eq!(leaf.id, "data");
    assert_eq!(leaf.size, 6);
    assert_eq!(leaf.form_type, "");
    assert!(leaf.children.is_empty());
    let list = Chunk::list("abcd", vec![leaf, Chunk::new("more", vec![])]);
    assert_eq!(list.id, "LIST");
    assert_eq!(list.form_type, "abcd");
    assert_eq!(list.size, 4 + (6 + 8) + (0 + 8));
    assert!(list.data.is_empty());
    assert_eq!(Chunk::list_with_id("RIFF", "WAVE", vec![]).size, 4);
    assert_eq!(sample().size, 276);
}

#[test]
fn write_emits_id_size_and_payload() {
    let mut out = vec![0xeeu8];
    Chunk::new("data", vec![1, 2, 3, 4]).write(&mut out);
    assert_eq!(out, vec![0xee, b'd', b'a', b't', b'a', 4, 0, 0, 0, 1, 2, 3, 4]);

    let mut out = Vec::new();
    Chunk::list("abcd", vec![Chunk::new("x   ", vec![7, 8])]).write(&mut out);
    assert_eq!(
        out,
        vec![
            b'L', b'I', b'S', b'T', 14, 0, 0, 0, b'a', b'b', b'c', b'd', b'x', b' ', b' ', b' ',
            2, 0, 0, 0, 7, 8
        ]
    );
}

#[test]
fn write_keeps_the_form_type_of_an_empty_list() {
    let mut out = Vec::new();
    Chunk::list("movi", vec![]).write(&mut out);
    assert_eq!(out, b"LIST\x04\x00\x00\x00movi".to_vec());
    let back = Chunk::read(&out).ok().unwrap();
    assert!(same(&back, &Chunk::list("movi", vec![])));
}

#[test]
fn write_of_a_chunk_with_children_and_another_id() {
    let mut out = Vec::new();
    Chunk::list_with_id("abcd", "form", vec![Chunk::new("data", vec![1, 2])]).write(&mut out);
    assert_eq!(out, b"abcd\x0e\x00\x00\x00formdata\x02\x00\x00\x00\x01\x02".to_vec());
}

#[test]
fn write_does_not_pad_odd_chunks() {
    let mut out = Vec::new();
    Chunk::new("odd ", vec![1, 2, 3]).write(&mut out);
    assert_eq!(out.len(), 11);
}

#[test]
fn size_is_written_as_32_bits() {
    let chunk = Chunk {
        id: "big ".to_string(),
        size: 0x0102_0304,
        form_type: String::new(),
        children: Vec::new(),
        data: Vec::new(),
    };
    let mut out = Vec::new();
    chunk.write(&mut out);
    assert_eq!(out, vec![b'b', b'i', b'g', b' ', 4, 3, 2, 1]);
}

#[test]
fn parse_reads_back_what_write_wrote() {
    let tree = sample();
    let mut bytes = Vec::new();
    tree.write(&mut bytes);
    assert_eq!(bytes.len(), 276 + 8);
    let back = Chunk::read(&bytes).ok().unwrap();
    assert!(same(&tree, &back));
    let mut again = Vec::new();
    back.write(&mut again);
    assert_eq!(bytes, again);
}

#[test]
fn parse_skips_the_pad_byte_of_an_odd_chunk() {
    let bytes = [
        b'L', b'I', b'S', b'T', 24, 0, 0, 0, b't', b'e', b's', b't', // list header
        b'o', b'd', b'd', b' ', 3, 0, 0, 0, 1, 2, 3, 0, // odd chunk and pad
        b'n', b'e', b'x', b't', 0, 0, 0, 0,
    ];
    let list = Chunk::read(&bytes).ok().unwrap();
    assert_eq!(list.children.len(), 2);
    assert_eq!(list.children[0].data, vec![1, 2, 3]);
    assert_eq!(list.children[0].size, 3);
    assert_eq!(list.children[1].id, "next");
    assert_eq!(list.children[1].size, 0);
}

#[test]
fn parse_takes_a_missing_pad_byte_at_the_end() {
    let bytes = [
        b'L', b'I', b'S', b'T', 16, 0, 0, 0, b't', b'e', b's', b't', b'o', b'd', b'd', b' ', 3, 0,
        0, 0, 1, 2, 3,
    ];
    let list = Chunk::read(&bytes).ok().unwrap();
    assert_eq!(list.children.len(), 1);
    // the same list, declared without the pad byte, does not end where its child ends
    let mut short = bytes.to_vec();
    short[4] = 15;
    assert!(matches!(Chunk::read(&short), Err(DecodeError::Corrupted)));
}

#[test]
fn parse_rejects_broken_framing() {
    assert!(matches!(Chunk::read(&[]), Err(DecodeError::Corrupted)));
    assert!(matches!(Chunk::read(b"data\x04\x00\x00"), Err(DecodeError::Corrupted)));
    // data shorter than declared
    assert!(matches!(Chunk::read(b"data\x04\x00\x00\x00abc"), Err(DecodeError::Corrupted)));
    // a list that declares less than its form type
    assert!(matches!(Chunk::read(b"LIST\x03\x00\x00\x00abcd"), Err(DecodeError::Corrupted)));
    // a list without room for its form type
    assert!(matches!(Chunk::read(b"RIFF\x04\x00\x00\x00ab"), Err(DecodeError::Corrupted)));
    // a child that runs past the end of its list
    let bytes = b"LIST\x0e\x00\x00\x00testdata\x04\x00\x00\x00abcd";
    assert!(matches!(Chunk::read(bytes), Err(DecodeError::Corrupted)));
    let bytes = b"LIST\x10\x00\x00\x00testdata\x04\x00\x00\x00abcd";
    assert!(Chunk::read(bytes).is_ok());
    // a child list longer than its parent
    let bytes = b"LIST\x10\x00\x00\x00testLIST\x08\x00\x00\x00abcd";
    assert!(matches!(Chunk::read(bytes), Err(DecodeError::Corrupted)));
}

#[test]
fn parse_at_an_offset() {
    let bytes = b"..data\x02\x00\x00\x00hi";
    let chunk = parse_chunk(bytes, 2).ok().unwrap();
    assert_eq!(chunk.id, "data");
    assert_eq!(chunk.data, b"hi".to_vec());
    assert!(matches!(parse_chunk(bytes, 3), Err(DecodeError::Corrupted)));
    assert!(matches!(parse_chunk(bytes, 100), Err(DecodeError::Corrupted)));
    let list = parse_chunk_list(bytes, 2, 10).ok().unwrap();
    assert_eq!(list.len(), 1);
    assert!(parse_chunk_list(bytes, 2, 0).ok().unwrap().is_empty());
    assert!(matches!(parse_chunk_list(bytes, 2, 9), Err(DecodeError::Corrupted)));
    assert!(matches!(parse_chunk_list(bytes, 2, 11), Err(DecodeError::Corrupted)));
}

#[test]
fn an_empty_list_parses_as_a_list() {
    let list = Chunk::read(b"LIST\x04\x00\x00\x00movi").ok().unwrap();
    assert_eq!(list.id, "LIST");
    assert_eq!(list.form_type, "movi");
    assert_eq!(list.size, 4);
    assert!(list.children.is_empty());
}

#[test]
fn ids_that_are_not_text_are_replaced() {
    let chunk = Chunk::read(&[0xff, b'a', b'b', b'c', 0, 0, 0, 0]).ok().unwrap();
    assert_eq!(chunk.id, "\u{fffd}abc");
}

fn line(indent: &str, label: &str, dots: usize, size: &str) -> String {
    format!(
        "\x1b[38;5;239m{}\x1b[m{} \x1b[38;5;239m{}\x1b[m\x1b[38;5;6m{}\x1b[m\n",
        indent,
        label,
        ".".repeat(dots),
        size
    )
}

#[test]
fn print_draws_the_tree() {
    let expected = [
        line("", "RIFF:AVI (3)", 35, "276"),
        line(" ├──", "LIST:hdrl(2)", 31, "192"),
        line(" │   ├──", "avih", 36, "56"),
        line(" │   └──", "LIST:strl(2)", 27, "116"),
        line(" │       ├──", "strh", 32, "56"),
        line(" │       └──", "strf", 32, "40"),
        line(" ├──", "LIST:movi(2)", 32, "24"),
        line(" │   ├──", "00dc", 37, "2"),
        line(" │   └──", "00dc", 37, "2"),
        line(" └──", "idx1", 40, "32"),
    ]
    .concat();
    assert_eq!(sample().print(), expected);
}

#[test]
fn print_of_a_leaf_is_one_line_of_fifty_columns() {
    let text = Chunk::new("data", vec![0u8; 1234]).print();
    assert_eq!(text, line("", "data", 42, "1234"));
    // label, dots and size fill 50 columns; the space is one more
    assert_eq!(4 + 42 + 4, 50);
}

#[test]
fn print_of_a_long_label_has_no_dots() {
    let long = "x".repeat(60);
    let text = Chunk::new(&long, vec![]).print();
    assert_eq!(text, line("", &long, 0, "0"));
}

#[test]
fn color_and_decimal() {
    assert_eq!(color(&"abc".to_string(), 6), "\x1b[38;5;6mabc\x1b[m");
    assert_eq!(color(&String::new(), 239), "\x1b[38;5;239m\x1b[m");
    assert_eq!(decimal(0), "0");
    assert_eq!(decimal(7), "7");
    assert_eq!(decimal(10), "10");
    assert_eq!(decimal(1234567890), "1234567890");
    assert_eq!(decimal(usize::MAX), usize::MAX.to_string());
}

#[test]
fn test_parse_chunk() {
    let mut file = Vec::new();
    sample().write(&mut file);
    let riff = Chunk::read(&file).ok().unwrap();

    println!("{}", riff.print());
}

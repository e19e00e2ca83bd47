use human_connectome::faces::parallel_edge_index;
use human_connectome::graph::WeightedGraph;
use human_connectome::lines::{
    format_edges, format_incident_line, parse_edges, parse_incident_line, split_line,
};
use human_connectome::text::{
    char_is_white_space, chars_of, format_edge, parse_edge, to_tuple,
};

/// Reading an edge with the string functions of the standard library: trim,
/// split at the delimiters, parse the second piece and the last but one.
fn read_with_std(input: &str) -> Option<(usize, usize)> {
    let input = input.trim().to_string();
    let list: Vec<&str> = input.split(['(', ',', ' ', ')']).collect();
    if list.len() < 2 {
        return None;
    }
    let a: usize = list[1].parse().ok()?;
    let b: usize = list[list.len() - 2].parse().ok()?;
    Some((a, b))
}

fn read_edges_with_std(line: &str) -> Option<Vec<(usize, usize)>> {
    let mut edges = Vec::new();
    for piece in line.split("    ") {
        edges.push(read_with_std(piece)?);
    }
    Some(edges)
}

fn read_incident_with_std(line: &str) -> Option<(usize, Vec<(usize, usize)>)> {
    let pieces: Vec<&str> = line.split("    ").collect();
    let vertex: usize = pieces[0].parse().ok()?;
    let mut edges = Vec::new();
    for piece in &pieces[1..] {
        edges.push(read_with_std(piece)?);
    }
    Some((vertex, edges))
}

struct Lcg(u64);

impl Lcg {
    fn next(&mut self) -> u64 {
        self.0 = self.0.wrapping_mul(6364136223846793005).wrapping_add(1442695040888963407);
        self.0 >> 33
    }

    fn text(&mut self, alphabet: &[char], longest: usize) -> String {
        let len = (self.next() as usize) % (longest + 1);
        let mut text = String::new();
        for _ in 0..len {
            text.push(alphabet[(self.next() as usize) % alphabet.len()]);
        }
        text
    }
}

#[test]
fn to_tuple_reads_what_was_written() {
    assert_eq!(to_tuple("(0, 0)".to_string()), (0, 0));
    assert_eq!(to_tuple("(12, 7)".to_string()), (12, 7));
    assert_eq!(to_tuple("  (263, 1)\n".to_string()), (263, 1));
    let large = format!("({}, {})", usize::MAX, usize::MAX - 1);
    assert_eq!(to_tuple(large), (usize::MAX, usize::MAX - 1));
}

#[test]
fn to_tuple_reads_the_second_field_and_the_last_but_one() {
    assert_eq!(to_tuple("(3,4)".to_string()), (3, 4));
    assert_eq!(to_tuple("a(3 4)b".to_string()), (3, 4));
    assert_eq!(to_tuple("x 5 y".to_string()), (5, 5));
    assert_eq!(to_tuple("(+1, 002)".to_string()), (1, 2));
    assert_eq!(to_tuple("1,2,3,4".to_string()), (2, 3));
    assert_eq!(to_tuple("(7)".to_string()), (7, 7));
    assert_eq!(to_tuple("(1,  2)".to_string()), (1, 2));
    assert_eq!(to_tuple("\u{3000}(1, 2)\u{a0}".to_string()), (1, 2));
}

#[test]
fn parse_edge_tells_what_writes_no_edge() {
    for text in [
        "",
        " ",
        "12",
        "(1, 2",
        "1, 2)",
        "(1, x)",
        "(x, 1)",
        "(-1, 2)",
        "(1, -2)",
        "(1.5, 2)",
        "(, )",
        "(+, 1)",
        "( 1, 2)",
        "(1, 2) ,",
        "(١, 2)",
        "(1\u{a0}, 2)",
        "(99999999999999999999999999, 1)",
        "(1, 18446744073709551616)",
    ] {
        assert_eq!(parse_edge(text), None);
        assert_eq!(read_with_std(text), None);
    }
    assert_eq!(parse_edge("(1, 18446744073709551615)"), read_with_std("(1, 18446744073709551615)"));
    assert_eq!(parse_edge("(1, 4294967296)"), read_with_std("(1, 4294967296)"));
}

#[test]
fn parse_edge_agrees_with_the_standard_library() {
    let alphabet = [
        '(', ')', ',', ' ', ' ', '0', '1', '9', '+', '-', 'x', '\t', '\n', '\r', '\u{a0}',
        '\u{3000}', '\u{2003}', '\u{200b}', '\u{85}', 'é',
    ];
    let mut rng = Lcg(3);
    let mut read = 0;
    for _ in 0..40000 {
        let text = rng.text(&alphabet, 9);
        let expected = read_with_std(&text);
        assert_eq!(parse_edge(&text), expected);
        if let Some(edge) = expected {
            assert_eq!(to_tuple(text), edge);
            read += 1;
        }
    }
    assert!(read > 100);
    let digits = ['(', ')', ',', ' ', '0', '1', '2', '3', '4', '5', '6', '7', '8', '9'];
    for _ in 0..20000 {
        let text = rng.text(&digits, 48);
        assert_eq!(parse_edge(&text), read_with_std(&text));
    }
}

#[test]
fn white_space_is_what_the_standard_library_trims() {
    let mut count = 0;
    for code in 0..=0x10ffffu32 {
        if let Some(c) = char::from_u32(code) {
            assert_eq!(char_is_white_space(c), c.is_whitespace());
            if c.is_whitespace() {
                count += 1;
            }
        }
    }
    assert_eq!(count, 25);
}

#[test]
fn chars_of_keeps_every_character() {
    assert_eq!(chars_of(""), Vec::<char>::new());
    assert_eq!(chars_of("a é\u{3000}(1"), vec!['a', ' ', 'é', '\u{3000}', '(', '1']);
}

#[test]
fn format_edge_writes_as_debug_does() {
    for edge in [(0, 0), (1, 2), (10, 9), (263, 100), (usize::MAX, 0), (1000000, 99999)] {
        assert_eq!(format_edge(edge), format!("{:?}", edge));
        assert_eq!(parse_edge(&format_edge(edge)), Some(edge));
        assert_eq!(to_tuple(format_edge(edge)), edge);
    }
    assert_eq!(format_edge((12, 7)), "(12, 7)");
}

#[test]
fn split_line_cuts_at_four_spaces() {
    for line in [
        "",
        " ",
        "   ",
        "    ",
        "     ",
        "        ",
        "a    b",
        "a     b",
        "a   b",
        "    a",
        "a    ",
        "(0, 1)    (1, 2)    (2, 0)",
        "7    (0, 7)    (3, 7)",
        "a            b",
        "é    \u{3000}    x",
    ] {
        let expected: Vec<String> = line.split("    ").map(|s| s.to_string()).collect();
        assert_eq!(split_line(line), expected);
    }
    let mut rng = Lcg(5);
    for _ in 0..20000 {
        let line = rng.text(&[' ', ' ', ' ', 'a', ','], 14);
        let expected: Vec<String> = line.split("    ").map(|s| s.to_string()).collect();
        assert_eq!(split_line(&line), expected);
    }
}

#[test]
fn a_line_of_edges_is_read_back() {
    let cycle = vec![(0, 1), (1, 12), (12, 263), (263, 0)];
    let line = format_edges(&cycle);
    assert_eq!(line, "(0, 1)    (1, 12)    (12, 263)    (263, 0)");
    assert_eq!(parse_edges(&line), Some(cycle));
    assert_eq!(format_edges(&vec![(5, 6)]), "(5, 6)");
    assert_eq!(parse_edges("(5, 6)"), Some(vec![(5, 6)]));
    assert_eq!(format_edges(&Vec::new()), "");
    assert_eq!(parse_edges(""), None);
    assert_eq!(parse_edges("(0, 1)    "), None);
    assert_eq!(parse_edges("(0, 1)     (1, 2)"), Some(vec![(0, 1), (1, 2)]));
    assert_eq!(parse_edges("(0, 1)        (1, 2)"), None);
    assert_eq!(parse_edges("(0, 1)   (1, 2)"), Some(vec![(0, 2)]));
    assert_eq!(parse_edges("(0, 1)    x"), None);
    assert_eq!(parse_edges(" (0, 1) \t    \n(1, 2)"), Some(vec![(0, 1), (1, 2)]));
}

#[test]
fn lines_of_edges_agree_with_the_standard_library() {
    let alphabet = ['(', ')', ',', ' ', ' ', ' ', '0', '1', '7', 'x', '\n'];
    let mut rng = Lcg(17);
    let mut read = 0;
    for _ in 0..40000 {
        let line = rng.text(&alphabet, 24);
        let expected = read_edges_with_std(&line);
        assert_eq!(parse_edges(&line), expected);
        assert_eq!(parse_incident_line(&line), read_incident_with_std(&line));
        if expected.is_some() {
            read += 1;
        }
    }
    assert!(read > 100);
}

#[test]
fn a_line_of_incident_edges_is_read_back() {
    let edges = vec![(0, 7), (3, 7), (200, 7)];
    let line = format_incident_line(7, &edges);
    assert_eq!(line, "7    (0, 7)    (3, 7)    (200, 7)");
    assert_eq!(parse_incident_line(&line), Some((7, edges)));
    assert_eq!(format_incident_line(0, &Vec::new()), "0");
    assert_eq!(parse_incident_line("0"), Some((0, Vec::new())));
    assert_eq!(parse_incident_line("12    (1, 12)"), Some((12, vec![(1, 12)])));
    assert_eq!(parse_incident_line(" 12    (1, 12)"), None);
    assert_eq!(parse_incident_line("12    "), None);
    assert_eq!(parse_incident_line(""), None);
    assert_eq!(parse_incident_line("(1, 2)    (1, 12)"), None);
    assert_eq!(parse_incident_line("+3    (1, 3)"), Some((3, vec![(1, 3)])));
}

#[test]
fn cycles_read_back_from_their_lines_give_the_same_indices() {
    let order = 6;
    let mut rows = vec![vec![0.0f64.to_bits(); order]; order];
    for u in 0..order {
        for v in 0..order {
            if u != v && (u + v) % 4 != 0 {
                rows[u][v] = 1.0f64.to_bits();
            }
        }
    }
    let g = WeightedGraph::new_from_vec(rows).unwrap();
    for n in 3..=5 {
        let cycles = g.find_n_cycles(n);
        assert!(!cycles.is_empty());
        let lines: Vec<String> = cycles.iter().map(|cycle| format_edges(cycle)).collect();
        let read: Vec<Vec<(usize, usize)>> =
            lines.iter().map(|line| parse_edges(line).unwrap()).collect();
        assert_eq!(read, cycles);
        assert_eq!(g.get_cycle_weights(&read), g.get_cycle_weights(&cycles));
        let direct = parallel_edge_index(&cycles);
        let restored = parallel_edge_index(&read);
        for edge in g.get_edges() {
            assert_eq!(direct.get(edge), restored.get(edge));
        }
    }
    let incident = g.get_incident_edges();
    for (v, edges) in incident.iter() {
        let line = format_incident_line(*v, edges);
        assert_eq!(parse_incident_line(&line), Some((*v, edges.clone())));
    }
}

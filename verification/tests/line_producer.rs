use fxtickconv::line_producer::line_producer;
use fxtickconv::text::{spans, Span};

fn line(number: usize, text: &str) -> (usize, String) {
    (number, String::from(text))
}

#[test]
fn lines_are_numbered_from_one() {
    assert_eq!(line_producer("a\nb\nc"), vec![line(1, "a"), line(2, "b"), line(3, "c")]);
    assert_eq!(line_producer("a\nb\n"), vec![line(1, "a"), line(2, "b")]);
}

#[test]
fn blank_lines_are_passed_over_and_counted() {
    assert_eq!(line_producer("\n\na\n   \n\t\r\nb\n\n"), vec![line(3, "a"), line(6, "b")]);
}

#[test]
fn empty_text_has_no_lines() {
    assert_eq!(line_producer(""), vec![]);
    assert_eq!(line_producer("\n"), vec![]);
    assert_eq!(line_producer(" \r\n \n"), vec![]);
}

#[test]
fn lines_are_trimmed() {
    assert_eq!(
        line_producer("  AUD/USD,20161101 22:30:05.632,0.76551,0.76541\r\n\tx y \r\n"),
        vec![line(1, "AUD/USD,20161101 22:30:05.632,0.76551,0.76541"), line(2, "x y")]
    );
}

#[test]
fn white_space_of_several_bytes_is_trimmed() {
    let spaces = [
        '\u{0009}', '\u{000B}', '\u{000C}', '\u{000D}', '\u{0020}', '\u{0085}', '\u{00A0}', '\u{1680}', '\u{2000}',
        '\u{2001}', '\u{2002}', '\u{2003}', '\u{2004}', '\u{2005}', '\u{2006}', '\u{2007}', '\u{2008}', '\u{2009}',
        '\u{200A}', '\u{2028}', '\u{2029}', '\u{202F}', '\u{205F}', '\u{3000}',
    ];
    for space in spaces {
        let text = format!("{}{}a{}b{}{}\n{}", space, space, space, space, space, space);
        assert_eq!(line_producer(&text), vec![line(1, &format!("a{}b", space))]);
    }
}

#[test]
fn trimming_agrees_with_the_standard_library() {
    let texts = [
        "\u{200B}a\u{200B}",
        "\u{2000}\u{200B}\u{2000}",
        "\u{0085}é\u{00A0}",
        "ä\u{3000}",
        "\u{180E}x",
        "\u{FEFF}x\u{FEFF}",
        "\u{1F600} \u{1F600}",
        "\u{2060}",
        "\u{E2}\u{80}",
        "\u{1680}\u{1681}",
        "\u{205E}\u{205F}",
        "\u{200A}\u{200B}\u{200A}",
        "\u{00C2}\u{0085}",
    ];
    for text in texts {
        let expected: Vec<(usize, String)> = text
            .split('\n')
            .enumerate()
            .map(|(number, line)| (number + 1, String::from(line.trim())))
            .filter(|(_, line)| line.len() > 0)
            .collect();
        assert_eq!(line_producer(text), expected);
    }
}

#[test]
fn spans_between_marks() {
    assert_eq!(
        spans(b"ab,,c", b','),
        vec![Span { from: 0, to: 2 }, Span { from: 3, to: 3 }, Span { from: 4, to: 5 }]
    );
    assert_eq!(spans(b"", b','), vec![Span { from: 0, to: 0 }]);
    assert_eq!(spans(b",", b','), vec![Span { from: 0, to: 0 }, Span { from: 1, to: 1 }]);
}

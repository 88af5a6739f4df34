use zsh_powerline::error::{Fault, ParseError};
use zsh_powerline::part::{split_descriptor, EndType, Part};

fn part(foreground: &str, background: &str, value: &str, end: EndType) -> Part {
    Part {
        background: background.to_string(),
        foreground: foreground.to_string(),
        value: value.to_string(),
        end,
    }
}

fn raw_parts(s: &str) -> Vec<String> {
    split_descriptor(s).unwrap()
}

#[test]
fn new_part_is_empty() {
    assert_eq!(Part::new(), part("", "", "", EndType::Blank));
}

#[test]
fn color_group_round_trip() {
    let parts = Part::from_string("(red;blue)text>".to_string()).unwrap();
    assert_eq!(parts.len(), 1);
    assert_eq!(parts[0].foreground, "red");
    assert_eq!(parts[0].background, "blue");
    assert_eq!(parts[0].value, "text");
    assert_eq!(parts[0].end, EndType::RightTriangle);
}

#[test]
fn color_group_without_semicolon_names_the_foreground() {
    assert_eq!(
        Part::from_string_int("(red)text"),
        Ok(part("red", "", "text", EndType::Blank))
    );
}

#[test]
fn color_group_is_split_at_its_first_semicolon_only() {
    assert_eq!(
        Part::from_string_int("(a;b;c)x"),
        Ok(part("a", "b;c", "x", EndType::Blank))
    );
    assert_eq!(Part::from_string_int("(;b)x"), Ok(part("", "b", "x", EndType::Blank)));
    assert_eq!(Part::from_string_int("(a;)x"), Ok(part("a", "", "x", EndType::Blank)));
    assert_eq!(Part::from_string_int("()x"), Ok(part("", "", "x", EndType::Blank)));
}

#[test]
fn color_group_ends_at_the_first_closing_parenthesis() {
    assert_eq!(
        Part::from_string_int("(a)b)c"),
        Ok(part("a", "", "b)c", EndType::Blank))
    );
}

#[test]
fn parenthesis_inside_the_value_opens_no_color_group() {
    assert_eq!(
        Part::from_string_int("a(b)c"),
        Ok(part("", "", "a(b)c", EndType::Blank))
    );
    assert_eq!(
        Part::from_string_int("$(pwd)>"),
        Ok(part("", "", "$(pwd)", EndType::RightTriangle))
    );
}

#[test]
fn plain_descriptor_is_one_segment_without_colors_or_glyph() {
    for text in ["hello", "x", "a b c", "%~", "ends with paren)", "\u{e0b0}"] {
        assert_eq!(
            Part::from_string(text.to_string()),
            Ok(vec![part("", "", text, EndType::Blank)])
        );
    }
}

#[test]
fn trailing_character_picks_the_glyph() {
    assert_eq!(Part::from_string_int("x<"), Ok(part("", "", "x", EndType::LeftTriangle)));
    assert_eq!(Part::from_string_int("x>"), Ok(part("", "", "x", EndType::RightTriangle)));
    assert_eq!(Part::from_string_int("x|"), Ok(part("", "", "x", EndType::Blank)));
    assert_eq!(Part::from_string_int("x"), Ok(part("", "", "x", EndType::Blank)));
    assert_eq!(EndType::from_char('<'), EndType::LeftTriangle);
    assert_eq!(EndType::from_char('>'), EndType::RightTriangle);
    assert_eq!(EndType::from_char('|'), EndType::Blank);
    assert_eq!(EndType::from_char('x'), EndType::Blank);
}

#[test]
fn only_the_last_character_is_stripped() {
    assert_eq!(Part::from_string_int("a>b>"), Ok(part("", "", "a>b", EndType::RightTriangle)));
    assert_eq!(Part::from_string_int("a<b"), Ok(part("", "", "a<b", EndType::Blank)));
}

#[test]
fn lone_delimiter_is_a_segment_with_an_empty_value() {
    assert_eq!(Part::from_string_int(">"), Ok(part("", "", "", EndType::RightTriangle)));
    assert_eq!(
        Part::from_string("(red)|".to_string()),
        Ok(vec![part("red", "", "", EndType::Blank)])
    );
}

#[test]
fn glyph_text() {
    assert_eq!(EndType::RightTriangle.as_str(), "\u{e0b0}");
    assert_eq!(EndType::LeftTriangle.as_str(), "\u{e0b2}");
    assert_eq!(EndType::Blank.as_str(), "");
}

#[test]
fn descriptor_is_cut_after_each_delimiter() {
    assert_eq!(raw_parts("a>b<c|d"), vec!["a>", "b<", "c|", "d"]);
    assert_eq!(raw_parts("a>"), vec!["a>"]);
    assert_eq!(raw_parts("a"), vec!["a"]);
    assert_eq!(raw_parts(">"), vec![">"]);
    assert_eq!(raw_parts("><|"), vec![">", "<", "|"]);
    assert_eq!(raw_parts("(r;b)x>(g)y"), vec!["(r;b)x>", "(g)y"]);
}

#[test]
fn raw_parts_join_to_the_descriptor() {
    for text in ["a>b<c|d", "no delimiter", "|||", "(x;y)\u{e0b2}<z", "tail>"] {
        let parts = raw_parts(text);
        assert_eq!(parts.concat(), text);
        for (i, p) in parts.iter().enumerate() {
            assert!(!p.is_empty());
            let closed = p.ends_with(['<', '>', '|']);
            assert!(closed || i + 1 == parts.len());
            let inner = &p[..p.len() - p.chars().last().unwrap().len_utf8()];
            assert!(!inner.contains(['<', '>', '|']));
        }
    }
}

#[test]
fn descriptor_with_several_segments() {
    assert_eq!(
        Part::from_string("(red;blue)a>(green)b<c".to_string()),
        Ok(vec![
            part("red", "blue", "a", EndType::RightTriangle),
            part("green", "", "b", EndType::LeftTriangle),
            part("", "", "c", EndType::Blank),
        ])
    );
}

#[test]
fn non_ascii_text_is_kept() {
    assert_eq!(
        Part::from_string("(r\u{e9}d)\u{2713} ok>\u{e0b0}".to_string()),
        Ok(vec![
            part("r\u{e9}d", "", "\u{2713} ok", EndType::RightTriangle),
            part("", "", "\u{e0b0}", EndType::Blank),
        ])
    );
}

#[test]
fn unterminated_color_group_is_rejected() {
    assert_eq!(
        Part::from_string("(unterminated".to_string()),
        Err(ParseError::UnterminatedColorGroup)
    );
    assert_eq!(Part::from_string_int("("), Err(ParseError::UnterminatedColorGroup));
    assert_eq!(Part::from_string_int("(red;blue>"), Err(ParseError::UnterminatedColorGroup));
}

#[test]
fn delimiter_inside_a_color_group_cuts_it() {
    assert_eq!(
        Part::from_string("(a|b)x".to_string()),
        Err(ParseError::UnterminatedColorGroup)
    );
}

#[test]
fn empty_descriptor_is_rejected() {
    assert_eq!(Part::from_string(String::new()), Err(ParseError::MalformedDescriptor));
    assert_eq!(split_descriptor(""), Err(ParseError::MalformedDescriptor));
}

#[test]
fn color_group_with_nothing_after_it_is_rejected() {
    assert_eq!(Part::from_string_int("(red)"), Err(ParseError::EmptySegment));
    assert_eq!(Part::from_string_int(""), Err(ParseError::EmptySegment));
    assert_eq!(
        Part::from_string("a>(red;blue)".to_string()),
        Err(ParseError::EmptySegment)
    );
}

#[test]
fn read_descriptor_agrees_with_from_string() {
    for text in ["(red;blue)a>(green)b<c", "plain", ">", "a|b|c|", "(r\u{e9}d)x"] {
        assert_eq!(Part::read_descriptor(text).ok(), Part::from_string(text.to_string()).ok());
        assert!(Part::read_descriptor(text).is_ok());
    }
    for text in ["", "(", "a>(b", "(x)", "a|(x)|b|(y)"] {
        assert_eq!(
            Part::read_descriptor(text).map_err(|f| f.error),
            Part::from_string(text.to_string())
        );
        assert!(Part::read_descriptor(text).is_err());
    }
}

#[test]
fn fault_offset_is_where_the_malformed_part_begins() {
    let fault = |error, offset| Err(Fault { error, offset });
    assert_eq!(Part::read_descriptor(""), fault(ParseError::MalformedDescriptor, 0));
    assert_eq!(Part::read_descriptor("(x"), fault(ParseError::UnterminatedColorGroup, 0));
    assert_eq!(Part::read_descriptor("(x)"), fault(ParseError::EmptySegment, 0));
    assert_eq!(Part::read_descriptor("a>(x"), fault(ParseError::UnterminatedColorGroup, 2));
    assert_eq!(Part::read_descriptor("a>b|(x)"), fault(ParseError::EmptySegment, 4));
    assert_eq!(Part::read_descriptor("ab|(x)|(y"), fault(ParseError::UnterminatedColorGroup, 7));
    assert_eq!(Part::read_descriptor("ab|c>(x)"), fault(ParseError::EmptySegment, 5));
}

#[test]
fn fault_offset_counts_bytes() {
    let fault = |error, offset| Err(Fault { error, offset });
    assert_eq!(
        Part::read_descriptor("\u{e9}>(x"),
        fault(ParseError::UnterminatedColorGroup, 3)
    );
    assert_eq!(
        Part::read_descriptor("\u{e0b0}\u{1f600}|a<(x)"),
        fault(ParseError::EmptySegment, 10)
    );
}

#[test]
fn first_malformed_part_decides_the_error() {
    assert_eq!(
        Part::from_string("(red)>(blue".to_string()),
        Err(ParseError::UnterminatedColorGroup)
    );
    assert_eq!(
        Part::from_string("(red)(blue".to_string()),
        Ok(vec![part("red", "", "(blue", EndType::Blank)])
    );
    assert_eq!(
        Part::from_string("(x>(red)".to_string()),
        Err(ParseError::UnterminatedColorGroup)
    );
}

#[test]
fn error_messages_differ() {
    let all = [
        ParseError::MalformedDescriptor,
        ParseError::UnterminatedColorGroup,
        ParseError::EmptySegment,
        ParseError::MalformedCondition,
        ParseError::IncompleteExpression,
    ];
    for (i, a) in all.iter().enumerate() {
        assert!(!a.message().is_empty());
        for b in &all[i + 1..] {
            assert_ne!(a.message(), b.message());
        }
    }
    assert_eq!(ParseError::MalformedDescriptor.message(), "descriptor is empty");
}

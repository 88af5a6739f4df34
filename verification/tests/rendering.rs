use zsh_powerline::error::ParseError;
use zsh_powerline::part::{EndType, Part};
use zsh_powerline::prompt::Prompt;
use zsh_powerline::render::render_descriptor;

const RIGHT: &str = "\u{e0b0}";
const LEFT: &str = "\u{e0b2}";

fn part(foreground: &str, background: &str, value: &str, end: EndType) -> Part {
    Part {
        background: background.to_string(),
        foreground: foreground.to_string(),
        value: value.to_string(),
        end,
    }
}

fn render(p: Part, state: &mut Prompt) -> String {
    p.to_prompt_format(state).unwrap()
}

fn render_alone(value: &str) -> String {
    render(part("", "", value, EndType::Blank), &mut Prompt::default())
}

fn count(haystack: &str, needle: &str) -> usize {
    haystack.matches(needle).count()
}

#[test]
fn default_state() {
    let p = Prompt::default();
    assert_eq!(p.foreground, "");
    assert_eq!(p.background, "");
    assert_eq!(p.space_char, " ");
    assert_eq!(p.last_end, EndType::Blank);
    assert!(p.psvars.is_empty());
    assert_eq!(p.get_seperator(), " ");
    assert_eq!(Prompt::with_seperator("::".to_string()).get_seperator(), "::");
}

#[test]
fn foreground_change_is_idempotent() {
    let mut p = Prompt::default();
    assert_eq!(p.get_foreground_string("red".to_string()), "%F{red}");
    assert_eq!(p.foreground, "red");
    assert_eq!(p.get_foreground_string("red".to_string()), "");
    assert_eq!(p.get_foreground_string(String::new()), "");
    assert_eq!(p.foreground, "red");
    assert_eq!(p.get_foreground_string("blue".to_string()), "%F{blue}");
    assert_eq!(p.foreground, "blue");
    assert_eq!(p.background, "");
}

#[test]
fn background_change_is_idempotent() {
    let mut p = Prompt::default();
    assert_eq!(p.get_background_string("236".to_string()), "%K{236}");
    assert_eq!(p.background, "236");
    assert_eq!(p.get_background_string("236".to_string()), "");
    assert_eq!(p.get_background_string(String::new()), "");
    assert_eq!(p.background, "236");
    assert_eq!(p.get_background_string("#ff0000".to_string()), "%K{#ff0000}");
    assert_eq!(p.foreground, "");
}

#[test]
fn boundary_after_no_glyph() {
    let mut p = Prompt::default();
    assert_eq!(p.get_last_end(EndType::RightTriangle, "blue".to_string()), "%K{blue}");
    assert_eq!(p.last_end, EndType::RightTriangle);
    assert_eq!(p.background, "blue");
    assert_eq!(p.foreground, "");
}

#[test]
fn boundary_after_right_triangle() {
    let mut p = Prompt::default();
    p.get_last_end(EndType::RightTriangle, "blue".to_string());
    assert_eq!(
        p.get_last_end(EndType::Blank, "green".to_string()),
        format!("%K{{green}}{RIGHT}")
    );
    assert_eq!(p.last_end, EndType::Blank);
    assert_eq!(p.background, "green");
    assert_eq!(p.foreground, "");
}

#[test]
fn boundary_after_left_triangle() {
    let mut p = Prompt::default();
    p.get_last_end(EndType::LeftTriangle, "blue".to_string());
    assert_eq!(
        p.get_last_end(EndType::RightTriangle, "green".to_string()),
        format!("%F{{green}}{LEFT}%K{{green}}")
    );
    assert_eq!(p.last_end, EndType::RightTriangle);
    assert_eq!(p.background, "green");
    assert_eq!(p.foreground, "green");
    assert_eq!(p.get_last_end(EndType::Blank, "green".to_string()), RIGHT);
    assert_eq!(p.get_last_end(EndType::Blank, String::new()), "");
}

#[test]
fn add_psvar_numbers_from_one() {
    let mut p = Prompt::default();
    assert_eq!(p.add_psvar("$(a)".to_string()), 1);
    assert_eq!(p.add_psvar("$(b)".to_string()), 2);
    assert_eq!(p.add_psvar("$(a)".to_string()), 3);
    assert_eq!(p.psvars, vec!["$(a)", "$(b)", "$(a)"]);
}

#[test]
fn literal_segment_is_padded() {
    let mut p = Prompt::default();
    assert_eq!(
        render(part("red", "blue", "text", EndType::RightTriangle), &mut p),
        "%K{blue}%F{red} text %F{blue}"
    );
    assert_eq!(p.foreground, "blue");
    assert_eq!(p.background, "blue");
    assert_eq!(p.last_end, EndType::RightTriangle);
    assert_eq!(
        render(part("white", "green", "x", EndType::Blank), &mut p),
        format!("%K{{green}}{RIGHT}%F{{white}} x %F{{green}}")
    );
    assert_eq!(render(part("", "", "y", EndType::Blank), &mut p), " y ");
}

#[test]
fn segment_after_left_triangle() {
    let mut p = Prompt::default();
    assert_eq!(render(part("", "blue", "a", EndType::LeftTriangle), &mut p), "%K{blue} a %F{blue}");
    assert_eq!(
        render(part("", "green", "b", EndType::Blank), &mut p),
        format!("%F{{green}}{LEFT}%K{{green}} b ")
    );
}

#[test]
fn segment_without_colors() {
    assert_eq!(render_alone("plain"), " plain ");
    assert_eq!(render_alone(""), "  ");
}

#[test]
fn padding_is_the_separator() {
    let mut p = Prompt::with_seperator("--".to_string());
    assert_eq!(render(part("", "", "a", EndType::Blank), &mut p), "--a--");
    assert_eq!(render(part("", "", "?0;a;b", EndType::Blank), &mut p), "--%0(.a.b)--");
    let mut p = Prompt::with_seperator(String::new());
    assert_eq!(render(part("", "", "a", EndType::Blank), &mut p), "a");
}

#[test]
fn same_background_is_switched_to_once() {
    let mut p = Prompt::default();
    let a = render(part("red", "blue", "a", EndType::RightTriangle), &mut p);
    let b = render(part("red", "blue", "b", EndType::RightTriangle), &mut p);
    assert_eq!(a, "%K{blue}%F{red} a %F{blue}");
    assert_eq!(b, format!("{RIGHT}%F{{red}} b %F{{blue}}"));
    assert_eq!(count(&format!("{a}{b}"), "%K{blue}"), 1);
}

#[test]
fn same_background_after_left_triangle_is_switched_to_once() {
    let mut p = Prompt::default();
    let a = render(part("", "blue", "a", EndType::LeftTriangle), &mut p);
    let b = render(part("", "blue", "b", EndType::LeftTriangle), &mut p);
    assert_eq!(a, "%K{blue} a %F{blue}");
    assert_eq!(b, format!("{LEFT} b "));
}

#[test]
fn same_foreground_is_switched_to_once() {
    let mut p = Prompt::default();
    let a = render(part("red", "", "a", EndType::Blank), &mut p);
    let b = render(part("red", "", "b", EndType::Blank), &mut p);
    assert_eq!(a, "%F{red} a ");
    assert_eq!(b, " b ");
    assert_eq!(count(&format!("{a}{b}"), "%F{red}"), 1);
}

#[test]
fn foreground_returns_after_a_background_took_its_place() {
    let mut p = Prompt::default();
    let a = render(part("red", "blue", "a", EndType::Blank), &mut p);
    let b = render(part("red", "blue", "b", EndType::Blank), &mut p);
    assert_eq!(a, "%K{blue}%F{red} a %F{blue}");
    assert_eq!(b, "%F{red} b %F{blue}");
}

#[test]
fn line_feed_segment_has_no_padding() {
    assert_eq!(render_alone("\\n"), "\n");
    let mut p = Prompt::with_seperator("~~".to_string());
    assert_eq!(
        render(part("red", "blue", "\\n", EndType::RightTriangle), &mut p),
        "%K{blue}%F{red}\n%F{blue}"
    );
    assert_eq!(
        render(part("", "", "\\n", EndType::Blank), &mut p),
        format!("{RIGHT}\n")
    );
}

#[test]
fn line_feed_segment_drops_its_condition() {
    assert_eq!(render_alone("?0;\\n;b"), "\n");
    assert_eq!(render_alone("?0j;\\n"), "\n");
}

#[test]
fn line_feed_inside_text_is_padded() {
    assert_eq!(render_alone("a\\nb"), " a\nb ");
    assert_eq!(render_alone("\\n\\n"), " \n\n ");
}

#[test]
fn else_branch_is_not_expanded() {
    assert_eq!(render_alone("?0;a\\nb;c\\nd"), " %0(.a\nb.c\\nd) ");
}

#[test]
fn capture_segment() {
    let mut p = Prompt::default();
    assert_eq!(render(part("", "", "$(date)", EndType::Blank), &mut p), " %1v ");
    assert_eq!(render(part("", "", "$(pwd)", EndType::Blank), &mut p), " %2v ");
    assert_eq!(p.psvars, vec!["$(date)", "$(pwd)"]);
}

#[test]
fn conditional_with_two_branches_wraps_both() {
    assert_eq!(render_alone("?0;a;b"), " %0(.a.b) ");
    let mut p = Prompt::default();
    assert_eq!(
        render(part("red", "blue", "?1j;jobs;idle", EndType::RightTriangle), &mut p),
        "%K{blue}%F{red} %1(j.jobs.idle) %F{blue}"
    );
}

#[test]
fn conditional_with_one_branch_wraps_the_segment() {
    assert_eq!(render_alone("?1j;yes"), "%1(j. yes .)");
    let mut p = Prompt::default();
    p.get_last_end(EndType::RightTriangle, "black".to_string());
    assert_eq!(
        render(part("red", "blue", "?1j;yes", EndType::Blank), &mut p),
        format!("%1(j.%K{{blue}}{RIGHT}%F{{red}} yes %F{{blue}}.)")
    );
    assert_eq!(p.background, "blue");
    assert_eq!(p.foreground, "blue");
}

#[test]
fn guarded_capture_segment() {
    assert_eq!(render_alone("?none$(x)"), " %1(v.%1v.none) ");
    assert_eq!(render_alone("?$(x)"), "%1(v. %1v .)");
}

#[test]
fn malformed_value_leaves_the_state_alone() {
    let mut p = Prompt::default();
    render(part("red", "blue", "a", EndType::RightTriangle), &mut p);
    let r = part("white", "green", "?1x;$(lost);?", EndType::LeftTriangle).to_prompt_format(&mut p);
    assert_eq!(r, Err(ParseError::MalformedCondition));
    assert_eq!(p.foreground, "blue");
    assert_eq!(p.background, "blue");
    assert_eq!(p.last_end, EndType::RightTriangle);
    assert!(p.psvars.is_empty());
    assert_eq!(
        part("", "", "?1", EndType::Blank).to_prompt_format(&mut p),
        Err(ParseError::IncompleteExpression)
    );
}

#[test]
fn descriptor_texts_are_joined() {
    let parts = Part::from_string("(red;blue)a>(white;green)$(b)<c".to_string()).unwrap();
    let (text, state) = render_descriptor(parts, Prompt::default()).unwrap();
    assert_eq!(
        text,
        format!(
            "%K{{blue}}%F{{red}} a %F{{blue}}%K{{green}}{RIGHT}%F{{white}} %1v %F{{green}}{LEFT} c "
        )
    );
    assert_eq!(state.psvars, vec!["$(b)"]);
    assert_eq!(state.last_end, EndType::Blank);
    assert_eq!(state.foreground, "green");
    assert_eq!(state.background, "green");
}

#[test]
fn empty_descriptor_renders_to_nothing() {
    let (text, state) = render_descriptor(vec![], Prompt::with_seperator("x".to_string())).unwrap();
    assert_eq!(text, "");
    assert_eq!(state.space_char, "x");
    assert!(state.psvars.is_empty());
}

#[test]
fn descriptor_fails_at_its_first_malformed_value() {
    let parts = vec![
        part("", "", "a", EndType::Blank),
        part("", "", "?1", EndType::Blank),
        part("", "", "?x;y", EndType::Blank),
    ];
    assert_eq!(
        render_descriptor(parts, Prompt::default()).err(),
        Some(ParseError::IncompleteExpression)
    );
}

#[test]
fn shell_function_without_captures() {
    assert_eq!(Prompt::default().precmd(), vec!["precmd() {", "export psvar=();", "}"]);
}

#[test]
fn shell_function_binds_the_captures_in_slot_order() {
    let mut p = Prompt::default();
    p.add_psvar("$(a)".to_string());
    assert_eq!(
        p.precmd(),
        vec!["precmd() {", "local a0=$(a);", "export psvar=($a0);", "}"]
    );
    p.add_psvar("$(b c)".to_string());
    p.add_psvar("$(a)".to_string());
    assert_eq!(
        p.precmd(),
        vec![
            "precmd() {",
            "local a0=$(a);",
            "local a1=$(b c);",
            "local a2=$(a);",
            "export psvar=($a0 $a1 $a2);",
            "}"
        ]
    );
}

#[test]
fn shell_function_numbers_past_nine() {
    let mut p = Prompt::default();
    for i in 0..11 {
        p.add_psvar(format!("$(c{i})"));
    }
    let lines = p.precmd();
    assert_eq!(lines.len(), 14);
    assert_eq!(lines[11], "local a10=$(c10);");
    assert_eq!(
        lines[12],
        "export psvar=($a0 $a1 $a2 $a3 $a4 $a5 $a6 $a7 $a8 $a9 $a10);"
    );
}

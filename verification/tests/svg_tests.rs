use rs_namin::svg::{
    extract_attr, find_def, find_tags, path_commands, path_defs, path_well_formed, rect_elements,
    strip_hash, tokenize_path, use_elements, PathCommand, PathToken, RectTag, UseTag,
};

fn number(t: &PathToken) -> f32 {
    match t {
        PathToken::Number(s) => s.parse::<f32>().unwrap_or(0.0),
        PathToken::Command(c) => panic!("expected a number, found command {c}"),
    }
}

fn cmd(command: char, first: usize, count: usize) -> PathCommand {
    PathCommand { command, first, count }
}

#[test]
fn tokenize_compact_path() {
    let tokens = tokenize_path("M2.5-3.7L1.0 2.0");
    assert_eq!(tokens.len(), 6);
    assert!(matches!(tokens[0], PathToken::Command('M')));
    assert!((number(&tokens[1]) - 2.5).abs() < 1e-6);
    assert!((number(&tokens[2]) - -3.7).abs() < 1e-6);
    assert!(matches!(tokens[3], PathToken::Command('L')));
}

#[test]
fn tokenize_leading_dot() {
    let tokens = tokenize_path("M.5.6");
    assert_eq!(tokens.len(), 3);
    assert!((number(&tokens[1]) - 0.5).abs() < 1e-6);
    assert!((number(&tokens[2]) - 0.6).abs() < 1e-6);
}

#[test]
fn extract_attr_single_quotes() {
    let tag = "<path id='g0-1' d='M1 2'/>";
    assert_eq!(extract_attr(tag, "id"), Some("g0-1".to_string()));
    assert_eq!(extract_attr(tag, "d"), Some("M1 2".to_string()));
}

#[test]
fn extract_attr_double_quotes() {
    let tag = r#"<use x="1.5" y="-2.3"/>"#;
    assert_eq!(extract_attr(tag, "x"), Some("1.5".to_string()));
    assert_eq!(extract_attr(tag, "y"), Some("-2.3".to_string()));
}

#[test]
fn number_texts_keep_their_spelling() {
    let tokens = tokenize_path("m1,-2 3e");
    assert_eq!(
        tokens,
        vec![
            PathToken::Command('m'),
            PathToken::Number("1".to_string()),
            PathToken::Number("-2".to_string()),
            PathToken::Number("3".to_string()),
            PathToken::Command('e'),
        ]
    );
    // A sign with no digits is a number token of its own.
    assert_eq!(
        tokenize_path("- 4"),
        vec![PathToken::Number("-".to_string()), PathToken::Number("4".to_string())]
    );
    assert!(tokenize_path("  ,, ").is_empty());
}

#[test]
fn attribute_names_must_stand_alone() {
    let tag = "<path id='g' d='M0 0'/>";
    assert_eq!(extract_attr(tag, "d"), Some("M0 0".to_string()));
    assert_eq!(extract_attr("<path id='g'/>", "d"), None);
    // Single quotes win over double quotes.
    assert_eq!(extract_attr(r#"<a x="2" x='1'/>"#, "x"), Some("1".to_string()));
    // A value without its closing quote is not found.
    assert_eq!(extract_attr("<a x='1", "x"), None);
}

#[test]
fn implicit_lines_follow_a_move() {
    let tokens = tokenize_path("M0 0 10 0 10 10Z");
    assert!(path_well_formed(&tokens));
    assert_eq!(
        path_commands(&tokens),
        vec![cmd('M', 1, 2), cmd('L', 3, 2), cmd('L', 5, 2), cmd('Z', 8, 0)]
    );
    let rel = tokenize_path("m1 1 2 2");
    assert_eq!(path_commands(&rel), vec![cmd('m', 1, 2), cmd('l', 3, 2)]);
}

#[test]
fn repeated_operand_groups_repeat_the_command() {
    let tokens = tokenize_path("M0 0C1 2 3 4 5 6 7 8 9 10 11 12H3 4V5");
    assert_eq!(
        path_commands(&tokens),
        vec![
            cmd('M', 1, 2),
            cmd('C', 4, 6),
            cmd('C', 10, 6),
            cmd('H', 17, 1),
            cmd('H', 18, 1),
            cmd('V', 20, 1),
        ]
    );
}

#[test]
fn stray_numbers_and_unknown_letters_are_skipped() {
    let tokens = tokenize_path("5 X M1 2 Z");
    assert_eq!(path_commands(&tokens), vec![cmd('M', 3, 2), cmd('Z', 6, 0)]);
}

#[test]
fn missing_operands_make_a_path_ill_formed() {
    assert!(!path_well_formed(&tokenize_path("M1")));
    assert!(!path_well_formed(&tokenize_path("M1 L2 3")));
    assert!(!path_well_formed(&tokenize_path("M0 0C1 2 3")));
    assert!(path_well_formed(&tokenize_path("M0 0L")));
    assert!(path_well_formed(&tokenize_path("")));
}

#[test]
fn dvisvgm_drawing_elements() {
    let svg = r#"<?xml version='1.0'?>
<svg viewBox='0 -10 50 15'>
<defs>
<path id='g0' d='M0 0L5 0L5 5L0 5Z'/>
<path d='M1 1'/>
<path id='g0' d='M9 9'/>
</defs>
<g id='page1'>
<use x='2' y='-3' xlink:href='#g0'/>
<use x='7'/>
<rect x='10' y='-1' height='.5' width='8'/>
</g>
</svg>"#;
    let defs = path_defs(svg);
    assert_eq!(
        defs,
        vec![
            ("g0".to_string(), "M0 0L5 0L5 5L0 5Z".to_string()),
            ("g0".to_string(), "M9 9".to_string()),
        ]
    );
    assert_eq!(find_def(&defs, "g0"), Some(1));
    assert_eq!(find_def(&defs, "g1"), None);
    assert_eq!(
        use_elements(svg),
        vec![UseTag { x: Some("2".to_string()), y: Some("-3".to_string()), href: "g0".to_string() }]
    );
    assert_eq!(
        rect_elements(svg),
        vec![RectTag {
            x: Some("10".to_string()),
            y: Some("-1".to_string()),
            width: Some("8".to_string()),
            height: Some(".5".to_string()),
        }]
    );
    assert_eq!(extract_attr(svg, "viewBox"), Some("0 -10 50 15".to_string()));
    assert_eq!(find_tags(svg, "<use ").len(), 2);
}

#[test]
fn tags_need_their_closing_mark() {
    assert_eq!(find_tags("<use a/> <use b", "<use "), vec!["<use a/>".to_string()]);
    assert!(find_tags("", "<use ").is_empty());
}

#[test]
fn hash_is_stripped_once() {
    assert_eq!(strip_hash("#g0-1"), "g0-1");
    assert_eq!(strip_hash("##a"), "#a");
    assert_eq!(strip_hash("g0"), "g0");
    assert_eq!(strip_hash(""), "");
}

#[test]
fn signs_and_dots_separate_compact_numbers() {
    let tokens = tokenize_path("M2.168867-2.531507C");
    assert_eq!(
        tokens,
        vec![
            PathToken::Command('M'),
            PathToken::Number("2.168867".to_string()),
            PathToken::Number("-2.531507".to_string()),
            PathToken::Command('C'),
        ]
    );
}

#[test]
fn commands_read_tokens_left_to_right() {
    let d = "M6.844334-3.257783C6.993773-3.257783 7.183064-3.257783 7.183064-3.457036S6.993773-3.656289 6.854296-3.656289H.886675Z";
    let tokens = tokenize_path(d);
    let commands = path_commands(&tokens);
    let letters: String = commands.iter().map(|c| c.command).collect();
    assert_eq!(letters, "MCSHZ");
    let mut next = 0;
    for c in &commands {
        assert!(c.first >= next);
        for k in c.first..c.first + c.count {
            assert!(matches!(tokens[k], PathToken::Number(_)));
        }
        next = c.first + c.count;
    }
    assert!(next <= tokens.len());
}

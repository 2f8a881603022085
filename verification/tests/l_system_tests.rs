use rs_namin::l_system::{
    apply_rules, apply_rules_budgeted, binary_tree, brackets_balanced, crystal, dragon_curve, fractal_plant, hilbert, koch, my7,
    plan_lines, sierpinski, tree, LSystemConfig, ReplacementRule, TurtleSegment,
};

/// Segment end points of a plan, drawn with unit steps and turn angle `theta`.
fn geometry(plan: &[TurtleSegment], theta: f32) -> Vec<((f32, f32), (f32, f32))> {
    let mut out: Vec<((f32, f32), (f32, f32))> = Vec::new();
    for seg in plan {
        let start = match seg.from {
            Some(k) => out[k].1,
            None => (0.0, 0.0),
        };
        let angle = std::f32::consts::FRAC_PI_2 + seg.turns as f32 * theta;
        let end = (start.0 + angle.cos(), start.1 + angle.sin());
        out.push((start, end));
    }
    out
}

#[test]
fn dragon_curve_iteration_1() {
    let config = dragon_curve();
    assert_eq!(apply_rules(&config, 1), "F+G");
}

#[test]
fn dragon_curve_iteration_2() {
    let config = dragon_curve();
    assert_eq!(apply_rules(&config, 2), "F+G+F-G");
}

#[test]
fn dragon_curve_iteration_3() {
    let config = dragon_curve();
    assert_eq!(apply_rules(&config, 3), "F+G+F-G+F+G-F-G");
}

#[test]
fn dragon_curve_line_count_iter3() {
    let config = dragon_curve();
    let s = apply_rules(&config, 3);
    let lines = plan_lines(&s);
    // F+G+F-G+F+G-F-G → draw chars: F,G,F,G,F,G,F,G = 8
    assert_eq!(lines.len(), 8);
}

#[test]
fn empty_axiom_returns_empty() {
    let config = LSystemConfig { start: String::new(), rules: vec![] };
    assert_eq!(apply_rules(&config, 5), "");
    let lines = plan_lines("");
    assert!(lines.is_empty());
}

#[test]
fn zero_iterations_returns_axiom() {
    let config = dragon_curve();
    assert_eq!(apply_rules(&config, 0), "F");
}

#[test]
fn fractal_plant_uses_stack() {
    let config = fractal_plant();
    let s = apply_rules(&config, 2);
    assert!(brackets_balanced(&s));
    let lines = plan_lines(&s);
    assert!(!lines.is_empty());
    // a restored pen makes some segment start away from its predecessor
    assert!(lines.iter().enumerate().any(|(i, l)| i > 0 && l.from != Some(i - 1)));
}

#[test]
fn unmatched_bracket_is_rejected() {
    assert!(!brackets_balanced("]"));
    assert!(!brackets_balanced("F[F]]"));
    assert!(brackets_balanced("F[F[+F]]-F"));
    assert!(brackets_balanced("[[["));
}

#[test]
fn hilbert_curve_lines() {
    let config = hilbert();
    let s = apply_rules(&config, 2);
    let lines = plan_lines(&s);
    assert!(!lines.is_empty());
}

#[test]
fn g_character_draws() {
    let lines = plan_lines("G");
    assert_eq!(lines.len(), 1);
    assert_eq!(lines[0], TurtleSegment { from: None, turns: 0 });
}

#[test]
fn dragon_curve_segments_connected() {
    let config = dragon_curve();
    let theta = std::f32::consts::FRAC_PI_2;
    let s = apply_rules(&config, 4);
    let plan = plan_lines(&s);
    // In the plan itself: each segment starts where the one before ended.
    assert_eq!(plan[0].from, None);
    for i in 1..plan.len() {
        assert_eq!(plan[i].from, Some(i - 1));
    }
    let lines = geometry(&plan, theta);
    // Each segment's end should be the next segment's start
    for i in 0..lines.len() - 1 {
        let (ex, ey) = lines[i].1;
        let (sx, sy) = lines[i + 1].0;
        let gap = ((ex - sx).powi(2) + (ey - sy).powi(2)).sqrt();
        assert!(gap < 1e-4, "gap between segments {} and {}: {}", i, i + 1, gap);
    }
}

#[test]
fn plan_tracks_turns_and_saved_pens() {
    let lines = plan_lines("F+F[-F]F");
    assert_eq!(
        lines,
        vec![
            TurtleSegment { from: None, turns: 0 },
            TurtleSegment { from: Some(0), turns: 1 },
            TurtleSegment { from: Some(1), turns: 0 },
            TurtleSegment { from: Some(1), turns: 1 },
        ]
    );
}

#[test]
fn plan_ignores_variables() {
    let lines = plan_lines("XAFBY");
    assert_eq!(lines, vec![TurtleSegment { from: None, turns: 0 }]);
}

#[test]
fn rules_apply_in_parallel_and_first_match_wins() {
    let config = LSystemConfig {
        start: "ab".to_string(),
        rules: vec![
            ReplacementRule { from: 'a', to: "b".to_string() },
            ReplacementRule { from: 'b', to: "aa".to_string() },
            ReplacementRule { from: 'a', to: "zzz".to_string() },
        ],
    };
    assert_eq!(apply_rules(&config, 1), "baa");
    assert_eq!(apply_rules(&config, 2), "aabb");
}

#[test]
fn iterations_compose() {
    let config = sierpinski();
    let two = apply_rules(&config, 2);
    let restarted = LSystemConfig { start: two, rules: config.rules.clone() };
    assert_eq!(apply_rules(&restarted, 1), apply_rules(&config, 3));
}

#[test]
fn concatenation_rewrites_piecewise() {
    let config = koch();
    let whole = LSystemConfig { start: "F+F".to_string(), rules: config.rules.clone() };
    let left = LSystemConfig { start: "F".to_string(), rules: config.rules.clone() };
    let right = LSystemConfig { start: "+F".to_string(), rules: config.rules.clone() };
    let joined = format!("{}{}", apply_rules(&left, 2), apply_rules(&right, 2));
    assert_eq!(apply_rules(&whole, 2), joined);
}

#[test]
fn no_rules_leave_the_string_alone() {
    let config = LSystemConfig { start: "F+[X]".to_string(), rules: vec![] };
    assert_eq!(apply_rules(&config, 4), "F+[X]");
}

#[test]
fn presets_hold_their_rules() {
    let c = crystal();
    assert_eq!(c.start, "X");
    assert_eq!(c.rules.len(), 2);
    assert_eq!(c.rules[0].to, "F[+X][-X]FX");
    let b = binary_tree();
    assert_eq!(apply_rules(&b, 1), "G[-F]+F");
    let t = tree();
    assert_eq!(apply_rules(&t, 1), "F[+F]F[-F]F");
    let k = my7();
    assert_eq!(apply_rules(&k, 1), "F+F--F+F--F+F--F+F--F+F--F+F");
}

#[test]
fn segment_count_matches_drawing_characters() {
    let s = apply_rules(&fractal_plant(), 3);
    let draws = s.chars().filter(|c| *c == 'F' || *c == 'G').count();
    assert_eq!(plan_lines(&s).len(), draws);
}

#[test]
fn budgeted_rewriting_stops_at_the_last_fitting_iteration() {
    let config = dragon_curve();
    // Lengths after 1, 2, 3 iterations: 3, 7, 15.
    assert_eq!(apply_rules_budgeted(&config, 5, 10), "F+G+F-G");
    assert_eq!(apply_rules_budgeted(&config, 5, 7), "F+G+F-G");
    assert_eq!(apply_rules_budgeted(&config, 5, 6), "F+G");
    assert_eq!(apply_rules_budgeted(&config, 2, 1000), apply_rules(&config, 2));
    assert_eq!(apply_rules_budgeted(&config, 0, 0), "F");
    // The start string is kept even when it alone exceeds the budget.
    assert_eq!(apply_rules_budgeted(&config, 3, 0), "F");
    assert_eq!(
        apply_rules_budgeted(&config, 6, rs_namin::l_system::MAX_REWRITE_LEN),
        apply_rules(&config, 6)
    );
}

use cardparty::schema::{default_n_answers, Answer, Prompt};
use cardparty::util::{expand_underscores, load_prompts, N_UNDERSCORES};

#[test]
fn test_expand_underscores() {
    let src = "Hello _, I'm _ years old";
    assert_eq!(&expand_underscores(src, 1), src);
    assert_eq!(&expand_underscores(src, 3), "Hello ___, I'm ___ years old");
}

#[test]
fn test_expand_underscores_no_underscores() {
    let src = "Hello world!";
    assert_eq!(&expand_underscores(src, 3), "Hello world!");
}

#[test]
fn expand_underscores_handles_edges() {
    assert_eq!(expand_underscores("", 4), "");
    assert_eq!(expand_underscores("_", 2), "__");
    assert_eq!(expand_underscores("__", 2), "____");
    assert_eq!(expand_underscores("_a_", 5), "_____a_____");
    assert_eq!(expand_underscores("h\u{e9}_\u{4e16}", 2), "h\u{e9}__\u{4e16}");
}

#[test]
fn load_prompts_widens_blanks() {
    assert_eq!(N_UNDERSCORES, 5);
    let raw = vec![
        Prompt::new("Why _?".to_string(), 1),
        Prompt::new("_ and _".to_string(), 2),
        Prompt::new("plain".to_string(), default_n_answers()),
    ];
    let loaded = load_prompts(raw);
    assert_eq!(
        loaded,
        vec![
            Prompt::new("Why _____?".to_string(), 1),
            Prompt::new("_____ and _____".to_string(), 2),
            Prompt::new("plain".to_string(), 1),
        ]
    );
}

#[test]
fn cards_compare_by_content() {
    assert_eq!(default_n_answers(), 1);
    assert_eq!(Answer::new("a".to_string()), Answer::new("a".to_string()));
    assert_ne!(Answer::new("a".to_string()), Answer::new("b".to_string()));
    assert_ne!(Prompt::new("p".to_string(), 1), Prompt::new("p".to_string(), 2));
    let p = Prompt::new("p".to_string(), 3);
    assert_eq!(p.clone(), p);
    assert_eq!(p.n_answers, 3);
    assert_eq!(p.content, "p");
}

#[test]
fn cards_render_as_text() {
    assert_eq!(Answer::new("a cat".to_string()).to_string(), "\"a cat\"");
    assert_eq!(Answer::new(String::new()).to_string(), "\"\"");
    assert_eq!(Prompt::new("Why _?".to_string(), 1).to_string(), "\"Why _?\"");
    assert_eq!(Prompt::new("Why _?".to_string(), 2).to_string(), "\"Why _?\" (2 answers)");
    assert_eq!(Prompt::new("x".to_string(), 0).to_string(), "\"x\" (0 answers)");
    assert_eq!(Prompt::new("x".to_string(), 10).to_string(), "\"x\" (10 answers)");
    assert_eq!(Prompt::new("x".to_string(), 107).to_string(), "\"x\" (107 answers)");
    assert_eq!(Prompt::new("x".to_string(), 255).to_string(), "\"x\" (255 answers)");
}

use seqsearch::doc_format::{clamp_length, sentence_end_odds, word_index, DocumentFormatter, WordStep};
use seqsearch::helix::{
    keybindings_in_category, keybindings_in_mode, parse_category, parse_mode, search_commands,
    search_keybindings, Category, Command, Keybinding, Mode,
};

fn chars(s: &str) -> Vec<char> {
    s.chars().collect()
}

#[test]
fn lengths_and_ranks() {
    assert_eq!(clamp_length(5, 10, 100), 10);
    assert_eq!(clamp_length(500, 10, 100), 100);
    assert_eq!(clamp_length(50, 10, 100), 50);
    assert_eq!(word_index(0, 10), 0);
    assert_eq!(word_index(1, 10), 0);
    assert_eq!(word_index(10, 10), 9);
    assert_eq!(word_index(99, 10), 9);
    assert_eq!(sentence_end_odds(), (2, 15));
}

#[test]
fn formatter_lays_out_sentences() {
    let words = ["the", "cat", "sat"];
    let mut f = DocumentFormatter::new(3);
    assert_eq!(f.push_word(&chars(words[0])), WordStep::Continue);
    assert_eq!(f.push_word(&chars(words[1])), WordStep::Continue);
    assert_eq!(f.push_word(&chars(words[2])), WordStep::MustEnd);
    f.end_sentence(1);
    let text: String = f.into_text().into_iter().collect();
    assert_eq!(text, "The cat sat!");
}

#[test]
fn formatter_draws_after_half_a_sentence() {
    let mut f = DocumentFormatter::new(10);
    let mut steps = Vec::new();
    for _ in 0..8 {
        steps.push(f.push_word(&chars("w")));
    }
    assert_eq!(steps[5], WordStep::Continue);
    assert_eq!(steps[6], WordStep::MayEnd);
    f.end_sentence(0);
    assert_eq!(f.push_word(&chars("next")), WordStep::Continue);
    assert_eq!(f.push_word(&chars("last")), WordStep::MustEnd);
    f.end_sentence(7);
    let text: String = f.into_text().into_iter().collect();
    assert_eq!(text, "W w w w w w w w? Next last.");
    assert_eq!(text.split_whitespace().count(), 10);
}

fn kb(key: &str, description: &str, command: &str, mode: Mode, category: Category) -> Keybinding {
    Keybinding {
        key: key.to_string(),
        description: description.to_string(),
        command: command.to_string(),
        mode,
        category,
    }
}

#[test]
fn mode_and_category_names() {
    assert_eq!(parse_mode("NORMAL"), Some(Mode::Normal));
    assert_eq!(parse_mode("g"), Some(Mode::Goto));
    assert_eq!(parse_mode("Ctrl-W"), Some(Mode::Window));
    assert_eq!(parse_mode("visual"), None);
    assert_eq!(parse_category("ts"), Some(Category::TreeSitter));
    assert_eq!(parse_category("Minor"), Some(Category::MinorModes));
    assert_eq!(parse_category("select"), Some(Category::Selection));
    assert_eq!(parse_category("nothing"), None);
}

#[test]
fn keybinding_and_command_search() {
    let ks = vec![
        kb("d", "Delete selection", "delete_selection", Mode::Normal, Category::Changes),
        kb("y", "Yank selection", "yank", Mode::Normal, Category::Clipboard),
        kb("gd", "Goto definition", "goto_definition", Mode::Goto, Category::Lsp),
    ];
    assert_eq!(search_keybindings(&ks, "DELETE"), vec![0]);
    assert_eq!(search_keybindings(&ks, "selection"), vec![0, 1]);
    assert_eq!(search_keybindings(&ks, "zzz"), Vec::<usize>::new());
    assert_eq!(keybindings_in_mode(&ks, Mode::Normal), vec![0, 1]);
    assert_eq!(keybindings_in_category(&ks, Category::Lsp), vec![2]);
    let cs = vec![
        Command { name: "write".to_string(), description: "Write changes".to_string(), aliases: vec!["w".to_string()] },
        Command { name: "quit".to_string(), description: "Close the view".to_string(), aliases: vec!["q".to_string()] },
    ];
    assert_eq!(search_commands(&cs, "Q"), vec![1]);
    assert_eq!(search_commands(&cs, "w"), vec![0, 1]);
    assert_eq!(search_commands(&cs, "changes"), vec![0]);
}

#[test]
fn formatter_capitalizes_ascii_letters_only() {
    let mut f = DocumentFormatter::new(2);
    f.push_word(&chars("élan"));
    f.push_word(&chars("z"));
    f.end_sentence(0);
    let text: String = f.into_text().into_iter().collect();
    assert!(text.starts_with("élan z"));
    let mut g = DocumentFormatter::new(1);
    g.push_word(&chars("zeta"));
    g.end_sentence(0);
    let text: String = g.into_text().into_iter().collect();
    assert!(text.starts_with("Zeta"));
}

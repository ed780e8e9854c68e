use mega_store_search::tokenizer::{normalize, normalize_chars, tokenize, tokenize_chars};

#[test]
fn test_basic_tokenize() {
    let toks = tokenize("Mouse-Gamer! 100% TOP");
    assert_eq!(toks, vec!["mouse", "gamer", "100", "top"]);
}

#[test]
fn test_stop_words_and_accents() {
    let toks = tokenize("O Teclado Mec\u{e2}nico e o Cabo USB");
    assert_eq!(toks, vec!["teclado", "mecanico", "cabo", "usb"]);
}

#[test]
fn tokenize_empty_and_blank_text() {
    assert!(tokenize("").is_empty());
    assert!(tokenize(" \t\r\n ").is_empty());
    assert!(tokenize("!!! ... ???").is_empty());
}

#[test]
fn tokenize_keeps_order_and_repetitions() {
    let toks = tokenize("cabo usb cabo");
    assert_eq!(toks, vec!["cabo", "usb", "cabo"]);
}

#[test]
fn tokenize_drops_every_stop_word() {
    let toks = tokenize("e de o a os as para em um uma com");
    assert!(toks.is_empty());
    let toks = tokenize("E DE O A OS AS PARA EM UM UMA COM");
    assert!(toks.is_empty());
}

#[test]
fn tokenize_keeps_words_that_only_start_like_stop_words() {
    let toks = tokenize("dedo paralelo comum ema ass");
    assert_eq!(toks, vec!["dedo", "paralelo", "comum", "ema", "ass"]);
}

#[test]
fn tokenize_drops_symbols_outside_ascii() {
    let toks = tokenize("Mec\u{221a}\u{a2}nico \u{4e2d}\u{6587} caf\u{e9}");
    assert_eq!(toks, vec!["mecnico", "cafe"]);
}

#[test]
fn tokenize_decomposes_canonically_only() {
    // U+00C5 and U+212B (the angstrom sign) both decompose to "A" and a
    // ring; U+1E69 carries two marks.
    let toks = tokenize("\u{c5}ngstr\u{f6}m \u{212b} \u{1e69}im");
    assert_eq!(toks, vec!["angstrom", "sim"]);
    // U+FB01 (the ligature "fi") and U+00BD (one half) have no canonical
    // decomposition and are dropped as they are.
    let toks = tokenize("\u{fb01}m \u{bd}");
    assert_eq!(toks, vec!["m"]);
}

#[test]
fn tokenize_blanks_punctuation_and_control_characters() {
    let toks = tokenize("a1\u{b}b2_c3\u{1f}d4");
    assert_eq!(toks, vec!["a1", "b2", "c3", "d4"]);
}

#[test]
fn tokenize_chars_works_on_given_characters() {
    let chars: Vec<char> = "Cabo--USB de 2m".chars().collect();
    assert_eq!(tokenize_chars(&chars), vec!["cabo", "usb", "2m"]);
}

#[test]
fn normalize_keeps_stop_words_and_whitespace() {
    assert_eq!(normalize("Eletr\u{f4}nicos e Jogos"), "eletronicos e jogos");
    assert_eq!(normalize("  A  B "), "  a  b ");
}

#[test]
fn normalize_removes_punctuation_without_a_space() {
    assert_eq!(normalize("Mouse-Gamer! 100%"), "mousegamer 100");
    assert_eq!(normalize(""), "");
}

#[test]
fn normalize_chars_works_on_given_characters() {
    let chars: Vec<char> = "X_y\tZ".chars().collect();
    assert_eq!(normalize_chars(&chars), "xy\tz");
}

use audio_catalog::fts::fts_clean_text;

#[test]
fn fts_clean_text_test() {
    assert_eq!("I love star wars", fts_clean_text("I love star-wars!  "));

    assert_eq!(
        "I think its borked",
        fts_clean_text("I think it's borked!?!?!?!?")
    );

    assert_eq!(
        "I like , code",
        fts_clean_text("I like !@#$%^&*(_){}[]/\\., code")
    );

    assert_eq!(
        "This is a single line",
        fts_clean_text("This\nis\na\nsingle\nline\n")
    )
}

#[test]
fn fts_clean_text_idempotent_on_samples() {
    let samples = [
        "I love star-wars!  ",
        "I think it's borked!?!?!?!?",
        "This\nis\na\nsingle\nline\n",
        "",
        "   ",
        "'''",
        "a,b,,c",
        "caf\u{e9} au lait",
    ];
    for s in samples {
        let once = fts_clean_text(s);
        let twice = fts_clean_text(&once);
        assert_eq!(once, twice);
    }
}

#[test]
fn fts_clean_text_edge_cases() {
    assert_eq!("", fts_clean_text(""));
    assert_eq!("", fts_clean_text("    "));
    assert_eq!("", fts_clean_text("''"));
    assert_eq!("a,b", fts_clean_text("a,b"));
    assert_eq!("caf au lait", fts_clean_text("caf\u{e9} au lait"));
    assert_eq!("abc", fts_clean_text("\u{3042}abc\u{3042}"));
}

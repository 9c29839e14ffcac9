use llm_service::tokenizer::{normalizer, tokenizer, Normalizer, Tokenizer};

#[test]
fn the_tokenizer_model_comes_first() {
    assert_eq!(tokenizer(true, false), Tokenizer::Bpe);
    assert_eq!(tokenizer(true, true), Tokenizer::Bpe);
    assert_eq!(tokenizer(false, true), Tokenizer::Lpe);
    assert_eq!(normalizer(true, false), Normalizer::BpeCommon);
    assert_eq!(normalizer(true, true), Normalizer::BpeCommon);
    assert_eq!(normalizer(false, true), Normalizer::Identity);
}

#[test]
fn the_identity_leaves_the_text() {
    assert_eq!(Normalizer::Identity.encode("Say \"Hi\" to me."), "Say \"Hi\" to me.");
    assert_eq!(Normalizer::Identity.encode(""), "");
}

#[test]
fn the_byte_pair_normalizer_marks_word_boundaries() {
    let n = Normalizer::BpeCommon;
    assert_eq!(n.encode("Hi"), "\u{2581}Hi");
    assert_eq!(n.encode("Say \"Hi\" to me."), "\u{2581}Say\u{2581}\"Hi\"\u{2581}to\u{2581}me.");
    assert_eq!(n.encode(""), "\u{2581}");
    assert_eq!(n.encode("  "), "\u{2581}\u{2581}\u{2581}");
    // other white space stays
    assert_eq!(n.encode("a\tb\nc"), "\u{2581}a\tb\nc");
    assert_eq!(n.encode("<用户>你好"), "\u{2581}<用户>你好");
}

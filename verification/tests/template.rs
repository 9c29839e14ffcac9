use llm_service::template::{ascii_lower, contains_ignoring_case, template, Message, Template};

#[test]
fn ascii_lower_lowers_ascii_letters_only() {
    for c in ['A', 'M', 'Z', 'a', 'z', '0', '/', '[', '@', 'É', 'Ω', '用'] {
        assert_eq!(ascii_lower(c), c.to_ascii_lowercase(), "{c:?}");
    }
    for c in 'A'..='Z' {
        assert_eq!(ascii_lower(c), c.to_ascii_lowercase());
    }
}

#[test]
fn contains_ignoring_case_finds_the_pattern() {
    assert!(contains_ignoring_case("TinyLlama-1.1B-Chat-v1.0", "tinyllama"));
    assert!(contains_ignoring_case("/models/TINYLLAMA", "tinyllama"));
    assert!(contains_ignoring_case("xxtinyllAmaxx", "tinyllama"));
    assert!(contains_ignoring_case("abc", ""));
    assert!(contains_ignoring_case("", ""));
    assert!(!contains_ignoring_case("tinyllam", "tinyllama"));
    assert!(!contains_ignoring_case("tiny-llama", "tinyllama"));
    assert!(!contains_ignoring_case("", "tinyllama"));
    // only the text is lowered, not the pattern
    assert!(!contains_ignoring_case("tinyllama", "TinyLlama"));
    // a near miss that overlaps a hit
    assert!(contains_ignoring_case("tinytinyllama", "tinyllama"));
    assert!(contains_ignoring_case("aab", "ab"));
}

#[test]
fn the_template_goes_by_the_directory_name() {
    assert_eq!(template("../../TinyLlama-1.1B-Chat-v1.0"), Template::TinyLlama);
    assert_eq!(template("/data/tinyllama/"), Template::TinyLlama);
    assert_eq!(template("/data1/shared/hugging_face/Mixtral-8x7B-Instruct-v0.1_F16/"), Template::Generic);
    assert_eq!(template(""), Template::Generic);
}

fn user(content: &str) -> Message<'_> {
    Message { role: "user", content }
}

#[test]
fn tiny_llama_tags_each_role() {
    let t = Template::TinyLlama;
    let messages = [
        Message { role: "system", content: "Be brief." },
        user("Say \"Hi\" to me."),
        Message { role: "assistant", content: "Hi" },
        Message { role: "narrator", content: "left out" },
    ];
    assert_eq!(
        t.render(&messages, "<s>", "</s>", false),
        "<|system|>\nBe brief.</s><|user|>\nSay \"Hi\" to me.</s><|assistant|>\nHi</s>"
    );
}

#[test]
fn tiny_llama_asks_for_a_reply_after_the_last_message() {
    let t = Template::TinyLlama;
    assert_eq!(
        t.render(&[user("Hi")], "<s>", "</s>", true),
        "<|user|>\nHi</s><|assistant|>\n"
    );
    assert_eq!(
        t.render(&[user("a"), user("b")], "<s>", "</s>", true),
        "<|user|>\na</s><|user|>\nb</s><|assistant|>\n"
    );
    assert_eq!(t.render(&[user("Hi")], "<s>", "</s>", false), "<|user|>\nHi</s>");
    assert_eq!(t.render(&[], "<s>", "</s>", true), "");
}

#[test]
fn the_generic_template_wraps_the_user() {
    let t = Template::Generic;
    let messages = [
        user("  Where is the capital of France? \n"),
        Message { role: "assistant", content: " Paris. " },
    ];
    assert_eq!(
        t.render(&messages, "<s>", "</s>", true),
        "<s><用户>Where is the capital of France?<AI>Paris."
    );
    assert_eq!(t.render(&[user("Hi")], "", "</s>", false), "<用户>Hi<AI>");
}

use text_classifier::{tokenize, Class, Classifier, TrainError};

fn s(t: &str) -> String {
    t.to_string()
}

fn trained(pop: &str, country: &str) -> Classifier {
    let mut c = Classifier::new();
    assert_eq!(c.train(pop, Class::Pop), Ok(()));
    assert_eq!(c.train(country, Class::Country), Ok(()));
    c
}

#[test]
fn new_classifier_is_empty() {
    let c = Classifier::new();
    assert_eq!(c.vocabulary_len(), 0);
    assert_eq!(c.distinct_tokens(Class::Pop), 0);
    assert_eq!(c.distinct_tokens(Class::Country), 0);
    assert_eq!(c.count(&s("roots"), Class::Country), 0);
}

#[test]
fn training_counts_each_occurrence() {
    let c = trained("string string string", "roots roots boots");
    assert_eq!(c.count(&s("string"), Class::Pop), 3);
    assert_eq!(c.count(&s("string"), Class::Country), 0);
    assert_eq!(c.count(&s("roots"), Class::Country), 2);
    assert_eq!(c.count(&s("boots"), Class::Country), 1);
    assert_eq!(c.count(&s("boots"), Class::Pop), 0);
    assert_eq!(c.distinct_tokens(Class::Pop), 1);
    assert_eq!(c.distinct_tokens(Class::Country), 2);
    assert_eq!(c.vocabulary_len(), 3);
}

#[test]
fn training_lowercases_the_corpus() {
    let mut c = Classifier::new();
    assert_eq!(c.train("Roots, ROOTS; roots!", Class::Country), Ok(()));
    assert_eq!(c.count(&s("roots"), Class::Country), 3);
    assert_eq!(c.vocabulary_len(), 1);
}

#[test]
fn vocabulary_is_the_union_of_both_classes() {
    let c = trained("a b c", "b c d e");
    // a, b, c, d, e: shared tokens are counted once.
    assert_eq!(c.vocabulary_len(), 5);
    assert_eq!(c.distinct_tokens(Class::Pop), 3);
    assert_eq!(c.distinct_tokens(Class::Country), 4);
}

#[test]
fn training_is_additive() {
    let mut split = Classifier::new();
    assert_eq!(split.train("red blue red", Class::Pop), Ok(()));
    assert_eq!(split.train("blue green", Class::Pop), Ok(()));
    let mut whole = Classifier::new();
    assert_eq!(whole.train("red blue red blue green", Class::Pop), Ok(()));
    for w in ["red", "blue", "green", "yellow"] {
        assert_eq!(split.count(&s(w), Class::Pop), whole.count(&s(w), Class::Pop));
    }
    assert_eq!(split.count(&s("red"), Class::Pop), 2);
    assert_eq!(split.count(&s("blue"), Class::Pop), 2);
    assert_eq!(split.count(&s("green"), Class::Pop), 1);
    assert_eq!(split.vocabulary_len(), whole.vocabulary_len());
    assert_eq!(split.distinct_tokens(Class::Pop), 3);
}

#[test]
fn end_to_end_scenario() {
    let c = trained("string string string", "roots roots boots");
    assert_eq!(c.predict("roots boots"), Class::Country);
    assert_eq!(c.predict("string"), Class::Pop);
}

#[test]
fn predict_ignores_case() {
    let c = trained("string string string", "roots roots boots");
    assert_eq!(c.predict("ROOTS Boots"), Class::Country);
    assert_eq!(c.predict("String!"), Class::Pop);
}

#[test]
fn predict_empty_text_is_pop() {
    let c = trained("string string string", "roots roots boots");
    assert_eq!(c.predict(""), Class::Pop);
    assert_eq!(c.predict("123 !!"), Class::Pop);
    assert_eq!(Classifier::new().predict(""), Class::Pop);
}

#[test]
fn predict_on_untrained_classifier_is_pop() {
    assert_eq!(Classifier::new().predict("anything at all"), Class::Pop);
}

#[test]
fn exclusive_tokens_predict_their_class() {
    // Country has many more distinct tokens than Pop; its own tokens still win.
    let c = trained("la", "one two three four five six seven eight nine ten");
    assert_eq!(c.predict("seven"), Class::Country);
    assert_eq!(c.predict("ten one ten"), Class::Country);
    assert_eq!(c.predict("la la"), Class::Pop);
    let d = trained("one two three four five six seven eight nine ten", "la");
    assert_eq!(d.predict("seven"), Class::Pop);
    assert_eq!(d.predict("la"), Class::Country);
}

#[test]
fn unseen_tokens_favour_the_smaller_class() {
    // Score of Pop: 1 / (1 + 3); of Country: 1 / (2 + 3). Pop is greater.
    let c = trained("string string string", "roots roots boots");
    assert_eq!(c.predict("unknown"), Class::Pop);
    // Swapped: Country has the single distinct token.
    let d = trained("roots roots boots", "string string string");
    assert_eq!(d.predict("unknown"), Class::Country);
}

#[test]
fn exact_tie_goes_to_pop() {
    // Symmetric corpora give equal scores for a token of each class.
    let c = trained("alpha", "beta");
    assert_eq!(c.predict("alpha beta"), Class::Pop);
    assert_eq!(c.predict("beta"), Class::Country);
    assert_eq!(c.predict("alpha"), Class::Pop);
}

#[test]
fn long_texts_compare_exactly() {
    // 200 tokens make products far beyond 64 bits.
    let c = trained("string string string", "roots roots boots");
    let country_text = "roots ".repeat(200);
    assert_eq!(c.predict(&country_text), Class::Country);
    let pop_text = "string ".repeat(200);
    assert_eq!(c.predict(&pop_text), Class::Pop);
    // Pop: (1/4)^199 * (4/4); Country: (1/5)^199 * (1/5). Pop wins.
    let mixed = format!("{}string", "zzz ".repeat(199));
    assert_eq!(c.predict(&mixed), Class::Pop);
}

#[test]
fn predict_tokens_takes_tokens_directly() {
    let c = trained("string string string", "roots roots boots");
    assert_eq!(c.predict_tokens(&vec![s("roots"), s("boots")]), Class::Country);
    assert_eq!(c.predict_tokens(&vec![s("string")]), Class::Pop);
    assert_eq!(c.predict_tokens(&Vec::new()), Class::Pop);
}

#[test]
fn train_tokens_takes_tokens_directly() {
    let mut c = Classifier::new();
    c.train_tokens(&tokenize("Roots roots boots"), Class::Country);
    c.train_tokens(&vec![s("string"), s("string")], Class::Pop);
    assert_eq!(c.count(&s("roots"), Class::Country), 2);
    assert_eq!(c.count(&s("string"), Class::Pop), 2);
    assert_eq!(c.vocabulary_len(), 3);
}

#[test]
fn train_error_is_comparable() {
    assert_eq!(TrainError::TooManyTokens, TrainError::TooManyTokens);
    assert_ne!(Class::Pop, Class::Country);
}

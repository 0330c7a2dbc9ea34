use bird_password::corpus::Corpus;
use bird_password::handler::handle_generate;
use bird_password::passphrase::InsufficientCorpusError;
use bird_password::passphrase::assemble;
use bird_password::passphrase::generate_password;

fn strings(items: &[&str]) -> Vec<String> {
    items.iter().map(|s| s.to_string()).collect()
}

fn bird_corpus() -> Corpus {
    Corpus::new(strings(&["Robin", "Swan", "Crane", "Heron", "Finch"]))
}

/// The hyphen-separated parts of a generated passphrase.
fn parts_of(p: &str) -> Vec<String> {
    p.split('-').map(|s| s.to_string()).collect()
}

fn is_word_plus_digit(part: &str, names: &[&str]) -> bool {
    let n = part.len();
    if n < 2 {
        return false;
    }
    let (word, digit) = part.split_at(n - 1);
    names.contains(&word) && digit.chars().all(|c| c.is_ascii_digit())
}

#[test]
fn assemble_joins_each_token_with_its_digit() {
    let words = strings(&["Wren", "Swan", "Crane", "Heron"]);
    let digits: Vec<u8> = vec![3, 7, 0, 9];
    assert_eq!(assemble(&words, &digits), "Wren3-Swan7-Crane0-Heron9".to_string());
}

#[test]
fn small_corpus_fails_with_no_partial_output() {
    let corpus = Corpus::new(strings(&["Robin", "Swan", "Crane"]));
    assert_eq!(generate_password(&corpus), Err(InsufficientCorpusError));
}

#[test]
fn empty_corpus_fails() {
    let corpus = Corpus::new(Vec::new());
    assert_eq!(generate_password(&corpus), Err(InsufficientCorpusError));
}

#[test]
fn four_token_corpus_succeeds() {
    let corpus = Corpus::new(strings(&["Robin", "Swan", "Crane", "Heron"]));
    let p = generate_password(&corpus).unwrap();
    assert_eq!(parts_of(&p).len(), 4);
}

#[test]
fn generated_passphrase_uses_four_distinct_names() {
    let names = ["Robin", "Swan", "Crane", "Heron", "Finch"];
    let corpus = bird_corpus();
    let p = generate_password(&corpus).unwrap();
    let parts = parts_of(&p);
    assert_eq!(parts.len(), 4);
    let mut words: Vec<String> = Vec::new();
    for part in &parts {
        assert!(is_word_plus_digit(part, &names), "malformed part: {}", part);
        words.push(part[..part.len() - 1].to_string());
    }
    for i in 0..words.len() {
        for j in 0..i {
            assert_ne!(words[i], words[j], "a name was repeated in {}", p);
        }
    }
}

#[test]
fn every_name_is_drawn_with_roughly_uniform_frequency() {
    let names = ["Robin", "Swan", "Crane", "Heron", "Finch"];
    let corpus = bird_corpus();
    let rounds = 2000;
    let mut counts = [0usize; 5];
    for _ in 0..rounds {
        let p = generate_password(&corpus).unwrap();
        for part in parts_of(&p) {
            let word = &part[..part.len() - 1];
            let k = names.iter().position(|n| *n == word).unwrap();
            counts[k] += 1;
        }
    }
    // Each name is in 4 of 5 draws on average: 1600 of 2000. A count far
    // outside that betrays a positional bias.
    for (name, count) in names.iter().zip(counts.iter()) {
        assert!(
            *count > 1300 && *count < 1900,
            "{} drawn {} times in {} rounds",
            name,
            count,
            rounds
        );
    }
}

#[test]
fn repeated_generation_never_malforms() {
    let names = ["Robin", "Swan", "Crane", "Heron", "Finch"];
    let corpus = bird_corpus();
    for _ in 0..300 {
        let p = generate_password(&corpus).unwrap();
        let parts = parts_of(&p);
        assert_eq!(parts.len(), 4);
        for part in &parts {
            assert!(is_word_plus_digit(part, &names));
        }
    }
}

#[test]
fn digit_suffixes_vary_across_draws() {
    let corpus = bird_corpus();
    let mut seen = [false; 10];
    for _ in 0..100 {
        let p = generate_password(&corpus).unwrap();
        for part in parts_of(&p) {
            let d = part.chars().last().unwrap().to_digit(10).unwrap();
            seen[d as usize] = true;
        }
    }
    let distinct = seen.iter().filter(|b| **b).count();
    assert!(distinct >= 3, "only {} distinct digits in 400 draws", distinct);
}

#[test]
fn handler_serves_success_status_and_passphrase() {
    let corpus = bird_corpus();
    let (status, body) = handle_generate(&corpus);
    assert_eq!(status, 200);
    assert_eq!(parts_of(&body).len(), 4);
}

#[test]
fn handler_converts_failure_to_server_error() {
    let corpus = Corpus::new(strings(&["Robin"]));
    let (status, body) = handle_generate(&corpus);
    assert_eq!(status, 500);
    assert_eq!(body, "the corpus holds fewer than 4 tokens");
}

#[test]
fn error_message_is_descriptive() {
    assert_eq!(InsufficientCorpusError.message(), "the corpus holds fewer than 4 tokens");
}

use bird_password::corpus::Corpus;
use bird_password::corpus::artifact_text;
use bird_password::extract::ExtractionError;
use bird_password::extract::clean_name;
use bird_password::extract::column_values;
use bird_password::extract::extract_corpus;
use bird_password::extract::extract_tokens;
use bird_password::extract::token_of_name;

fn strings(items: &[&str]) -> Vec<String> {
    items.iter().map(|s| s.to_string()).collect()
}

#[test]
fn qualified_name_is_excluded() {
    assert_eq!(token_of_name("Great Horned Owl (subspecies)"), None);
}

#[test]
fn short_name_is_excluded() {
    assert_eq!(token_of_name("A"), None);
    assert_eq!(token_of_name("Ou"), None);
}

#[test]
fn long_name_is_excluded() {
    // 16 characters: one past the accepted upper bound.
    assert_eq!(token_of_name("Great Horned Owl"), None);
}

#[test]
fn boundary_lengths_are_accepted() {
    assert_eq!(token_of_name("Owl"), Some("Owl".to_string()));
    // exactly 15 characters
    assert_eq!(token_of_name("Cettis Warblers"), Some("CettisWarblers".to_string()));
}

#[test]
fn plain_name_becomes_its_own_token() {
    assert_eq!(token_of_name("Wren"), Some("Wren".to_string()));
}

#[test]
fn cleaning_removes_spaces_hyphens_apostrophes() {
    assert_eq!(clean_name("Cetti's Warbler"), "CettisWarbler".to_string());
    assert_eq!(clean_name("Blue-Tit"), "BlueTit".to_string());
    assert_eq!(clean_name("Horned Owl"), "HornedOwl".to_string());
}

#[test]
fn extraction_keeps_row_order_and_skips_absent_rows() {
    let names = vec![
        Some("Wren".to_string()),
        None,
        Some("Great Horned Owl (subspecies)".to_string()),
        Some("Blue Tit".to_string()),
        Some("A".to_string()),
        Some("Robin".to_string()),
    ];
    assert_eq!(extract_tokens(&names), strings(&["Wren", "BlueTit", "Robin"]));
}

#[test]
fn column_is_read_by_header_name() {
    let text = "id,English name,Latin name\n1,Wren,Troglodytes troglodytes\n2,Blue Tit,Cyanistes caeruleus\n";
    let vals = column_values(text, "English name").unwrap();
    assert_eq!(vals, vec![Some("Wren".to_string()), Some("Blue Tit".to_string())]);
}

#[test]
fn short_row_yields_absent_value() {
    let text = "id,English name\n1\n2,Robin\n";
    let vals = column_values(text, "English name").unwrap();
    assert_eq!(vals, vec![None, Some("Robin".to_string())]);
}

#[test]
fn missing_column_fails_extraction() {
    let text = "id,Latin name\n1,Troglodytes troglodytes\n";
    assert_eq!(extract_corpus(text, "English name"), Err(ExtractionError::MissingColumn));
}

#[test]
fn empty_source_fails_extraction() {
    assert_eq!(extract_corpus("", "English name"), Err(ExtractionError::MissingColumn));
}

#[test]
fn whole_extraction_pipeline() {
    let text = "id,English name\n1,Wren\n2,Great Horned Owl (subspecies)\n3,A\n4,Blue Tit\n5,Cetti's Warbler\n";
    let tokens = extract_corpus(text, "English name").unwrap();
    assert_eq!(tokens, strings(&["Wren", "BlueTit", "CettisWarbler"]));
}

#[test]
fn duplicates_are_not_removed() {
    let text = "English name\nWren\nWren\n";
    let tokens = extract_corpus(text, "English name").unwrap();
    assert_eq!(tokens, strings(&["Wren", "Wren"]));
}

#[test]
fn artifact_holds_one_token_per_line() {
    let tokens = strings(&["Wren", "BlueTit"]);
    assert_eq!(artifact_text(&tokens), "Wren\nBlueTit\n".to_string());
}

#[test]
fn writing_then_loading_restores_the_corpus() {
    let tokens = strings(&["Wren", "BlueTit", "Robin"]);
    let text = artifact_text(&tokens);
    let corpus = Corpus::from_text(text.as_str());
    assert_eq!(corpus.len(), 3);
    assert_eq!(corpus.get(0), "Wren");
    assert_eq!(corpus.get(1), "BlueTit");
    assert_eq!(corpus.get(2), "Robin");
}

#[test]
fn extract_write_load_generate_end_to_end() {
    let text = "English name\nRobin\nSwan\nCrane\nHeron\nFinch\n";
    let tokens = extract_corpus(text, "English name").unwrap();
    let artifact = artifact_text(&tokens);
    let corpus = Corpus::from_text(artifact.as_str());
    assert_eq!(corpus.len(), 5);
    let p = bird_password::generate_password(&corpus).unwrap();
    assert_eq!(p.split('-').count(), 4);
}

#[test]
fn loader_takes_lines_untransformed() {
    let corpus = Corpus::from_text("Wren\nBlue Tit\n");
    assert_eq!(corpus.len(), 2);
    assert_eq!(corpus.get(1), "Blue Tit");
}

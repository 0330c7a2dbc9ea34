use bird_password::text::join_strs;
use bird_password::text::split_lines;
use bird_password::text::split_str;
use bird_password::text::trim_str;

fn strings(items: &[&str]) -> Vec<String> {
    items.iter().map(|s| s.to_string()).collect()
}

#[test]
fn split_keeps_empty_pieces() {
    assert_eq!(split_str("a,b,,c", ','), strings(&["a", "b", "", "c"]));
    assert_eq!(split_str("", ','), strings(&[""]));
    assert_eq!(split_str(",", ','), strings(&["", ""]));
}

#[test]
fn join_then_split_restores_the_parts() {
    let parts = strings(&["Wren4", "Swan0", "Crane9", "Heron2"]);
    let joined = join_strs(&parts, '-');
    assert_eq!(joined, "Wren4-Swan0-Crane9-Heron2");
    assert_eq!(split_str(joined.as_str(), '-'), parts);
}

#[test]
fn trailing_newline_closes_the_last_line() {
    assert_eq!(split_lines("a\nb\n"), strings(&["a", "b"]));
    assert_eq!(split_lines("a\nb"), strings(&["a", "b"]));
    assert_eq!(split_lines(""), strings(&[]));
}

#[test]
fn trim_removes_surrounding_blanks_only() {
    assert_eq!(trim_str("  Blue Tit \t\r\n"), "Blue Tit");
    assert_eq!(trim_str("Wren"), "Wren");
    assert_eq!(trim_str(" \t "), "");
}

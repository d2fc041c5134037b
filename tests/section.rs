use note_sections::section::{ParseError, ReconcileError, Section};
use note_sections::text::classify_line;

fn strings(v: &[&str]) -> Vec<String> {
    v.iter().map(|s| s.to_string()).collect()
}

fn entry(c: &str, v: &[&str]) -> (String, Vec<String>) {
    (c.to_string(), strings(v))
}

#[test]
fn identity_matrix_end_to_end() {
    let block = "Identity Matrix\nDefinition: A square matrix with 1s on the diagonal.\nRelated: Orthogonal Mat";
    let sec = Section::parse(block).unwrap();
    assert_eq!(sec.get_header(), "Identity Matrix");
    assert_eq!(
        sec.information(),
        &vec![entry("Definition", &["A square matrix with 1s on the diagonal."])]
    );
    assert_eq!(sec.related(), &vec![entry("Related", &["Orthogonal Mat"])]);
    let headers = strings(&["Identity Matrix", "Orthogonal Matrix"]);
    let out = Section::update_related(sec, &headers, &headers).unwrap();
    assert_eq!(out.get_header(), "Identity Matrix");
    assert_eq!(
        out.information(),
        &vec![entry("Definition", &["A square matrix with 1s on the diagonal."])]
    );
    assert_eq!(out.related(), &vec![entry("Related", &["Orthogonal Matrix"])]);
}

#[test]
fn malformed_second_line_is_reported() {
    let r = Section::parse("Identity Matrix\nthis line has no category");
    assert_eq!(
        r.err(),
        Some(ParseError::LineClassification {
            line: "this line has no category".to_string(),
            position: 1,
        })
    );
}

#[test]
fn later_malformed_line_reports_its_position() {
    let r = Section::parse("H\nA: x\nB: y\nbroken:line\nC: z");
    assert_eq!(
        r.err(),
        Some(ParseError::LineClassification { line: "broken:line".to_string(), position: 3 })
    );
}

#[test]
fn empty_block_is_one_empty_header_line() {
    let sec = Section::parse("").unwrap();
    assert_eq!(sec.get_header(), "");
    assert!(sec.information().is_empty());
    assert!(sec.related().is_empty());
}

#[test]
fn header_only_block_gives_empty_maps() {
    let sec = Section::parse("Just a header").unwrap();
    assert_eq!(sec.get_header(), "Just a header");
    assert!(sec.information().is_empty());
    assert!(sec.related().is_empty());
}

#[test]
fn header_is_first_line_verbatim() {
    let sec = Section::parse("  Spaced Header: with colon \nNote: n").unwrap();
    assert_eq!(sec.get_header(), "  Spaced Header: with colon ");
}

#[test]
fn trailing_line_break_leaves_an_unclassifiable_empty_line() {
    assert_eq!(
        Section::parse("H\n").err(),
        Some(ParseError::LineClassification { line: String::new(), position: 1 })
    );
}

#[test]
fn repeated_categories_accumulate_in_order() {
    let block = "Vector\nAncestors: Linear Algebra\nNote: first\nChildren: Basis\nNote: second\nAncestors: Module\nRelated: Span\nChildren: Dimension";
    let sec = Section::parse(block).unwrap();
    assert_eq!(sec.information(), &vec![entry("Note", &["first", "second"])]);
    assert_eq!(
        sec.related(),
        &vec![
            entry("Ancestors", &["Linear Algebra", "Module"]),
            entry("Children", &["Basis", "Dimension"]),
            entry("Related", &["Span"]),
        ]
    );
}

#[test]
fn exact_header_wins_over_longer_headers() {
    let sec = Section::parse("X\nRelated: Matrix").unwrap();
    let headers = strings(&["Matrix Multiplication", "Matrix", "X"]);
    let out = Section::update_related(sec, &headers, &headers).unwrap();
    assert_eq!(out.related(), &vec![entry("Related", &["Matrix"])]);
}

#[test]
fn unique_prefix_resolves_to_its_header() {
    let sec = Section::parse("X\nChildren: Eig").unwrap();
    let headers = strings(&["X", "Determinant", "Eigenvalue"]);
    let out = Section::update_related(sec, &headers, &headers).unwrap();
    assert_eq!(out.related(), &vec![entry("Children", &["Eigenvalue"])]);
}

#[test]
fn ambiguous_prefix_takes_first_header_in_order() {
    let sec = Section::parse("X\nRelated: Ma").unwrap();
    let set = strings(&["X", "Matrix", "Manifold"]);
    let order = strings(&["X", "Manifold", "Matrix"]);
    let out = Section::update_related(sec, &set, &order).unwrap();
    assert_eq!(out.related(), &vec![entry("Related", &["Manifold"])]);
}

#[test]
fn unmatched_reference_is_an_error() {
    let sec = Section::parse("Identity Matrix\nAncestors: Orthogonal Mat\nRelated: Tensor").unwrap();
    let headers = strings(&["Identity Matrix", "Orthogonal Matrix"]);
    let r = Section::update_related(sec, &headers, &headers);
    assert_eq!(
        r.err(),
        Some(ReconcileError::UnresolvedReference {
            header: "Identity Matrix".to_string(),
            category: "Related".to_string(),
            reference: "Tensor".to_string(),
        })
    );
}

#[test]
fn reconciling_twice_changes_nothing() {
    let sec = Section::parse("A\nRelated: Ort\nChildren: Identity Matrix\nNote: kept").unwrap();
    let headers = strings(&["Identity Matrix", "Orthogonal Matrix", "A"]);
    let once = Section::update_related(sec, &headers, &headers).unwrap();
    let first = once.related().clone();
    let twice = Section::update_related(once, &headers, &headers).unwrap();
    assert_eq!(twice.related(), &first);
    assert_eq!(
        first,
        vec![entry("Related", &["Orthogonal Matrix"]), entry("Children", &["Identity Matrix"])]
    );
    assert_eq!(twice.information(), &vec![entry("Note", &["kept"])]);
}

#[test]
fn classify_splits_at_first_separator() {
    assert_eq!(
        classify_line("Definition: a: b"),
        Some(("Definition".to_string(), "a: b".to_string()))
    );
    assert_eq!(classify_line("Note: "), Some(("Note".to_string(), String::new())));
}

#[test]
fn classify_rejects_lines_without_category() {
    assert_eq!(classify_line("no separator here"), None);
    assert_eq!(classify_line(": empty category"), None);
    assert_eq!(classify_line("Note:no space"), None);
    assert_eq!(classify_line(""), None);
}

#[test]
fn classify_keeps_non_ascii_text() {
    assert_eq!(
        classify_line("Définition: matrice unité ∑"),
        Some(("Définition".to_string(), "matrice unité ∑".to_string()))
    );
}

#[test]
fn from_parts_validates_categories() {
    let ok = Section::from_parts(
        "H".to_string(),
        vec![entry("Note", &["n"])],
        vec![entry("Related", &["R"])],
    );
    assert!(ok.is_some());
    let misplaced = Section::from_parts(
        "H".to_string(),
        vec![entry("Related", &["R"])],
        vec![],
    );
    assert!(misplaced.is_none());
    let unreserved = Section::from_parts("H".to_string(), vec![], vec![entry("Note", &["n"])]);
    assert!(unreserved.is_none());
    let repeated = Section::from_parts(
        "H".to_string(),
        vec![entry("Note", &["a"]), entry("Note", &["b"])],
        vec![],
    );
    assert!(repeated.is_none());
}

#[test]
fn first_unresolved_reference_is_reported() {
    let sec = Section::parse("S\nChildren: Basis\nChildren: Zeta\nRelated: Yak\nChildren: Xi").unwrap();
    let headers = strings(&["S", "Basis"]);
    let r = Section::update_related(sec, &headers, &headers);
    assert_eq!(
        r.err(),
        Some(ReconcileError::UnresolvedReference {
            header: "S".to_string(),
            category: "Children".to_string(),
            reference: "Zeta".to_string(),
        })
    );
}

#[test]
fn single_line_block_is_header_only() {
    let sec = Section::parse("Related: looks like a category").unwrap();
    assert_eq!(sec.get_header(), "Related: looks like a category");
    assert!(sec.information().is_empty());
    assert!(sec.related().is_empty());
}

use subset_sum::search::find_first_combination;
use subset_sum::writer::render_csv;
use subset_sum::writer::rows_from_columns;

fn field(s: &str) -> Vec<char> {
    s.chars().collect()
}

fn column(fields: &[&str]) -> Vec<Vec<char>> {
    fields.iter().map(|s| field(s)).collect()
}

#[test]
fn single_column_one_value_per_row() {
    let cols = vec![column(&["7", "5"])];
    assert_eq!(render_csv(&cols), Some("7\n5\n".to_string()));
}

#[test]
fn output_shape_matches_combination_length() {
    let combination = [1.5f64, 2.0, 0.25];
    let cols = vec![combination.iter().map(|x| field(&x.to_string())).collect::<Vec<_>>()];
    let text = render_csv(&cols).expect("clean fields render");
    assert_eq!(text, "1.5\n2\n0.25\n");
    assert_eq!(text.lines().count(), combination.len());
    for line in text.lines() {
        assert_eq!(line.split(',').count(), 1);
    }
}

#[test]
fn columns_are_padded_with_empty_fields() {
    let cols = vec![column(&["1", "2"]), column(&["9"])];
    assert_eq!(render_csv(&cols), Some("1,9\n2,\n".to_string()));
}

#[test]
fn row_layout_follows_first_column() {
    let cols = vec![column(&["1", "2"]), column(&["9", "8", "ignored"])];
    let rows = rows_from_columns(&cols);
    assert_eq!(rows.len(), 2);
    assert_eq!(rows[0], vec![field("1"), field("9")]);
    assert_eq!(rows[1], vec![field("2"), field("8")]);
}

#[test]
fn no_columns_render_empty_text() {
    assert_eq!(render_csv(&Vec::new()), Some(String::new()));
}

#[test]
fn empty_combination_renders_empty_text() {
    let cols: Vec<Vec<Vec<char>>> = vec![Vec::new()];
    assert_eq!(render_csv(&cols), Some(String::new()));
}

#[test]
fn field_holding_delimiter_is_refused() {
    let cols = vec![column(&["a,b"])];
    assert_eq!(render_csv(&cols), None);
}

#[test]
fn lone_empty_field_is_refused() {
    let cols = vec![column(&[""])];
    assert_eq!(render_csv(&cols), None);
}

#[test]
fn found_combination_renders_one_value_per_row() {
    let nums: Vec<u64> = [1.0f64, 2.0, 3.0].iter().map(|x| x.to_bits()).collect();
    let found = find_first_combination(
        &nums,
        (3.0f64).to_bits(),
        (0.0f64).to_bits(),
        |a: u64, b: u64| (f64::from_bits(a) + f64::from_bits(b)).to_bits(),
        |s: u64, t: u64| f64::from_bits(s) == f64::from_bits(t),
        |s: u64, t: u64| f64::from_bits(s) > f64::from_bits(t).abs(),
    )
    .expect("a combination exists");
    let cols = vec![found
        .iter()
        .map(|bits| field(&f64::from_bits(*bits).to_string()))
        .collect::<Vec<_>>()];
    assert_eq!(render_csv(&cols), Some("1\n2\n".to_string()));
}

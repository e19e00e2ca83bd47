use human_connectome::files::{is_cohort_matrix_file, split_words};

fn cohort_file_with_std(path: &str, patient_code: &str) -> bool {
    let stem: Vec<&str> = path.split("/").collect();
    let stem: &str = stem[stem.len() - 1];
    stem.starts_with(patient_code) && stem.contains("connectivity_matrix")
}

struct Lcg(u64);

impl Lcg {
    fn next(&mut self) -> u64 {
        self.0 = self.0.wrapping_mul(6364136223846793005).wrapping_add(1442695040888963407);
        self.0 >> 33
    }

    fn pick<'a>(&mut self, from: &[&'a str]) -> &'a str {
        from[(self.next() as usize) % from.len()]
    }
}

#[test]
fn files_of_a_cohort() {
    assert!(is_cohort_matrix_file("UCLA_Autism/ASD38D_DTI_connectivity_matrix_file.txt", "ASD"));
    assert!(is_cohort_matrix_file("ASD38D_DTI_connectivity_matrix_file.txt", "ASD"));
    assert!(is_cohort_matrix_file("a/b/TD1_connectivity_matrix", "TD"));
    assert!(is_cohort_matrix_file("connectivity_matrix", ""));
    assert!(is_cohort_matrix_file("connectivity_matrix", "connectivity_matrix"));
    assert!(!is_cohort_matrix_file("UCLA_Autism/ASD38D_DTI_connectivity_matrix_file.txt", "TD"));
    assert!(!is_cohort_matrix_file("UCLA_Autism/ASD38D_DTI_region_names.txt", "ASD"));
    assert!(!is_cohort_matrix_file("ASD/TD_connectivity_matrix", "ASD"));
    assert!(!is_cohort_matrix_file("ASD_connectivity_matrix/", "ASD"));
    assert!(!is_cohort_matrix_file("ASD_connectivity_matri", "ASD"));
    assert!(!is_cohort_matrix_file("xASD_connectivity_matrix", "ASD"));
    assert!(!is_cohort_matrix_file("", "ASD"));
    assert!(!is_cohort_matrix_file("", ""));
    assert!(!is_cohort_matrix_file("AS", "ASD"));
}

#[test]
fn files_of_a_cohort_agree_with_the_standard_library() {
    let parts = [
        "", "/", "ASD", "TD", "A", "_", "connectivity_matrix", "connectivity", "_matrix",
        "connectivity_matri", "x", "é", ".txt", "connectivity_connectivity_matrix",
    ];
    let codes = ["", "ASD", "TD", "A", "connectivity_matrix", "é", "/"];
    let mut rng = Lcg(23);
    let mut found = 0;
    for _ in 0..20000 {
        let mut path = String::new();
        for _ in 0..(rng.next() % 6) {
            path.push_str(rng.pick(&parts));
        }
        let code = rng.pick(&codes);
        let expected = cohort_file_with_std(&path, code);
        assert_eq!(is_cohort_matrix_file(&path, code), expected);
        if expected {
            found += 1;
        }
    }
    assert!(found > 100);
}

#[test]
fn words_of_a_row() {
    assert_eq!(split_words("0.5 1 -2e3"), vec!["0.5", "1", "-2e3"]);
    assert_eq!(split_words("  0.5\t\t1 \u{3000}inf\r\n"), vec!["0.5", "1", "inf"]);
    assert_eq!(split_words(""), Vec::<String>::new());
    assert_eq!(split_words(" \t \n"), Vec::<String>::new());
    assert_eq!(split_words("x"), vec!["x"]);
    assert_eq!(split_words(" x"), vec!["x"]);
    assert_eq!(split_words("x "), vec!["x"]);
}

#[test]
fn words_agree_with_the_standard_library() {
    let alphabet =
        [' ', ' ', '\t', '\n', '\u{a0}', '\u{2003}', 'a', '1', '.', '-', 'é', '\u{200b}'];
    let mut rng = Lcg(29);
    for _ in 0..30000 {
        let len = (rng.next() as usize) % 12;
        let mut line = String::new();
        for _ in 0..len {
            line.push(alphabet[(rng.next() as usize) % alphabet.len()]);
        }
        let expected: Vec<String> = line.split_whitespace().map(|s| s.to_string()).collect();
        assert_eq!(split_words(&line), expected);
        let trimmed: Vec<String> =
            line.trim().split_whitespace().map(|s| s.to_string()).collect();
        assert_eq!(split_words(&line), trimmed);
    }
}

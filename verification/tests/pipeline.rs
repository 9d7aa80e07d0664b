use reter_linhas_com_info_das_chaves::errors::SpedError;
use reter_linhas_com_info_das_chaves::keyset::KeySet;
use reter_linhas_com_info_das_chaves::ledger::get_efd_info;
use reter_linhas_com_info_das_chaves::loader::cargo_notes_from_lines;
use reter_linhas_com_info_das_chaves::matcher::{read_csv_files, DocFile};
use reter_linhas_com_info_das_chaves::merge::merge_files;
use reter_linhas_com_info_das_chaves::metadata::{colunas_doc, colunas_efd, Config};
use reter_linhas_com_info_das_chaves::report::{
    exportar_chaves_faltantes, fmt_milhares, imprimir_chaves_nao_encontradas,
    imprimir_informacao_segregada, sorted_filtered_keys,
};

fn key(model: &str, seed: u64) -> String {
    format!("{:020}{}{:022}", seed, model, seed)
}

fn config() -> Config {
    Config::new(colunas_efd(), colunas_doc())
}

fn efd_header() -> Vec<String> {
    colunas_efd().iter().map(|p| p.1.clone()).collect()
}

fn efd_row(header: &[String], key_val: &str) -> Vec<String> {
    let pos = header
        .iter()
        .position(|c| c == "Chave do Documento")
        .expect("key column");
    let mut row: Vec<String> = header.iter().map(|_| "x".to_string()).collect();
    row[pos] = key_val.to_string();
    row
}

fn doc_header_fields() -> Vec<String> {
    colunas_doc().iter().map(|p| p.1.clone()).collect()
}

fn doc_row_fields(header: &[String], key_val: &str) -> Vec<String> {
    let pos = header
        .iter()
        .position(|c| c == "Chave da Nota Fiscal Eletrônica : NF Item (Todos)")
        .expect("key column");
    let mut row: Vec<String> = header.iter().map(|_| "x".to_string()).collect();
    row[pos] = key_val.to_string();
    row
}

fn csv_bytes(lines: &[Vec<String>]) -> Vec<u8> {
    let mut out = String::new();
    for line in lines {
        out.push_str(&line.join(";"));
        out.push('\n');
    }
    out.into_bytes()
}

fn keyset_of(keys: &[&str]) -> KeySet {
    let mut s = KeySet::new();
    for k in keys {
        s.insert(k.to_string());
    }
    s
}

#[test]
fn ledger_key_without_references_stays_alone() {
    let k = key("55", 9);
    let header = efd_header();
    let rows = vec![header.clone(), efd_row(&header, &k)];
    let ks = get_efd_info(&rows, &config(), "efd.csv").expect("ledger ok");
    assert_eq!(ks.len(), 1);
    assert!(ks.contains(&k));
}

#[test]
fn ledger_expands_with_reference_graphs() {
    let cte = key("57", 1);
    let nfe = key("55", 2);
    let mut cfg = config();
    cfg.cte_nfes = cargo_notes_from_lines(&vec![format!("{} {}", cte, nfe)]);
    let header = efd_header();
    let rows = vec![header.clone(), efd_row(&header, &cte)];
    let ks = get_efd_info(&rows, &cfg, "efd.csv").expect("ledger ok");
    assert_eq!(ks.len(), 2);
    assert!(ks.contains(&cte));
    assert!(ks.contains(&nfe));
}

#[test]
fn ledger_skips_malformed_keys_silently() {
    let header = efd_header();
    let rows = vec![header.clone(), efd_row(&header, "not-a-key")];
    let ks = get_efd_info(&rows, &config(), "efd.csv").expect("ledger ok");
    assert_eq!(ks.len(), 0);
}

#[test]
fn ledger_rejects_wrong_field_count() {
    let k = key("55", 9);
    let header = efd_header();
    let mut bad = efd_row(&header, &k);
    bad.pop();
    let rows = vec![header.clone(), efd_row(&header, &k), bad];
    match get_efd_info(&rows, &config(), "efd.csv") {
        Err(SpedError::ColumnCount { arquivo, linha, esperado, encontrado }) => {
            assert_eq!(arquivo, "efd.csv");
            assert_eq!(linha, 3);
            assert_eq!(esperado, header.len());
            assert_eq!(encontrado, header.len() - 1);
        }
        other => panic!("expected a column-count error, got {:?}", other.map(|_| ())),
    }
}

#[test]
fn ledger_rejects_blank_column_name() {
    let mut header = efd_header();
    header.push("  ".to_string());
    let rows = vec![header];
    match get_efd_info(&rows, &config(), "efd.csv") {
        Err(SpedError::EmptyColumnName { arquivo }) => assert_eq!(arquivo, "efd.csv"),
        other => panic!("expected a blank-column error, got {:?}", other.map(|_| ())),
    }
}

#[test]
fn ledger_rejects_duplicate_column_name() {
    let mut header = efd_header();
    header.push(header[0].clone());
    let rows = vec![header.clone()];
    match get_efd_info(&rows, &config(), "efd.csv") {
        Err(SpedError::DuplicateColumnName { coluna, .. }) => assert_eq!(coluna, header[0]),
        other => panic!("expected a duplicate-column error, got {:?}", other.map(|_| ())),
    }
}

#[test]
fn ledger_rejects_missing_essential_column() {
    let mut header = efd_header();
    let dropped = header.pop().expect("nonempty header");
    let rows = vec![header];
    match get_efd_info(&rows, &config(), "efd.csv") {
        Err(SpedError::MissingEssentialColumn { coluna, .. }) => {
            assert!(colunas_efd().iter().any(|p| p.1 == coluna));
            let _ = dropped;
        }
        other => panic!("expected a missing-column error, got {:?}", other.map(|_| ())),
    }
}

#[test]
fn empty_column_tables_are_a_config_error() {
    let cfg = Config::new(Vec::new(), Vec::new());
    let rows: Vec<Vec<String>> = Vec::new();
    match get_efd_info(&rows, &cfg, "efd.csv") {
        Err(SpedError::Config { .. }) => {}
        other => panic!("expected a config error, got {:?}", other.map(|_| ())),
    }
}

#[test]
fn matcher_finds_keys_and_stages_rows() {
    let k = key("55", 4);
    let header = doc_header_fields();
    let row = doc_row_fields(&header, &k);
    let data = csv_bytes(&[header.clone(), row.clone()]);
    let files = vec![DocFile { path: "a.csv".to_string(), data }];
    let filter = keyset_of(&[&k]);
    let (found, total, results) = read_csv_files(&config(), &filter, &files);
    assert_eq!(total, 1);
    assert!(found.contains(&k));
    let dm = results[0].as_ref().expect("first file ok");
    assert_eq!(dm.count, 1);
    // First file writes the header, then the matched row.
    assert_eq!(dm.staging.len(), 2);
    assert_eq!(dm.staging[0], header.join(";"));
    assert_eq!(dm.staging[1], row.join(";"));
}

#[test]
fn matcher_normalizes_double_spaces_in_matched_rows() {
    let k = key("55", 4);
    let header = doc_header_fields();
    let mut row = doc_row_fields(&header, &k);
    row[0] = "a  b".to_string();
    let data = csv_bytes(&[header.clone(), row.clone()]);
    let files = vec![DocFile { path: "a.csv".to_string(), data }];
    let filter = keyset_of(&[&k]);
    let (_, _, results) = read_csv_files(&config(), &filter, &files);
    let dm = results[0].as_ref().expect("file ok");
    let mut expected = row.clone();
    expected[0] = "a b".to_string();
    assert_eq!(dm.staging[1], expected.join(";"));
}

#[test]
fn matcher_reads_quoted_fields() {
    let k = key("55", 4);
    let header = doc_header_fields();
    let mut row = doc_row_fields(&header, &k);
    row[0] = "a;b".to_string();
    let mut quoted = row.clone();
    quoted[0] = "\"a;b\"".to_string();
    let data = csv_bytes(&[header.clone(), quoted]);
    let files = vec![DocFile { path: "a.csv".to_string(), data }];
    let filter = keyset_of(&[&k]);
    let (_, _, results) = read_csv_files(&config(), &filter, &files);
    let dm = results[0].as_ref().expect("file ok");
    assert_eq!(dm.staging[1], row.join(";"));
}

#[test]
fn failing_file_does_not_abort_the_others() {
    let k = key("55", 4);
    let header = doc_header_fields();
    let row = doc_row_fields(&header, &k);
    let good = csv_bytes(&[header.clone(), row]);
    let mut broken_header = header.clone();
    broken_header.pop();
    let bad = csv_bytes(&[broken_header]);
    let files = vec![
        DocFile { path: "bad.csv".to_string(), data: bad },
        DocFile { path: "good.csv".to_string(), data: good },
    ];
    let filter = keyset_of(&[&k]);
    let (found, total, results) = read_csv_files(&config(), &filter, &files);
    assert!(matches!(
        results[0],
        Err(SpedError::MissingEssentialColumn { .. })
    ));
    assert!(results[1].is_ok());
    assert!(found.contains(&k));
    assert_eq!(found.len(), 1);
    assert_eq!(total, 1);
}

#[test]
fn unreadable_bytes_are_a_csv_error() {
    let files = vec![DocFile { path: "junk.bin".to_string(), data: vec![0xff, 0xfe, 0x3b] }];
    let filter = keyset_of(&[]);
    let (_, total, results) = read_csv_files(&config(), &filter, &files);
    assert_eq!(total, 0);
    match &results[0] {
        Err(SpedError::Csv { arquivo, .. }) => assert_eq!(arquivo, "junk.bin"),
        other => panic!("expected a csv error, got {:?}", other.as_ref().map(|_| ())),
    }
}

#[test]
fn merge_collapses_identical_normalized_lines() {
    let line = "A;B  C;D".to_string();
    let already = "A;B C;D".to_string();
    let out = merge_files(&vec![vec![line], vec![already.clone()]]);
    assert_eq!(out, vec![already]);
}

#[test]
fn merge_keeps_distinct_lines_in_first_seen_order() {
    let out = merge_files(&vec![
        vec!["x;1".to_string(), "y;2".to_string()],
        vec!["x;1".to_string(), "z;3".to_string()],
    ]);
    assert_eq!(out, vec!["x;1".to_string(), "y;2".to_string(), "z;3".to_string()]);
}

#[test]
fn missing_keys_are_the_per_model_set_difference() {
    let a = key("55", 1);
    let b = key("55", 2);
    let c = key("57", 3);
    let efd = keyset_of(&[&a, &b, &c]);
    let doc = keyset_of(&[&b]);
    let missing = imprimir_chaves_nao_encontradas(&efd, &doc);
    assert_eq!(missing.len(), 2);
    assert!(missing.contains(&a));
    assert!(missing.contains(&c));
    assert!(!missing.contains(&b));
}

#[test]
fn sorted_keys_order_by_model_then_key() {
    let inv_low = key("55", 9);
    let inv_high = key("55", 10);
    let cte = key("57", 1);
    let chaves = keyset_of(&[&cte, &inv_high, &inv_low, "short"]);
    let sorted = sorted_filtered_keys(&chaves);
    // The short key is excluded; 55 sorts before 57; within 55 the keys
    // order lexicographically.
    let mut expected = vec![inv_low.clone(), inv_high.clone()];
    if inv_high < inv_low {
        expected = vec![inv_high.clone(), inv_low.clone()];
    }
    expected.push(cte.clone());
    assert_eq!(sorted, expected);
}

#[test]
fn segregated_counts_follow_model_groups() {
    let a = key("55", 1);
    let b = key("55", 2);
    let c = key("57", 3);
    let sorted = sorted_filtered_keys(&keyset_of(&[&a, &b, &c]));
    let counts = imprimir_informacao_segregada(&sorted);
    assert_eq!(counts.len(), 2);
    assert_eq!(counts[0], ("55".to_string(), 2));
    assert_eq!(counts[1], ("57".to_string(), 1));
}

#[test]
fn export_chunks_by_model_and_block_size() {
    let k1 = key("55", 1);
    let k2 = key("55", 2);
    let k3 = key("55", 3);
    let c1 = key("57", 4);
    let c2 = key("57", 5);
    let sorted = sorted_filtered_keys(&keyset_of(&[&k1, &k2, &k3, &c1, &c2]));
    let chunks = exportar_chaves_faltantes(&sorted, 2);
    assert_eq!(chunks.len(), 3);
    assert_eq!(chunks[0].modelo, "55");
    assert_eq!(chunks[0].offset, 0);
    assert_eq!(chunks[0].chaves.len(), 2);
    assert_eq!(chunks[1].modelo, "55");
    assert_eq!(chunks[1].offset, 2);
    assert_eq!(chunks[1].chaves.len(), 1);
    assert_eq!(chunks[2].modelo, "57");
    assert_eq!(chunks[2].offset, 0);
    assert_eq!(chunks[2].chaves, vec![c1.clone(), c2.clone()]);
}

#[test]
fn thousands_separator_matches_report_style() {
    assert_eq!(fmt_milhares(900), "900");
    assert_eq!(fmt_milhares(987654321), "987.654.321");
}

use reter_linhas_com_info_das_chaves::errors::SpedError;
use reter_linhas_com_info_das_chaves::keyset::KeySet;
use reter_linhas_com_info_das_chaves::ledger::get_efd_info;
use reter_linhas_com_info_das_chaves::matcher::{read_csv_files, DocFile};
use reter_linhas_com_info_das_chaves::merge::merge_files;
use reter_linhas_com_info_das_chaves::metadata::{colunas_doc, colunas_efd, Config};
use reter_linhas_com_info_das_chaves::report::imprimir_chaves_nao_encontradas;

fn key(model: &str, seed: u64) -> String {
    format!("{:020}{}{:022}", seed, model, seed)
}

fn keyset_of(keys: &[&str]) -> KeySet {
    let mut s = KeySet::new();
    for k in keys {
        s.insert(k.to_string());
    }
    s
}

#[test]
fn merge_keeps_single_whitespace_characters() {
    // A lone tab is a run of one: it stays as it is.
    let out = merge_files(&vec![vec!["a\tb".to_string()]]);
    assert_eq!(out, vec!["a\tb".to_string()]);
}

#[test]
fn merge_collapses_mixed_whitespace_runs() {
    // A tab followed by a space is a run of two: one space remains.
    let out = merge_files(&vec![vec!["a\t b".to_string()]]);
    assert_eq!(out, vec!["a b".to_string()]);
}

#[test]
fn merge_of_nothing_is_empty() {
    assert_eq!(merge_files(&Vec::new()), Vec::<String>::new());
}

#[test]
fn empty_ledger_misses_its_header() {
    let rows: Vec<Vec<String>> = Vec::new();
    let cfg = Config::new(colunas_efd(), colunas_doc());
    match get_efd_info(&rows, &cfg, "efd.csv") {
        Err(SpedError::MissingEssentialColumn { .. }) => {}
        other => panic!("expected a missing-column error, got {:?}", other.map(|_| ())),
    }
}

#[test]
fn document_file_without_data_rows_matches_nothing() {
    let header: Vec<String> = colunas_doc().iter().map(|p| p.1.clone()).collect();
    let mut bytes = header.join(";").into_bytes();
    bytes.push(b'\n');
    let files = vec![DocFile { path: "empty.csv".to_string(), data: bytes }];
    let filter = keyset_of(&[&key("55", 1)]);
    let cfg = Config::new(colunas_efd(), colunas_doc());
    let (found, total, results) = read_csv_files(&cfg, &filter, &files);
    assert_eq!(total, 0);
    assert_eq!(found.len(), 0);
    let dm = results[0].as_ref().expect("file ok");
    assert_eq!(dm.staging, vec![header.join(";")]);
}

#[test]
fn missing_union_equals_per_model_differences() {
    let a = key("55", 1);
    let b = key("55", 2);
    let c = key("57", 3);
    let d = key("57", 4);
    let efd = keyset_of(&[&a, &b, &c, &d]);
    let doc = keyset_of(&[&a, &d]);
    let missing = imprimir_chaves_nao_encontradas(&efd, &doc);
    // Per-model differences, computed by hand.
    let missing_55: Vec<&String> = [&a, &b].into_iter().filter(|k| !doc.contains(k)).collect();
    let missing_57: Vec<&String> = [&c, &d].into_iter().filter(|k| !doc.contains(k)).collect();
    assert_eq!(missing.len(), missing_55.len() + missing_57.len());
    for k in missing_55.into_iter().chain(missing_57) {
        assert!(missing.contains(k));
    }
}

#[test]
fn short_ledger_keys_never_reach_the_gap_report() {
    let a = key("55", 1);
    let mut efd = keyset_of(&[&a]);
    efd.insert("123".to_string());
    let missing = imprimir_chaves_nao_encontradas(&efd, &keyset_of(&[]));
    assert_eq!(missing.len(), 1);
    assert!(missing.contains(&a));
}

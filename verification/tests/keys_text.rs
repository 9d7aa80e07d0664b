use reter_linhas_com_info_das_chaves::keys::{eh_modelo, extract_keys44, model_code, normalized_key};
use reter_linhas_com_info_das_chaves::metadata::get_modelo_documentos_fiscais;
use reter_linhas_com_info_das_chaves::report::fmt_milhares;

fn key(model: &str, seed: u64) -> String {
    format!("{:020}{}{:022}", seed, model, seed)
}

#[test]
fn normalized_key_accepts_exactly_44_digits() {
    let k = key("55", 7);
    assert_eq!(normalized_key(&k), Some(k.clone()));
    // Non-digit characters are stripped before the length check.
    let noisy = format!("{}-{}", &k[..10], &k[10..]);
    assert_eq!(normalized_key(&noisy), Some(k));
}

#[test]
fn normalized_key_rejects_wrong_lengths() {
    assert_eq!(normalized_key(""), None);
    assert_eq!(normalized_key("123"), None);
    // 43 digits.
    assert_eq!(normalized_key(&"1".repeat(43)), None);
    // 45 digits.
    assert_eq!(normalized_key(&"1".repeat(45)), None);
    // Letters alone do not survive stripping.
    assert_eq!(normalized_key(&"a".repeat(44)), None);
}

#[test]
fn eh_modelo_checks_length_and_model() {
    let k = key("57", 3);
    assert!(eh_modelo(&k, "57"));
    assert!(!eh_modelo(&k, "55"));
    assert!(!eh_modelo(&k[..43], "57"));
}

#[test]
fn model_code_reads_positions_21_and_22() {
    let k = key("65", 1);
    assert_eq!(model_code(&k), Some("65".to_string()));
    assert_eq!(model_code("short"), None);
}

#[test]
fn extract_keys44_takes_isolated_runs_only() {
    let a = key("57", 1);
    let b = key("55", 2);
    let line = format!("x{} {}y {}", a, b, "1".repeat(45));
    // The 45-digit run at the end is not a key; the other two are.
    assert_eq!(extract_keys44(&line), vec![a, b]);
}

#[test]
fn extract_keys44_rejects_digit_adjacent_runs() {
    let a = key("57", 1);
    let line = format!("9{}", a);
    assert_eq!(extract_keys44(&line), Vec::<String>::new());
}

#[test]
fn modelo_documentos_fiscais_names() {
    assert_eq!(get_modelo_documentos_fiscais("55"), "Nota Fiscal Eletrônica: NF-e");
    assert_eq!(
        get_modelo_documentos_fiscais("57"),
        "Conhecimento de Transporte Eletrônico: CT-e"
    );
    assert_eq!(get_modelo_documentos_fiscais("01"), "Nota Fiscal");
    assert_eq!(get_modelo_documentos_fiscais("99"), "Modelo Desconhecido");
}

#[test]
fn fmt_milhares_groups_by_three() {
    assert_eq!(fmt_milhares(0), "0");
    assert_eq!(fmt_milhares(100), "100");
    assert_eq!(fmt_milhares(1000), "1.000");
    assert_eq!(fmt_milhares(1234567), "1.234.567");
}

use vstd::prelude::*;

verus! {

/// Which kind of input file a schema check was run on.
#[derive(Debug, Clone, Copy, PartialEq, Eq, Structural)]
pub enum TipoDeArquivo {
    EFDContrib,
    DocFiscais,
}

/// The errors of the reconciliation engine. Reading failures are turned
/// into these at the edge; every variant carries enough context to fix
/// the source data.
#[derive(Debug, Clone)]
pub enum SpedError {
    /// A data row whose field count differs from the header's.
    ColumnCount { arquivo: String, linha: usize, esperado: usize, encontrado: usize },
    /// The configuration lacks a required entry.
    Config { mensagem: String },
    /// The raw bytes could not be read as delimiter-separated records.
    Csv { arquivo: String, mensagem: String },
    /// A header column name appears twice.
    DuplicateColumnName { arquivo: String, coluna: String },
    /// A header column name is blank.
    EmptyColumnName { arquivo: String },
    /// A required column is absent from the header.
    MissingEssentialColumn { arquivo: String, coluna: String, tipo: TipoDeArquivo },
}

} // verus!

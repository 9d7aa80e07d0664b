use vstd::prelude::*;
use vstd::string::StrSliceExecFns;

use crate::errors::{SpedError, TipoDeArquivo};
use crate::metadata::Config;
use crate::text::{char_is_space, is_space, str_eq};

verus! {

/// A column name that is blank once surrounding white space is ignored.
pub open spec fn is_blank(s: Seq<char>) -> bool {
    forall|i: int| 0 <= i < s.len() ==> is_space(#[trigger] s[i])
}

pub open spec fn has_blank(cols: Seq<Seq<char>>) -> bool {
    exists|i: int| 0 <= i < cols.len() && is_blank(#[trigger] cols[i])
}

/// Position `j` repeats an earlier column name.
pub open spec fn dup_at(cols: Seq<Seq<char>>, j: int) -> bool {
    0 <= j < cols.len() && exists|i: int| 0 <= i < j && cols[i] == cols[j]
}

pub open spec fn has_dup(cols: Seq<Seq<char>>) -> bool {
    exists|j: int| dup_at(cols, j)
}

/// Position `j` holds the first repeated column name.
pub open spec fn first_dup_at(cols: Seq<Seq<char>>, j: int) -> bool {
    dup_at(cols, j) && forall|j2: int| 0 <= j2 < j ==> !dup_at(cols, j2)
}

/// The essential column at table position `k` is absent from the header.
pub open spec fn missing_at(tv: Seq<(String, String)>, cols: Seq<Seq<char>>, k: int) -> bool {
    0 <= k < tv.len() && !cols.contains(tv[k].1@)
}

pub open spec fn first_missing_at(tv: Seq<(String, String)>, cols: Seq<Seq<char>>, k: int) -> bool {
    missing_at(tv, cols, k) && forall|k2: int| 0 <= k2 < k ==> !missing_at(tv, cols, k2)
}

/// A header passes the schema check: no blank name, no repeated name,
/// and every essential column present.
pub open spec fn header_ok(cols: Seq<Seq<char>>, tv: Seq<(String, String)>) -> bool {
    &&& !has_blank(cols)
    &&& !has_dup(cols)
    &&& forall|k: int| 0 <= k < tv.len() ==> cols.contains(#[trigger] tv[k].1@)
}

/// The essential-column table a file type is validated against.
pub open spec fn table_of(config: &Config, tipo: TipoDeArquivo) -> Seq<(String, String)> {
    if tipo == TipoDeArquivo::EFDContrib {
        config.colunas_efd@
    } else {
        config.colunas_doc@
    }
}

pub fn str_is_blank(s: &str) -> (r: bool)
    ensures
        r == is_blank(s@),
{
    let n = s.unicode_len();
    let mut i: usize = 0;
    while i < n
        invariant
            0 <= i <= n,
            n == s@.len(),
            forall|j: int| 0 <= j < i ==> is_space(#[trigger] s@[j]),
        decreases n - i,
    {
        if !char_is_space(s.get_char(i)) {
            return false;
        }
        i = i + 1;
    }
    true
}

/// Validate a header: reject a blank column name, then a repeated column
/// name, then a missing essential column, each error carrying the file
/// and the offending name.
#[verifier::loop_isolation(false)]
pub fn verificar_existencia_de_colunas_essenciais(
    column_names: &Vec<String>,
    tipo: TipoDeArquivo,
    config: &Config,
    input_file: &str,
) -> (r: Result<(), SpedError>)
    ensures
        ({
            let cols = column_names.deep_view();
            let tv = table_of(config, tipo);
            match r {
                Ok(u) => header_ok(cols, tv),
                Err(e) => match e {
                    SpedError::EmptyColumnName { arquivo } => arquivo@ == input_file@ && has_blank(
                        cols,
                    ),
                    SpedError::DuplicateColumnName { arquivo, coluna } => arquivo@ == input_file@
                        && !has_blank(cols) && exists|j: int|
                        #[trigger] first_dup_at(cols, j) && coluna@ == cols[j],
                    SpedError::MissingEssentialColumn { arquivo, coluna, tipo: t } => arquivo@
                        == input_file@ && !has_blank(cols) && !has_dup(cols) && t == tipo && exists|
                        k: int,
                    | #[trigger] first_missing_at(tv, cols, k) && coluna@ == tv[k].1@,
                    _ => false,
                },
            }
        }),
{
    let ghost cols = column_names.deep_view();
    let ghost tv = table_of(config, tipo);
    let n = column_names.len();
    let mut i: usize = 0;
    while i < n
        invariant
            0 <= i <= n,
            forall|j: int| 0 <= j < i ==> !is_blank(#[trigger] cols[j]),
        decreases n - i,
    {
        if str_is_blank(column_names[i].as_str()) {
            proof {
                assert(is_blank(cols[i as int]));
            }
            return Err(SpedError::EmptyColumnName { arquivo: input_file.to_owned() });
        }
        i = i + 1;
    }
    proof {
        if has_blank(cols) {
            let j = choose|j: int| 0 <= j < cols.len() && is_blank(cols[j]);
            assert(false);
        }
    }
    let mut j: usize = 0;
    while j < n
        invariant
            0 <= j <= n,
            forall|j2: int| 0 <= j2 < j ==> !dup_at(cols, j2),
        decreases n - j,
    {
        let mut i2: usize = 0;
        while i2 < j
            invariant
                0 <= i2 <= j < n,
                forall|i3: int| 0 <= i3 < i2 ==> cols[i3] != cols[j as int],
            decreases j - i2,
        {
            if str_eq(column_names[i2].as_str(), column_names[j].as_str()) {
                proof {
                    assert(cols[i2 as int] == cols[j as int]);
                    assert(dup_at(cols, j as int));
                    assert(first_dup_at(cols, j as int));
                }
                return Err(
                    SpedError::DuplicateColumnName {
                        arquivo: input_file.to_owned(),
                        coluna: column_names[j].clone(),
                    },
                );
            }
            i2 = i2 + 1;
        }
        proof {
            if dup_at(cols, j as int) {
                let i3 = choose|i3: int| 0 <= i3 < j && cols[i3] == cols[j as int];
                assert(false);
            }
        }
        j = j + 1;
    }
    proof {
        if has_dup(cols) {
            let jj = choose|jj: int| dup_at(cols, jj);
            assert(false);
        }
    }
    let table = if matches!(tipo, TipoDeArquivo::EFDContrib) {
        &config.colunas_efd
    } else {
        &config.colunas_doc
    };
    let mut k: usize = 0;
    while k < table.len()
        invariant
            0 <= k <= tv.len(),
            table@ == tv,
            forall|k2: int| 0 <= k2 < k ==> cols.contains(#[trigger] tv[k2].1@),
        decreases tv.len() - k,
    {
        let essential = &table[k].1;
        let mut found = false;
        let mut c: usize = 0;
        while c < n
            invariant
                0 <= c <= n,
                found ==> cols.contains(tv[k as int].1@),
                !found ==> forall|c2: int| 0 <= c2 < c ==> cols[c2] != tv[k as int].1@,
            decreases n - c,
        {
            if str_eq(column_names[c].as_str(), essential.as_str()) {
                proof {
                    assert(cols[c as int] == tv[k as int].1@);
                }
                found = true;
                break ;
            }
            c = c + 1;
        }
        if !found {
            proof {
                if cols.contains(tv[k as int].1@) {
                    let c2 = choose|c2: int|
                        0 <= c2 < cols.len() && cols[c2] == tv[k as int].1@;
                    assert(false);
                }
                assert(missing_at(tv, cols, k as int));
                assert(first_missing_at(tv, cols, k as int));
            }
            return Err(
                SpedError::MissingEssentialColumn {
                    arquivo: input_file.to_owned(),
                    coluna: table[k].1.clone(),
                    tipo,
                },
            );
        }
        k = k + 1;
    }
    Ok(())
}

} // verus!

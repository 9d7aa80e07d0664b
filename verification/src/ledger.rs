use vstd::prelude::*;

use crate::errors::{SpedError, TipoDeArquivo};
use crate::graph::Graph;
use crate::keymap::edge_set;
use crate::keys::normalized_key;
use crate::keyset::KeySet;
use crate::metadata::Config;
use crate::schema::{header_ok, verificar_existencia_de_colunas_essenciais};
use crate::text::{digits_of, str_eq};

verus! {

/// `k` is the normalized key of row `d` itself, or one hop away from it
/// along one of the three reference relations.
pub open spec fn expanded_of(
    key: Seq<char>,
    nc: Graph,
    cn: Graph,
    cc: Graph,
    k: Seq<char>,
) -> bool {
    ||| k == key
    ||| edge_set(nc, key).contains(k)
    ||| edge_set(cn, key).contains(k)
    ||| edge_set(cc, key).contains(k)
}

/// Data row `d` yields a well-formed key in column `idx`.
pub open spec fn row_accept(rows: Seq<Seq<Seq<char>>>, d: int, idx: int) -> bool {
    0 <= idx < rows[d].len() && digits_of(rows[d][idx]).len() == 44
}

/// The ledger key set: every well-formed key of the key column, together
/// with everything one hop away along the reference relations.
pub open spec fn ledger_set_of(
    rows: Seq<Seq<Seq<char>>>,
    idx: int,
    nc: Graph,
    cn: Graph,
    cc: Graph,
) -> Set<Seq<char>> {
    Set::new(
        |k: Seq<char>|
            exists|d: int|
                1 <= d < rows.len() && #[trigger] row_accept(rows, d, idx) && expanded_of(
                    digits_of(rows[d][idx]),
                    nc,
                    cn,
                    cc,
                    k,
                ),
    )
}

/// Data row `d` has a field count different from the header's.
pub open spec fn badrow_at(rows: Seq<Seq<Seq<char>>>, d: int) -> bool {
    1 <= d < rows.len() && rows[d].len() != rows[0].len()
}

pub open spec fn first_badrow_at(rows: Seq<Seq<Seq<char>>>, d: int) -> bool {
    badrow_at(rows, d) && forall|d2: int| 1 <= d2 < d ==> (#[trigger] rows[d2]).len()
        == rows[0].len()
}

/// The header row of a parsed file: its first row, or nothing at all.
pub open spec fn header_of(rv: Seq<Seq<Seq<char>>>) -> Seq<Seq<char>> {
    if rv.len() >= 1 {
        rv[0]
    } else {
        Seq::<Seq<char>>::empty()
    }
}

/// What each error of the ledger extraction says of the input.
pub open spec fn efd_error_post(
    e: SpedError,
    rv: Seq<Seq<Seq<char>>>,
    tv: Seq<(String, String)>,
    path: Seq<char>,
) -> bool {
    let header = header_of(rv);
    match e {
        SpedError::Config { mensagem } => header_ok(header, tv) && !table_has(
            tv,
            "chave_documento"@,
        ),
        SpedError::ColumnCount { arquivo, linha, esperado, encontrado } => {
            &&& header_ok(header, tv)
            &&& table_has(tv, "chave_documento"@)
            &&& arquivo@ == path
            &&& exists|d: int|
                #[trigger] first_badrow_at(rv, d) && linha == d + 1 && esperado == header.len()
                    && encontrado == rv[d].len()
        },
        SpedError::EmptyColumnName { .. } => !header_ok(header, tv),
        SpedError::DuplicateColumnName { .. } => !header_ok(header, tv),
        SpedError::MissingEssentialColumn { .. } => !header_ok(header, tv),
        _ => false,
    }
}

/// The first table entry under logical name `name`.
pub open spec fn table_lookup_at(tv: Seq<(String, String)>, name: Seq<char>, t: int) -> bool {
    0 <= t < tv.len() && tv[t].0@ == name && forall|t2: int| 0 <= t2 < t ==> tv[t2].0@ != name
}

pub open spec fn table_has(tv: Seq<(String, String)>, name: Seq<char>) -> bool {
    exists|t: int| 0 <= t < tv.len() && tv[t].0@ == name
}

/// The first header position holding name `n`.
pub open spec fn col_index_at(cols: Seq<Seq<char>>, n: Seq<char>, c: int) -> bool {
    0 <= c < cols.len() && cols[c] == n && forall|c2: int| 0 <= c2 < c ==> cols[c2] != n
}

/// Key well-formedness: a field whose digits do not number exactly 44
/// is rejected, so the ledger key set holds only well-formed keys
/// whenever the reference graphs do.
pub proof fn lemma_ledger_keys_wf(
    rows: Seq<Seq<Seq<char>>>,
    idx: int,
    nc: Graph,
    cn: Graph,
    cc: Graph,
    k: Seq<char>,
)
    requires
        ledger_set_of(rows, idx, nc, cn, cc).contains(k),
        forall|a: Seq<char>, b: Seq<char>|
            #[trigger] edge_set(nc, a).contains(b) ==> crate::keys::is_key44(b),
        forall|a: Seq<char>, b: Seq<char>|
            #[trigger] edge_set(cn, a).contains(b) ==> crate::keys::is_key44(b),
        forall|a: Seq<char>, b: Seq<char>|
            #[trigger] edge_set(cc, a).contains(b) ==> crate::keys::is_key44(b),
    ensures
        crate::keys::is_key44(k),
{
    let d = choose|d: int|
        1 <= d < rows.len() && #[trigger] row_accept(rows, d, idx) && expanded_of(
            digits_of(rows[d][idx]),
            nc,
            cn,
            cc,
            k,
        );
    let key = digits_of(rows[d][idx]);
    if k == key {
        assert forall|j: int| 0 <= j < key.len() implies crate::text::is_digit(
            #[trigger] key[j],
        ) by {
            rows[d][idx].lemma_filter_pred(|c: char| crate::text::is_digit(c), j);
        }
    }
}

/// Look a logical column name up in an essential-column table.
#[verifier::loop_isolation(false)]
pub fn table_get<'a>(table: &'a Vec<(String, String)>, name: &str) -> (r: Option<&'a String>)
    ensures
        match r {
            Some(v) => exists|t: int| #[trigger] table_lookup_at(table@, name@, t) && v@
                == table@[t].1@,
            None => !table_has(table@, name@),
        },
{
    let mut t: usize = 0;
    while t < table.len()
        invariant
            0 <= t <= table@.len(),
            forall|t2: int| 0 <= t2 < t ==> table@[t2].0@ != name@,
        decreases table@.len() - t,
    {
        if str_eq(table[t].0.as_str(), name) {
            proof {
                assert(table_lookup_at(table@, name@, t as int));
            }
            return Some(&table[t].1);
        }
        t = t + 1;
    }
    None
}

/// The first position of `name` among the column names.
#[verifier::loop_isolation(false)]
pub fn find_column(column_names: &Vec<String>, name: &str) -> (r: Option<usize>)
    ensures
        match r {
            Some(c) => col_index_at(column_names.deep_view(), name@, c as int),
            None => !column_names.deep_view().contains(name@),
        },
{
    let ghost cols = column_names.deep_view();
    let mut c: usize = 0;
    while c < column_names.len()
        invariant
            0 <= c <= cols.len(),
            forall|c2: int| 0 <= c2 < c ==> cols[c2] != name@,
        decreases cols.len() - c,
    {
        if str_eq(column_names[c].as_str(), name) {
            proof {
                assert(cols[c as int] == name@);
            }
            return Some(c);
        }
        c = c + 1;
    }
    proof {
        if cols.contains(name@) {
            let c2 = choose|c2: int| 0 <= c2 < cols.len() && cols[c2] == name@;
            assert(false);
        }
    }
    None
}

/// Union the keys one hop away from `chave` into `info`.
pub fn add_correlated_keys_to_info(config: &Config, chave: &str, info: &mut KeySet)
    requires
        config.wf(),
        old(info).wf(),
    ensures
        final(info).wf(),
        final(info)@ == old(info)@.union(edge_set(config.nfe_ctes@, chave@)).union(
            edge_set(config.cte_nfes@, chave@),
        ).union(edge_set(config.cte_complementar@, chave@)),
{
    match config.nfe_ctes.get(chave) {
        Some(s) => info.extend_from(s),
        None => {
            proof {
                assert(edge_set(config.nfe_ctes@, chave@) =~= Set::empty());
                assert(info@.union(edge_set(config.nfe_ctes@, chave@)) =~= info@);
            }
        },
    }
    match config.cte_nfes.get(chave) {
        Some(s) => info.extend_from(s),
        None => {
            proof {
                assert(edge_set(config.cte_nfes@, chave@) =~= Set::empty());
                assert(info@.union(edge_set(config.cte_nfes@, chave@)) =~= info@);
            }
        },
    }
    match config.cte_complementar.get(chave) {
        Some(s) => info.extend_from(s),
        None => {
            proof {
                assert(edge_set(config.cte_complementar@, chave@) =~= Set::empty());
                assert(info@.union(edge_set(config.cte_complementar@, chave@)) =~= info@);
            }
        },
    }
}

/// Extract the ledger key set from the parsed ledger rows (header
/// first): validate the header, reject the first data row whose field
/// count differs from the header's, and collect every well-formed key of
/// the key column together with its one-hop related keys.
#[verifier::loop_isolation(false)]
#[verifier::rlimit(100)]
#[verifier::spinoff_prover]
pub fn get_efd_info(rows: &Vec<Vec<String>>, config: &Config, efd_path: &str) -> (r: Result<
    KeySet,
    SpedError,
>)
    requires
        config.wf(),
    ensures
        r matches Ok(ks) ==> {
            &&& header_ok(header_of(rows.deep_view()), config.colunas_efd@)
            &&& table_has(config.colunas_efd@, "chave_documento"@)
            &&& forall|d: int|
                1 <= d < rows.deep_view().len() ==> (#[trigger] rows.deep_view()[d]).len()
                    == header_of(rows.deep_view()).len()
            &&& ks.wf()
            &&& exists|t: int, c: int|
                #[trigger] table_lookup_at(config.colunas_efd@, "chave_documento"@, t)
                    && #[trigger] col_index_at(
                    header_of(rows.deep_view()),
                    config.colunas_efd@[t].1@,
                    c,
                ) && ks@ == ledger_set_of(
                    rows.deep_view(),
                    c,
                    config.nfe_ctes@,
                    config.cte_nfes@,
                    config.cte_complementar@,
                )
        },
        r matches Err(e) ==> efd_error_post(
            e,
            rows.deep_view(),
            config.colunas_efd@,
            efd_path@,
        ),
{
    let ghost rv = rows.deep_view();
    let empty_header: Vec<String> = Vec::new();
    let header: &Vec<String> = if rows.len() >= 1 {
        &rows[0]
    } else {
        &empty_header
    };
    proof {
        if rv.len() >= 1 {
            assert(header.deep_view() == rv[0]);
        } else {
            assert(header.deep_view() =~~= Seq::<Seq<char>>::empty());
        }
    }
    if let Err(e) = verificar_existencia_de_colunas_essenciais(
        header,
        TipoDeArquivo::EFDContrib,
        config,
        efd_path,
    ) {
        proof {
            let cols = header.deep_view();
            let tv = config.colunas_efd@;
            match e {
                SpedError::EmptyColumnName { .. } => {
                    assert(!header_ok(cols, tv));
                },
                SpedError::DuplicateColumnName { .. } => {
                    let j = choose|j: int|
                        #[trigger] crate::schema::first_dup_at(cols, j) && (
                        e->DuplicateColumnName_coluna)@ == cols[j];
                    assert(crate::schema::has_dup(cols));
                    assert(!header_ok(cols, tv));
                },
                SpedError::MissingEssentialColumn { .. } => {
                    let k = choose|k: int|
                        #[trigger] crate::schema::first_missing_at(tv, cols, k) && (
                        e->MissingEssentialColumn_coluna)@ == tv[k].1@;
                    assert(!cols.contains(tv[k].1@));
                    assert(!header_ok(cols, tv));
                },
                _ => {
                    assert(false);
                },
            }
        }
        return Err(e);
    }
    let target = match table_get(&config.colunas_efd, "chave_documento") {
        Some(t) => t,
        None => {
            return Err(
                SpedError::Config { mensagem: "configuracao chave_documento ausente".to_owned() },
            );
        },
    };
    let idx = match find_column(header, target.as_str()) {
        Some(c) => c,
        None => {
            proof {
                let t = choose|t: int|
                    #[trigger] table_lookup_at(config.colunas_efd@, "chave_documento"@, t)
                        && target@ == config.colunas_efd@[t].1@;
                assert(header.deep_view().contains(config.colunas_efd@[t].1@));
                assert(false);
            }
            return Err(
                SpedError::Config { mensagem: "configuracao chave_documento ausente".to_owned() },
            );
        },
    };
    let ghost nc = config.nfe_ctes@;
    let ghost cn = config.cte_nfes@;
    let ghost cc = config.cte_complementar@;
    let mut keys_efd = KeySet::new();
    let header_len = header.len();
    let mut d: usize = 1;
    while d < rows.len()
        invariant
            keys_efd.wf(),
            1 <= d <= rv.len() || (rv.len() == 0 && d == 1),
            forall|d2: int| 1 <= d2 < d ==> (#[trigger] rv[d2]).len() == header_len,
            header_len == (if rv.len() >= 1 {
                rv[0].len()
            } else {
                0
            }),
            idx < header_len,
            keys_efd@ == Set::new(
                |k: Seq<char>|
                    exists|d2: int|
                        1 <= d2 < d && #[trigger] row_accept(rv, d2, idx as int) && expanded_of(
                            digits_of(rv[d2][idx as int]),
                            nc,
                            cn,
                            cc,
                            k,
                        ),
            ),
        decreases rv.len() - d,
    {
        let row = &rows[d];
        proof {
            assert(row.deep_view() == rv[d as int]);
        }
        if row.len() != header_len {
            proof {
                assert(first_badrow_at(rv, d as int));
            }
            return Err(
                SpedError::ColumnCount {
                    arquivo: efd_path.to_owned(),
                    linha: d + 1,
                    esperado: header_len,
                    encontrado: row.len(),
                },
            );
        }
        let ghost ks0 = keys_efd@;
        if let Some(chave) = normalized_key(row[idx].as_str()) {
            proof {
                assert(rv[d as int][idx as int] == row@[idx as int]@);
                assert(row_accept(rv, d as int, idx as int));
            }
            add_correlated_keys_to_info(config, chave.as_str(), &mut keys_efd);
            keys_efd.insert(chave);
            proof {
                let key = digits_of(rv[d as int][idx as int]);
                assert forall|k: Seq<char>| #[trigger] keys_efd@.contains(k) implies Set::new(
                    |k2: Seq<char>|
                        exists|d2: int|
                            1 <= d2 < d + 1 && #[trigger] row_accept(rv, d2, idx as int)
                                && expanded_of(digits_of(rv[d2][idx as int]), nc, cn, cc, k2),
                ).contains(k) by {
                    if ks0.contains(k) {
                        let d2 = choose|d2: int|
                            1 <= d2 < d && #[trigger] row_accept(rv, d2, idx as int) && expanded_of(
                                digits_of(rv[d2][idx as int]),
                                nc,
                                cn,
                                cc,
                                k,
                            );
                        assert(1 <= d2 < d + 1 && row_accept(rv, d2, idx as int) && expanded_of(
                            digits_of(rv[d2][idx as int]),
                            nc,
                            cn,
                            cc,
                            k,
                        ));
                    } else {
                        assert(expanded_of(key, nc, cn, cc, k));
                        assert(1 <= d < d + 1 && row_accept(rv, d as int, idx as int)
                            && expanded_of(digits_of(rv[d as int][idx as int]), nc, cn, cc, k));
                    }
                }
                assert forall|k: Seq<char>|
                    Set::new(
                        |k2: Seq<char>|
                            exists|d2: int|
                                1 <= d2 < d + 1 && #[trigger] row_accept(rv, d2, idx as int)
                                    && expanded_of(digits_of(rv[d2][idx as int]), nc, cn, cc, k2),
                    ).contains(k) implies #[trigger] keys_efd@.contains(k) by {
                    let d2 = choose|d2: int|
                        1 <= d2 < d + 1 && #[trigger] row_accept(rv, d2, idx as int) && expanded_of(
                            digits_of(rv[d2][idx as int]),
                            nc,
                            cn,
                            cc,
                            k,
                        );
                    if d2 < d {
                        assert(ks0.contains(k));
                    }
                }
                assert(keys_efd@ =~= Set::new(
                    |k: Seq<char>|
                        exists|d2: int|
                            1 <= d2 < d + 1 && #[trigger] row_accept(rv, d2, idx as int)
                                && expanded_of(digits_of(rv[d2][idx as int]), nc, cn, cc, k),
                ));
            }
        } else {
            proof {
                assert(rv[d as int][idx as int] == row@[idx as int]@);
                assert(!row_accept(rv, d as int, idx as int));
                assert forall|k: Seq<char>|
                    Set::new(
                        |k2: Seq<char>|
                            exists|d2: int|
                                1 <= d2 < d + 1 && #[trigger] row_accept(rv, d2, idx as int)
                                    && expanded_of(digits_of(rv[d2][idx as int]), nc, cn, cc, k2),
                    ).contains(k) implies #[trigger] keys_efd@.contains(k) by {
                    let d2 = choose|d2: int|
                        1 <= d2 < d + 1 && #[trigger] row_accept(rv, d2, idx as int) && expanded_of(
                            digits_of(rv[d2][idx as int]),
                            nc,
                            cn,
                            cc,
                            k,
                        );
                    assert(d2 < d);
                }
                assert(keys_efd@ =~= Set::new(
                    |k: Seq<char>|
                        exists|d2: int|
                            1 <= d2 < d + 1 && #[trigger] row_accept(rv, d2, idx as int)
                                && expanded_of(digits_of(rv[d2][idx as int]), nc, cn, cc, k),
                ));
            }
        }
        d = d + 1;
    }
    proof {
        let tvv = config.colunas_efd@;
        let headerexpr = (if rv.len() >= 1 {
            rv[0]
        } else {
            Seq::<Seq<char>>::empty()
        });
        assert(keys_efd@ =~= ledger_set_of(rv, idx as int, nc, cn, cc));
        let t = choose|t: int|
            #[trigger] table_lookup_at(tvv, "chave_documento"@, t) && target@ == tvv[t].1@;
        assert(tvv[t].0@ == "chave_documento"@);
        assert(table_has(tvv, "chave_documento"@));
        assert(col_index_at(headerexpr, tvv[t].1@, idx as int));
        assert(table_lookup_at(tvv, "chave_documento"@, t) && col_index_at(
            headerexpr,
            tvv[t].1@,
            idx as int,
        ) && keys_efd@ == ledger_set_of(rv, idx as int, nc, cn, cc));
    }
    Ok(keys_efd)
}

} // verus!

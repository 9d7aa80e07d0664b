use vstd::prelude::*;

use crate::errors::{SpedError, TipoDeArquivo};
use crate::keys::normalized_key;
use crate::keyset::KeySet;
use crate::ledger::{
    col_index_at, find_column, first_badrow_at, header_of, row_accept, table_get, table_has,
    table_lookup_at,
};
use crate::metadata::Config;
use crate::schema::{header_ok, verificar_existencia_de_colunas_essenciais};
use crate::text::{collapse_whitespace, collapse_ws, digits_of, str_chars};
use crate::trusted::{chars_to_string, csv_parse_of, par_map_ctx, parse_csv_records};

verus! {

/// The field separator of the fiscal-document files.
pub open spec fn doc_delim() -> char {
    ';'
}

/// Two consecutive spaces occur in `f`.
pub open spec fn has_double_space(f: Seq<char>) -> bool {
    exists|i: int| 0 <= i && i + 1 < f.len() && #[trigger] f[i] == ' ' && f[i + 1] == ' '
}

/// How a field is written to the staging output: collapsed only when a
/// double space betrays a run to collapse.
pub open spec fn staged_field(f: Seq<char>) -> Seq<char> {
    if has_double_space(f) {
        collapse_ws(f)
    } else {
        f
    }
}

/// The fields joined by the delimiter.
pub open spec fn join_fields(fields: Seq<Seq<char>>, delim: char) -> Seq<char>
    decreases fields.len(),
{
    if fields.len() == 0 {
        Seq::empty()
    } else if fields.len() == 1 {
        fields[0]
    } else {
        fields[0] + seq![delim] + join_fields(fields.drop_first(), delim)
    }
}

proof fn lemma_join_push(fields: Seq<Seq<char>>, delim: char, x: Seq<char>)
    ensures
        join_fields(fields.push(x), delim) == if fields.len() == 0 {
            x
        } else {
            join_fields(fields, delim) + seq![delim] + x
        },
    decreases fields.len(),
{
    let p = fields.push(x);
    if fields.len() == 0 {
        assert(p.len() == 1);
        assert(p[0] == x);
    } else {
        assert(p.len() >= 2);
        assert(p[0] == fields[0]);
        lemma_join_push(fields.drop_first(), delim, x);
        assert(p.drop_first() =~~= fields.drop_first().push(x));
        if fields.len() == 1 {
            assert(join_fields(p, delim) == p[0] + seq![delim] + join_fields(p.drop_first(), delim));
            assert(join_fields(p.drop_first(), delim) == x);
        } else {
            assert(join_fields(fields, delim) + seq![delim] + x == fields[0] + seq![delim]
                + (join_fields(fields.drop_first(), delim) + seq![delim] + x));
        }
    }
}

/// A staged record: every field normalized, then delimiter-joined.
pub open spec fn staged_row(row: Seq<Seq<char>>, delim: char) -> Seq<char> {
    join_fields(row.map_values(|f: Seq<char>| staged_field(f)), delim)
}

/// Data row `d` holds a well-formed key that the ledger key set contains.
pub open spec fn row_match(
    rows: Seq<Seq<Seq<char>>>,
    d: int,
    idx: int,
    filter: Set<Seq<char>>,
) -> bool {
    row_accept(rows, d, idx) && filter.contains(digits_of(rows[d][idx]))
}

/// The distinct matched keys of a file.
pub open spec fn matched_set_of(
    rows: Seq<Seq<Seq<char>>>,
    idx: int,
    filter: Set<Seq<char>>,
) -> Set<Seq<char>> {
    Set::new(
        |k: Seq<char>|
            exists|d: int|
                1 <= d < rows.len() && #[trigger] row_match(rows, d, idx, filter) && k == digits_of(
                    rows[d][idx],
                ),
    )
}

/// The staged lines of the matched data rows, in row order.
pub open spec fn staged_from(
    rows: Seq<Seq<Seq<char>>>,
    d: int,
    idx: int,
    filter: Set<Seq<char>>,
) -> Seq<Seq<char>>
    decreases rows.len() - d,
{
    if d < 1 || d >= rows.len() {
        Seq::empty()
    } else if row_match(rows, d, idx, filter) {
        seq![staged_row(rows[d], doc_delim())] + staged_from(rows, d + 1, idx, filter)
    } else {
        staged_from(rows, d + 1, idx, filter)
    }
}

/// The whole staging output of one file: the joined header first when
/// this is the first file of the run, then the staged matched rows.
pub open spec fn staged_lines_of(
    rows: Seq<Seq<Seq<char>>>,
    idx: int,
    filter: Set<Seq<char>>,
    write_header: bool,
) -> Seq<Seq<char>> {
    if write_header && rows.len() >= 1 {
        seq![join_fields(rows[0], doc_delim())] + staged_from(rows, 1, idx, filter)
    } else {
        staged_from(rows, 1, idx, filter)
    }
}

/// The outcome of matching one fiscal-document file: the distinct keys
/// found, the staged output lines, and how many data rows were scanned.
pub struct DocMatch {
    pub found: KeySet,
    pub staging: Vec<String>,
    pub count: usize,
}

/// One fiscal-document file, as raw bytes.
pub struct DocFile {
    pub path: String,
    pub data: Vec<u8>,
}

/// What each error of the document matching says of the parsed rows.
pub open spec fn doc_error_post(
    e: SpedError,
    rv: Seq<Seq<Seq<char>>>,
    tv: Seq<(String, String)>,
    path: Seq<char>,
) -> bool {
    let header = header_of(rv);
    match e {
        SpedError::Config { mensagem } => header_ok(header, tv) && !table_has(
            tv,
            "chave44_digitos"@,
        ),
        SpedError::ColumnCount { arquivo, linha, esperado, encontrado } => {
            &&& header_ok(header, tv)
            &&& table_has(tv, "chave44_digitos"@)
            &&& arquivo@ == path
            &&& exists|d: int|
                #[trigger] first_badrow_at(rv, d) && linha == d + 1 && esperado == header.len()
                    && encontrado == rv[d].len()
        },
        SpedError::EmptyColumnName { .. } => !header_ok(header, tv),
        SpedError::DuplicateColumnName { .. } => !header_ok(header, tv),
        SpedError::MissingEssentialColumn { .. } => !header_ok(header, tv),
        _ => false,
    }
}

/// What a successful match of one file says of the parsed rows.
pub open spec fn doc_ok_post(
    dm: DocMatch,
    rv: Seq<Seq<Seq<char>>>,
    tv: Seq<(String, String)>,
    filter: Set<Seq<char>>,
    write_header: bool,
) -> bool {
    &&& header_ok(header_of(rv), tv)
    &&& table_has(tv, "chave44_digitos"@)
    &&& forall|d: int|
        1 <= d < rv.len() ==> (#[trigger] rv[d]).len() == header_of(rv).len()
    &&& dm.found.wf()
    &&& dm.count == if rv.len() >= 1 {
        rv.len() - 1
    } else {
        0
    }
    &&& exists|t: int, c: int|
        #[trigger] table_lookup_at(tv, "chave44_digitos"@, t) && #[trigger] col_index_at(
            header_of(rv),
            tv[t].1@,
            c,
        ) && dm.found@ == matched_set_of(rv, c, filter) && dm.staging.deep_view()
            == staged_lines_of(rv, c, filter, write_header)
}

/// What matching one raw file yields, whatever the bytes hold.
pub open spec fn doc_post(
    r: Result<DocMatch, SpedError>,
    path: Seq<char>,
    data: Seq<u8>,
    tv: Seq<(String, String)>,
    filter: Set<Seq<char>>,
    write_header: bool,
) -> bool {
    match csv_parse_of(data, 59u8) {
        Option::None => r matches Err(e) && (e matches SpedError::Csv { arquivo, mensagem }
            && arquivo@ == path),
        Option::Some(rv) => match r {
            Ok(dm) => doc_ok_post(dm, rv, tv, filter, write_header),
            Err(e) => doc_error_post(e, rv, tv, path),
        },
    }
}

fn field_has_double_space(f: &Vec<char>) -> (r: bool)
    ensures
        r == has_double_space(f@),
{
    if f.len() < 2 {
        return false;
    }
    let n = f.len();
    let mut i: usize = 0;
    while i + 1 < n
        invariant
            0 <= i < n,
            n == f@.len(),
            n >= 2,
            forall|j: int| 0 <= j && j + 1 < f@.len() && j < i ==> !(#[trigger] f@[j] == ' '
                && f@[j + 1] == ' '),
        decreases f@.len() - i,
    {
        if f[i] == ' ' && f[i + 1] == ' ' {
            return true;
        }
        i = i + 1;
    }
    proof {
        if has_double_space(f@) {
            let j = choose|j: int|
                0 <= j && j + 1 < f@.len() && #[trigger] f@[j] == ' ' && f@[j + 1] == ' ';
            assert(false);
        }
    }
    false
}

/// One record of the staging output: each field collapsed where it shows
/// a double space, the fields joined by the file's delimiter.
#[verifier::loop_isolation(false)]
fn staged_row_exec(row: &Vec<String>, delim: char) -> (r: String)
    ensures
        r@ == staged_row(row.deep_view(), delim),
{
    let ghost mv = row.deep_view().map_values(|f: Seq<char>| staged_field(f));
    let mut acc: Vec<char> = Vec::new();
    let mut j: usize = 0;
    while j < row.len()
        invariant
            0 <= j <= mv.len(),
            mv.len() == row.deep_view().len(),
            acc@ == join_fields(mv.subrange(0, j as int), delim),
        decreases mv.len() - j,
    {
        let cs = str_chars(row[j].as_str());
        let staged: Vec<char> = if field_has_double_space(&cs) {
            collapse_whitespace(&cs)
        } else {
            cs
        };
        proof {
            assert(row.deep_view()[j as int] == row@[j as int]@);
            assert(staged@ == staged_field(row.deep_view()[j as int]));
            assert(mv[j as int] == staged_field(row.deep_view()[j as int]));
            lemma_join_push(mv.subrange(0, j as int), delim, mv[j as int]);
            assert(mv.subrange(0, j as int).push(mv[j as int]) =~~= mv.subrange(0, j + 1));
        }
        if j > 0 {
            acc.push(delim);
        }
        let mut t: usize = 0;
        let ghost accbase = acc@;
        while t < staged.len()
            invariant
                0 <= t <= staged@.len(),
                acc@ == accbase + staged@.subrange(0, t as int),
            decreases staged@.len() - t,
        {
            acc.push(staged[t]);
            proof {
                assert(accbase + staged@.subrange(0, t as int).push(staged@[t as int]) =~= accbase
                    + staged@.subrange(0, t + 1));
            }
            t = t + 1;
        }
        proof {
            assert(staged@.subrange(0, staged@.len() as int) =~= staged@);
            assert(acc@ =~= join_fields(mv.subrange(0, j + 1), delim));
        }
        j = j + 1;
    }
    proof {
        assert(mv.subrange(0, mv.len() as int) =~= mv);
    }
    chars_to_string(&acc)
}

/// Match the parsed rows of one fiscal-document file against the ledger
/// key set: validate the header, reject the first data row whose field
/// count differs from the header's, and collect each matched key with a
/// staged copy of its row.
#[verifier::loop_isolation(false)]
#[verifier::rlimit(100)]
#[verifier::spinoff_prover]
pub fn process_single_csv(
    rows: &Vec<Vec<String>>,
    config: &Config,
    path: &str,
    filter: &KeySet,
    write_header: bool,
) -> (r: Result<DocMatch, SpedError>)
    requires
        config.wf(),
        filter.wf(),
    ensures
        r matches Ok(dm) ==> doc_ok_post(
            dm,
            rows.deep_view(),
            config.colunas_doc@,
            filter@,
            write_header,
        ),
        r matches Err(e) ==> doc_error_post(e, rows.deep_view(), config.colunas_doc@, path@),
{
    let ghost rv = rows.deep_view();
    let ghost tv = config.colunas_doc@;
    let empty_header: Vec<String> = Vec::new();
    let header: &Vec<String> = if rows.len() >= 1 {
        &rows[0]
    } else {
        &empty_header
    };
    proof {
        if rv.len() >= 1 {
            assert(header.deep_view() == rv[0]);
        } else {
            assert(header.deep_view() =~~= Seq::<Seq<char>>::empty());
        }
    }
    if let Err(e) = verificar_existencia_de_colunas_essenciais(
        header,
        TipoDeArquivo::DocFiscais,
        config,
        path,
    ) {
        proof {
            let cols = header.deep_view();
            match e {
                SpedError::EmptyColumnName { .. } => {
                    assert(!header_ok(cols, tv));
                },
                SpedError::DuplicateColumnName { .. } => {
                    let j = choose|j: int|
                        #[trigger] crate::schema::first_dup_at(cols, j) && (
                        e->DuplicateColumnName_coluna)@ == cols[j];
                    assert(crate::schema::has_dup(cols));
                    assert(!header_ok(cols, tv));
                },
                SpedError::MissingEssentialColumn { .. } => {
                    let k = choose|k: int|
                        #[trigger] crate::schema::first_missing_at(tv, cols, k) && (
                        e->MissingEssentialColumn_coluna)@ == tv[k].1@;
                    assert(!cols.contains(tv[k].1@));
                    assert(!header_ok(cols, tv));
                },
                _ => {
                    assert(false);
                },
            }
        }
        return Err(e);
    }
    let target = match table_get(&config.colunas_doc, "chave44_digitos") {
        Some(t) => t,
        None => {
            return Err(
                SpedError::Config { mensagem: "configuracao chave44_digitos ausente".to_owned() },
            );
        },
    };
    let idx = match find_column(header, target.as_str()) {
        Some(c) => c,
        None => {
            proof {
                let t = choose|t: int|
                    #[trigger] table_lookup_at(tv, "chave44_digitos"@, t) && target@ == tv[t].1@;
                assert(header.deep_view().contains(tv[t].1@));
                assert(false);
            }
            return Err(
                SpedError::Config { mensagem: "configuracao chave44_digitos ausente".to_owned() },
            );
        },
    };
    let mut found = KeySet::new();
    let mut staging: Vec<String> = Vec::new();
    if write_header && rows.len() >= 1 {
        let ghost hv = rv[0];
        let mut acc: Vec<char> = Vec::new();
        let mut j: usize = 0;
        while j < header.len()
            invariant
                0 <= j <= hv.len(),
                hv.len() == header@.len(),
                hv == header.deep_view(),
                acc@ == join_fields(hv.subrange(0, j as int), doc_delim()),
            decreases hv.len() - j,
        {
            proof {
                lemma_join_push(hv.subrange(0, j as int), doc_delim(), hv[j as int]);
                assert(hv.subrange(0, j as int).push(hv[j as int]) =~~= hv.subrange(0, j + 1));
            }
            if j > 0 {
                acc.push(';');
            }
            let cs = str_chars(header[j].as_str());
            let mut t: usize = 0;
            let ghost accbase = acc@;
            while t < cs.len()
                invariant
                    0 <= t <= cs@.len(),
                    acc@ == accbase + cs@.subrange(0, t as int),
                decreases cs@.len() - t,
            {
                acc.push(cs[t]);
                proof {
                    assert(accbase + cs@.subrange(0, t as int).push(cs@[t as int]) =~= accbase
                        + cs@.subrange(0, t + 1));
                }
                t = t + 1;
            }
            proof {
                assert(cs@.subrange(0, cs@.len() as int) =~= cs@);
                assert(cs@ == hv[j as int]);
                assert(acc@ =~= join_fields(hv.subrange(0, j + 1), doc_delim()));
            }
            j = j + 1;
        }
        proof {
            assert(hv.subrange(0, hv.len() as int) =~= hv);
        }
        staging.push(chars_to_string(&acc));
        proof {
            assert(staging.deep_view() =~~= seq![join_fields(rv[0], doc_delim())]);
        }
    }
    let ghost staged_prefix_base = staging.deep_view();
    let header_len = header.len();
    let mut d: usize = 1;
    while d < rows.len()
        invariant
            found.wf(),
            1 <= d <= rv.len() || (rv.len() == 0 && d == 1),
            forall|d2: int| 1 <= d2 < d ==> (#[trigger] rv[d2]).len() == header_len,
            header_len == (if rv.len() >= 1 {
                rv[0].len()
            } else {
                0
            }),
            idx < header_len,
            found@ == Set::new(
                |k: Seq<char>|
                    exists|d2: int|
                        1 <= d2 < d && #[trigger] row_match(rv, d2, idx as int, filter@) && k
                            == digits_of(rv[d2][idx as int]),
            ),
            staging.deep_view() == staged_prefix_base + staged_upto(rv, d as int, idx as int, filter@),
        decreases rv.len() - d,
    {
        let row = &rows[d];
        proof {
            assert(row.deep_view() == rv[d as int]);
        }
        if row.len() != header_len {
            proof {
                assert(first_badrow_at(rv, d as int));
            }
            return Err(
                SpedError::ColumnCount {
                    arquivo: path.to_owned(),
                    linha: d + 1,
                    esperado: header_len,
                    encontrado: row.len(),
                },
            );
        }
        let ghost found0 = found@;
        let ghost stage0 = staging.deep_view();
        let mut took = false;
        if let Some(chave) = normalized_key(row[idx].as_str()) {
            proof {
                assert(rv[d as int][idx as int] == row@[idx as int]@);
            }
            if filter.contains(chave.as_str()) {
                proof {
                    assert(row_match(rv, d as int, idx as int, filter@));
                }
                found.insert(chave);
                let line = staged_row_exec(row, ';');
                let ghost sp = staging.deep_view();
                staging.push(line);
                proof {
                    assert(staging.deep_view() =~~= sp.push(staged_row(rv[d as int], doc_delim())));
                }
                took = true;
            }
        }
        proof {
            let key = digits_of(rv[d as int][idx as int]);
            if row_match(rv, d as int, idx as int, filter@) {
                assert(took);
            } else {
                assert(!took);
            }
            assert forall|k: Seq<char>| #[trigger] found@.contains(k) implies Set::new(
                |k2: Seq<char>|
                    exists|d2: int|
                        1 <= d2 < d + 1 && #[trigger] row_match(rv, d2, idx as int, filter@) && k2
                            == digits_of(rv[d2][idx as int]),
            ).contains(k) by {
                if found0.contains(k) {
                    let d2 = choose|d2: int|
                        1 <= d2 < d && #[trigger] row_match(rv, d2, idx as int, filter@) && k
                            == digits_of(rv[d2][idx as int]);
                    assert(1 <= d2 < d + 1 && row_match(rv, d2, idx as int, filter@) && k
                        == digits_of(rv[d2][idx as int]));
                } else {
                    assert(1 <= d < d + 1 && row_match(rv, d as int, idx as int, filter@) && k
                        == digits_of(rv[d as int][idx as int]));
                }
            }
            assert forall|k: Seq<char>|
                Set::new(
                    |k2: Seq<char>|
                        exists|d2: int|
                            1 <= d2 < d + 1 && #[trigger] row_match(rv, d2, idx as int, filter@)
                                && k2 == digits_of(rv[d2][idx as int]),
                ).contains(k) implies #[trigger] found@.contains(k) by {
                let d2 = choose|d2: int|
                    1 <= d2 < d + 1 && #[trigger] row_match(rv, d2, idx as int, filter@) && k
                        == digits_of(rv[d2][idx as int]);
                if d2 < d {
                    assert(found0.contains(k));
                }
            }
            assert(found@ =~= Set::new(
                |k: Seq<char>|
                    exists|d2: int|
                        1 <= d2 < d + 1 && #[trigger] row_match(rv, d2, idx as int, filter@) && k
                            == digits_of(rv[d2][idx as int]),
            ));
            assert(staged_upto(rv, d + 1, idx as int, filter@) == if row_match(
                rv,
                d as int,
                idx as int,
                filter@,
            ) {
                staged_upto(rv, d as int, idx as int, filter@).push(staged_row(
                    rv[d as int],
                    doc_delim(),
                ))
            } else {
                staged_upto(rv, d as int, idx as int, filter@)
            });
            if took {
                assert(staging.deep_view() =~~= staged_prefix_base + staged_upto(
                    rv,
                    d + 1,
                    idx as int,
                    filter@,
                ));
            }
        }
        d = d + 1;
    }
    let count = if rows.len() >= 1 {
        rows.len() - 1
    } else {
        0
    };
    proof {
        assert(found@ =~= matched_set_of(rv, idx as int, filter@));
        lemma_staged_upto_full(rv, idx as int, filter@);
        if write_header && rv.len() >= 1 {
            assert(staging.deep_view() =~~= staged_lines_of(rv, idx as int, filter@, write_header));
        } else {
            assert(staged_prefix_base =~~= Seq::<Seq<char>>::empty());
            assert(staging.deep_view() =~~= staged_lines_of(rv, idx as int, filter@, write_header));
        }
        let t = choose|t: int|
            #[trigger] table_lookup_at(tv, "chave44_digitos"@, t) && target@ == tv[t].1@;
        assert(tv[t].0@ == "chave44_digitos"@);
        assert(table_has(tv, "chave44_digitos"@));
        assert(col_index_at(header_of(rv), tv[t].1@, idx as int));
    }
    Ok(DocMatch { found, staging, count })
}

/// The staged lines of the matched rows before row `d`.
pub open spec fn staged_upto(
    rows: Seq<Seq<Seq<char>>>,
    d: int,
    idx: int,
    filter: Set<Seq<char>>,
) -> Seq<Seq<char>>
    decreases d,
{
    if d <= 1 {
        Seq::empty()
    } else if 1 <= d - 1 < rows.len() && row_match(rows, d - 1, idx, filter) {
        staged_upto(rows, d - 1, idx, filter).push(staged_row(rows[d - 1], doc_delim()))
    } else {
        staged_upto(rows, d - 1, idx, filter)
    }
}

proof fn lemma_staged_upto_eq(rows: Seq<Seq<Seq<char>>>, d: int, idx: int, filter: Set<Seq<char>>)
    requires
        1 <= d <= rows.len(),
    ensures
        staged_upto(rows, d, idx, filter) + staged_from(rows, d, idx, filter) == staged_upto(
            rows,
            rows.len() as int,
            idx,
            filter,
        ) + staged_from(rows, rows.len() as int, idx, filter),
    decreases rows.len() - d,
{
    if d < rows.len() {
        lemma_staged_upto_eq(rows, d + 1, idx, filter);
        if row_match(rows, d, idx, filter) {
            assert(staged_upto(rows, d + 1, idx, filter) == staged_upto(rows, d, idx, filter).push(
                staged_row(rows[d], doc_delim()),
            ));
            assert(staged_upto(rows, d, idx, filter) + staged_from(rows, d, idx, filter)
                =~~= staged_upto(rows, d + 1, idx, filter) + staged_from(rows, d + 1, idx, filter));
        } else {
            assert(staged_upto(rows, d, idx, filter) + staged_from(rows, d, idx, filter)
                =~~= staged_upto(rows, d + 1, idx, filter) + staged_from(rows, d + 1, idx, filter));
        }
    }
}

proof fn lemma_staged_upto_full(rows: Seq<Seq<Seq<char>>>, idx: int, filter: Set<Seq<char>>)
    ensures
        staged_upto(rows, if rows.len() >= 1 {
            rows.len() as int
        } else {
            1
        }, idx, filter) == staged_from(rows, 1, idx, filter),
{
    if rows.len() >= 1 {
        lemma_staged_upto_eq(rows, 1, idx, filter);
        assert(staged_from(rows, rows.len() as int, idx, filter) =~~= Seq::<Seq<char>>::empty());
        assert(staged_upto(rows, 1, idx, filter) =~~= Seq::<Seq<char>>::empty());
        assert(staged_upto(rows, 1, idx, filter) + staged_from(rows, 1, idx, filter) =~~= staged_from(
            rows,
            1,
            idx,
            filter,
        ));
        assert(staged_upto(rows, rows.len() as int, idx, filter) + staged_from(
            rows,
            rows.len() as int,
            idx,
            filter,
        ) =~~= staged_upto(rows, rows.len() as int, idx, filter));
    } else {
        assert(staged_upto(rows, 1, idx, filter) =~~= Seq::<Seq<char>>::empty());
        assert(staged_from(rows, 1, idx, filter) =~~= Seq::<Seq<char>>::empty());
    }
}

/// The shared read-only state of a matching run: no worker may change
/// the configuration or the ledger key set.
pub struct MatchCtx<'a> {
    pub config: &'a Config,
    pub filter: &'a KeySet,
    pub files: &'a Vec<DocFile>,
}

/// Match the file at position `i` of the run, reading its bytes as
/// semicolon-separated records; only the first file writes the header.
fn process_doc_at(ctx: &MatchCtx<'_>, i: &usize) -> (r: Result<DocMatch, SpedError>)
    requires
        ctx.config.wf(),
        ctx.filter.wf(),
        *i < ctx.files@.len(),
    ensures
        doc_post(
            r,
            ctx.files@[*i as int].path@,
            ctx.files@[*i as int].data@,
            ctx.config.colunas_doc@,
            ctx.filter@,
            *i == 0,
        ),
{
    let file = &ctx.files[*i];
    match parse_csv_records(&file.data, 59u8) {
        Ok(rows) => process_single_csv(
            &rows,
            ctx.config,
            file.path.as_str(),
            ctx.filter,
            *i == 0,
        ),
        Err(mensagem) => Err(SpedError::Csv { arquivo: file.path.clone(), mensagem }),
    }
}

/// The sum of the scanned-record counts over the per-file outcomes; a
/// failed file contributes nothing.
pub open spec fn counts_sum(results: Seq<Result<DocMatch, SpedError>>) -> int
    decreases results.len(),
{
    if results.len() == 0 {
        0
    } else {
        counts_sum(results.drop_last()) + (match results.last() {
            Ok(dm) => dm.count as int,
            Err(_) => 0,
        })
    }
}

/// The union of the found-key sets over the per-file outcomes.
pub open spec fn all_found(results: Seq<Result<DocMatch, SpedError>>) -> Set<Seq<char>> {
    Set::new(
        |k: Seq<char>|
            exists|i: int|
                0 <= i < results.len() && ((#[trigger] results[i]) matches Ok(dm)
                    && dm.found@.contains(k)),
    )
}

/// Match every fiscal-document file against the ledger key set, the
/// files on parallel workers and the outcomes merged by set union and a
/// running total, so the order of processing cannot change the result.
/// A failing file contributes an empty result and a zero count; its
/// error is kept for the caller to report.
#[verifier::loop_isolation(false)]
#[verifier::rlimit(60)]
pub fn read_csv_files(config: &Config, keys_efd: &KeySet, files: &Vec<DocFile>) -> (r: (
    KeySet,
    usize,
    Vec<Result<DocMatch, SpedError>>,
))
    requires
        config.wf(),
        keys_efd.wf(),
    ensures
        r.2@.len() == files@.len(),
        forall|i: int|
            0 <= i < files@.len() ==> doc_post(
                #[trigger] r.2@[i],
                files@[i].path@,
                files@[i].data@,
                config.colunas_doc@,
                keys_efd@,
                i == 0,
            ),
        r.0.wf(),
        r.0@ == all_found(r.2@),
        r.1 as int == counts_sum(r.2@) % (usize::MAX as int + 1),
{
    let n = files.len();
    let mut indices: Vec<usize> = Vec::new();
    let mut i: usize = 0;
    while i < n
        invariant
            0 <= i <= n,
            indices@.len() == i,
            forall|j: int| 0 <= j < i ==> indices@[j] == j,
        decreases n - i,
    {
        indices.push(i);
        i = i + 1;
    }
    let ctx = MatchCtx { config, filter: keys_efd, files };
    let results = par_map_ctx(&ctx, &indices, process_doc_at);
    proof {
        assert forall|i2: int| 0 <= i2 < files@.len() implies doc_post(
            #[trigger] results@[i2],
            files@[i2].path@,
            files@[i2].data@,
            config.colunas_doc@,
            keys_efd@,
            i2 == 0,
        ) by {
            assert(indices@[i2] == i2);
        }
    }
    let ghost m = usize::MAX as int + 1;
    let mut found = KeySet::new();
    let mut total: usize = 0;
    let mut j: usize = 0;
    while j < results.len()
        invariant
            found.wf(),
            0 <= j <= results@.len(),
            found@ == all_found(results@.subrange(0, j as int)),
            total as int == counts_sum(results@.subrange(0, j as int)) % m,
        decreases results@.len() - j,
    {
        let ghost pre = results@.subrange(0, j as int);
        let ghost cur = results@.subrange(0, j + 1);
        proof {
            assert(cur.drop_last() =~~= pre);
            assert(cur.last() == results@[j as int]);
        }
        let ghost found0 = found@;
        let ghost total0 = total as int;
        let ghost s0 = counts_sum(pre);
        match &results[j] {
            Ok(dm) => {
                found.extend_from(&dm.found);
                total = total.wrapping_add(dm.count);
                proof {
                    let c = dm.count as int;
                    vstd::arithmetic::div_mod::lemma_add_mod_noop(s0, c, m);
                    vstd::arithmetic::div_mod::lemma_small_mod(dm.count as nat, m as nat);
                    if total0 + c > usize::MAX as int {
                        vstd::arithmetic::div_mod::lemma_mod_multiples_vanish(
                            -1,
                            total0 + c,
                            m,
                        );
                        vstd::arithmetic::div_mod::lemma_small_mod(
                            (total0 + c - m) as nat,
                            m as nat,
                        );
                    } else {
                        vstd::arithmetic::div_mod::lemma_small_mod(
                            (total0 + c) as nat,
                            m as nat,
                        );
                    }
                    assert(total as int == counts_sum(cur) % m);
                }
            },
            Err(e) => {
                proof {
                    assert(counts_sum(cur) == counts_sum(pre));
                }
            },
        }
        proof {
            assert forall|k: Seq<char>| #[trigger] found@.contains(k) implies all_found(
                cur,
            ).contains(k) by {
                if found0.contains(k) {
                    let i2 = choose|i2: int|
                        0 <= i2 < pre.len() && ((#[trigger] pre[i2]) matches Ok(dm2)
                            && dm2.found@.contains(k));
                    assert(cur[i2] == pre[i2]);
                    assert(0 <= i2 < cur.len() && (cur[i2] matches Ok(dm2)
                        && dm2.found@.contains(k)));
                } else {
                    assert(0 <= j < cur.len() && (cur[j as int] matches Ok(dm2)
                        && dm2.found@.contains(k)));
                }
            }
            assert forall|k: Seq<char>| all_found(cur).contains(k) implies #[trigger]
                found@.contains(k) by {
                let i2 = choose|i2: int|
                    0 <= i2 < cur.len() && ((#[trigger] cur[i2]) matches Ok(dm2)
                        && dm2.found@.contains(k));
                if i2 < j {
                    assert(pre[i2] == cur[i2]);
                    assert(0 <= i2 < pre.len() && (pre[i2] matches Ok(dm2)
                        && dm2.found@.contains(k)));
                    assert(found0.contains(k));
                }
            }
            assert(found@ =~= all_found(cur));
        }
        j = j + 1;
    }
    proof {
        assert(results@.subrange(0, results@.len() as int) =~~= results@);
    }
    (found, total, results)
}

} // verus!

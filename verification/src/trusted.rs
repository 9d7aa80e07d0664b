use rayon::prelude::ParallelIterator;
use rayon::prelude::IntoParallelRefIterator;
use vstd::prelude::*;

verus! {

/// Relies on rayon's `par_iter`/`map`/`collect`: the function is applied
/// to every element, possibly on several worker threads at once, and the
/// results are collected in the order of the input.
#[verifier::external_body]
pub fn par_map<T: Sync, R: Send, F: Fn(&T) -> R + Sync>(items: &Vec<T>, f: F) -> (r: Vec<R>)
    requires
        forall|i: int| 0 <= i < items@.len() ==> f.requires((&items@[i],)),
    ensures
        r@.len() == items@.len(),
        forall|i: int| 0 <= i < r@.len() ==> f.ensures((&items@[i],), #[trigger] r@[i]),
{
    items.par_iter().map(|t| f(t)).collect()
}

/// Relies on rayon's `par_iter`/`map`/`collect`, as `par_map` does, with
/// a shared read-only context handed to every call.
#[verifier::external_body]
pub fn par_map_ctx<C: Sync + ?Sized, T: Sync, R: Send, F: Fn(&C, &T) -> R + Sync>(
    ctx: &C,
    items: &Vec<T>,
    f: F,
) -> (r: Vec<R>)
    requires
        forall|i: int| 0 <= i < items@.len() ==> f.requires((ctx, &items@[i])),
    ensures
        r@.len() == items@.len(),
        forall|i: int| 0 <= i < r@.len() ==> f.ensures((ctx, &items@[i]), #[trigger] r@[i]),
{
    items.par_iter().map(|t| f(ctx, t)).collect()
}

/// What reading `data` as delimiter-separated records yields: the rows,
/// fields trimmed of surrounding white space, or nothing where the bytes
/// cannot be decoded. A function of the bytes and the delimiter alone.
pub uninterp spec fn csv_parse_of(data: Seq<u8>, delim: u8) -> Option<Seq<Seq<Seq<char>>>>;

/// Relies on csv::ReaderBuilder and csv::Reader: reading in-memory bytes
/// as delimiter-separated records, every field trimmed, depends on the
/// bytes and the delimiter alone; it fails only on bytes the crate
/// cannot decode.
#[verifier::external_body]
pub fn parse_csv_records(data: &Vec<u8>, delim: u8) -> (r: Result<Vec<Vec<String>>, String>)
    ensures
        r matches Ok(rows) ==> csv_parse_of(data@, delim) == Some(rows.deep_view()),
        r is Err <==> csv_parse_of(data@, delim) is None,
{
    let mut rdr = csv::ReaderBuilder::new()
        .delimiter(delim)
        .has_headers(false)
        .flexible(true)
        .trim(csv::Trim::All)
        .from_reader(data.as_slice());
    let mut rows: Vec<Vec<String>> = Vec::new();
    for rec in rdr.records() {
        match rec {
            Ok(record) => rows.push(record.iter().map(|f| f.to_string()).collect()),
            Err(e) => return Err(e.to_string()),
        }
    }
    Ok(rows)
}

/// The lowercase hexadecimal BLAKE3 digest of a string's bytes: a
/// function of the characters alone.
pub uninterp spec fn blake3_hex_of(s: Seq<char>) -> Seq<char>;

/// Relies on blake3::hash and blake3::Hash::to_hex: the digest depends
/// on the hashed bytes alone, and the hex form spells each of the 32
/// digest bytes as two lowercase hex digits.
#[verifier::external_body]
pub fn blake3_hash_hex(s: &str) -> (r: String)
    ensures
        r@ == blake3_hex_of(s@),
{
    blake3::hash(s.as_bytes()).to_hex().as_str().to_owned()
}

/// Relies on `String`'s `FromIterator<char>`: collecting characters
/// yields the string of exactly those characters, in order.
#[verifier::external_body]
pub fn chars_to_string(cs: &Vec<char>) -> (r: String)
    ensures
        r@ == cs@,
{
    cs.iter().collect()
}

} // verus!

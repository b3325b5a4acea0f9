use std::io::Read;

use flate2::bufread::GzDecoder;
use vstd::prelude::*;

use crate::oui::{
    is_manuf_record, lemma_covers_range, manuf_long_name, manuf_prefix_text,
    manuf_short_name, octets_value, address_text_octets, prefix_mask, prefix_text_address,
    prefix_text_len, MacAddress, Oui, LOW48,
};

verus! {

/// What a record says: the first address and length of its block, its short and long names.
pub open spec fn record_view(o: Oui) -> (u64, u64, Seq<char>, Seq<char>) {
    (o.mac_prefix.base(), o.mac_prefix.len(), o.short_name@, o.long_name@)
}

/// What a database line that is a record says, in the shape of `record_view`.
pub open spec fn line_record(s: Seq<char>) -> (u64, u64, Seq<char>, Seq<char>) {
    let t = manuf_prefix_text(s);
    let l = prefix_text_len(t) as u64;
    (
        octets_value(address_text_octets(prefix_text_address(t))) & prefix_mask(l),
        l,
        manuf_short_name(s),
        manuf_long_name(s),
    )
}

/// The records of the lines that are records, in the order of the lines.
pub open spec fn records_of(lines: Seq<Seq<char>>) -> Seq<(u64, u64, Seq<char>, Seq<char>)>
    decreases lines.len(),
{
    if lines.len() == 0 {
        Seq::empty()
    } else if is_manuf_record(lines.last()) {
        records_of(lines.drop_last()).push(line_record(lines.last()))
    } else {
        records_of(lines.drop_last())
    }
}

/// The texts of a list of strings.
pub open spec fn texts(lines: Seq<String>) -> Seq<Seq<char>> {
    lines.map_values(|l: String| l@)
}

pub open spec fn views(db: Seq<Oui>) -> Seq<(u64, u64, Seq<char>, Seq<char>)> {
    db.map_values(|o: Oui| record_view(o))
}

/// The records whose blocks start at `k`, in their order.
pub open spec fn with_base(
    s: Seq<(u64, u64, Seq<char>, Seq<char>)>,
    k: u64,
) -> Seq<(u64, u64, Seq<char>, Seq<char>)> {
    s.filter(|v: (u64, u64, Seq<char>, Seq<char>)| v.0 == k)
}

/// The records stand in ascending order of the first addresses of their blocks.
pub open spec fn is_sorted_by_base(db: Seq<Oui>) -> bool {
    forall|i: int, j: int|
        0 <= i < j < db.len() ==> #[trigger] db[i].mac_prefix.base() <= #[trigger] db[j].mac_prefix.base()
}

/// Every block ends before any later one starts: no two blocks share an address.
pub open spec fn blocks_disjoint(db: Seq<Oui>) -> bool {
    forall|i: int, j: int|
        0 <= i < j < db.len() ==> #[trigger] db[i].mac_prefix.end() < #[trigger] db[j].mac_prefix.base()
}

/// Some record's block holds the address whose integer is `x`.
pub open spec fn some_covers(db: Seq<Oui>, x: u64) -> bool {
    exists|i: int| 0 <= i < db.len() && #[trigger] db[i].mac_prefix.covers(x)
}

/// A snapshot of the database with the tokens that tell whether it is still current.
pub struct Cache {
    pub last_modified: Option<String>,
    pub etag: Option<String>,
    pub db: Vec<Oui>,
}

/// Relies on `slice::sort_by_key`: the records come out in ascending order of the key, as a
/// permutation of what went in, and the sort is stable: records with equal keys keep their
/// order.
#[verifier::external_body]
fn sort_by_base(db: &mut Vec<Oui>)
    ensures
        views(final(db)@).to_multiset() == views(old(db)@).to_multiset(),
        is_sorted_by_base(final(db)@),
        forall|k: u64| #[trigger] with_base(views(final(db)@), k) == with_base(views(old(db)@), k),
{
    db.sort_by_key(|o| o.mac_prefix.base_value());
}

/// Builds the database from its lines: each line that is a record gives one, the others
/// none, and the records are sorted by the first addresses of their blocks; records whose
/// blocks start at the same address keep the order of their lines.
pub fn build_database(lines: &Vec<String>) -> (r: Vec<Oui>)
    ensures
        views(r@).to_multiset() == records_of(texts(lines@)).to_multiset(),
        is_sorted_by_base(r@),
        forall|k: u64| #[trigger] with_base(views(r@), k) == with_base(records_of(texts(lines@)), k),
{
    let mut db: Vec<Oui> = Vec::new();
    let mut i: usize = 0;
    while i < lines.len()
        invariant
            i <= lines.len(),
            views(db@) == records_of(texts(lines@).take(i as int)),
        decreases lines.len() - i,
    {
        let line = lines[i].as_str();
        proof {
            assert(texts(lines@).take(i + 1).drop_last() =~= texts(lines@).take(i as int));
        }
        match Oui::from_manuf(line) {
            Some(o) => {
                proof {
                    assert(record_view(o) == line_record(lines@[i as int]@));
                }
                db.push(o);
                proof {
                    assert(views(db@) =~= records_of(texts(lines@).take(i as int)).push(record_view(o)));
                }
            },
            None => {},
        }
        i = i + 1;
    }
    proof {
        assert(texts(lines@).take(lines.len() as int) =~= texts(lines@));
    }
    sort_by_base(&mut db);
    db
}

/// Whether the records stand in ascending order of the first addresses of their blocks.
pub fn check_sorted(db: &Vec<Oui>) -> (r: bool)
    ensures
        r == is_sorted_by_base(db@),
{
    let n = db.len();
    if n == 0 {
        return true;
    }
    let mut k: usize = 0;
    while k + 1 < n
        invariant
            n == db@.len(),
            n >= 1,
            k < n,
            forall|i: int, j: int|
                0 <= i < j <= k ==> #[trigger] db@[i].mac_prefix.base() <= #[trigger] db@[j].mac_prefix.base(),
        decreases n - k,
    {
        if db[k].mac_prefix.base_value() > db[k + 1].mac_prefix.base_value() {
            return false;
        }
        k = k + 1;
    }
    true
}

/// Whether no two blocks of a sorted database share an address. Only neighbours need to be
/// compared.
pub fn check_disjoint(db: &Vec<Oui>) -> (r: bool)
    requires
        is_sorted_by_base(db@),
    ensures
        r == blocks_disjoint(db@),
{
    let n = db.len();
    if n == 0 {
        return true;
    }
    let mut k: usize = 0;
    while k + 1 < n
        invariant
            n == db@.len(),
            n >= 1,
            k < n,
            is_sorted_by_base(db@),
            forall|i: int, j: int|
                0 <= i < j <= k ==> #[trigger] db@[i].mac_prefix.end() < #[trigger] db@[j].mac_prefix.base(),
        decreases n - k,
    {
        let end = db[k].mac_prefix.end_value();
        let next_base = db[k + 1].mac_prefix.base_value();
        if end >= next_base {
            return false;
        }
        proof {
            db@[k as int].mac_prefix.lemma_shape();
            lemma_covers_range(db@[k as int].mac_prefix, 0);
            assert forall|i: int, j: int|
                0 <= i < j <= k + 1 implies #[trigger] db@[i].mac_prefix.end()
                < #[trigger] db@[j].mac_prefix.base() by {
                if j == k + 1 && i < k {
                    assert(db@[i].mac_prefix.end() < db@[k as int].mac_prefix.base());
                }
            }
        }
        k = k + 1;
    }
    true
}

/// Finds the record whose block holds `mac` in a sorted database of disjoint blocks: `Ok` with
/// its index when there is one, else `Err` with the index where such a record would stand.
pub fn lookup(db: &Vec<Oui>, mac: MacAddress) -> (r: Result<usize, usize>)
    requires
        is_sorted_by_base(db@),
        blocks_disjoint(db@),
    ensures
        r is Ok <==> some_covers(db@, mac.value()),
        r matches Ok(i) ==> i < db@.len() && db@[i as int].mac_prefix.covers(mac.value()),
        r matches Err(k) ==> k <= db@.len() && (forall|i: int|
            0 <= i < k ==> #[trigger] db@[i].mac_prefix.base() < mac.value()) && (forall|i: int|
            k <= i < db@.len() ==> #[trigger] db@[i].mac_prefix.base() > mac.value()),
{
    let x = mac.to_u64();
    let mut lo: usize = 0;
    let mut hi: usize = db.len();
    while lo < hi
        invariant
            x == mac.value(),
            x <= LOW48,
            lo <= hi <= db@.len(),
            is_sorted_by_base(db@),
            blocks_disjoint(db@),
            forall|i: int|
                0 <= i < lo ==> #[trigger] db@[i].mac_prefix.base() < x && !db@[i].mac_prefix.covers(x),
            forall|i: int|
                hi <= i < db@.len() ==> #[trigger] db@[i].mac_prefix.base() > x
                    && !db@[i].mac_prefix.covers(x),
        decreases hi - lo,
    {
        let mid = lo + (hi - lo) / 2;
        let p = db[mid].mac_prefix;
        if p.matches(mac) {
            return Ok(mid);
        }
        let base = p.base_value();
        proof {
            lemma_covers_range(p, x);
        }
        if base < x {
            proof {
                assert forall|i: int| 0 <= i <= mid implies #[trigger] db@[i].mac_prefix.base() < x
                    && !db@[i].mac_prefix.covers(x) by {
                    lemma_covers_range(db@[i].mac_prefix, x);
                }
            }
            lo = mid + 1;
        } else {
            proof {
                assert forall|i: int| mid <= i < db@.len() implies #[trigger] db@[i].mac_prefix.base()
                    > x && !db@[i].mac_prefix.covers(x) by {
                    lemma_covers_range(db@[i].mac_prefix, x);
                }
            }
            hi = mid;
        }
    }
    proof {
        assert forall|i: int| 0 <= i < db@.len() implies !#[trigger] db@[i].mac_prefix.covers(x) by {}
    }
    Err(lo)
}

/// What a gzip stream decompresses to, or `None` where the bytes are not valid gzip data.
pub uninterp spec fn gunzip_of(b: Seq<u8>) -> Option<Seq<u8>>;

/// The text that bytes encode in UTF-8, or `None` where they are not valid UTF-8.
pub uninterp spec fn utf8_text(b: Seq<u8>) -> Option<Seq<char>>;

/// The lines of a text, without their `\n` or `\r\n` endings.
pub uninterp spec fn lines_of(s: Seq<char>) -> Seq<Seq<char>>;

/// Relies on flate2's `bufread::GzDecoder`, read to the end: the decompressed bytes, or an
/// error where the data is not gzip.
#[verifier::external_body]
fn gunzip(gz: &Vec<u8>) -> (r: Option<Vec<u8>>)
    ensures
        match r {
            Some(d) => gunzip_of(gz@) == Some(d@),
            None => gunzip_of(gz@) is None,
        },
{
    let mut data = Vec::with_capacity(gz.len() * 4);
    match GzDecoder::new(gz.as_slice()).read_to_end(&mut data) {
        Ok(_) => Some(data),
        Err(_) => None,
    }
}

/// Relies on `String::from_utf8`: the text when the bytes are valid UTF-8, else an error.
#[verifier::external_body]
fn decode_utf8(b: Vec<u8>) -> (r: Option<String>)
    ensures
        match r {
            Some(t) => utf8_text(b@) == Some(t@),
            None => utf8_text(b@) is None,
        },
{
    String::from_utf8(b).ok()
}

/// Relies on `str::lines`: the lines of the text, in order; an empty text has none.
#[verifier::external_body]
fn split_lines(s: &str) -> (r: Vec<String>)
    ensures
        texts(r@) == lines_of(s@),
        s@.len() == 0 ==> r@.len() == 0,
{
    s.lines().map(String::from).collect()
}

/// Why a downloaded database could not be read.
#[derive(Clone, Copy, PartialEq, Eq, Structural, Debug)]
pub enum DecodeError {
    /// The data is not gzip.
    Gzip,
    /// The decompressed data is not UTF-8 text.
    Utf8,
}

/// Unpacks a downloaded database: gunzips it, reads it as UTF-8 text and builds the database
/// from its lines.
pub fn decode_database(gz: &Vec<u8>) -> (r: Result<Vec<Oui>, DecodeError>)
    ensures
        r == Err::<Vec<Oui>, DecodeError>(DecodeError::Gzip) <==> gunzip_of(gz@) is None,
        r == Err::<Vec<Oui>, DecodeError>(DecodeError::Utf8) <==> (gunzip_of(gz@) is Some
            && utf8_text(gunzip_of(gz@).unwrap()) is None),
        r matches Ok(db) ==> {
            &&& gunzip_of(gz@) is Some
            &&& utf8_text(gunzip_of(gz@).unwrap()) is Some
            &&& {
                let lines = lines_of(utf8_text(gunzip_of(gz@).unwrap()).unwrap());
                &&& views(db@).to_multiset() == records_of(lines).to_multiset()
                &&& is_sorted_by_base(db@)
                &&& forall|k: u64| #[trigger] with_base(views(db@), k) == with_base(records_of(lines), k)
            }
        },
{
    let data = match gunzip(gz) {
        Some(d) => d,
        None => {
            return Err(DecodeError::Gzip);
        },
    };
    let text = match decode_utf8(data) {
        Some(t) => t,
        None => {
            return Err(DecodeError::Utf8);
        },
    };
    let lines = split_lines(text.as_str());
    Ok(build_database(&lines))
}

} // verus!

//! MAC vendor lookup from an offline IEEE OUI database in CSV form.
use vstd::prelude::*;
use vstd::utf8::{decode_utf8, encode_scalar, encode_utf8, is_char_boundary, pop_first_scalar};
use vstd::string::StringSliceAdditionalSpecFns;
use crate::text::{chars_of, is_ws, string_of, trim, trim_chars, trim_end, trim_start};

verus! {

/// Upper-case form of a text, as `str::to_uppercase` gives it (Unicode
/// case mapping; not a function of single characters alone).
pub uninterp spec fn upper_text(s: Seq<char>) -> Seq<char>;

/// Whether every character of a text is ASCII.
pub open spec fn is_ascii_text(s: Seq<char>) -> bool {
    forall|i: int| 0 <= i < s.len() ==> (#[trigger] s[i] as u32) < 128
}

/// The upper-case form of an ASCII character: 'a'..='z' become
/// 'A'..='Z', every other character stays.
pub open spec fn ascii_upper(c: char) -> char {
    if 97 <= (c as u32) <= 122 {
        ((c as u32) - 32) as char
    } else {
        c
    }
}

/// The lower-case form of an ASCII character: 'A'..='Z' become
/// 'a'..='z', every other character stays.
pub open spec fn ascii_lower(c: char) -> char {
    if 65 <= (c as u32) <= 90 {
        ((c as u32) + 32) as char
    } else {
        c
    }
}

/// `str::to_uppercase`. The contract names the result and, for a text of
/// ASCII characters only, gives it: each character's upper-case form,
/// which is what the Unicode upper-case mapping that the function
/// documents makes of an ASCII letter (and an ASCII non-letter has none).
#[verifier::external_body]
fn to_upper(s: &str) -> (r: String)
    ensures
        r@ == upper_text(s@),
        is_ascii_text(s@) ==> r@ == s@.map_values(|c: char| ascii_upper(c)),
{
    s.to_uppercase()
}

/// The records that the `csv` crate reads from a text with a header row
/// and records of varying length, each as its list of fields; records it
/// cannot read are left out.
pub uninterp spec fn csv_rows(text: Seq<char>) -> Seq<Seq<Seq<char>>>;

/// Reads the records of a CSV text with `csv::ReaderBuilder` (header row,
/// flexible record length), leaving out the records that fail to read.
/// The contract only names the result.
#[verifier::external_body]
fn read_csv_records(text: &str) -> (r: Vec<Vec<String>>)
    ensures
        r@.map_values(|rec: Vec<String>| rec@.map_values(|f: String| f@)) == csv_rows(text@),
{
    let mut rdr = csv::ReaderBuilder::new().has_headers(true).flexible(true).from_reader(
        text.as_bytes(),
    );
    let mut out: Vec<Vec<String>> = Vec::new();
    for result in rdr.records() {
        if let Ok(record) = result {
            out.push(record.iter().map(|f| f.to_string()).collect());
        }
    }
    out
}

/// The fields of records, as text.
pub open spec fn records_view(r: Seq<Vec<String>>) -> Seq<Seq<Seq<char>>> {
    r.map_values(|rec: Vec<String>| rec@.map_values(|f: String| f@))
}

/// Whether a character is not a separator of a MAC address (':' or '-').
pub open spec fn not_separator() -> spec_fn(char) -> bool {
    |c: char| c != ':' && c != '-'
}

/// `s` without ':' and '-'.
pub open spec fn strip_separators(s: Seq<char>) -> Seq<char> {
    s.filter(not_separator())
}

/// The OUI prefix read from a record's first field: trimmed, without
/// separators, upper-cased.
pub open spec fn record_prefix(field: Seq<char>) -> Seq<char> {
    upper_text(strip_separators(trim(field)))
}

/// Whether a record carries an entry: two fields or more, a prefix of six
/// bytes or more, and a vendor that is not empty after trimming.
pub open spec fn record_has_entry(r: Seq<Seq<char>>) -> bool {
    r.len() >= 2 && encode_utf8(record_prefix(r[0])).len() >= 6 && trim(r[1]).len() > 0
}

/// Whether cutting a record's prefix at byte 6 would split a character
/// (where slicing `prefix[..6]` panics).
pub open spec fn record_splits(r: Seq<Seq<char>>) -> bool {
    record_has_entry(r) && !is_char_boundary(encode_utf8(record_prefix(r[0])), 6)
}

/// The (prefix, vendor) entry a record gives: the first six bytes of its
/// prefix, and its trimmed vendor.
pub open spec fn record_entry(r: Seq<Seq<char>>) -> (Seq<char>, Seq<char>) {
    (decode_utf8(encode_utf8(record_prefix(r[0])).subrange(0, 6)), trim(r[1]))
}

/// The vendor table the records give; a later record with the same prefix
/// replaces an earlier one.
pub open spec fn oui_table(rs: Seq<Seq<Seq<char>>>) -> Map<Seq<char>, Seq<char>>
    decreases rs.len(),
{
    if rs.len() == 0 {
        Map::empty()
    } else {
        let m = oui_table(rs.drop_last());
        if record_has_entry(rs.last()) && !record_splits(rs.last()) {
            let e = record_entry(rs.last());
            m.insert(e.0, e.1)
        } else {
            m
        }
    }
}

/// Whether some record would split a character when cut to its prefix.
pub open spec fn some_record_splits(rs: Seq<Seq<Seq<char>>>) -> bool {
    exists|i: int| 0 <= i < rs.len() && record_splits(#[trigger] rs[i])
}

/// The OUI prefix of a first field made of ASCII characters: trimmed,
/// without separators, each character in its ASCII upper-case form.
pub open spec fn ascii_record_prefix(field: Seq<char>) -> Seq<char> {
    strip_separators(trim(field)).map_values(|c: char| ascii_upper(c))
}

/// Whether a record whose first field is ASCII carries an entry: two fields
/// or more, a prefix of six characters or more, and a vendor that is not
/// empty after trimming.
pub open spec fn ascii_record_has_entry(r: Seq<Seq<char>>) -> bool {
    r.len() >= 2 && ascii_record_prefix(r[0]).len() >= 6 && trim(r[1]).len() > 0
}

/// The vendor table of records whose first fields are ASCII: each record
/// with an entry maps the first six characters of its prefix to its trimmed
/// vendor; a later record with the same prefix replaces an earlier one.
pub open spec fn ascii_oui_table(rs: Seq<Seq<Seq<char>>>) -> Map<Seq<char>, Seq<char>>
    decreases rs.len(),
{
    if rs.len() == 0 {
        Map::empty()
    } else {
        let m = ascii_oui_table(rs.drop_last());
        let r = rs.last();
        if ascii_record_has_entry(r) {
            m.insert(ascii_record_prefix(r[0]).subrange(0, 6), trim(r[1]))
        } else {
            m
        }
    }
}

/// Whether the first field of every record is made of ASCII characters.
pub open spec fn first_fields_ascii(rs: Seq<Seq<Seq<char>>>) -> bool {
    forall|i: int| 0 <= i < rs.len() && rs[i].len() > 0 ==> is_ascii_text(#[trigger] rs[i][0])
}

/// The lookup key of a MAC address: its first six characters other than
/// ':' and '-', upper-cased.
pub open spec fn mac_key(mac: Seq<char>) -> Seq<char> {
    let s = strip_separators(mac);
    upper_text(if s.len() >= 6 { s.subrange(0, 6) } else { s })
}

/// The lookup key of an ASCII MAC address: its first six characters other
/// than ':' and '-', each in its ASCII upper-case form.
pub open spec fn ascii_mac_key(mac: Seq<char>) -> Seq<char> {
    let s = strip_separators(mac);
    (if s.len() >= 6 {
        s.subrange(0, 6)
    } else {
        s
    }).map_values(|c: char| ascii_upper(c))
}

/// The map a list of (key, value) pairs gives; later pairs win.
pub open spec fn pairs_map(s: Seq<(Seq<char>, Seq<char>)>) -> Map<Seq<char>, Seq<char>>
    decreases s.len(),
{
    if s.len() == 0 {
        Map::empty()
    } else {
        pairs_map(s.drop_last()).insert(s.last().0, s.last().1)
    }
}

/// MAC vendor lookup table.
pub struct OuiDb {
    entries: Vec<(String, String)>,
}

pub open spec fn pairs_view(v: Seq<(String, String)>) -> Seq<(Seq<char>, Seq<char>)> {
    v.map_values(|p: (String, String)| (p.0@, p.1@))
}

impl View for OuiDb {
    type V = Map<Seq<char>, Seq<char>>;

    closed spec fn view(&self) -> Map<Seq<char>, Seq<char>> {
        pairs_map(pairs_view(self.entries@))
    }
}

fn strip_separators_exec(s: &Vec<char>) -> (r: Vec<char>)
    ensures
        r@ == strip_separators(s@),
{
    let ghost pred = not_separator();
    let mut r: Vec<char> = Vec::new();
    let mut i: usize = 0;
    while i < s.len()
        invariant
            i <= s.len(),
            r@ == s@.take(i as int).filter(pred),
        decreases s.len() - i,
    {
        proof {
            reveal(Seq::filter);
            assert(s@.take(i + 1).drop_last() =~= s@.take(i as int));
        }
        let c = s[i];
        if c != ':' && c != '-' {
            r.push(c);
        }
        i = i + 1;
    }
    assert(s@.take(s.len() as int) =~= s@);
    r
}

proof fn lemma_pairs_map_last(s: Seq<(Seq<char>, Seq<char>)>, k: Seq<char>, i: int)
    requires
        0 <= i <= s.len(),
        forall|j: int| i <= j < s.len() ==> s[j].0 != k,
    ensures
        pairs_map(s).contains_key(k) == pairs_map(s.take(i)).contains_key(k),
        pairs_map(s).contains_key(k) ==> pairs_map(s)[k] == pairs_map(s.take(i))[k],
    decreases s.len() - i,
{
    if i < s.len() {
        lemma_pairs_map_last(s.drop_last(), k, i);
        assert(s.drop_last().take(i) =~= s.take(i));
    } else {
        assert(s.take(i) =~= s);
    }
}

/// The result of reading a CSV text: a table, or the finding that some
/// record's prefix cannot be cut at byte 6.
pub open spec fn load_outcome(rs: Seq<Seq<Seq<char>>>, r: Option<OuiDb>) -> bool {
    match r {
        Some(db) => !some_record_splits(rs) && db@ == oui_table(rs),
        None => some_record_splits(rs),
    }
}

fn record_to_entry(rec: &Vec<String>) -> (res: Result<Option<(String, String)>, ()>)
    ensures
        ({
            let r = rec@.map_values(|f: String| f@);
            match res {
                Err(()) => record_splits(r),
                Ok(Some(e)) => record_has_entry(r) && !record_splits(r) && (e.0@, e.1@)
                    == record_entry(r),
                Ok(None) => !record_has_entry(r),
            }
        }),
        rec@.len() < 2 ==> res == Ok::<Option<(String, String)>, ()>(None),
        ({
            let r = rec@.map_values(|f: String| f@);
            r.len() >= 2 && is_ascii_text(r[0]) ==> match res {
                Err(()) => false,
                Ok(Some(e)) => ascii_record_has_entry(r) && e.0@ == ascii_record_prefix(r[0]).subrange(
                    0,
                    6,
                ) && e.1@ == trim(r[1]),
                Ok(None) => !ascii_record_has_entry(r),
            }
        }),
{
    let ghost r = rec@.map_values(|f: String| f@);
    if rec.len() < 2 {
        return Ok(None);
    }
    assert(r[0] == rec@[0]@ && r[1] == rec@[1]@);
    let f0 = chars_of(rec[0].as_str());
    let t0 = trim_chars(&f0);
    let s0 = strip_separators_exec(&t0);
    let s0s = string_of(&s0);
    proof {
        if is_ascii_text(r[0]) {
            lemma_trim_keeps_ascii(r[0]);
            lemma_filter_keeps_ascii(trim(r[0]), not_separator());
        }
    }
    let prefix = to_upper(s0s.as_str());
    assert(prefix@ == record_prefix(r[0]));
    proof {
        if is_ascii_text(r[0]) {
            assert(prefix@ == ascii_record_prefix(r[0]));
            lemma_ascii_upper_keeps_ascii(strip_separators(trim(r[0])));
            lemma_ascii_utf8(prefix@, if prefix@.len() >= 6 { 6 } else { 0 });
        }
    }
    let f1 = chars_of(rec[1].as_str());
    let vendor = trim_chars(&f1);
    assert(vendor@ == trim(r[1]));
    let p = prefix.as_str();
    assert(p.spec_bytes() == encode_utf8(record_prefix(r[0])));
    let nbytes = p.as_bytes().len();
    if nbytes >= 6 && vendor.len() > 0 {
        if !p.is_char_boundary(6) {
            return Err(());
        }
        let (head, _tail) = p.split_at(6);
        proof {
            vstd::utf8::encode_utf8_decode_utf8(head@);
        }
        let key = String::from_str(head);
        let value = string_of(&vendor);
        assert(key@ == record_entry(r).0);
        proof {
            if is_ascii_text(r[0]) {
                vstd::utf8::encode_utf8_decode_utf8(prefix@.subrange(0, 6));
            }
        }
        assert(value@ == record_entry(r).1);
        assert(record_has_entry(r));
        assert(!record_splits(r));
        Ok(Some((key, value)))
    } else {
        assert(!record_has_entry(r));
        Ok(None)
    }
}

proof fn lemma_trim_start_keeps_ascii(s: Seq<char>)
    requires
        is_ascii_text(s),
    ensures
        is_ascii_text(trim_start(s)),
    decreases s.len(),
{
    if s.len() > 0 && is_ws(s[0]) {
        let t = s.drop_first();
        assert forall|i: int| 0 <= i < t.len() implies (#[trigger] t[i] as u32) < 128 by {
            assert(t[i] == s[i + 1]);
        }
        lemma_trim_start_keeps_ascii(t);
    }
}

proof fn lemma_trim_end_keeps_ascii(s: Seq<char>)
    requires
        is_ascii_text(s),
    ensures
        is_ascii_text(trim_end(s)),
    decreases s.len(),
{
    if s.len() > 0 && is_ws(s.last()) {
        let t = s.drop_last();
        assert forall|i: int| 0 <= i < t.len() implies (#[trigger] t[i] as u32) < 128 by {
            assert(t[i] == s[i]);
        }
        lemma_trim_end_keeps_ascii(t);
    }
}

proof fn lemma_trim_keeps_ascii(s: Seq<char>)
    requires
        is_ascii_text(s),
    ensures
        is_ascii_text(trim(s)),
{
    lemma_trim_start_keeps_ascii(s);
    lemma_trim_end_keeps_ascii(trim_start(s));
}

proof fn lemma_ascii_upper_keeps_ascii(s: Seq<char>)
    requires
        is_ascii_text(s),
    ensures
        is_ascii_text(s.map_values(|c: char| ascii_upper(c))),
{
    let t = s.map_values(|c: char| ascii_upper(c));
    assert forall|i: int| 0 <= i < t.len() implies (#[trigger] t[i] as u32) < 128 by {
        let n = s[i] as u32;
        assert(n < 128);
        if 97 <= n <= 122 {
            assert(((n - 32) as char) as u32 == n - 32);
        }
    }
}

/// An ASCII text is encoded one byte per character, so every index is a
/// character boundary and a prefix of the bytes encodes the prefix of the
/// text.
proof fn lemma_ascii_utf8(s: Seq<char>, k: int)
    requires
        is_ascii_text(s),
        0 <= k <= s.len(),
    ensures
        encode_utf8(s).len() == s.len(),
        is_char_boundary(encode_utf8(s), k),
        encode_utf8(s).subrange(0, k) == encode_utf8(s.subrange(0, k)),
    decreases s.len(),
{
    broadcast use vstd::utf8::encode_utf8_valid_utf8;

    if s.len() == 0 {
        assert(s.subrange(0, k) =~= s);
        assert(encode_utf8(s).subrange(0, k) =~= encode_utf8(s));
    } else {
        let t = s.drop_first();
        assert forall|i: int| 0 <= i < t.len() implies (#[trigger] t[i] as u32) < 128 by {
            assert(t[i] == s[i + 1]);
        }
        let bytes = encode_utf8(s);
        vstd::utf8::encode_utf8_first_scalar(s);
        assert((s[0] as u32) < 128);
        assert(encode_scalar(s[0] as u32).len() == 1);
        assert(pop_first_scalar(bytes) =~= encode_utf8(t));
        if k > 0 {
            lemma_ascii_utf8(t, k - 1);
            let sk = s.subrange(0, k);
            assert(sk[0] == s[0]);
            assert(sk.drop_first() =~= t.subrange(0, k - 1));
            assert(encode_utf8(sk) == encode_scalar(s[0] as u32) + encode_utf8(t.subrange(0, k - 1)));
            assert(bytes =~= encode_scalar(s[0] as u32) + encode_utf8(t));
            assert(bytes.subrange(0, k) =~= encode_scalar(s[0] as u32) + encode_utf8(t).subrange(
                0,
                k - 1,
            ));
        } else {
            lemma_ascii_utf8(t, 0);
            assert(s.subrange(0, 0) =~= Seq::<char>::empty());
            assert(bytes.subrange(0, 0) =~= Seq::<u8>::empty());
        }
    }
}

impl OuiDb {
    /// A table without entries: every lookup finds nothing.
    pub fn empty() -> (db: OuiDb)
        ensures
            db@ == Map::<Seq<char>, Seq<char>>::empty(),
    {
        let db = OuiDb { entries: Vec::new() };
        assert(pairs_view(db.entries@) =~= Seq::empty());
        db
    }

    /// Builds the table from CSV records: the first field is the MAC prefix
    /// (separators ':' and '-' removed, upper-cased, first six bytes kept),
    /// the second the vendor (trimmed). Records with fewer than two fields,
    /// a shorter prefix or an empty vendor are skipped; a later record
    /// replaces an earlier one with the same prefix. `None` when a prefix
    /// cannot be cut at byte 6 without splitting a character. When every
    /// first field is ASCII, the table is always built and is
    /// `ascii_oui_table`: each prefix keyed by its ASCII upper-case.
    pub fn from_records(records: &Vec<Vec<String>>) -> (r: Option<OuiDb>)
        ensures
            load_outcome(records_view(records@), r),
            first_fields_ascii(records_view(records@)) ==> (r matches Some(db) && db@
                == ascii_oui_table(records_view(records@))),
    {
        let ghost rs = records_view(records@);
        let mut entries: Vec<(String, String)> = Vec::new();
        let mut i: usize = 0;
        while i < records.len()
            invariant
                i <= records.len(),
                rs == records_view(records@),
                pairs_map(pairs_view(entries@)) == oui_table(rs.take(i as int)),
                first_fields_ascii(rs) ==> pairs_map(pairs_view(entries@)) == ascii_oui_table(
                    rs.take(i as int),
                ),
                forall|j: int| 0 <= j < i ==> !record_splits(#[trigger] rs[j]),
            decreases records.len() - i,
        {
            let ghost r = rs[i as int];
            assert(rs.take(i + 1).drop_last() =~= rs.take(i as int));
            assert(rs.take(i + 1).last() == r);
            assert(r == records@[i as int]@.map_values(|f: String| f@));
            proof {
                if first_fields_ascii(rs) && r.len() > 0 {
                    assert(is_ascii_text(rs[i as int][0]));
                }
            }
            match record_to_entry(&records[i]) {
                Err(()) => {
                    return None;
                },
                Ok(Some(e)) => {
                    let ghost before = pairs_view(entries@);
                    let ghost ev = (e.0@, e.1@);
                    entries.push(e);
                    assert(pairs_view(entries@) =~= before.push(ev));
                    assert(pairs_view(entries@).drop_last() =~= before);
                },
                Ok(None) => {},
            }
            i = i + 1;
        }
        assert(rs.take(records.len() as int) =~= rs);
        Some(OuiDb { entries })
    }

    /// Builds the table from the contents of an OUI CSV file (header row,
    /// then records of prefix and vendor); see [`OuiDb::from_records`].
    pub fn load(contents: &str) -> (r: Option<OuiDb>)
        ensures
            load_outcome(csv_rows(contents@), r),
            first_fields_ascii(csv_rows(contents@)) ==> (r matches Some(db) && db@ == ascii_oui_table(
                csv_rows(contents@),
            )),
    {
        let records = read_csv_records(contents);
        OuiDb::from_records(&records)
    }

    /// The vendor of a MAC address ("AA:BB:CC:DD:EE:FF"), looked up by its
    /// first six characters other than separators, upper-cased; for an
    /// ASCII address, that key is `ascii_mac_key`.
    pub fn lookup(&self, mac: &str) -> (r: Option<String>)
        ensures
            match r {
                Some(v) => self@.contains_key(mac_key(mac@)) && v@ == self@[mac_key(mac@)],
                None => !self@.contains_key(mac_key(mac@)),
            },
            is_ascii_text(mac@) ==> match r {
                Some(v) => self@.contains_key(ascii_mac_key(mac@)) && v@ == self@[ascii_mac_key(
                    mac@,
                )],
                None => !self@.contains_key(ascii_mac_key(mac@)),
            },
    {
        let ghost m = pairs_view(self.entries@);
        if self.entries.len() == 0 {
            assert(m =~= Seq::empty());
            return None;
        }
        let cs = chars_of(mac);
        let stripped = strip_separators_exec(&cs);
        let mut six: Vec<char> = Vec::new();
        let mut i: usize = 0;
        while i < stripped.len() && i < 6
            invariant
                i <= stripped.len(),
                i <= 6,
                six@ == stripped@.subrange(0, i as int),
            decreases stripped.len() - i,
        {
            six.push(stripped[i]);
            i = i + 1;
        }
        assert(six@ =~= (if stripped@.len() >= 6 {
            stripped@.subrange(0, 6)
        } else {
            stripped@
        }));
        let six_s = string_of(&six);
        proof {
            if is_ascii_text(mac@) {
                lemma_filter_keeps_ascii(mac@, not_separator());
                assert(is_ascii_text(six@));
            }
        }
        let key = to_upper(six_s.as_str());
        assert(key@ == mac_key(mac@));
        assert(is_ascii_text(mac@) ==> key@ == ascii_mac_key(mac@));
        let mut j: usize = self.entries.len();
        while j > 0
            invariant
                j <= self.entries.len(),
                m == pairs_view(self.entries@),
                forall|t: int| j <= t < m.len() ==> m[t].0 != key@,
            decreases j,
        {
            let e = &self.entries[j - 1];
            if e.0 == key {
                proof {
                    assert(m[j - 1].0 == key@);
                    lemma_pairs_map_last(m, key@, j as int);
                    assert(m.take(j as int).drop_last() =~= m.take(j - 1));
                    assert(m.take(j as int).last() == m[j - 1]);
                }
                return Some(e.1.clone());
            }
            j = j - 1;
        }
        proof {
            lemma_pairs_map_last(m, key@, 0);
            assert(m.take(0) =~= Seq::empty());
        }
        None
    }
}

proof fn lemma_filter_keeps_ascii(s: Seq<char>, p: spec_fn(char) -> bool)
    requires
        is_ascii_text(s),
    ensures
        is_ascii_text(s.filter(p)),
    decreases s.len(),
{
    if s.len() == 0 {
        assert(s.filter(p) =~= s) by {
            reveal(Seq::filter);
        }
    } else {
        let t = s.drop_last();
        let x = s.last();
        assert(s =~= t.push(x));
        assert(is_ascii_text(t)) by {
            assert forall|i: int| 0 <= i < t.len() implies (#[trigger] t[i] as u32) < 128 by {
                assert(t[i] == s[i]);
            }
        }
        lemma_filter_keeps_ascii(t, p);
        t.lemma_filter_push(x, p);
        assert((s[s.len() - 1] as u32) < 128);
    }
}

/// Mapping and then filtering is filtering and then mapping, where the map
/// keeps what the filter keeps.
proof fn lemma_map_filter_commute(s: Seq<char>, f: spec_fn(char) -> char, p: spec_fn(char) -> bool)
    requires
        forall|c: char| #[trigger] p(f(c)) == p(c),
    ensures
        s.map_values(f).filter(p) == s.filter(p).map_values(f),
    decreases s.len(),
{
    if s.len() == 0 {
        assert(s.map_values(f).filter(p) =~= Seq::<char>::empty()) by {
            reveal(Seq::filter);
        }
        assert(s.filter(p) =~= Seq::<char>::empty()) by {
            reveal(Seq::filter);
        }
        assert(s.filter(p).map_values(f) =~= Seq::<char>::empty());
    } else {
        let t = s.drop_last();
        let x = s.last();
        assert(s =~= t.push(x));
        lemma_map_filter_commute(t, f, p);
        assert(s.map_values(f) =~= t.map_values(f).push(f(x)));
        t.map_values(f).lemma_filter_push(f(x), p);
        t.lemma_filter_push(x, p);
        if p(x) {
            assert(t.filter(p).push(x).map_values(f) =~= t.filter(p).map_values(f).push(f(x)));
        }
    }
}

/// `':'` written as `'-'`.
pub open spec fn colon_to_dash(c: char) -> char {
    if c == ':' {
        '-'
    } else {
        c
    }
}

/// A MAC written in lower case, or with '-' in place of ':', looks up the
/// same vendor: the lookup key of an ASCII MAC address ignores the case of
/// its letters and which separators it uses.
pub proof fn law_mac_key_ignores_case_and_separators(mac: Seq<char>)
    requires
        is_ascii_text(mac),
    ensures
        is_ascii_text(mac.map_values(|c: char| ascii_lower(c))),
        ascii_mac_key(mac.map_values(|c: char| ascii_lower(c))) == ascii_mac_key(mac),
        is_ascii_text(mac.map_values(|c: char| colon_to_dash(c))),
        ascii_mac_key(mac.map_values(|c: char| colon_to_dash(c))) == ascii_mac_key(mac),
{
    let low = |c: char| ascii_lower(c);
    let dash = |c: char| colon_to_dash(c);
    let up = |c: char| ascii_upper(c);
    let p = not_separator();
    assert forall|i: int| 0 <= i < mac.map_values(low).len() implies (#[trigger] mac.map_values(
        low,
    )[i] as u32) < 128 by {
        assert(mac[i] as u32 <= 127);
    }
    assert forall|i: int| 0 <= i < mac.map_values(dash).len() implies (#[trigger] mac.map_values(
        dash,
    )[i] as u32) < 128 by {
        assert(mac[i] as u32 <= 127);
    }
    // case
    assert forall|c: char| #[trigger] p(low(c)) == p(c) by {}
    lemma_map_filter_commute(mac, low, p);
    let s = strip_separators(mac);
    let s6 = if s.len() >= 6 {
        s.subrange(0, 6)
    } else {
        s
    };
    let l6 = if s.map_values(low).len() >= 6 {
        s.map_values(low).subrange(0, 6)
    } else {
        s.map_values(low)
    };
    assert(l6 =~= s6.map_values(low));
    assert(l6.map_values(up) =~= s6.map_values(up)) by {
        assert forall|i: int| 0 <= i < s6.len() implies #[trigger] up(low(s6[i])) == up(s6[i]) by {
            let c = s6[i];
            let n = c as u32;
            if 65 <= n <= 90 {
                assert(((n + 32) as char) as u32 == n + 32);
                assert(((n as char) as u32) == n);
            }
        }
    }
    // separators
    assert forall|c: char| #[trigger] p(dash(c)) == p(c) by {}
    lemma_map_filter_commute(mac, dash, p);
    assert(s.map_values(dash) =~= s) by {
        assert forall|i: int| 0 <= i < s.len() implies #[trigger] dash(s[i]) == s[i] by {
            mac.lemma_filter_pred(p, i);
        }
    }
}

} // verus!

//! Gzipped tar archives: what they list, and whether they can be followed to
//! their end.
use crate::bytes;
use crate::proto;
use crate::text;
use vstd::prelude::*;

verus! {

/// An entry of an archive.
pub struct ArchiveEntry {
    pub path: String,
    pub size: u64,
    pub directory: bool,
}

/// What an entry says: its path, its size, and whether it is a directory.
pub open spec fn entry_model(e: ArchiveEntry) -> (Seq<char>, u64, bool) {
    (e.path@, e.size, e.directory)
}

/// What the entries say.
pub open spec fn entry_models(v: Seq<ArchiveEntry>) -> Seq<(Seq<char>, u64, bool)> {
    v.map_values(|e: ArchiveEntry| entry_model(e))
}

/// How many bytes of an archive are decoded at a time.
pub const CHUNK: usize = 65536;

/// What a gzip decoder hands out of bytes when it is read so many bytes at a
/// time, up to its end or its first error, and the message of that error.
pub uninterp spec fn gunzip_of(gz: Seq<u8>, step: nat) -> (Seq<u8>, Option<Seq<char>>);

/// The gzipped bytes hold these bytes, without any damage.
pub open spec fn expands_to(gz: Seq<u8>, bytes: Seq<u8>) -> bool {
    gunzip_of(gz, CHUNK as nat) == (bytes, None::<Seq<char>>)
}

/// `flate2::read::GzDecoder`, read `step` bytes at a time: the bytes it hands
/// out up to its end or its first error, and the message of that error. They
/// are a function of the bytes and the step; how much is handed out before an
/// error depends on the step.
#[verifier::external_body]
pub(crate) fn gunzip(gz: &[u8], step: usize) -> (r: (Vec<u8>, Option<String>))
    requires
        0 < step <= CHUNK,
    ensures
        (r.0@, text::opt_text(r.1)) == gunzip_of(gz@, step as nat),
{
    let mut decoder = flate2::read::GzDecoder::new(gz);
    let mut chunk = vec![0u8; step];
    let mut out = Vec::new();
    loop {
        match std::io::Read::read(&mut decoder, &mut chunk) {
            Ok(0) => return (out, None),
            Ok(n) => out.extend_from_slice(&chunk[..n]),
            Err(e) => return (out, Some(e.to_string())),
        }
    }
}

/// What can be had of the bytes, and the message about damage in them. An
/// error keeps back more or less of what stands before it, as the decoder is
/// read in large or in small steps: the longer of the two counts.
pub open spec fn delivered(gz: Seq<u8>) -> (Seq<u8>, Option<Seq<char>>) {
    let whole = gunzip_of(gz, CHUNK as nat);
    let single = gunzip_of(gz, 1);
    if whole.1 is None || single.0.len() <= whole.0.len() {
        whole
    } else {
        single
    }
}

/// Decodes what can be had of the bytes.
pub fn decode(gz: &[u8]) -> (r: (Vec<u8>, Option<String>))
    ensures
        (r.0@, text::opt_text(r.1)) == delivered(gz@),
{
    let whole = gunzip(gz, CHUNK);
    if whole.1.is_none() {
        return whole;
    }
    let single = gunzip(gz, 1);
    if single.0.len() <= whole.0.len() {
        whole
    } else {
        single
    }
}

/// Bytes in a block of an archive.
pub const BLOCK: usize = 512;

/// Kinds of headers: a long name and a long link for the next entry, records
/// for the next entry, records for all entries, and a sparse file.
pub const LONG_NAME: u8 = 76;

pub const LONG_LINK: u8 = 75;

pub const RECORDS: u8 = 120;

pub const GLOBAL_RECORDS: u8 = 103;

pub const SPARSE: u8 = 83;

/// A sparse file of this size or more is beyond what can be followed: its end
/// and its map together may leave 64 bits. No archive holds so much, so none
/// that can be read to its end has one.
pub const SIZE_LIMIT: u64 = 0x8000_0000_0000_0000;

/// The mark of a GNU header: "ustar", two blanks and a NUL.
pub open spec fn gnu_mark() -> Seq<u8> {
    seq![117u8, 115u8, 116u8, 97u8, 114u8, 32u8, 32u8, 0u8]
}

/// The mark of a POSIX header: "ustar", a NUL and two zeros.
pub open spec fn ustar_mark() -> Seq<u8> {
    seq![117u8, 115u8, 116u8, 97u8, 114u8, 0u8, 48u8, 48u8]
}

pub open spec fn mark_of(b: Seq<u8>) -> Seq<u8> {
    b.subrange(257, 265)
}

/// A block of zeros ends an archive.
pub open spec fn is_blank(b: Seq<u8>) -> bool {
    forall|i: int| 0 <= i < b.len() ==> #[trigger] b[i] == 0
}

/// The header tells something of the entries that follow it.
pub open spec fn is_extension(b: Seq<u8>) -> bool {
    b[156] == LONG_NAME || b[156] == LONG_LINK || b[156] == RECORDS || b[156] == GLOBAL_RECORDS
}

/// The header has a mark by which extensions are recognized.
pub open spec fn is_marked(b: Seq<u8>) -> bool {
    mark_of(b) == gnu_mark() || mark_of(b) == ustar_mark()
}

/// The map of a sparse file goes on in the blocks behind its header.
pub open spec fn has_map(b: Seq<u8>) -> bool {
    b[156] == SPARSE && mark_of(b) == gnu_mark() && b[482] == 1
}

/// The size that a header gives its entry, where it can be read.
pub uninterp spec fn header_size_of(block: Seq<u8>) -> Option<u64>;

/// `tar::Header::entry_size`: the size in the header, nothing where the field
/// cannot be read. It is a function of the block.
#[verifier::external_body]
pub(crate) fn header_size(block: &[u8]) -> (r: Option<u64>)
    requires
        block@.len() == BLOCK,
    ensures
        r == header_size_of(block@),
{
    tar::Header::from_byte_slice(block).entry_size().ok()
}

/// A record of an extended header.
pub struct PaxRecord {
    pub key: Vec<u8>,
    pub value: Vec<u8>,
}

/// What the records say: the key and the value of each.
pub open spec fn record_models(v: Seq<PaxRecord>) -> Seq<(Seq<u8>, Seq<u8>)> {
    v.map_values(|p: PaxRecord| (p.key@, p.value@))
}

/// The records of an extended header up to the first that is malformed.
pub uninterp spec fn pax_records_of(data: Seq<u8>) -> Seq<(Seq<u8>, Seq<u8>)>;

/// `tar::PaxExtensions`: the keys and values in order, up to the first record
/// that is malformed. They are a function of the bytes.
#[verifier::external_body]
pub(crate) fn pax_records(data: &[u8]) -> (r: Vec<PaxRecord>)
    ensures
        record_models(r@) == pax_records_of(data@),
{
    let mut out = Vec::new();
    for record in tar::PaxExtensions::new(data) {
        match record {
            Ok(p) => out.push(
                PaxRecord { key: p.key_bytes().to_vec(), value: p.value_bytes().to_vec() },
            ),
            Err(_) => return out,
        }
    }
    out
}

/// The size among the records: that of the first record with this key, where
/// it is a number of 64 bits.
pub open spec fn recorded_size(records: Seq<(Seq<u8>, Seq<u8>)>) -> Option<nat>
    decreases records.len(),
{
    if records.len() == 0 {
        None
    } else if records[0].0 == proto::wire("size"@) {
        if vstd::utf8::valid_utf8(records[0].1) {
            text::unsigned_value(vstd::utf8::decode_utf8(records[0].1), u64::MAX as nat)
        } else {
            None
        }
    } else {
        recorded_size(records.skip(1))
    }
}

/// The size among the records.
pub fn size_in(records: &[PaxRecord]) -> (r: Option<u64>)
    ensures
        match r {
            Some(n) => recorded_size(record_models(records@)) == Some(n as nat),
            None => recorded_size(record_models(records@)) is None,
        },
{
    let ghost all = record_models(records@);
    let mut i: usize = 0;
    assert(all.skip(0) =~= all);
    while i < records.len()
        invariant
            i <= records@.len(),
            all == record_models(records@),
            recorded_size(all) == recorded_size(all.skip(i as int)),
        decreases records@.len() - i,
    {
        assert(all.skip(i as int)[0] == (records@[i as int].key@, records@[i as int].value@));
        if bytes::same_bytes(&records[i].key, "size".as_bytes()) {
            return match text::utf8_text(&records[i].value) {
                Some(s) => text::parse_unsigned(s.as_str(), u64::MAX),
                None => None,
            };
        }
        assert(all.skip(i as int).skip(1) =~= all.skip(i as int + 1));
        i = i + 1;
    }
    assert(all.skip(i as int).len() == 0);
    None
}

/// The size of an entry: that of its header, unless records before it give
/// another. Records do not speak of extensions.
pub open spec fn entry_size(b: Seq<u8>, own: nat, pax: Option<Seq<u8>>) -> nat {
    if is_extension(b) || pax is None {
        own
    } else {
        match recorded_size(pax_records_of(pax->0)) {
            Some(n) => n,
            None => own,
        }
    }
}

/// Whole blocks.
pub open spec fn rounded(n: nat) -> nat {
    n + (512 - n % 512) as nat % 512
}

/// Where the map of a sparse file ends: behind the first block that does not
/// say that another follows.
pub open spec fn map_end(tar: Seq<u8>, at: int) -> int
    decreases tar.len() - at,
{
    if at < 0 || at + 512 > tar.len() {
        at
    } else if tar[at + 504] == 1 {
        map_end(tar, at + 512)
    } else {
        at + 512
    }
}

/// A map ends within the bytes.
pub proof fn lemma_map_end(tar: Seq<u8>, at: int)
    requires
        0 <= at <= tar.len(),
    ensures
        at <= map_end(tar, at) <= tar.len(),
    decreases tar.len() - at,
{
    if at + 512 <= tar.len() && tar[at + 504] == 1 {
        lemma_map_end(tar, at + 512);
    }
}

/// How following the headers of an archive comes to an end.
#[derive(Clone, Copy, PartialEq, Eq, Structural)]
pub enum Walk {
    /// At a block that ends the archive, or a header without a size.
    Ends,
    /// Where the bytes end.
    RunsOut,
    /// At a sparse file whose map moves the next header out of 64 bits.
    Overflows,
}

/// Follows the headers from this place on, with the records that the next
/// entry has. An entry takes its header, its map and its size in whole blocks.
pub open spec fn walk_from(tar: Seq<u8>, at: int, pax: Option<Seq<u8>>) -> Walk
    decreases tar.len() - at,
{
    if at < 0 || at + 512 > tar.len() {
        Walk::RunsOut
    } else {
        let b = tar.subrange(at, at + 512);
        match header_size_of(b) {
            Some(own) if !is_blank(b) => {
                let size = entry_size(b, own as nat, pax);
                let data = if has_map(b) {
                    map_end(tar, at + 512)
                } else {
                    at + 512
                };
                let next = data + rounded(size);
                proof {
                    lemma_map_end(tar, at + 512);
                }
                if has_map(b) && size >= SIZE_LIMIT {
                    Walk::Overflows
                } else if next > tar.len() {
                    Walk::RunsOut
                } else if is_marked(b) && b[156] == RECORDS {
                    walk_from(tar, next, Some(tar.subrange(data, data + size)))
                } else if is_marked(b) && (b[156] == LONG_NAME || b[156] == LONG_LINK) {
                    walk_from(tar, next, pax)
                } else {
                    walk_from(tar, next, None)
                }
            },
            _ => Walk::Ends,
        }
    }
}

/// How following the headers of the archive comes to an end.
pub open spec fn walk_of(tar: Seq<u8>) -> Walk {
    walk_from(tar, 0, None)
}

fn end_of_map(tar: &[u8], from: usize) -> (r: usize)
    requires
        from <= tar@.len(),
    ensures
        r == map_end(tar@, from as int),
        from <= r <= tar@.len(),
{
    let mut at: usize = from;
    while tar.len() - at >= BLOCK
        invariant
            from <= at <= tar@.len(),
            map_end(tar@, from as int) == map_end(tar@, at as int),
        decreases tar@.len() - at,
    {
        if tar[at + 504] != 1 {
            return at + BLOCK;
        }
        at = at + BLOCK;
    }
    at
}

fn blank(b: &[u8]) -> (r: bool)
    ensures
        r == is_blank(b@),
{
    for i in 0..b.len()
        invariant
            forall|k: int| 0 <= k < i ==> #[trigger] b@[k] == 0,
    {
        if b[i] != 0 {
            return false;
        }
    }
    true
}

/// The marks of a header: whether it is a GNU header, and whether it is a
/// POSIX header.
fn marks(b: &[u8]) -> (r: (bool, bool))
    requires
        b@.len() == BLOCK,
    ensures
        r.0 == (mark_of(b@) == gnu_mark()),
        r.1 == (mark_of(b@) == ustar_mark()),
{
    let mark = bytes::slice_of(b, 257, 265);
    let gnu = vec![117u8, 115u8, 116u8, 97u8, 114u8, 32u8, 32u8, 0u8];
    let ustar = vec![117u8, 115u8, 116u8, 97u8, 114u8, 0u8, 48u8, 48u8];
    assert(gnu@ =~= gnu_mark());
    assert(ustar@ =~= ustar_mark());
    (bytes::same_bytes(&mark, &gnu), bytes::same_bytes(&mark, &ustar))
}

/// The contents of an optional byte string.
pub open spec fn opt_bytes(o: Option<Vec<u8>>) -> Option<Seq<u8>> {
    match o {
        Some(b) => Some(b@),
        None => None,
    }
}

fn size_of_entry(b: &[u8], own: u64, pax: &Option<Vec<u8>>) -> (r: u64)
    requires
        b@.len() == BLOCK,
    ensures
        r == entry_size(b@, own as nat, opt_bytes(*pax)),
{
    let kind = b[156];
    if kind == LONG_NAME || kind == LONG_LINK || kind == RECORDS || kind == GLOBAL_RECORDS {
        return own;
    }
    match pax {
        Some(data) => {
            let records = pax_records(data);
            match size_in(&records) {
                Some(n) => n,
                None => own,
            }
        },
        None => own,
    }
}

/// How following the headers of the archive comes to an end.
pub fn walk(tar: &[u8]) -> (r: Walk)
    ensures
        r == walk_of(tar@),
{
    let n = tar.len();
    let mut at: usize = 0;
    let mut pax: Option<Vec<u8>> = None;
    while n - at >= BLOCK
        invariant
            n == tar@.len(),
            at <= n,
            walk_from(tar@, at as int, opt_bytes(pax)) == walk_of(tar@),
        decreases n - at,
    {
        let b = bytes::slice_of(tar, at, at + BLOCK);
        assert(b@ =~= tar@.subrange(at as int, at + 512));
        let own = match header_size(&b) {
            Some(own) => own,
            None => return Walk::Ends,
        };
        if blank(&b) {
            return Walk::Ends;
        }
        let size = size_of_entry(&b, own, &pax);
        let (gnu, ustar) = marks(&b);
        let kind = b[156];
        let map = kind == SPARSE && gnu && b[482] == 1;
        let data = if map {
            end_of_map(tar, at + BLOCK)
        } else {
            at + BLOCK
        };
        if map && size >= SIZE_LIMIT {
            return Walk::Overflows;
        }
        if size > (n - data) as u64 {
            return Walk::RunsOut;
        }
        let whole = size as usize;
        let pad = (BLOCK - whole % BLOCK) % BLOCK;
        if pad > n - data - whole {
            return Walk::RunsOut;
        }
        let next = data + whole + pad;
        if (gnu || ustar) && kind == RECORDS {
            pax = Some(bytes::slice_of(tar, data, data + whole));
        } else if !((gnu || ustar) && (kind == LONG_NAME || kind == LONG_LINK)) {
            pax = None;
        }
        at = next;
    }
    Walk::RunsOut
}

/// The entries of an archive up to the first that cannot be read, and the
/// message about that one.
pub uninterp spec fn tar_entries_of(tar: Seq<u8>) -> (
    Seq<(Seq<char>, u64, bool)>,
    Option<Seq<char>>,
);

/// `tar::Archive::entries`: the path, the size and the kind of each entry, up
/// to the first that cannot be read. They are a function of the bytes; how
/// they are encoded is not stated. Reading the map of a sparse file adds to
/// the place of the next header without a test, so archives on which that
/// could leave 64 bits are left out.
#[verifier::external_body]
pub(crate) fn tar_entries(tar: &[u8]) -> (r: (Vec<ArchiveEntry>, Option<String>))
    requires
        !(walk_of(tar@) is Overflows),
    ensures
        (entry_models(r.0@), text::opt_text(r.1)) == tar_entries_of(tar@),
{
    let mut archive = tar::Archive::new(tar);
    let mut out = Vec::new();
    let listed = archive.entries().and_then(|entries| {
        for entry in entries {
            let e = entry?;
            let path = e.path()?.to_string_lossy().into_owned();
            let directory = e.header().entry_type().is_dir();
            out.push(ArchiveEntry { path, size: e.size(), directory });
        }
        Ok(())
    });
    (out, listed.err().map(|e| e.to_string()))
}

/// The message about an archive on which the place of a header leaves 64 bits.
pub const SIZE_OVERFLOW: &'static str = "size overflow";

/// Why an archive is not read, from how its headers end, the damage in the
/// gzipped bytes and what the listing complains of. Damage behind the end of
/// the archive does no harm.
pub open spec fn complaint(
    walk: Walk,
    damage: Option<Seq<char>>,
    listing: Option<Seq<char>>,
) -> Option<Seq<char>> {
    if walk is Overflows {
        Some(SIZE_OVERFLOW@)
    } else if walk is RunsOut && damage is Some {
        damage
    } else {
        listing
    }
}

/// Why an archive is not read.
pub fn complain(walk: Walk, damage: Option<String>, listing: Option<String>) -> (r: Option<String>)
    ensures
        text::opt_text(r) == complaint(walk, text::opt_text(damage), text::opt_text(listing)),
{
    match walk {
        Walk::Overflows => Some(SIZE_OVERFLOW.to_owned()),
        Walk::RunsOut => match damage {
            Some(e) => Some(e),
            None => listing,
        },
        Walk::Ends => listing,
    }
}

/// An archive and what it lists.
pub struct Archive {
    pub bytes: Vec<u8>,
    pub entries: Vec<ArchiveEntry>,
}

/// The archive in gzipped bytes and its entries, or the message about why it
/// cannot be read.
pub open spec fn contents(gz: Seq<u8>) -> Result<
    (Seq<u8>, Seq<(Seq<char>, u64, bool)>),
    Seq<char>,
> {
    let tar = delivered(gz).0;
    match complaint(walk_of(tar), delivered(gz).1, tar_entries_of(tar).1) {
        Some(e) => Err(e),
        None => Ok((tar, tar_entries_of(tar).0)),
    }
}

/// Damage behind the end of an archive does no harm: what two gzipped archives
/// hold is the same where their bytes are, and end as an archive does, however
/// the rest of either fares.
pub proof fn damage_behind_the_end(gz: Seq<u8>, other: Seq<u8>)
    requires
        delivered(gz).0 == delivered(other).0,
        walk_of(delivered(gz).0) is Ends,
    ensures
        contents(gz) == contents(other),
{
}

/// Reads the archive in gzipped bytes.
pub fn read(gz: &[u8]) -> (r: Result<Archive, String>)
    ensures
        match contents(gz@) {
            Ok((tar, entries)) => {
                &&& r is Ok
                &&& r->Ok_0.bytes@ == tar
                &&& entry_models(r->Ok_0.entries@) == entries
            },
            Err(e) => r is Err && r->Err_0@ == e,
        },
{
    let (bytes, damage) = decode(gz);
    let end = walk(&bytes);
    if end == Walk::Overflows {
        return Err(SIZE_OVERFLOW.to_owned());
    }
    let (entries, listing) = tar_entries(&bytes);
    match complain(end, damage, listing) {
        Some(e) => Err(e),
        None => Ok(Archive { bytes, entries }),
    }
}

} // verus!

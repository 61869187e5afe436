//! Reading the conversations out of an export archive: which entries hold
//! them, in what order they are taken, and how several shards become one
//! array.

use crate::pipeline::framing::{
    body_elements, element_count, lemma_scan_concat, outside, scan, separators, well_framed,
};
use crate::sorting::{
    decides, in_order, lemma_insert_at, lemma_sorted, lemma_sorted_same_items, orders, sorted,
};
use crate::text::{
    base_name, base_name_of, begins_with, chars_eq, chars_of, finishes_with, holds,
    lemma_str_le_total, lemma_str_lt_trans, occurs_in, str_less, str_lt, strings_view,
};
use std::io::Cursor;
use std::io::Read;
use vstd::prelude::*;
use vstd::string::*;
use zip::result::ZipError;
use zip::ZipArchive;

verus! {

/// `zip::ZipArchive`: an archive that was opened. Nothing inside it is
/// seen here; what it holds is spoken of by [`archive_names`] and
/// [`archive_files`].
#[verifier::external_type_specification]
#[verifier::external_body]
#[verifier::reject_recursive_types(R)]
pub struct ExZipArchive<R>(ZipArchive<R>);

/// `std::io::Cursor`: the reader over bytes in memory from which the
/// archive is read. Nothing inside it is seen here.
#[verifier::external_type_specification]
#[verifier::external_body]
#[verifier::reject_recursive_types(T)]
pub struct ExCursor<T>(Cursor<T>);

/// `zip::result::ZipError`: why the archive or an entry could not be read.
/// Nothing inside it is seen here; it is only put into words.
#[verifier::external_type_specification]
#[verifier::external_body]
pub struct ExZipError(ZipError);

/// The names of an archive's entries, in the order of its directory. An
/// entry that cannot be opened, or whose name cannot be decoded, has none.
pub uninterp spec fn archive_names(archive: ZipArchive<Cursor<Vec<u8>>>) -> Seq<Option<Seq<char>>>;

/// What the entries of an archive hold, by name: the bytes of each entry
/// that is found under its name and can be read to its end.
pub uninterp spec fn archive_files(archive: ZipArchive<Cursor<Vec<u8>>>) -> Map<Seq<char>, Seq<u8>>;

/// What `zip` makes of bytes that it is to open as an archive: `None` where
/// it cannot open them; else the names and the files of the archive that it
/// opens.
pub uninterp spec fn opened(bytes: Seq<u8>) -> Option<
    (Seq<Option<Seq<char>>>, Map<Seq<char>, Seq<u8>>),
>;

/// `zip::ZipArchive::new` on bytes in memory. It reads the archive's
/// directory, or fails where the bytes are no archive. Which of the two, and
/// what the archive holds, depends on the bytes alone: it is what
/// [`opened`] stands for.
#[verifier::external_body]
fn open_archive(bytes: Vec<u8>) -> (r: Result<ZipArchive<Cursor<Vec<u8>>>, ZipError>)
    ensures
        match r {
            Ok(archive) => opened(bytes@) == Some((archive_names(archive), archive_files(archive))),
            Err(_) => opened(bytes@) is None,
        },
{
    ZipArchive::new(Cursor::new(bytes))
}

/// `zip::ZipArchive::len`: the number of entries in the directory.
#[verifier::external_body]
fn entry_count(archive: &ZipArchive<Cursor<Vec<u8>>>) -> (n: usize)
    ensures
        n == archive_names(*archive).len(),
{
    archive.len()
}

/// `zip::ZipArchive::by_index`, then `name` on the entry: the name of the
/// entry at `index`, `None` where the entry cannot be opened or its name
/// cannot be decoded, and past the last entry. The archive holds what it
/// held.
#[verifier::external_body]
fn entry_name(archive: &mut ZipArchive<Cursor<Vec<u8>>>, index: usize) -> (r: Option<String>)
    ensures
        archive_names(*final(archive)) == archive_names(*old(archive)),
        archive_files(*final(archive)) == archive_files(*old(archive)),
        index < archive_names(*old(archive)).len() ==> match r {
            Some(name) => archive_names(*old(archive))[index as int] == Some(name@),
            None => archive_names(*old(archive))[index as int] is None,
        },
        index >= archive_names(*old(archive)).len() ==> r is None,
{
    match archive.by_index(index) {
        Ok(entry) => match entry.name() {
            Ok(name) => Some(name.into_owned()),
            Err(_) => None,
        },
        Err(_) => None,
    }
}

/// `zip::ZipArchive::by_name`, then `read_to_end` on the entry: the bytes of
/// the entry called `name`, or the error of whichever of the two failed. The
/// archive holds what it held.
#[verifier::external_body]
fn read_entry(archive: &mut ZipArchive<Cursor<Vec<u8>>>, name: &str) -> (r: Result<Vec<u8>, ZipError>)
    ensures
        archive_names(*final(archive)) == archive_names(*old(archive)),
        archive_files(*final(archive)) == archive_files(*old(archive)),
        match r {
            Ok(data) => archive_files(*old(archive)).contains_key(name@) && archive_files(
                *old(archive),
            )[name@] == data@,
            Err(_) => !archive_files(*old(archive)).contains_key(name@),
        },
{
    let mut entry = archive.by_name(name)?;
    let mut data = Vec::new();
    entry.read_to_end(&mut data)?;
    Ok(data)
}

/// `ZipError`'s `Display`, through `to_string`: the error in words. Nothing
/// is claimed about the words.
#[verifier::external_body]
fn zip_error_text(error: &ZipError) -> (r: String) {
    error.to_string()
}

/// Why the conversations could not be read from an archive.
#[derive(Debug)]
pub enum ArchiveError {
    /// The bytes are not an archive that can be read; `reason` says why.
    Invalid { reason: String },
    /// No entry of the archive holds conversations.
    NotFound,
    /// The entry `name` holds conversations and could not be read.
    Unreadable { name: String, reason: String },
}

impl ArchiveError {
    /// The error in words.
    pub open spec fn spec_message(self) -> Seq<char> {
        match self {
            ArchiveError::Invalid { reason } => "Invalid ZIP: "@ + reason@,
            ArchiveError::NotFound => "conversations.json not found in ZIP"@,
            ArchiveError::Unreadable { name, reason } => "Cannot read "@ + name@ + ": "@ + reason@,
        }
    }

    /// The error in words.
    pub fn message(&self) -> (r: String)
        ensures
            r@ == self.spec_message(),
    {
        match self {
            ArchiveError::Invalid { reason } => {
                let mut out = "Invalid ZIP: ".to_owned();
                out.append(reason.as_str());
                out
            },
            ArchiveError::NotFound => "conversations.json not found in ZIP".to_owned(),
            ArchiveError::Unreadable { name, reason } => {
                let mut out = "Cannot read ".to_owned();
                out.append(name.as_str());
                out.append(": ");
                out.append(reason.as_str());
                out
            },
        }
    }
}

/// An entry that the platform added and that holds no data of the export:
/// one under a `__MACOSX` directory, or one whose file name begins with
/// `._`.
pub open spec fn is_metadata_name(name: Seq<char>) -> bool {
    ||| occurs_in("/__MACOSX/"@, name)
    ||| "__MACOSX/"@.is_prefix_of(name)
    ||| "._"@.is_prefix_of(base_name(name))
}

/// The name of the single file of older exports.
pub const SINGLE_FILE: &'static str = "conversations.json";

/// A file name that holds conversations: the single file of older exports,
/// or one shard of a numbered family.
pub open spec fn is_export_base(base: Seq<char>) -> bool {
    ||| base == SINGLE_FILE@
    ||| ("conversations-"@.is_prefix_of(base) && ".json"@.is_suffix_of(base))
}

/// An entry that holds conversations, in whatever directory.
pub open spec fn is_export_name(name: Seq<char>) -> bool {
    !is_metadata_name(name) && is_export_base(base_name(name))
}

/// The names among `names` that hold conversations, in the order of `names`.
pub open spec fn export_names(names: Seq<Option<Seq<char>>>) -> Seq<Seq<char>>
    decreases names.len(),
{
    if names.len() == 0 {
        Seq::empty()
    } else {
        match names.last() {
            Some(name) => if is_export_name(name) {
                export_names(names.drop_last()).push(name)
            } else {
                export_names(names.drop_last())
            },
            None => export_names(names.drop_last()),
        }
    }
}

/// The entry is the single file of older exports, in whatever directory.
pub open spec fn is_single_file(name: Seq<char>) -> bool {
    base_name(name) == SINGLE_FILE@
}

/// `a` is read before `b`: the single file comes before every numbered
/// shard; two single files, and two shards, are read in the order of the
/// dictionary.
pub open spec fn read_before(a: Seq<char>, b: Seq<char>) -> bool {
    if is_single_file(a) == is_single_file(b) {
        str_lt(a, b)
    } else {
        is_single_file(a)
    }
}

/// The order in which the entries are read.
pub open spec fn name_order() -> spec_fn(Seq<char>, Seq<char>) -> bool {
    |a: Seq<char>, b: Seq<char>| read_before(a, b)
}

/// The names of `s` in the order in which they are read: the single file
/// first, then the numbered shards in the order of the dictionary.
pub open spec fn sorted_names(s: Seq<Seq<char>>) -> Seq<Seq<char>> {
    sorted(s, name_order())
}

/// A space, a tab, a line feed, a form feed or a carriage return.
pub open spec fn is_blank_byte(b: u8) -> bool {
    b == 0x20 || b == 0x09 || b == 0x0a || b == 0x0c || b == 0x0d
}

/// Nothing but blank bytes.
pub open spec fn blank(s: Seq<u8>) -> bool {
    forall|i: int| 0 <= i < s.len() ==> is_blank_byte(#[trigger] s[i])
}

/// What a shard holds between its first `[` and the last `]` behind it;
/// `None` for a shard that lacks either.
pub open spec fn interior(shard: Seq<u8>) -> Option<Seq<u8>> {
    match shard.index_of_first(0x5b) {
        Some(open) => {
            let rest = shard.subrange(open + 1, shard.len() as int);
            match rest.index_of_last(0x5d) {
                Some(close) => Some(rest.subrange(0, close)),
                None => None,
            }
        },
        None => None,
    }
}

/// What a shard adds to the merged array: its interior, unless that is
/// missing or blank.
pub open spec fn contribution(shard: Seq<u8>) -> Option<Seq<u8>> {
    match interior(shard) {
        Some(inner) => if blank(inner) {
            None
        } else {
            Some(inner)
        },
        None => None,
    }
}

/// The contributions of the shards in order, a comma between each two.
pub open spec fn merged_interior(shards: Seq<Seq<u8>>) -> Seq<u8>
    decreases shards.len(),
{
    if shards.len() == 0 {
        Seq::empty()
    } else {
        let before = merged_interior(shards.drop_last());
        match contribution(shards.last()) {
            Some(inner) => if before.len() == 0 {
                inner
            } else {
                before + seq![0x2cu8] + inner
            },
            None => before,
        }
    }
}

/// The one array that the shards make: a single shard as it is, several with
/// their contributions inside one pair of brackets.
pub open spec fn merged(shards: Seq<Seq<u8>>) -> Seq<u8> {
    if shards.len() == 1 {
        shards[0]
    } else {
        seq![0x5bu8] + merged_interior(shards) + seq![0x5du8]
    }
}

/// The views of a run of byte vectors, in order.
pub open spec fn shards_view(shards: Seq<Vec<u8>>) -> Seq<Seq<u8>> {
    Seq::new(shards.len(), |i: int| shards[i]@)
}

/// Whether the entry called `name` holds conversations.
pub fn is_export_entry(name: &str) -> (r: bool)
    ensures
        r == is_export_name(name@),
{
    let chars = chars_of(name);
    if holds(&chars, &chars_of("/__MACOSX/")) || begins_with(&chars, &chars_of("__MACOSX/")) {
        return false;
    }
    let base = base_name_of(&chars);
    if begins_with(&base, &chars_of("._")) {
        return false;
    }
    if chars_eq(&base, &chars_of(SINGLE_FILE)) {
        return true;
    }
    begins_with(&base, &chars_of("conversations-")) && finishes_with(&base, &chars_of(".json"))
}

/// Whether the entry called `name` is the single file of older exports.
pub fn is_single_entry(name: &str) -> (r: bool)
    ensures
        r == is_single_file(name@),
{
    chars_eq(&base_name_of(&chars_of(name)), &chars_of(SINGLE_FILE))
}

/// Whether the entry called `a` is read before the entry called `b`.
pub fn reads_before(a: &str, b: &str) -> (r: bool)
    ensures
        r == read_before(a@, b@),
{
    let single = is_single_entry(a);
    if single == is_single_entry(b) {
        str_less(a, b)
    } else {
        single
    }
}

/// Sorts names into the order in which the entries are read: the single
/// file first, then the numbered shards in the order of the dictionary.
pub fn sort_names(names: &Vec<String>) -> (r: Vec<String>)
    ensures
        strings_view(r@) == sorted_names(strings_view(names@)),
{
    let mut out: Vec<String> = Vec::new();
    let mut i: usize = 0;
    while i < names.len()
        invariant
            i <= names@.len(),
            out@.len() == i,
            strings_view(out@) == sorted_names(strings_view(names@).subrange(0, i as int)),
        decreases names@.len() - i,
    {
        let ghost all = strings_view(names@);
        let ghost next = all.subrange(0, i + 1);
        assert(next.drop_last() =~= all.subrange(0, i as int));
        assert(next.last() == names@[i as int]@);
        let name = names[i].clone();
        let ghost placed = strings_view(out@);
        let mut at: usize = out.len();
        while at > 0 && reads_before(name.as_str(), out[at - 1].as_str())
            invariant
                at <= out@.len(),
                placed == strings_view(out@),
                forall|k: int| at <= k < placed.len() ==> read_before(name@, #[trigger] placed[k]),
            decreases at,
        {
            at -= 1;
        }
        proof {
            lemma_insert_at(placed, name@, name_order(), at as int);
        }
        out.insert(at, name);
        assert(strings_view(out@) =~= placed.insert(at as int, name@));
        i += 1;
    }
    assert(strings_view(names@).subrange(0, names@.len() as int) =~= strings_view(names@));
    out
}

/// The order in which the entries are read orders.
pub proof fn lemma_name_order()
    ensures
        orders(name_order()),
{
    let lt = name_order();
    assert forall|a: Seq<char>, b: Seq<char>| #[trigger] lt(a, b) implies !lt(b, a) by {
        lemma_str_le_total(a, b);
    }
    assert forall|a: Seq<char>, b: Seq<char>, c: Seq<char>|
        !#[trigger] lt(a, b) && !#[trigger] lt(b, c) implies !lt(a, c) by {
        if is_single_file(a) == is_single_file(b) && is_single_file(b) == is_single_file(c) {
            lemma_str_le_total(b, a);
            lemma_str_le_total(c, b);
            lemma_str_le_total(a, c);
            if str_lt(a, c) && b != a && c != b {
                lemma_str_lt_trans(c, b, a);
            }
        }
    }
}

/// Sorting puts the names in the order in which they are read and neither
/// adds nor loses one.
pub proof fn lemma_sorted_names(s: Seq<Seq<char>>)
    ensures
        in_order(sorted_names(s), name_order()),
        sorted_names(s).to_multiset() == s.to_multiset(),
        sorted_names(s).len() == s.len(),
{
    lemma_name_order();
    lemma_sorted(s, name_order());
}

/// Where an archive holds the single file and numbered shards, the single
/// file is read first: no numbered shard stands before it. Among
/// themselves the shards stand in the order of the dictionary.
pub proof fn lemma_single_file_first(s: Seq<Seq<char>>, i: int, j: int)
    requires
        0 <= i < j < sorted_names(s).len(),
    ensures
        is_single_file(sorted_names(s)[j]) ==> is_single_file(sorted_names(s)[i]),
        is_single_file(sorted_names(s)[i]) == is_single_file(sorted_names(s)[j]) ==> !str_lt(
            sorted_names(s)[j],
            sorted_names(s)[i],
        ),
{
    lemma_sorted_names(s);
    let r = sorted_names(s);
    assert(!name_order()(r[j], r[i]));
}

/// Where the interior of a shard begins and ends, if it has one: behind its
/// first `[`, and before the last `]` behind that.
pub fn find_interior(shard: &Vec<u8>) -> (r: Option<(usize, usize)>)
    ensures
        match r {
            Some((from, to)) => {
                &&& 0 < from <= to < shard@.len()
                &&& interior(shard@) == Some(shard@.subrange(from as int, to as int))
                &&& shard@.index_of_first(0x5b) == Some(from - 1)
                &&& shard@.subrange(from as int, shard@.len() as int).index_of_last(0x5d) == Some(
                    to - from,
                )
            },
            None => interior(shard@) is None,
        },
{
    let n = shard.len();
    let mut open: usize = 0;
    while open < n && shard[open] != 0x5b
        invariant
            open <= n,
            n == shard@.len(),
            forall|j: int| 0 <= j < open ==> shard@[j] != 0x5b,
        decreases n - open,
    {
        open += 1;
    }
    proof {
        shard@.index_of_first_ensures(0x5b);
    }
    if open == n {
        return None;
    }
    assert(shard@.index_of_first(0x5b) == Some(open as int));
    let from = open + 1;
    let ghost rest = shard@.subrange(from as int, n as int);
    let mut to: usize = n;
    while to > from && shard[to - 1] != 0x5d
        invariant
            from <= to <= n,
            n == shard@.len(),
            rest == shard@.subrange(from as int, n as int),
            forall|j: int| to - from <= j < rest.len() ==> rest[j] != 0x5d,
        decreases to,
    {
        to -= 1;
    }
    proof {
        rest.index_of_last_ensures(0x5d);
    }
    if to == from {
        return None;
    }
    assert(rest[to - 1 - from] == 0x5d);
    assert(rest.index_of_last(0x5d) == Some(to - 1 - from));
    assert(rest.subrange(0, to - 1 - from) =~= shard@.subrange(from as int, to - 1));
    Some((from, to - 1))
}

/// Whether `b` is a blank byte.
pub fn is_blank(b: u8) -> (r: bool)
    ensures
        r == is_blank_byte(b),
{
    b == 0x20 || b == 0x09 || b == 0x0a || b == 0x0c || b == 0x0d
}

/// Merges the shards of an archive into one array.
///
/// A single shard is returned as it is. Of several, each adds what stands
/// between its first `[` and the last `]` behind it; a shard that lacks
/// either bracket, or holds only blanks between them, adds nothing.
pub fn merge_shards(shards: Vec<Vec<u8>>) -> (r: Vec<u8>)
    ensures
        r@ == merged(shards_view(shards@)),
{
    let mut shards = shards;
    if shards.len() == 1 {
        return shards.remove(0);
    }
    let ghost all = shards_view(shards@);
    let mut out: Vec<u8> = Vec::new();
    out.push(0x5b);
    let mut i: usize = 0;
    while i < shards.len()
        invariant
            i <= shards@.len(),
            all == shards_view(shards@),
            out@ == seq![0x5bu8] + merged_interior(all.subrange(0, i as int)),
        decreases shards@.len() - i,
    {
        let ghost seen = all.subrange(0, i as int);
        let ghost next = all.subrange(0, i + 1);
        assert(next.drop_last() =~= seen);
        assert(next.last() == shards@[i as int]@);
        let shard = &shards[i];
        match find_interior(shard) {
            Some((from, to)) => {
                let ghost inner = shard@.subrange(from as int, to as int);
                let mut k: usize = from;
                while k < to && is_blank(shard[k])
                    invariant
                        from <= k <= to <= shard@.len(),
                        forall|j: int| from <= j < k ==> is_blank_byte(shard@[j]),
                    decreases to - k,
                {
                    k += 1;
                }
                if k < to {
                    assert(!is_blank_byte(inner[k - from]));
                    assert(contribution(shard@) == Some(inner));
                    let ghost before = out@;
                    if out.len() > 1 {
                        out.push(0x2c);
                    }
                    let ghost start = out@;
                    let mut j: usize = from;
                    while j < to
                        invariant
                            from <= j <= to <= shard@.len(),
                            out@ == start + shard@.subrange(from as int, j as int),
                        decreases to - j,
                    {
                        out.push(shard[j]);
                        assert(out@ =~= start + shard@.subrange(from as int, j + 1));
                        j += 1;
                    }
                    assert(out@ =~= seq![0x5bu8] + merged_interior(next));
                } else {
                    assert(blank(inner)) by {
                        assert forall|j: int| 0 <= j < inner.len() implies is_blank_byte(
                            #[trigger] inner[j],
                        ) by {
                            assert(inner[j] == shard@[from + j]);
                        }
                    }
                }
            },
            None => {},
        }
        i += 1;
    }
    assert(all.subrange(0, shards@.len() as int) =~= all);
    out.push(0x5d);
    out
}

/// Why, by the names and the files of an archive, its conversations cannot
/// be read.
pub enum ArchiveFault {
    NotFound,
    Unreadable(Seq<char>),
}

/// The first of `wanted` that `files` does not hold.
pub open spec fn first_unreadable(wanted: Seq<Seq<char>>, files: Map<Seq<char>, Seq<u8>>) -> Option<
    Seq<char>,
>
    decreases wanted.len(),
{
    if wanted.len() == 0 {
        None
    } else if !files.contains_key(wanted[0]) {
        Some(wanted[0])
    } else {
        first_unreadable(wanted.drop_first(), files)
    }
}

/// What `files` holds under each of `wanted`, in that order.
pub open spec fn shards_of(wanted: Seq<Seq<char>>, files: Map<Seq<char>, Seq<u8>>) -> Seq<Seq<u8>> {
    Seq::new(wanted.len(), |i: int| files[wanted[i]])
}

/// The conversations of an archive with these entry names and files: its
/// entries that hold conversations, taken in the order of [`sorted_names`] and
/// merged; or the reason why there are none.
pub open spec fn conversations_in(
    names: Seq<Option<Seq<char>>>,
    files: Map<Seq<char>, Seq<u8>>,
) -> Result<Seq<u8>, ArchiveFault> {
    let wanted = sorted_names(export_names(names));
    if wanted.len() == 0 {
        Err(ArchiveFault::NotFound)
    } else {
        match first_unreadable(wanted, files) {
            Some(name) => Err(ArchiveFault::Unreadable(name)),
            None => Ok(merged(shards_of(wanted, files))),
        }
    }
}

/// Reads the conversations out of an open archive, as one array.
///
/// The entries that hold conversations are found by name and read, the
/// single file of older exports first and the numbered shards behind it in
/// the order of the dictionary, and merged. Without such an entry the result
/// is `NotFound`; the first of them that cannot be read makes it
/// `Unreadable`.
pub fn read_conversations(archive: &mut ZipArchive<Cursor<Vec<u8>>>) -> (r: Result<
    Vec<u8>,
    ArchiveError,
>)
    ensures
        archive_names(*final(archive)) == archive_names(*old(archive)),
        archive_files(*final(archive)) == archive_files(*old(archive)),
        match r {
            Ok(bytes) => conversations_in(
                archive_names(*old(archive)),
                archive_files(*old(archive)),
            ) == Ok::<Seq<u8>, ArchiveFault>(bytes@),
            Err(ArchiveError::NotFound) => conversations_in(
                archive_names(*old(archive)),
                archive_files(*old(archive)),
            ) == Err::<Seq<u8>, ArchiveFault>(ArchiveFault::NotFound),
            Err(ArchiveError::Unreadable { name, reason }) => conversations_in(
                archive_names(*old(archive)),
                archive_files(*old(archive)),
            ) == Err::<Seq<u8>, ArchiveFault>(ArchiveFault::Unreadable(name@)),
            Err(ArchiveError::Invalid { reason }) => false,
        },
{
    let ghost names = archive_names(*archive);
    let ghost files = archive_files(*archive);
    let count = entry_count(archive);
    let mut found: Vec<String> = Vec::new();
    let mut i: usize = 0;
    while i < count
        invariant
            i <= count,
            count == names.len(),
            archive_names(*archive) == names,
            archive_files(*archive) == files,
            strings_view(found@) == export_names(names.subrange(0, i as int)),
        decreases count - i,
    {
        let ghost next = names.subrange(0, i + 1);
        assert(next.drop_last() =~= names.subrange(0, i as int));
        assert(next.last() == names[i as int]);
        let ghost before = strings_view(found@);
        match entry_name(archive, i) {
            Some(name) => {
                if is_export_entry(name.as_str()) {
                    found.push(name);
                    assert(strings_view(found@) =~= before.push(name@));
                }
            },
            None => {},
        }
        i += 1;
    }
    assert(names.subrange(0, count as int) =~= names);
    if found.len() == 0 {
        return Err(ArchiveError::NotFound);
    }
    let wanted = sort_names(&found);
    let ghost order = strings_view(wanted@);
    proof {
        lemma_sorted_names(strings_view(found@));
    }
    let mut shards: Vec<Vec<u8>> = Vec::with_capacity(wanted.len());
    let mut k: usize = 0;
    assert(order.subrange(0, order.len() as int) =~= order);
    while k < wanted.len()
        invariant
            k <= wanted@.len(),
            order == strings_view(wanted@),
            order == sorted_names(export_names(names)),
            order.len() > 0,
            names == archive_names(*old(archive)),
            files == archive_files(*old(archive)),
            archive_names(*archive) == names,
            archive_files(*archive) == files,
            shards@.len() == k,
            forall|j: int| 0 <= j < k ==> files.contains_key(#[trigger] order[j]),
            forall|j: int| 0 <= j < k ==> (#[trigger] shards@[j])@ == files[order[j]],
            first_unreadable(order, files) == first_unreadable(
                order.subrange(k as int, order.len() as int),
                files,
            ),
        decreases wanted@.len() - k,
    {
        let ghost tail = order.subrange(k as int, order.len() as int);
        assert(tail[0] == wanted@[k as int]@);
        assert(tail.drop_first() =~= order.subrange(k + 1, order.len() as int));
        match read_entry(archive, wanted[k].as_str()) {
            Ok(data) => {
                shards.push(data);
            },
            Err(error) => {
                return Err(
                    ArchiveError::Unreadable {
                        name: wanted[k].clone(),
                        reason: zip_error_text(&error),
                    },
                );
            },
        }
        k += 1;
    }
    assert(shards_view(shards@) =~= shards_of(order, files));
    Ok(merge_shards(shards))
}

/// Why the conversations cannot be read from the bytes of an archive.
pub enum OpeningFault {
    Invalid,
    NotFound,
    Unreadable(Seq<char>),
}

/// The conversations that the bytes of an archive hold: what
/// [`conversations_in`] makes of the names and the files of the archive
/// that the bytes open to, where they open to one.
pub open spec fn conversations_of(bytes: Seq<u8>) -> Result<Seq<u8>, OpeningFault> {
    match opened(bytes) {
        Some((names, files)) => match conversations_in(names, files) {
            Ok(array) => Ok(array),
            Err(ArchiveFault::NotFound) => Err(OpeningFault::NotFound),
            Err(ArchiveFault::Unreadable(name)) => Err(OpeningFault::Unreadable(name)),
        },
        None => Err(OpeningFault::Invalid),
    }
}

/// Reads the conversations out of the bytes of an export archive, as one
/// array.
///
/// Bytes that cannot be opened as an archive give `Invalid`. Else the
/// result is what [`read_conversations`] makes of the archive: the merge of
/// its shards, or `NotFound`, or `Unreadable`.
pub fn open_conversations_entry(bytes: Vec<u8>) -> (r: Result<Vec<u8>, ArchiveError>)
    ensures
        match r {
            Ok(array) => conversations_of(bytes@) == Ok::<Seq<u8>, OpeningFault>(array@),
            Err(ArchiveError::Invalid { reason }) => conversations_of(bytes@) == Err::<
                Seq<u8>,
                OpeningFault,
            >(OpeningFault::Invalid),
            Err(ArchiveError::NotFound) => conversations_of(bytes@) == Err::<Seq<u8>, OpeningFault>(
                OpeningFault::NotFound,
            ),
            Err(ArchiveError::Unreadable { name, reason }) => conversations_of(bytes@) == Err::<
                Seq<u8>,
                OpeningFault,
            >(OpeningFault::Unreadable(name@)),
        },
{
    match open_archive(bytes) {
        Ok(archive) => {
            let mut archive = archive;
            read_conversations(&mut archive)
        },
        Err(error) => Err(ArchiveError::Invalid { reason: zip_error_text(&error) }),
    }
}

/// An archive with a single shard gives that shard, byte for byte.
pub proof fn lemma_single_shard_archive(bytes: Seq<u8>, name: Seq<char>)
    requires
        opened(bytes) is Some,
        export_names(opened(bytes)->Some_0.0) == seq![name],
        opened(bytes)->Some_0.1.contains_key(name),
    ensures
        conversations_of(bytes) == Ok::<Seq<u8>, OpeningFault>(opened(bytes)->Some_0.1[name]),
{
    let files = opened(bytes)->Some_0.1;
    let wanted = sorted_names(seq![name]);
    reveal_with_fuel(sorted, 2);
    reveal_with_fuel(crate::sorting::insert_sorted, 2);
    assert(seq![name].drop_last() =~= Seq::<Seq<char>>::empty());
    assert(wanted =~= seq![name]);
    reveal_with_fuel(first_unreadable, 2);
    assert(first_unreadable(wanted, files) is None);
    assert(shards_of(wanted, files) =~= seq![files[name]]);
}

/// Of the single file and a numbered shard, the single file is read first,
/// in whichever order the two were found.
pub proof fn lemma_single_file_then_shard(single: Seq<char>, shard: Seq<char>)
    requires
        is_single_file(single),
        !is_single_file(shard),
    ensures
        sorted_names(seq![shard, single]) == seq![single, shard],
        sorted_names(seq![single, shard]) == seq![single, shard],
{
    reveal_with_fuel(sorted, 3);
    reveal_with_fuel(crate::sorting::insert_sorted, 3);
    let lt = name_order();
    assert(lt(single, shard) && !lt(shard, single));
    let found = seq![shard, single];
    assert(found.drop_last() =~= seq![shard]);
    assert(seq![shard].drop_last() =~= Seq::<Seq<char>>::empty());
    assert(sorted(seq![shard], lt) =~= seq![shard]);
    assert(sorted(found, lt) =~= seq![single, shard]);
    let other = seq![single, shard];
    assert(other.drop_last() =~= seq![single]);
    assert(seq![single].drop_last() =~= Seq::<Seq<char>>::empty());
    assert(sorted(seq![single], lt) =~= seq![single]);
    assert(sorted(other, lt) =~= seq![single, shard]);
}

/// The order in which the entries are read tells any two names apart.
pub proof fn lemma_name_order_decides()
    ensures
        decides(name_order()),
{
    let lt = name_order();
    assert forall|a: Seq<char>, b: Seq<char>| a != b implies #[trigger] lt(a, b) || #[trigger] lt(
        b,
        a,
    ) by {
        lemma_str_le_total(a, b);
    }
}

/// A name stands among the names that hold conversations as often as among
/// all names, if it holds conversations, and not at all if it does not.
proof fn lemma_export_names_count(names: Seq<Option<Seq<char>>>, name: Seq<char>)
    ensures
        export_names(names).to_multiset().count(name) == if is_export_name(name) {
            names.to_multiset().count(Some(name))
        } else {
            0
        },
    decreases names.len(),
{
    broadcast use vstd::seq_lib::group_to_multiset_ensures;

    if names.len() > 0 {
        lemma_export_names_count(names.drop_last(), name);
        assert(names =~= names.drop_last().push(names.last()));
    }
}

/// What an archive gives does not depend on the order in which its entries
/// stand in it: the same names, in whatever order, give the same
/// conversations.
pub proof fn lemma_entry_order_is_no_matter(
    one: Seq<Option<Seq<char>>>,
    other: Seq<Option<Seq<char>>>,
    files: Map<Seq<char>, Seq<u8>>,
)
    requires
        one.to_multiset() == other.to_multiset(),
    ensures
        conversations_in(one, files) == conversations_in(other, files),
{
    assert(export_names(one).to_multiset() =~= export_names(other).to_multiset()) by {
        assert forall|name: Seq<char>|
            export_names(one).to_multiset().count(name) == export_names(
                other,
            ).to_multiset().count(name) by {
            lemma_export_names_count(one, name);
            lemma_export_names_count(other, name);
        }
    }
    lemma_name_order();
    lemma_name_order_decides();
    lemma_sorted_same_items(export_names(one), export_names(other), name_order());
}

/// A single shard merges to itself, byte for byte.
pub proof fn lemma_single_shard(shard: Seq<u8>)
    ensures
        merged(seq![shard]) == shard,
{
}

/// How many elements the shards hold together, by their frames.
pub open spec fn total_elements(shards: Seq<Seq<u8>>) -> nat
    decreases shards.len(),
{
    if shards.len() == 0 {
        0
    } else {
        total_elements(shards.drop_last()) + element_count(shards.last())
    }
}

/// A body that is not blank has a byte that is not.
proof fn lemma_not_blank_grows(before: Seq<u8>, inner: Seq<u8>)
    requires
        !blank(inner),
    ensures
        !blank(before + inner),
{
    let i = choose|i: int| 0 <= i < inner.len() && !is_blank_byte(#[trigger] inner[i]);
    assert((before + inner)[before.len() + i] == inner[i]);
}

/// What well-framed shards add up to: a body in which everything that opens
/// also closes, with as many elements as the shards hold together.
proof fn lemma_merged_interior(shards: Seq<Seq<u8>>)
    requires
        forall|i: int| 0 <= i < shards.len() ==> well_framed(#[trigger] shards[i]),
    ensures
        scan(merged_interior(shards), outside()) == Some(outside()),
        body_elements(merged_interior(shards)) == total_elements(shards),
        merged_interior(shards).len() == 0 || !blank(merged_interior(shards)),
    decreases shards.len(),
{
    if shards.len() > 0 {
        let init = shards.drop_last();
        assert forall|i: int| 0 <= i < init.len() implies well_framed(#[trigger] init[i]) by {
            assert(init[i] == shards[i]);
        }
        lemma_merged_interior(init);
        let before = merged_interior(init);
        let last = shards.last();
        assert(well_framed(last));
        let inner = interior(last)->Some_0;
        assert(scan(inner, outside()) == Some(outside()));
        if !blank(inner) {
            if before.len() > 0 {
                let comma = seq![0x2cu8];
                reveal_with_fuel(scan, 2);
                reveal_with_fuel(separators, 2);
                assert(comma.drop_last() =~= Seq::<u8>::empty());
                assert(scan(comma, outside()) == Some(outside()));
                assert(separators(comma, outside()) == 1);
                lemma_scan_concat(before, comma, outside());
                lemma_scan_concat(before + comma, inner, outside());
                lemma_not_blank_grows(before + comma, inner);
            }
        }
    }
}

/// Merging well-framed shards gives a well-framed array, which holds as many
/// elements as the shards hold together. A shard whose body is blank holds
/// none and adds none.
pub proof fn lemma_merged_elements(shards: Seq<Seq<u8>>)
    requires
        forall|i: int| 0 <= i < shards.len() ==> well_framed(#[trigger] shards[i]),
    ensures
        well_framed(merged(shards)),
        element_count(merged(shards)) == total_elements(shards),
{
    if shards.len() == 1 {
        reveal_with_fuel(total_elements, 2);
        assert(shards.last() == shards[0]);
    } else {
        lemma_merged_interior(shards);
        let body = merged_interior(shards);
        let doc = merged(shards);
        doc.index_of_first_ensures(0x5b);
        assert(doc[0] == 0x5b);
        assert(doc.contains(0x5b));
        assert(doc.index_of_first(0x5b) == Some(0int));
        let rest = doc.subrange(1, doc.len() as int);
        assert(rest =~= body + seq![0x5du8]);
        rest.index_of_last_ensures(0x5d);
        assert(rest[rest.len() - 1] == 0x5d);
        assert(rest.contains(0x5d));
        assert(rest.index_of_last(0x5d) == Some(rest.len() - 1));
        assert(rest.subrange(0, rest.len() - 1) =~= body);
    }
}

} // verus!

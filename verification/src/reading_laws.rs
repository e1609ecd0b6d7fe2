//! What the functions that read an archive return, for every result they can
//! return: names, faults, and whole archives.

use vstd::prelude::*;

use crate::archive::{
    after_members, archive_member_filename, archive_member_name, archive_members, ascii_field,
    line_end, locate_member_name, locate_payload_end, magic, member_views, members_from, members_of,
    name_source, named_member, next_offset, parse_archive_member, payload_at, raw_member_at,
    strip_name_end, strip_padding, table_name, table_view, trim_field, ArchiveError, ArchiveFault,
    ArchiveMember, MemberView, NameSource, RawMember, HEADER_LEN,
};
use crate::archive_laws::{
    ar_start, bsd_mark, field_reads, gnu_mark, is_bare_name, is_padded, is_trimmed, laid_out_all,
    law_archive_reads_back, law_field_is_read, law_names_are_told_by_their_marks,
    law_strip_name_end, law_strip_padding, resolved, Entry,
};
use crate::text::{decimal_text, decimal_value, decoded_text};
use crate::text_laws::{
    explanation, is_text_of, law_decimal_text_shows_number, law_number_is_read, law_text_is_decoded,
    law_text_is_read, law_text_is_unique, shows, writes, writes_none,
};

verus! {

/// A trimmed field is the field without a run of spaces and NULs at either end,
/// and has none left there.
pub proof fn law_trim_field(text: &str, field: String)
    requires
        call_ensures(trim_field, (text,), field),
    ensures
        is_trimmed(field@),
        is_padded(text@, field@),
{
    law_strip_padding(text@);
}

/// A header field is read as the text of its bytes, without the padding at either
/// end.
pub proof fn law_ascii_field(field: &[u8], text: String)
    requires
        call_ensures(ascii_field, (field,), text),
    ensures
        field_reads(field@, text@),
{
    law_field_is_read(field@, text@);
}

/// Whether `name` is `stored` without the NULs and slashes that close it.
pub open spec fn closes(stored: Seq<char>, name: Seq<char>) -> bool {
    &&& is_bare_name(name)
    &&& name.len() <= stored.len()
    &&& name == stored.take(name.len() as int)
    &&& forall|i: int|
        name.len() <= i < stored.len() ==> #[trigger] stored[i] == '\0' || stored[i] == '/'
}

/// A stored name has one name in it.
pub proof fn law_stored_name_is_read(stored: Seq<char>, name: Seq<char>)
    ensures
        closes(stored, name) <==> name == strip_name_end(stored),
{
    let stripped = strip_name_end(stored);
    law_strip_name_end(stored);
    assert(stripped =~= stored.take(stripped.len() as int));
    if closes(stored, name) {
        if name.len() < stripped.len() {
            assert(stripped.last() == stored[stripped.len() - 1]);
        } else if stripped.len() < name.len() {
            assert(name.last() == stored[name.len() - 1]);
        }
        assert(name =~= stripped);
    }
}

/// A name is what is left of the stored name without the NULs and slashes that
/// close it.
pub proof fn law_archive_member_name(name: &str, stripped: String)
    requires
        call_ensures(archive_member_name, (name,), stripped),
    ensures
        closes(name@, stripped@),
{
    law_stored_name_is_read(name@, stripped@);
}

/// Whether `filename` is `name` with an underscore for each path separator, and
/// every other character as it is.
pub open spec fn names_file(name: Seq<char>, filename: Seq<char>) -> bool {
    &&& filename.len() == name.len()
    &&& forall|i: int|
        0 <= i < name.len() ==> if name[i] == '/' || name[i] == '\\' || name[i] == ':' {
            #[trigger] filename[i] == '_'
        } else {
            filename[i] == name[i]
        }
}

/// A file name is the member name, character by character, but for the path
/// separators, which become underscores. A name without separators is kept.
pub proof fn law_archive_member_filename(name: &str, filename: String)
    requires
        call_ensures(archive_member_filename, (name,), filename),
    ensures
        names_file(name@, filename@),
        !name@.contains('/') && !name@.contains('\\') && !name@.contains(':') ==> filename@
            == name@,
{
    assert(names_file(name@, filename@));
    if !name@.contains('/') && !name@.contains('\\') && !name@.contains(':') {
        assert forall|i: int| 0 <= i < name@.len() implies filename@[i] == name@[i] by {
            assert(name@.contains(name@[i]));
        }
        assert(filename@ =~= name@);
    }
}

/// Whether the text of `bytes` stores `name`.
pub open spec fn stores(bytes: Seq<u8>, name: Seq<char>) -> bool {
    exists|stored: Seq<char>| #[trigger] is_text_of(bytes, stored) && closes(stored, name)
}

proof fn lemma_stores(bytes: Seq<u8>, name: Seq<char>)
    ensures
        stores(bytes, name) <==> name == strip_name_end(decoded_text(bytes)),
{
    law_text_is_decoded(bytes);
    law_stored_name_is_read(decoded_text(bytes), name);
    if stores(bytes, name) {
        let stored = choose|stored: Seq<char>| #[trigger]
            is_text_of(bytes, stored) && closes(stored, name);
        law_text_is_unique(bytes, stored);
    }
}

/// Whether the line of `table` that starts at `start` ends at `end`, before its
/// newline or with the table.
pub open spec fn is_line(table: Seq<u8>, start: nat, end: nat) -> bool {
    &&& start <= end <= table.len()
    &&& forall|i: int| start <= i < end ==> #[trigger] table[i] != 10
    &&& end < table.len() ==> table[end as int] == 10
}

proof fn lemma_is_line(table: Seq<u8>, start: nat, end: nat)
    requires
        start <= table.len(),
    ensures
        is_line(table, start, end) <==> end == line_end(table, start),
    decreases table.len() - start,
{
    if start < table.len() && table[start as int] != 10 {
        lemma_is_line(table, start + 1, end);
        if is_line(table, start, end) && end == start {
            assert(table[end as int] == 10);
        }
    } else if start < table.len() && is_line(table, start, end) && start < end {
        assert(table[start as int] != 10);
    }
}

/// Whether a raw name, a payload and the string table read so far make a member of
/// this name and these contents. Behind a BSD mark stands the length of the name,
/// which is the first part of the payload. Behind a GNU mark stands the offset of
/// the line that is the name. Any other raw name is the name itself.
pub open spec fn makes(
    raw_name: Seq<char>,
    payload: Seq<u8>,
    table: Option<Seq<u8>>,
    name: Seq<char>,
    bytes: Seq<u8>,
) -> bool {
    if bsd_mark(raw_name) {
        exists|n: nat| #[trigger]
            writes(raw_name.skip(3), n) && n <= payload.len() && stores(
                payload.take(n as int),
                name,
            ) && bytes == payload.skip(n as int)
    } else if gnu_mark(raw_name) {
        table matches Some(names) && bytes == payload && exists|start: nat, end: nat| #[trigger]
            writes(raw_name.skip(1), start) && start < names.len() && #[trigger] is_line(
                names,
                start,
                end,
            ) && stores(names.subrange(start as int, end as int), name)
    } else {
        closes(raw_name, name) && bytes == payload
    }
}

/// Whether `fault` is what is wrong with a raw name, given the length of the
/// payload and the string table read so far.
pub open spec fn misnames(
    raw_name: Seq<char>,
    payload_len: nat,
    table: Option<Seq<u8>>,
    fault: ArchiveError,
) -> bool {
    match fault {
        ArchiveFault::BsdNameLength { text, cause } => {
            &&& bsd_mark(raw_name)
            &&& text@ == raw_name.skip(3)
            &&& writes_none(raw_name.skip(3), cause)
        },
        ArchiveFault::BsdNameTooLong { name_len, payload_len: len } => {
            &&& bsd_mark(raw_name)
            &&& writes(raw_name.skip(3), name_len as nat)
            &&& len == payload_len
            &&& name_len > payload_len
        },
        ArchiveFault::GnuNameOffset { text, cause } => {
            &&& gnu_mark(raw_name)
            &&& text@ == raw_name.skip(1)
            &&& writes_none(raw_name.skip(1), cause)
        },
        ArchiveFault::MissingNameTable => {
            &&& gnu_mark(raw_name)
            &&& table is None
            &&& exists|n: nat| #[trigger] writes(raw_name.skip(1), n) && n <= usize::MAX
        },
        ArchiveFault::GnuNameOutOfTable { offset, table_len } => {
            &&& gnu_mark(raw_name)
            &&& writes(raw_name.skip(1), offset as nat)
            &&& table matches Some(names) && table_len == names.len() && offset >= names.len()
        },
        _ => false,
    }
}

/// Whether lengths that a member is read from fit in a `usize`, as all do in
/// memory.
pub open spec fn in_memory(payload: Seq<u8>, table: Option<Seq<u8>>) -> bool {
    &&& payload.len() <= usize::MAX
    &&& table matches Some(names) ==> names.len() <= usize::MAX
}

proof fn lemma_located(
    raw_name: Seq<char>,
    payload_len: nat,
    table: Option<Seq<u8>>,
    fault: ArchiveError,
)
    requires
        payload_len <= usize::MAX,
        table matches Some(names) ==> names.len() <= usize::MAX,
        name_source(raw_name, payload_len, table) matches Err(e) ==> fault@ == e,
    ensures
        match name_source(raw_name, payload_len, table) {
            Ok(NameSource::Payload(n)) => bsd_mark(raw_name) && writes(raw_name.skip(3), n as nat)
                && n <= payload_len,
            Ok(NameSource::Table(start, end)) => !bsd_mark(raw_name) && gnu_mark(raw_name)
                && writes(raw_name.skip(1), start as nat) && table is Some && start
                < table->Some_0.len() && is_line(table->Some_0, start as nat, end as nat),
            Ok(NameSource::Header) => !bsd_mark(raw_name) && !gnu_mark(raw_name),
            Err(_) => misnames(raw_name, payload_len, table, fault),
        },
{
    law_names_are_told_by_their_marks(raw_name);
    law_text_is_read(raw_name.skip(3));
    law_text_is_read(raw_name.skip(1));
    if let Ok(NameSource::Table(start, _)) = name_source(raw_name, payload_len, table) {
        let names = table->Some_0;
        let end = line_end(names, start as nat);
        lemma_is_line(names, start as nat, end);
    }
}

proof fn lemma_named(
    raw_name: Seq<char>,
    payload: Seq<u8>,
    table: Option<Seq<u8>>,
    fault: ArchiveError,
)
    requires
        in_memory(payload, table),
        named_member(raw_name, payload, table) matches Err(e) ==> fault@ == e,
    ensures
        match named_member(raw_name, payload, table) {
            Ok(member) => makes(raw_name, payload, table, member.name, member.bytes),
            Err(_) => misnames(raw_name, payload.len(), table, fault),
        },
{
    lemma_located(raw_name, payload.len(), table, fault);
    match name_source(raw_name, payload.len(), table) {
        Ok(NameSource::Payload(n)) => {
            let name = strip_name_end(decoded_text(payload.take(n as int)));
            lemma_stores(payload.take(n as int), name);
            assert(writes(raw_name.skip(3), n as nat));
        },
        Ok(NameSource::Table(start, end)) => {
            let line = table->Some_0.subrange(start as int, end as int);
            lemma_stores(line, strip_name_end(decoded_text(line)));
            assert(writes(raw_name.skip(1), start as nat));
            assert(is_line(table->Some_0, start as nat, end as nat));
        },
        Ok(NameSource::Header) => {
            law_stored_name_is_read(raw_name, strip_name_end(raw_name));
        },
        Err(_) => {},
    }
}

/// What a raw name, a payload and a string table make is what is read from them.
proof fn lemma_made_is_named(
    raw_name: Seq<char>,
    payload: Seq<u8>,
    table: Option<Seq<u8>>,
    name: Seq<char>,
    bytes: Seq<u8>,
)
    requires
        in_memory(payload, table),
        makes(raw_name, payload, table, name, bytes),
    ensures
        named_member(raw_name, payload, table) == Ok::<MemberView, ArchiveFault<Seq<char>>>(
            MemberView { name, bytes },
        ),
{
    law_names_are_told_by_their_marks(raw_name);
    if bsd_mark(raw_name) {
        let n = choose|n: nat| #[trigger]
            writes(raw_name.skip(3), n) && n <= payload.len() && stores(
                payload.take(n as int),
                name,
            ) && bytes == payload.skip(n as int);
        law_number_is_read(raw_name.skip(3), n);
        lemma_stores(payload.take(n as int), name);
    } else if gnu_mark(raw_name) {
        let names = table->Some_0;
        let (start, end) = choose|start: nat, end: nat| #[trigger]
            writes(raw_name.skip(1), start) && start < names.len() && #[trigger] is_line(
                names,
                start,
                end,
            ) && stores(names.subrange(start as int, end as int), name);
        law_number_is_read(raw_name.skip(1), start);
        lemma_is_line(names, start, end);
        lemma_stores(names.subrange(start as int, end as int), name);
    } else {
        law_stored_name_is_read(raw_name, name);
    }
}

/// The string table that a caller holds.
pub open spec fn held(gnu_names: Option<&[u8]>) -> Option<Seq<u8>> {
    match gnu_names {
        None => None,
        Some(names) => Some(names@),
    }
}

/// A name is located in the payload, in the string table or in the header by the
/// mark of the raw name, and where the raw name writes; or what is wrong with the
/// raw name is reported.
pub proof fn law_locate_member_name(
    raw_name: &str,
    payload_len: usize,
    gnu_names: Option<&[u8]>,
    source: Result<NameSource, ArchiveError>,
)
    requires
        call_ensures(locate_member_name, (raw_name, payload_len, gnu_names), source),
        held(gnu_names) matches Some(names) ==> names.len() <= usize::MAX,
    ensures
        match source {
            Ok(NameSource::Payload(n)) => {
                &&& bsd_mark(raw_name@)
                &&& writes(raw_name@.skip(3), n as nat)
                &&& n <= payload_len
            },
            Ok(NameSource::Table(start, end)) => {
                &&& gnu_mark(raw_name@)
                &&& writes(raw_name@.skip(1), start as nat)
                &&& held(gnu_names) matches Some(names) && start < names.len() && is_line(
                    names,
                    start as nat,
                    end as nat,
                )
            },
            Ok(NameSource::Header) => !bsd_mark(raw_name@) && !gnu_mark(raw_name@),
            Err(fault) => misnames(raw_name@, payload_len as nat, held(gnu_names), fault),
        },
{
    assert(table_view(gnu_names) == held(gnu_names));
    let fault = match source {
        Err(fault) => fault,
        Ok(_) => ArchiveFault::NotAnArchive,
    };
    lemma_located(raw_name@, payload_len as nat, held(gnu_names), fault);
}

/// A raw name and a payload are parsed into the member that they make, and else
/// what is wrong with the raw name is reported.
pub proof fn law_parse_archive_member(
    raw_name: &str,
    payload: &[u8],
    gnu_names: Option<&[u8]>,
    member: Result<(String, Vec<u8>), ArchiveError>,
)
    requires
        call_ensures(parse_archive_member, (raw_name, payload, gnu_names), member),
        in_memory(payload@, held(gnu_names)),
    ensures
        match member {
            Ok((name, bytes)) => makes(raw_name@, payload@, held(gnu_names), name@, bytes@),
            Err(fault) => misnames(raw_name@, payload@.len(), held(gnu_names), fault),
        },
{
    assert(table_view(gnu_names) == held(gnu_names));
    let fault = match member {
        Err(fault) => fault,
        Ok(_) => ArchiveFault::NotAnArchive,
    };
    lemma_named(raw_name@, payload@, held(gnu_names), fault);
}

/// A member that can be made of a raw name and a payload is what they are parsed
/// into.
pub proof fn law_made_member_is_parsed(
    raw_name: &str,
    payload: &[u8],
    gnu_names: Option<&[u8]>,
    member: Result<(String, Vec<u8>), ArchiveError>,
    name: Seq<char>,
    bytes: Seq<u8>,
)
    requires
        call_ensures(parse_archive_member, (raw_name, payload, gnu_names), member),
        in_memory(payload@, held(gnu_names)),
        makes(raw_name@, payload@, held(gnu_names), name, bytes),
    ensures
        member matches Ok((n, b)) && n@ == name && b@ == bytes,
{
    assert(table_view(gnu_names) == held(gnu_names));
    lemma_made_is_named(raw_name@, payload@, held(gnu_names), name, bytes);
}

/// The payload of a member ends as many bytes behind its header of 60 bytes as the
/// size field writes. It is reported when the field writes no number, when the end
/// does not fit in a `usize`, and when it lies outside the archive.
pub proof fn law_locate_payload_end(
    size_text: &str,
    offset: usize,
    archive_len: usize,
    end: Result<usize, ArchiveError>,
)
    requires
        call_ensures(locate_payload_end, (size_text, offset, archive_len), end),
    ensures
        match end {
            Ok(n) => n <= archive_len && n >= offset + 60 && writes(
                size_text@,
                (n - offset - 60) as nat,
            ),
            Err(ArchiveFault::InvalidSize { offset: at, cause }) => at == offset && writes_none(
                size_text@,
                cause,
            ),
            Err(ArchiveFault::OverflowingSize) => exists|n: nat| #[trigger]
                writes(size_text@, n) && n <= usize::MAX && offset + 60 + n > usize::MAX,
            Err(ArchiveFault::TruncatedMember { offset: at }) => at == offset && exists|n: nat|
                #[trigger] writes(size_text@, n) && archive_len < offset + 60 + n <= usize::MAX,
            Err(_) => false,
        },
{
    law_text_is_read(size_text@);
    if let Ok(n) = decimal_value(size_text@) {
        assert(writes(size_text@, n));
    }
}

/// Whether each of `entries` fits its header and goes by the raw name at its place.
pub open spec fn go_by(entries: Seq<Entry>, raw_names: Seq<Seq<char>>) -> bool {
    &&& raw_names.len() == entries.len()
    &&& forall|i: int|
        0 <= i < entries.len() ==> {
            &&& (#[trigger] entries[i]).fits()
            &&& field_reads(entries[i].name_field, raw_names[i])
        }
}

/// Whether entries that go by `raw_names` read as `members`, after `table` was read,
/// and leave `left` behind as the string table. An entry that goes by `//` is the
/// string table for those behind it; each of the others makes one member.
pub open spec fn read_as(
    entries: Seq<Entry>,
    raw_names: Seq<Seq<char>>,
    table: Option<Seq<u8>>,
    members: Seq<MemberView>,
    left: Option<Seq<u8>>,
) -> bool
    decreases entries.len(),
{
    if entries.len() == 0 {
        members.len() == 0 && left == table
    } else if raw_names[0] == seq!['/', '/'] {
        read_as(
            entries.drop_first(),
            raw_names.drop_first(),
            Some(entries[0].payload),
            members,
            left,
        )
    } else {
        &&& members.len() > 0
        &&& makes(raw_names[0], entries[0].payload, table, members[0].name, members[0].bytes)
        &&& read_as(
            entries.drop_first(),
            raw_names.drop_first(),
            table,
            members.drop_first(),
            left,
        )
    }
}

/// An archive as far as it can be read: the entries it starts with, the raw names
/// they go by, the members they read as, the string table they leave behind, and
/// the bytes that follow them.
pub struct Reading {
    pub entries: Seq<Entry>,
    pub raw_names: Seq<Seq<char>>,
    pub members: Seq<MemberView>,
    pub table: Option<Seq<u8>>,
    pub tail: Seq<u8>,
}

impl Reading {
    /// Whether this is a reading of the archive `data`.
    pub open spec fn of(self, data: Seq<u8>) -> bool {
        &&& data == ar_start() + laid_out_all(self.entries) + self.tail
        &&& go_by(self.entries, self.raw_names)
        &&& read_as(self.entries, self.raw_names, None, self.members, self.table)
    }
}

/// Whether `tail` starts with 60 bytes that close as a header does.
pub open spec fn has_header(tail: Seq<u8>) -> bool {
    tail.len() >= 60 && tail[58] == 96 && tail[59] == 10
}

/// Whether the header that `tail` starts with gives the size as `n`.
pub open spec fn has_size(tail: Seq<u8>, n: nat) -> bool {
    has_header(tail) && exists|size: Seq<char>| #[trigger]
        field_reads(tail.subrange(48, 58), size) && writes(size, n)
}

/// Whether `tail` is a member of odd size that nothing follows, not even the byte
/// that has to.
pub open spec fn lacks_pad(tail: Seq<u8>, table: Option<Seq<u8>>) -> bool {
    &&& tail.len() % 2 == 1
    &&& tail.len() >= 60
    &&& has_size(tail, (tail.len() - 60) as nat)
    &&& exists|raw_name: Seq<char>, name: Seq<char>, bytes: Seq<u8>|
        field_reads(tail.subrange(0, 16), raw_name) && #[trigger] makes(
            raw_name,
            tail.skip(60),
            table,
            name,
            bytes,
        )
}

/// Whether `fault` is what is wrong with `tail`, which starts at `offset` of an
/// archive, after `table` was read.
pub open spec fn breaks(
    tail: Seq<u8>,
    offset: nat,
    table: Option<Seq<u8>>,
    fault: ArchiveError,
) -> bool {
    match fault {
        ArchiveFault::NotAnArchive => false,
        ArchiveFault::TrailingBytes => 0 < tail.len() < 60 || lacks_pad(tail, table),
        ArchiveFault::InvalidHeader { offset: at } => at == offset && tail.len() >= 60
            && !has_header(tail),
        ArchiveFault::InvalidSize { offset: at, cause } => at == offset && has_header(tail)
            && exists|size: Seq<char>| #[trigger]
            field_reads(tail.subrange(48, 58), size) && writes_none(size, cause),
        ArchiveFault::OverflowingSize => exists|n: nat| #[trigger]
            has_size(tail, n) && n <= usize::MAX && offset + 60 + n > usize::MAX,
        ArchiveFault::TruncatedMember { offset: at } => at == offset && exists|n: nat| #[trigger]
            has_size(tail, n) && 60 + n > tail.len() && offset + 60 + n <= usize::MAX,
        _ => exists|n: nat, raw_name: Seq<char>| #[trigger]
            has_size(tail, n) && 60 + n <= tail.len() && #[trigger] field_reads(
                tail.subrange(0, 16),
                raw_name,
            ) && misnames(raw_name, n, table, fault),
    }
}

/// What is known of an archive from `offset` on: the entries there, and what comes
/// of them.
struct Part {
    entries: Seq<Entry>,
    raw_names: Seq<Seq<char>>,
    members: Seq<MemberView>,
    left: Option<Seq<u8>>,
}

spec fn part_of(data: Seq<u8>, offset: nat, table: Option<Seq<u8>>, part: Part) -> bool {
    &&& offset + laid_out_all(part.entries).len() <= data.len()
    &&& data.subrange(
        offset as int,
        (offset + laid_out_all(part.entries).len()) as int,
    ) == laid_out_all(part.entries)
    &&& go_by(part.entries, part.raw_names)
    &&& read_as(part.entries, part.raw_names, table, part.members, part.left)
}

proof fn lemma_header_fault(data: Seq<u8>, offset: nat, table: Option<Seq<u8>>, fault: ArchiveError)
    requires
        data.len() <= usize::MAX,
        offset + 60 <= data.len(),
        raw_member_at(data, offset) matches Err(e) && fault@ == e,
    ensures
        breaks(data.skip(offset as int), offset, table, fault),
{
    let tail = data.skip(offset as int);
    let header = data.subrange(offset as int, (offset + HEADER_LEN) as int);
    assert(header =~= tail.subrange(0, 60));
    assert(header[58] == tail[58] && header[59] == tail[59]);
    if has_header(tail) {
        let size_field = header.subrange(48, 58);
        assert(size_field =~= tail.subrange(48, 58));
        let size = strip_padding(decoded_text(size_field));
        law_field_is_read(size_field, size);
        law_text_is_read(size);
        if let Ok(n) = decimal_value(size) {
            assert(has_size(tail, n));
        }
    }
}

/// The entry whose header stands at `offset`.
spec fn entry_at(data: Seq<u8>, offset: nat, raw: RawMember) -> Entry {
    let header = data.subrange(offset as int, (offset + HEADER_LEN) as int);
    Entry {
        name_field: header.subrange(0, 16),
        unread: header.subrange(16, 48),
        size_field: header.subrange(48, 58),
        payload: payload_at(data, offset, raw),
        pad: data[raw.end as int],
    }
}

proof fn lemma_entry_at(data: Seq<u8>, offset: nat)
    requires
        data.len() <= usize::MAX,
        offset + 60 <= data.len(),
        offset % 2 == 0,
        raw_member_at(data, offset) is Ok,
    ensures
        ({
            let raw = raw_member_at(data, offset)->Ok_0;
            let entry = entry_at(data, offset, raw);
            let tail = data.skip(offset as int);
            let next = next_offset(raw.end);
            &&& offset + 60 <= raw.end <= data.len()
            &&& entry.payload.len() == raw.end - offset - 60
            &&& entry.fits()
            &&& field_reads(entry.name_field, raw.raw_name)
            &&& has_size(tail, entry.payload.len())
            &&& field_reads(tail.subrange(0, 16), raw.raw_name)
            &&& next <= data.len() ==> entry.laid_out() == data.subrange(
                offset as int,
                next as int,
            )
        }),
{
    let raw = raw_member_at(data, offset)->Ok_0;
    let entry = entry_at(data, offset, raw);
    let tail = data.skip(offset as int);
    let next = next_offset(raw.end);
    let header = data.subrange(offset as int, (offset + HEADER_LEN) as int);
    let size = strip_padding(decoded_text(header.subrange(48, 58)));
    law_field_is_read(header.subrange(48, 58), size);
    law_field_is_read(header.subrange(0, 16), raw.raw_name);
    law_text_is_read(size);
    assert(header[58] == tail[58] && header[59] == tail[59]);
    assert(header.subrange(48, 58) =~= tail.subrange(48, 58));
    assert(header.subrange(0, 16) =~= tail.subrange(0, 16));
    assert(entry.header() =~= header);
    if next <= data.len() {
        assert(entry.laid_out() =~= data.subrange(offset as int, next as int));
    }
}

/// An entry in front of a part makes a part.
proof fn lemma_part_grows(
    data: Seq<u8>,
    offset: nat,
    next: nat,
    table: Option<Seq<u8>>,
    entry: Entry,
    raw_name: Seq<char>,
    member: MemberView,
    rest: Part,
) -> (part: Part)
    requires
        offset <= next <= data.len(),
        entry.fits(),
        field_reads(entry.name_field, raw_name),
        entry.laid_out() == data.subrange(offset as int, next as int),
        makes(raw_name, entry.payload, table, member.name, member.bytes),
        part_of(
            data,
            next,
            if raw_name == seq!['/', '/'] {
                Some(entry.payload)
            } else {
                table
            },
            rest,
        ),
    ensures
        part_of(data, offset, table, part),
        offset + laid_out_all(part.entries).len() == next + laid_out_all(rest.entries).len(),
        part.left == rest.left,
        part.members == if raw_name == seq!['/', '/'] {
            rest.members
        } else {
            seq![member] + rest.members
        },
{
    let part = Part {
        entries: seq![entry] + rest.entries,
        raw_names: seq![raw_name] + rest.raw_names,
        members: if raw_name == seq!['/', '/'] {
            rest.members
        } else {
            seq![member] + rest.members
        },
        left: rest.left,
    };
    assert(part.entries.drop_first() =~= rest.entries);
    assert(part.raw_names.drop_first() =~= rest.raw_names);
    if raw_name != seq!['/', '/'] {
        assert(part.members.drop_first() =~= rest.members);
    }
    assert(laid_out_all(part.entries) == entry.laid_out() + laid_out_all(rest.entries));
    let end = offset + laid_out_all(part.entries).len();
    assert(data.subrange(offset as int, end as int) =~= data.subrange(offset as int, next as int)
        + data.subrange(next as int, end as int));
    assert forall|i: int| 0 <= i < part.entries.len() implies {
        &&& (#[trigger] part.entries[i]).fits()
        &&& field_reads(part.entries[i].name_field, part.raw_names[i])
    } by {
        if i > 0 {
            assert(part.entries[i] == rest.entries[i - 1]);
            assert(part.raw_names[i] == rest.raw_names[i - 1]);
        }
    }
    part
}

/// Whether reading goes on behind the member at `offset`.
spec fn goes_on(data: Seq<u8>, offset: nat, table: Option<Seq<u8>>) -> bool {
    &&& offset + HEADER_LEN <= data.len()
    &&& raw_member_at(data, offset) is Ok
    &&& ({
        let raw = raw_member_at(data, offset)->Ok_0;
        &&& named_member(raw.raw_name, payload_at(data, offset, raw), table) is Ok
        &&& next_offset(raw.end) <= data.len()
    })
}

/// A raw name that is wrong is what is wrong with the bytes it stands in.
proof fn lemma_misname_breaks(
    tail: Seq<u8>,
    offset: nat,
    table: Option<Seq<u8>>,
    fault: ArchiveError,
    n: nat,
    raw_name: Seq<char>,
)
    requires
        has_size(tail, n),
        60 + n <= tail.len(),
        field_reads(tail.subrange(0, 16), raw_name),
        misnames(raw_name, n, table, fault),
    ensures
        breaks(tail, offset, table, fault),
{
}

/// A last member of odd size is followed by nothing only where its pad is missing.
proof fn lemma_pad_is_missing(data: Seq<u8>, offset: nat, table: Option<Seq<u8>>)
    requires
        data.len() <= usize::MAX,
        offset + 60 <= data.len(),
        offset % 2 == 0,
        in_memory(data, table),
        raw_member_at(data, offset) is Ok,
        ({
            let raw = raw_member_at(data, offset)->Ok_0;
            &&& named_member(raw.raw_name, payload_at(data, offset, raw), table) is Ok
            &&& next_offset(raw.end) > data.len()
        }),
    ensures
        lacks_pad(data.skip(offset as int), table),
{
    let raw = raw_member_at(data, offset)->Ok_0;
    let payload = payload_at(data, offset, raw);
    let tail = data.skip(offset as int);
    lemma_entry_at(data, offset);
    let member = named_member(raw.raw_name, payload, table)->Ok_0;
    lemma_named(raw.raw_name, payload, table, ArchiveFault::NotAnArchive);
    assert(tail.skip(60) =~= payload);
    assert(makes(raw.raw_name, tail.skip(60), table, member.name, member.bytes));
}

/// Behind the end of an archive there is only a byte missing.
proof fn lemma_behind_end(data: Seq<u8>, offset: nat, table: Option<Seq<u8>>)
    requires
        offset > data.len(),
    ensures
        members_from(data, offset, table) == Err::<Seq<MemberView>, ArchiveFault<Seq<char>>>(
            ArchiveFault::TrailingBytes,
        ),
{
}

/// Where reading does not go on, the archive ends or something is wrong with it.
#[verifier::spinoff_prover]
proof fn lemma_stops(data: Seq<u8>, offset: nat, table: Option<Seq<u8>>, fault: ArchiveError)
    requires
        in_memory(data, table),
        offset <= data.len(),
        offset % 2 == 0,
        members_from(data, offset, table) matches Err(e) ==> fault@ == e,
        !goes_on(data, offset, table),
    ensures
        match members_from(data, offset, table) {
            Ok(members) => offset == data.len() && members == Seq::<MemberView>::empty(),
            Err(_) => breaks(data.skip(offset as int), offset, table, fault),
        },
{
    let tail = data.skip(offset as int);
    if offset + HEADER_LEN > data.len() {
    } else if raw_member_at(data, offset) is Err {
        lemma_header_fault(data, offset, table, fault);
    } else {
        let raw = raw_member_at(data, offset)->Ok_0;
        let payload = payload_at(data, offset, raw);
        let next = next_offset(raw.end);
        lemma_entry_at(data, offset);
        if named_member(raw.raw_name, payload, table) is Err {
            lemma_named(raw.raw_name, payload, table, fault);
            lemma_misname_breaks(tail, offset, table, fault, payload.len(), raw.raw_name);
        } else {
            lemma_behind_end(data, next, table);
            lemma_behind_end(data, next, Some(payload));
            lemma_pad_is_missing(data, offset, table);
            assert(fault@ == ArchiveFault::<Seq<char>>::TrailingBytes);
            assert(fault is TrailingBytes);
        }
    }
}

/// The string table behind an entry.
spec fn table_behind(raw: RawMember, payload: Seq<u8>, table: Option<Seq<u8>>) -> Option<Seq<u8>> {
    if raw.raw_name == table_name() {
        Some(payload)
    } else {
        table
    }
}

/// Where reading goes on, it goes on behind the member.
proof fn lemma_goes_on(data: Seq<u8>, offset: nat, table: Option<Seq<u8>>)
    requires
        goes_on(data, offset, table),
    ensures
        ({
            let raw = raw_member_at(data, offset)->Ok_0;
            let payload = payload_at(data, offset, raw);
            let rest = members_from(
                data,
                next_offset(raw.end),
                table_behind(raw, payload, table),
            );
            members_from(data, offset, table) == if raw.raw_name == table_name() {
                rest
            } else {
                after_members(seq![named_member(raw.raw_name, payload, table)->Ok_0], rest)
            }
        }),
{
}

/// What is true of the archive from `offset` on.
spec fn part_tells(
    data: Seq<u8>,
    offset: nat,
    table: Option<Seq<u8>>,
    fault: ArchiveError,
    part: Part,
) -> bool {
    let end = offset + laid_out_all(part.entries).len();
    match members_from(data, offset, table) {
        Ok(members) => end == data.len() && members == part.members,
        Err(_) => breaks(data.skip(end as int), end, part.left, fault),
    }
}

#[verifier::spinoff_prover]
proof fn lemma_part(
    data: Seq<u8>,
    offset: nat,
    table: Option<Seq<u8>>,
    fault: ArchiveError,
) -> (part: Part)
    requires
        data.len() <= usize::MAX,
        offset <= data.len(),
        offset % 2 == 0,
        table matches Some(names) ==> names.len() <= usize::MAX,
        members_from(data, offset, table) matches Err(e) ==> fault@ == e,
    ensures
        part_of(data, offset, table, part),
        part_tells(data, offset, table, fault, part),
    decreases data.len() - offset,
{
    if !goes_on(data, offset, table) {
        let nothing = Part {
            entries: Seq::empty(),
            raw_names: Seq::empty(),
            members: Seq::empty(),
            left: table,
        };
        assert(data.subrange(offset as int, offset as int) =~= Seq::empty());
        lemma_stops(data, offset, table, fault);
        nothing
    } else {
        let raw = raw_member_at(data, offset)->Ok_0;
        let payload = payload_at(data, offset, raw);
        let next = next_offset(raw.end);
        let member = named_member(raw.raw_name, payload, table)->Ok_0;
        let behind = table_behind(raw, payload, table);
        lemma_entry_at(data, offset);
        lemma_goes_on(data, offset, table);
        lemma_named(raw.raw_name, payload, table, fault);
        let rest = lemma_part(data, next, behind, fault);
        lemma_part_grows(
            data,
            offset,
            next,
            table,
            entry_at(data, offset, raw),
            raw.raw_name,
            member,
            rest,
        )
    }
}

/// The members that a caller holds.
pub open spec fn held_members(members: Seq<ArchiveMember>) -> Seq<MemberView> {
    Seq::new(
        members.len(),
        |i: int| MemberView { name: members[i].name@, bytes: members[i].bytes@ },
    )
}

/// Whether `fault` is what is wrong with the archive `data`: it does not start as an
/// archive does, or the first bytes behind the entries that can be read are wrong.
pub open spec fn is_fault_of(data: Seq<u8>, fault: ArchiveError) -> bool {
    if fault is NotAnArchive {
        data.len() < 8 || data.take(8) != ar_start()
    } else {
        exists|reading: Reading| #[trigger]
            reading.of(data) && breaks(
                reading.tail,
                (data.len() - reading.tail.len()) as nat,
                reading.table,
                fault,
            )
    }
}

/// Whether the archive `data` is laid out entry by entry to its end, and its entries
/// read as `members`.
pub open spec fn reads_to_end(data: Seq<u8>, members: Seq<MemberView>) -> bool {
    exists|reading: Reading| #[trigger]
        reading.of(data) && reading.tail.len() == 0 && reading.members == members
}

/// An archive reads as what it is: the members of the entries that make it up, or
/// what is wrong with it.
pub proof fn law_archive_is_read(data: Seq<u8>, fault: ArchiveError)
    requires
        data.len() <= usize::MAX,
        members_of(data) matches Err(e) ==> fault@ == e,
    ensures
        match members_of(data) {
            Ok(members) => reads_to_end(data, members),
            Err(_) => is_fault_of(data, fault),
        },
{
    assert(magic() =~= ar_start());
    if magic().is_prefix_of(data) {
        assert(data.take(8) =~= data.subrange(0, 8));
        let part = lemma_part(data, 8, None, fault);
        let end = 8 + laid_out_all(part.entries).len();
        let reading = Reading {
            entries: part.entries,
            raw_names: part.raw_names,
            members: part.members,
            table: part.left,
            tail: data.skip(end as int),
        };
        assert(data =~= data.subrange(0, 8) + data.subrange(8, end as int) + data.skip(end as int));
        assert(reading.of(data));
    } else if data.len() >= 8 && data.take(8) == ar_start() {
        assert(data.subrange(0, 8) =~= data.take(8));
    }
}

/// What an archive is read as is what it is. Members come back only of an archive
/// that is laid out entry by entry to its end, and they are the members that the
/// entries read as. A fault comes back only of an archive that has it.
pub proof fn law_archive_members(
    data: &[u8],
    members: Result<Vec<ArchiveMember>, ArchiveError>,
)
    requires
        call_ensures(archive_members, (data,), members),
        data@.len() <= usize::MAX,
    ensures
        match members {
            Ok(m) => reads_to_end(data@, held_members(m@)),
            Err(fault) => is_fault_of(data@, fault),
        },
{
    let fault = match members {
        Err(fault) => fault,
        Ok(_) => ArchiveFault::NotAnArchive,
    };
    law_archive_is_read(data@, fault);
    if let Ok(m) = members {
        assert(member_views(m@) =~= held_members(m@));
    }
}

proof fn lemma_read_is_resolved(
    entries: Seq<Entry>,
    raw_names: Seq<Seq<char>>,
    table: Option<Seq<u8>>,
    members: Seq<MemberView>,
    left: Option<Seq<u8>>,
)
    requires
        go_by(entries, raw_names),
        read_as(entries, raw_names, table, members, left),
        laid_out_all(entries).len() <= usize::MAX,
        table matches Some(names) ==> names.len() <= usize::MAX,
    ensures
        resolved(entries, table) == Ok::<Seq<MemberView>, ArchiveFault<Seq<char>>>(members),
    decreases entries.len(),
{
    if entries.len() > 0 {
        let entry = entries[0];
        let rest = entries.drop_first();
        let rest_names = raw_names.drop_first();
        assert(entries[0].fits());
        law_field_is_read(entry.name_field, raw_names[0]);
        assert(entry.laid_out().len() >= entry.payload.len());
        assert forall|i: int| 0 <= i < rest.len() implies {
            &&& (#[trigger] rest[i]).fits()
            &&& field_reads(rest[i].name_field, rest_names[i])
        } by {
            assert(rest[i] == entries[i + 1]);
            assert(rest_names[i] == raw_names[i + 1]);
        }
        if raw_names[0] == seq!['/', '/'] {
            assert(!bsd_mark(raw_names[0]));
            assert(raw_names[0].skip(1)[0] == '/');
            assert(!gnu_mark(raw_names[0]));
            law_names_are_told_by_their_marks(raw_names[0]);
            lemma_read_is_resolved(rest, rest_names, Some(entry.payload), members, left);
        } else {
            let first = members[0];
            lemma_made_is_named(raw_names[0], entry.payload, table, first.name, first.bytes);
            assert(first == MemberView { name: first.name, bytes: first.bytes });
            lemma_read_is_resolved(rest, rest_names, table, members.drop_first(), left);
            assert(seq![first] + members.drop_first() =~= members);
        }
    } else {
        assert(members =~= Seq::empty());
    }
}

/// Every archive that is laid out entry by entry to its end is read, and as the
/// members that its entries read as, each in its place.
pub proof fn law_laid_out_archive_is_read(
    data: &[u8],
    kept: Seq<MemberView>,
    members: Result<Vec<ArchiveMember>, ArchiveError>,
)
    requires
        call_ensures(archive_members, (data,), members),
        data@.len() <= usize::MAX,
        reads_to_end(data@, kept),
    ensures
        members matches Ok(m) && held_members(m@) == kept,
{
    let reading = choose|reading: Reading| #[trigger]
        reading.of(data@) && reading.tail.len() == 0 && reading.members == kept;
    let entries = reading.entries;
    assert(data@ =~= ar_start() + laid_out_all(entries));
    assert forall|i: int| 0 <= i < entries.len() implies (#[trigger] entries[i]).fits() by {}
    law_archive_reads_back(entries);
    lemma_read_is_resolved(entries, reading.raw_names, None, reading.members, reading.table);
    if let Ok(m) = members {
        assert(member_views(m@) =~= held_members(m@));
    }
}

/// What reading an archive returns is what `members_of` says of its bytes, member
/// by member.
pub proof fn law_archive_members_are_held(
    data: &[u8],
    members: Result<Vec<ArchiveMember>, ArchiveError>,
)
    requires
        call_ensures(archive_members, (data,), members),
    ensures
        members is Ok <==> members_of(data@) is Ok,
        members matches Ok(m) ==> held_members(m@) == members_of(data@)->Ok_0,
{
    if let Ok(m) = members {
        assert(member_views(m@) =~= held_members(m@));
    }
}

/// Whether `text` is `before`, a number, and `after`.
pub open spec fn tells_number(
    text: Seq<char>,
    before: Seq<char>,
    n: nat,
    after: Seq<char>,
) -> bool {
    exists|shown: Seq<char>| #[trigger] shows(shown, n) && text == before + shown + after
}

/// Whether `text` is `before`, a number, `between`, and another number.
pub open spec fn tells_numbers(
    text: Seq<char>,
    before: Seq<char>,
    n: nat,
    between: Seq<char>,
    m: nat,
) -> bool {
    exists|first: Seq<char>, second: Seq<char>| #[trigger]
        shows(first, n) && #[trigger] shows(second, m) && text == before + first + between + second
}

/// A fault is reported with the archive it is in, where the fault is one of the
/// archive, and with every number, text and cause that the fault holds.
pub proof fn law_fault_is_reported(fault: &ArchiveError, archive: &str, text: String)
    requires
        call_ensures(ArchiveFault::<String>::message, (fault, archive), text),
    ensures
        match *fault {
            ArchiveFault::NotAnArchive => text@ == archive@ + " is not an ar archive"@,
            ArchiveFault::InvalidHeader { offset } => tells_number(
                text@,
                archive@ + " has an invalid ar header at byte "@,
                offset as nat,
                Seq::empty(),
            ),
            ArchiveFault::InvalidSize { offset, cause } => tells_number(
                text@,
                archive@ + " has an invalid ar member size at byte "@,
                offset as nat,
                ": "@ + explanation(cause),
            ),
            ArchiveFault::OverflowingSize => text@ == archive@
                + " has an overflowing ar member size"@,
            ArchiveFault::TruncatedMember { offset } => tells_number(
                text@,
                archive@ + " has a truncated ar member at byte "@,
                offset as nat,
                Seq::empty(),
            ),
            ArchiveFault::TrailingBytes => text@ == archive@
                + " has trailing bytes after the final ar member"@,
            ArchiveFault::BsdNameLength { text: length, cause } => text@
                == "invalid BSD ar extended-name length `"@ + length@ + "`: "@ + explanation(cause),
            ArchiveFault::BsdNameTooLong { name_len, payload_len } => tells_numbers(
                text@,
                "BSD ar extended-name length "@,
                name_len as nat,
                " exceeds member payload size "@,
                payload_len as nat,
            ),
            ArchiveFault::GnuNameOffset { text: offset, cause } => text@
                == "invalid GNU ar long-name offset `"@ + offset@ + "`: "@ + explanation(cause),
            ArchiveFault::MissingNameTable => text@
                == "GNU ar long-name member appeared before the string table"@,
            ArchiveFault::GnuNameOutOfTable { offset, table_len } => tells_numbers(
                text@,
                "GNU ar long-name offset "@,
                offset as nat,
                " exceeds string table size "@,
                table_len as nat,
            ),
        },
{
    match *fault {
        ArchiveFault::InvalidHeader { offset } => {
            let shown = decimal_text(offset as nat);
            law_decimal_text_shows_number(offset as nat);
            assert(shows(shown, offset as nat));
            assert(text@ =~= archive@ + " has an invalid ar header at byte "@ + shown
                + Seq::<char>::empty());
        },
        ArchiveFault::InvalidSize { offset, cause } => {
            let shown = decimal_text(offset as nat);
            law_decimal_text_shows_number(offset as nat);
            assert(shows(shown, offset as nat));
            assert(text@ =~= archive@ + " has an invalid ar member size at byte "@ + shown + (": "@
                + explanation(cause)));
        },
        ArchiveFault::TruncatedMember { offset } => {
            let shown = decimal_text(offset as nat);
            law_decimal_text_shows_number(offset as nat);
            assert(shows(shown, offset as nat));
            assert(text@ =~= archive@ + " has a truncated ar member at byte "@ + shown
                + Seq::<char>::empty());
        },
        ArchiveFault::BsdNameTooLong { name_len, payload_len } => {
            law_decimal_text_shows_number(name_len as nat);
            law_decimal_text_shows_number(payload_len as nat);
        },
        ArchiveFault::GnuNameOutOfTable { offset, table_len } => {
            law_decimal_text_shows_number(offset as nat);
            law_decimal_text_shows_number(table_len as nat);
        },
        _ => {},
    }
}

} // verus!

//! Reading the members of an `ar` archive, in its BSD and GNU dialects.

use vstd::prelude::*;
use vstd::slice::{slice_subrange, slice_to_vec};
use vstd::utf8::valid_utf8;

use crate::text::{
    chars_of, decimal, decimal_text, decimal_value, decoded_text, is_digit, law_decimal_value,
    lossy_text, parse_decimal, replacement_char, string_of, DecimalError,
};

verus! {

/// The length of the header in front of each member.
pub const HEADER_LEN: usize = 60;

/// One member of an archive: its name and its contents.
#[derive(Debug, PartialEq, Eq)]
pub struct ArchiveMember {
    pub name: String,
    pub bytes: Vec<u8>,
}

/// What an [`ArchiveMember`] stands for.
#[verifier::ext_equal]
pub struct MemberView {
    pub name: Seq<char>,
    pub bytes: Seq<u8>,
}

impl View for ArchiveMember {
    type V = MemberView;

    open spec fn view(&self) -> MemberView {
        MemberView { name: self.name@, bytes: self.bytes@ }
    }
}

/// What can be wrong with an archive. `Text` is `String` in code and
/// `Seq<char>` in contracts.
#[derive(Debug, PartialEq, Eq)]
pub enum ArchiveFault<Text> {
    /// The archive does not start with the `ar` magic.
    NotAnArchive,
    /// The header at `offset` does not end in its two closing bytes.
    InvalidHeader { offset: usize },
    /// The size field of the header at `offset` is no number.
    InvalidSize { offset: usize, cause: DecimalError },
    /// The end of a member cannot be expressed as a `usize`.
    OverflowingSize,
    /// The member at `offset` reaches past the end of the archive.
    TruncatedMember { offset: usize },
    /// The bytes after the last member are no member.
    TrailingBytes,
    /// The length in a BSD extended name is no number.
    BsdNameLength { text: Text, cause: DecimalError },
    /// A BSD extended name is longer than its member.
    BsdNameTooLong { name_len: usize, payload_len: usize },
    /// The offset of a GNU long name is no number.
    GnuNameOffset { text: Text, cause: DecimalError },
    /// A GNU long name came before the string table.
    MissingNameTable,
    /// The offset of a GNU long name lies outside the string table.
    GnuNameOutOfTable { offset: usize, table_len: usize },
}

/// An [`ArchiveFault`] as code holds it.
pub type ArchiveError = ArchiveFault<String>;

impl View for ArchiveFault<String> {
    type V = ArchiveFault<Seq<char>>;

    open spec fn view(&self) -> ArchiveFault<Seq<char>> {
        match *self {
            ArchiveFault::NotAnArchive => ArchiveFault::NotAnArchive,
            ArchiveFault::InvalidHeader { offset } => ArchiveFault::InvalidHeader { offset },
            ArchiveFault::InvalidSize { offset, cause } => ArchiveFault::InvalidSize {
                offset,
                cause,
            },
            ArchiveFault::OverflowingSize => ArchiveFault::OverflowingSize,
            ArchiveFault::TruncatedMember { offset } => ArchiveFault::TruncatedMember { offset },
            ArchiveFault::TrailingBytes => ArchiveFault::TrailingBytes,
            ArchiveFault::BsdNameLength { text, cause } => ArchiveFault::BsdNameLength {
                text: text@,
                cause,
            },
            ArchiveFault::BsdNameTooLong { name_len, payload_len } => ArchiveFault::BsdNameTooLong {
                name_len,
                payload_len,
            },
            ArchiveFault::GnuNameOffset { text, cause } => ArchiveFault::GnuNameOffset {
                text: text@,
                cause,
            },
            ArchiveFault::MissingNameTable => ArchiveFault::MissingNameTable,
            ArchiveFault::GnuNameOutOfTable { offset, table_len } =>
                ArchiveFault::GnuNameOutOfTable { offset, table_len },
        }
    }
}

impl ArchiveFault<Seq<char>> {
    /// The sentence that reports the fault, for the archive shown as `archive`.
    pub open spec fn text(self, archive: Seq<char>) -> Seq<char> {
        match self {
            ArchiveFault::NotAnArchive => archive + " is not an ar archive"@,
            ArchiveFault::InvalidHeader { offset } => archive
                + " has an invalid ar header at byte "@ + decimal_text(offset as nat),
            ArchiveFault::InvalidSize { offset, cause } => archive
                + " has an invalid ar member size at byte "@ + decimal_text(offset as nat) + ": "@
                + cause.text(),
            ArchiveFault::OverflowingSize => archive + " has an overflowing ar member size"@,
            ArchiveFault::TruncatedMember { offset } => archive
                + " has a truncated ar member at byte "@ + decimal_text(offset as nat),
            ArchiveFault::TrailingBytes => archive
                + " has trailing bytes after the final ar member"@,
            ArchiveFault::BsdNameLength { text, cause } =>
                "invalid BSD ar extended-name length `"@ + text + "`: "@ + cause.text(),
            ArchiveFault::BsdNameTooLong { name_len, payload_len } =>
                "BSD ar extended-name length "@ + decimal_text(name_len as nat)
                + " exceeds member payload size "@ + decimal_text(payload_len as nat),
            ArchiveFault::GnuNameOffset { text, cause } => "invalid GNU ar long-name offset `"@
                + text + "`: "@ + cause.text(),
            ArchiveFault::MissingNameTable =>
                "GNU ar long-name member appeared before the string table"@,
            ArchiveFault::GnuNameOutOfTable { offset, table_len } => "GNU ar long-name offset "@
                + decimal_text(offset as nat) + " exceeds string table size "@ + decimal_text(
                table_len as nat,
            ),
        }
    }
}

impl ArchiveFault<String> {
    /// Reports the fault in a sentence. `archive` is how the path of the
    /// archive is shown to the user.
    pub fn message(&self, archive: &str) -> (text: String)
        ensures
            text@ == self@.text(archive@),
    {
        let mut text = String::new();
        match self {
            ArchiveFault::NotAnArchive => {
                text.append(archive);
                text.append(" is not an ar archive");
            },
            ArchiveFault::InvalidHeader { offset } => {
                text.append(archive);
                text.append(" has an invalid ar header at byte ");
                text.append(decimal(*offset).as_str());
            },
            ArchiveFault::InvalidSize { offset, cause } => {
                text.append(archive);
                text.append(" has an invalid ar member size at byte ");
                text.append(decimal(*offset).as_str());
                text.append(": ");
                text.append(cause.message());
            },
            ArchiveFault::OverflowingSize => {
                text.append(archive);
                text.append(" has an overflowing ar member size");
            },
            ArchiveFault::TruncatedMember { offset } => {
                text.append(archive);
                text.append(" has a truncated ar member at byte ");
                text.append(decimal(*offset).as_str());
            },
            ArchiveFault::TrailingBytes => {
                text.append(archive);
                text.append(" has trailing bytes after the final ar member");
            },
            ArchiveFault::BsdNameLength { text: length, cause } => {
                text.append("invalid BSD ar extended-name length `");
                text.append(length.as_str());
                text.append("`: ");
                text.append(cause.message());
            },
            ArchiveFault::BsdNameTooLong { name_len, payload_len } => {
                text.append("BSD ar extended-name length ");
                text.append(decimal(*name_len).as_str());
                text.append(" exceeds member payload size ");
                text.append(decimal(*payload_len).as_str());
            },
            ArchiveFault::GnuNameOffset { text: offset, cause } => {
                text.append("invalid GNU ar long-name offset `");
                text.append(offset.as_str());
                text.append("`: ");
                text.append(cause.message());
            },
            ArchiveFault::MissingNameTable => {
                text.append("GNU ar long-name member appeared before the string table");
            },
            ArchiveFault::GnuNameOutOfTable { offset, table_len } => {
                text.append("GNU ar long-name offset ");
                text.append(decimal(*offset).as_str());
                text.append(" exceeds string table size ");
                text.append(decimal(*table_len).as_str());
            },
        }
        assert(text@ =~= self@.text(archive@));
        text
    }
}

/// Whether a header field is padded with `ch`.
pub open spec fn is_padding(ch: char) -> bool {
    ch == ' ' || ch == '\0'
}

/// `text` without the padding at its end.
pub open spec fn strip_padding_end(text: Seq<char>) -> Seq<char>
    decreases text.len(),
{
    if text.len() > 0 && is_padding(text.last()) {
        strip_padding_end(text.drop_last())
    } else {
        text
    }
}

/// `text` without the padding at its start.
pub open spec fn strip_padding_start(text: Seq<char>) -> Seq<char>
    decreases text.len(),
{
    if text.len() > 0 && is_padding(text.first()) {
        strip_padding_start(text.drop_first())
    } else {
        text
    }
}

/// `text` without the padding at either end.
pub open spec fn strip_padding(text: Seq<char>) -> Seq<char> {
    strip_padding_start(strip_padding_end(text))
}

/// Removes the padding, spaces and NULs, at either end of a header field.
pub fn trim_field(text: &str) -> (field: String)
    ensures
        field@ == strip_padding(text@),
{
    let chars = chars_of(text);
    let mut end: usize = chars.len();
    assert(chars@.take(end as int) =~= text@);
    while end > 0 && (chars[end - 1] == ' ' || chars[end - 1] == '\0')
        invariant
            end <= chars@.len(),
            strip_padding_end(text@) == strip_padding_end(chars@.take(end as int)),
        decreases end,
    {
        assert(chars@.take(end as int).drop_last() =~= chars@.take(end - 1));
        assert(chars@.take(end as int).last() == chars@[end - 1]);
        end = end - 1;
    }
    assert(end > 0 ==> chars@.take(end as int).last() == chars@[end - 1]);
    let mut start: usize = 0;
    assert(chars@.subrange(0, end as int) =~= chars@.take(end as int));
    while start < end && (chars[start] == ' ' || chars[start] == '\0')
        invariant
            start <= end <= chars@.len(),
            strip_padding(text@) == strip_padding_start(
                chars@.subrange(start as int, end as int),
            ),
        decreases end - start,
    {
        assert(chars@.subrange(start as int, end as int).drop_first() =~= chars@.subrange(
            start + 1,
            end as int,
        ));
        start = start + 1;
    }
    string_of(chars.as_slice(), start, end)
}

proof fn lemma_strip_padding_keeps(text: Seq<char>, ch: char)
    requires
        text.contains(ch),
        !is_padding(ch),
    ensures
        strip_padding(text).contains(ch),
{
    lemma_strip_padding_end_keeps(text, ch);
    lemma_strip_padding_start_keeps(strip_padding_end(text), ch);
}

proof fn lemma_strip_padding_end_keeps(text: Seq<char>, ch: char)
    requires
        text.contains(ch),
        !is_padding(ch),
    ensures
        strip_padding_end(text).contains(ch),
    decreases text.len(),
{
    if is_padding(text.last()) {
        let i = choose|i: int| 0 <= i < text.len() && text[i] == ch;
        assert(text.drop_last()[i] == ch);
        lemma_strip_padding_end_keeps(text.drop_last(), ch);
    }
}

proof fn lemma_strip_padding_start_keeps(text: Seq<char>, ch: char)
    requires
        text.contains(ch),
        !is_padding(ch),
    ensures
        strip_padding_start(text).contains(ch),
    decreases text.len(),
{
    if is_padding(text.first()) {
        let i = choose|i: int| 0 <= i < text.len() && text[i] == ch;
        assert(text.drop_first()[i - 1] == ch);
        lemma_strip_padding_start_keeps(text.drop_first(), ch);
    }
}

/// Reads a padded text field of a member header. A field that is not valid UTF-8
/// shows as a text with a replacement character, so it never passes for a
/// number.
pub fn ascii_field(field: &[u8]) -> (text: String)
    ensures
        text@ == strip_padding(decoded_text(field@)),
        !valid_utf8(field@) ==> text@.contains(replacement_char()) && decimal_value(text@) is Err,
{
    let decoded = lossy_text(field);
    let text = trim_field(decoded.as_str());
    proof {
        if !valid_utf8(field@) {
            lemma_strip_padding_keeps(decoded@, replacement_char());
            let i = choose|i: int| 0 <= i < text@.len() && text@[i] == replacement_char();
            law_decimal_value(text@);
            assert(!is_digit(text@[i]));
            if text@.len() > 1 && text@[0] == '+' {
                assert(text@.drop_first()[i - 1] == text@[i]);
            }
        }
    }
    text
}

/// Whether `ch` closes a stored member name: the GNU terminator, or padding.
pub open spec fn is_name_end(ch: char) -> bool {
    ch == '\0' || ch == '/'
}

/// `name` without the terminators at its end.
pub open spec fn strip_name_end(name: Seq<char>) -> Seq<char>
    decreases name.len(),
{
    if name.len() > 0 && is_name_end(name.last()) {
        strip_name_end(name.drop_last())
    } else {
        name
    }
}

/// The name of a member: the stored name without the NULs and slashes that
/// close it.
pub fn archive_member_name(name: &str) -> (stripped: String)
    ensures
        stripped@ == strip_name_end(name@),
{
    let chars = chars_of(name);
    let mut end: usize = chars.len();
    assert(chars@.take(end as int) =~= name@);
    while end > 0 && (chars[end - 1] == '\0' || chars[end - 1] == '/')
        invariant
            end <= chars@.len(),
            strip_name_end(name@) == strip_name_end(chars@.take(end as int)),
        decreases end,
    {
        assert(chars@.take(end as int).drop_last() =~= chars@.take(end - 1));
        assert(chars@.take(end as int).last() == chars@[end - 1]);
        end = end - 1;
    }
    assert(end > 0 ==> chars@.take(end as int).last() == chars@[end - 1]);
    assert(chars@.subrange(0, end as int) =~= chars@.take(end as int));
    string_of(chars.as_slice(), 0, end)
}

/// The character that stands for `ch` in a file name.
pub open spec fn filename_char(ch: char) -> char {
    if ch == '/' || ch == '\\' || ch == ':' {
        '_'
    } else {
        ch
    }
}

/// A member name in a form that a single file can be named: each path
/// separator becomes an underscore.
pub fn archive_member_filename(name: &str) -> (filename: String)
    ensures
        filename@ == name@.map_values(|ch: char| filename_char(ch)),
{
    let chars = chars_of(name);
    let mut filename = String::new();
    let mut i: usize = 0;
    while i < chars.len()
        invariant
            i <= chars@.len(),
            filename@ =~= chars@.take(i as int).map_values(|ch: char| filename_char(ch)),
        decreases chars.len() - i,
    {
        let ch = chars[i];
        if ch == '/' || ch == '\\' || ch == ':' {
            filename.push('_');
        } else {
            filename.push(ch);
        }
        i = i + 1;
    }
    assert(chars@.take(i as int) =~= name@);
    filename
}

/// Where the name of a member is stored.
#[derive(Debug, Clone, Copy, PartialEq, Eq, Structural)]
pub enum NameSource {
    /// In the first bytes of the payload, as many as given.
    Payload(usize),
    /// In the string table, from the first offset up to, not with, the second.
    Table(usize, usize),
    /// In the header itself.
    Header,
}

/// The raw name of the member that holds the GNU string table.
pub open spec fn table_name() -> Seq<char> {
    seq!['/', '/']
}

/// The offset of the first newline at or after `start`, or the table's length.
pub open spec fn line_end(table: Seq<u8>, start: nat) -> nat
    decreases table.len() - start,
{
    if start >= table.len() {
        table.len()
    } else if table[start as int] == 10 {
        start
    } else {
        line_end(table, start + 1)
    }
}

/// Whether `raw_name` is a BSD extended name, `#1/` and a length.
pub open spec fn is_bsd_extended(raw_name: Seq<char>) -> bool {
    seq!['#', '1', '/'].is_prefix_of(raw_name)
}

/// Whether `raw_name` is a GNU long name, a slash and an offset.
pub open spec fn is_gnu_long(raw_name: Seq<char>) -> bool {
    &&& raw_name.len() > 1
    &&& raw_name[0] == '/'
    &&& forall|i: int| 1 <= i < raw_name.len() ==> is_digit(#[trigger] raw_name[i])
}

/// Where the name of a member is stored, given its raw name, the length of its
/// payload and the GNU string table read so far.
pub open spec fn name_source(
    raw_name: Seq<char>,
    payload_len: nat,
    table: Option<Seq<u8>>,
) -> Result<NameSource, ArchiveFault<Seq<char>>> {
    if is_bsd_extended(raw_name) {
        match decimal_value(raw_name.skip(3)) {
            Err(cause) => Err(ArchiveFault::BsdNameLength { text: raw_name.skip(3), cause }),
            Ok(name_len) => if name_len > payload_len {
                Err(
                    ArchiveFault::BsdNameTooLong {
                        name_len: name_len as usize,
                        payload_len: payload_len as usize,
                    },
                )
            } else {
                Ok(NameSource::Payload(name_len as usize))
            },
        }
    } else if is_gnu_long(raw_name) {
        match (decimal_value(raw_name.skip(1)), table) {
            (Err(cause), _) => Err(
                ArchiveFault::GnuNameOffset { text: raw_name.skip(1), cause },
            ),
            (Ok(_), None) => Err(ArchiveFault::MissingNameTable),
            (Ok(offset), Some(names)) => if offset >= names.len() {
                Err(
                    ArchiveFault::GnuNameOutOfTable {
                        offset: offset as usize,
                        table_len: names.len() as usize,
                    },
                )
            } else {
                Ok(NameSource::Table(offset as usize, line_end(names, offset) as usize))
            },
        }
    } else {
        Ok(NameSource::Header)
    }
}

/// `None` for no table, the bytes of the table otherwise.
pub open spec fn table_view(table: Option<&[u8]>) -> Option<Seq<u8>> {
    match table {
        None => None,
        Some(names) => Some(names@),
    }
}

/// Finds where the name of a member is stored.
pub fn locate_member_name(
    raw_name: &str,
    payload_len: usize,
    gnu_names: Option<&[u8]>,
) -> (source: Result<NameSource, ArchiveError>)
    ensures
        match (source, name_source(raw_name@, payload_len as nat, table_view(gnu_names))) {
            (Ok(s), Ok(t)) => s == t,
            (Err(e), Err(f)) => e@ == f,
            _ => false,
        },
{
    let chars = chars_of(raw_name);
    if chars.len() >= 3 && chars[0] == '#' && chars[1] == '1' && chars[2] == '/' {
        assert(is_bsd_extended(raw_name@));
        let text = string_of(chars.as_slice(), 3, chars.len());
        assert(text@ =~= raw_name@.skip(3));
        return match parse_decimal(text.as_str()) {
            Err(cause) => Err(ArchiveFault::BsdNameLength { text, cause }),
            Ok(name_len) => if name_len > payload_len {
                Err(ArchiveFault::BsdNameTooLong { name_len, payload_len })
            } else {
                Ok(NameSource::Payload(name_len))
            },
        };
    }
    assert(!is_bsd_extended(raw_name@)) by {
        if is_bsd_extended(raw_name@) {
            let prefix = seq!['#', '1', '/'];
            assert(prefix[0] == raw_name@[0] && prefix[1] == raw_name@[1] && prefix[2]
                == raw_name@[2]);
        }
    }
    if !gnu_long_name(&chars) {
        return Ok(NameSource::Header);
    }
    let text = string_of(chars.as_slice(), 1, chars.len());
    assert(text@ =~= raw_name@.skip(1));
    match parse_decimal(text.as_str()) {
        Err(cause) => Err(ArchiveFault::GnuNameOffset { text, cause }),
        Ok(offset) => match gnu_names {
            None => Err(ArchiveFault::MissingNameTable),
            Some(names) => if offset >= names.len() {
                Err(ArchiveFault::GnuNameOutOfTable { offset, table_len: names.len() })
            } else {
                let end: usize = find_line_end(names, offset);
                Ok(NameSource::Table(offset, end))
            },
        },
    }
}

fn gnu_long_name(chars: &Vec<char>) -> (long: bool)
    ensures
        long == is_gnu_long(chars@),
{
    if chars.len() < 2 || chars[0] != '/' {
        return false;
    }
    let mut i: usize = 1;
    while i < chars.len()
        invariant
            1 <= i <= chars@.len(),
            forall|j: int| 1 <= j < i ==> is_digit(#[trigger] chars@[j]),
        decreases chars.len() - i,
    {
        if chars[i] < '0' || '9' < chars[i] {
            return false;
        }
        i = i + 1;
    }
    true
}

fn find_line_end(table: &[u8], start: usize) -> (end: usize)
    requires
        start <= table@.len(),
    ensures
        end == line_end(table@, start as nat),
        start <= end <= table@.len(),
{
    let mut end: usize = start;
    while end < table.len() && table[end] != 10
        invariant
            start <= end <= table@.len(),
            line_end(table@, start as nat) == line_end(table@, end as nat),
        decreases table.len() - end,
    {
        end = end + 1;
    }
    end
}

/// The member that a raw name and a payload make.
pub open spec fn named_member(
    raw_name: Seq<char>,
    payload: Seq<u8>,
    table: Option<Seq<u8>>,
) -> Result<MemberView, ArchiveFault<Seq<char>>> {
    match name_source(raw_name, payload.len(), table) {
        Err(e) => Err(e),
        Ok(NameSource::Payload(n)) => Ok(
            MemberView {
                name: strip_name_end(decoded_text(payload.take(n as int))),
                bytes: payload.skip(n as int),
            },
        ),
        Ok(NameSource::Table(start, end)) => Ok(
            MemberView {
                name: strip_name_end(
                    decoded_text(table.unwrap().subrange(start as int, end as int)),
                ),
                bytes: payload,
            },
        ),
        Ok(NameSource::Header) => Ok(
            MemberView { name: strip_name_end(raw_name), bytes: payload },
        ),
    }
}

/// Resolves the name of a member and separates it from its contents.
pub fn parse_archive_member(
    raw_name: &str,
    payload: &[u8],
    gnu_names: Option<&[u8]>,
) -> (member: Result<(String, Vec<u8>), ArchiveError>)
    ensures
        match (member, named_member(raw_name@, payload@, table_view(gnu_names))) {
            (Ok(m), Ok(n)) => m.0@ == n.name && m.1@ == n.bytes,
            (Err(e), Err(f)) => e@ == f,
            _ => false,
        },
{
    match locate_member_name(raw_name, payload.len(), gnu_names) {
        Err(e) => Err(e),
        Ok(NameSource::Payload(n)) => {
            let stored = lossy_text(slice_subrange(payload, 0, n));
            assert(payload@.subrange(0, n as int) =~= payload@.take(n as int));
            assert(payload@.subrange(n as int, payload@.len() as int) =~= payload@.skip(n as int));
            Ok(
                (
                    archive_member_name(stored.as_str()),
                    slice_to_vec(slice_subrange(payload, n, payload.len())),
                ),
            )
        },
        Ok(NameSource::Table(start, end)) => match gnu_names {
            None => Err(ArchiveFault::MissingNameTable),
            Some(names) => {
                proof {
                    assert(start < names.len());
                    lemma_line_end_bounds(names@, start as nat);
                }
                let stored = lossy_text(slice_subrange(names, start, end));
                Ok((archive_member_name(stored.as_str()), slice_to_vec(payload)))
            },
        },
        Ok(NameSource::Header) => Ok((archive_member_name(raw_name), slice_to_vec(payload))),
    }
}

proof fn lemma_line_end_bounds(table: Seq<u8>, start: nat)
    ensures
        start <= table.len() ==> start <= line_end(table, start) <= table.len(),
    decreases table.len() - start,
{
    if start < table.len() && table[start as int] != 10 {
        lemma_line_end_bounds(table, start + 1);
    }
}

/// The bytes that every archive starts with, `!<arch>` and a newline.
pub open spec fn magic() -> Seq<u8> {
    seq![33u8, 60u8, 97u8, 114u8, 99u8, 104u8, 62u8, 10u8]
}

/// Where the payload ends of the member whose header starts at `offset` and
/// whose size field reads `size_text`, in an archive of `archive_len` bytes.
pub open spec fn payload_end(
    size_text: Seq<char>,
    offset: nat,
    archive_len: nat,
) -> Result<nat, ArchiveFault<Seq<char>>> {
    match decimal_value(size_text) {
        Err(cause) => Err(ArchiveFault::InvalidSize { offset: offset as usize, cause }),
        Ok(size) => if offset + HEADER_LEN + size > usize::MAX {
            Err(ArchiveFault::OverflowingSize)
        } else if offset + HEADER_LEN + size > archive_len {
            Err(ArchiveFault::TruncatedMember { offset: offset as usize })
        } else {
            Ok((offset + HEADER_LEN + size) as nat)
        },
    }
}

/// Finds where the payload of the member at `offset` ends.
pub fn locate_payload_end(size_text: &str, offset: usize, archive_len: usize) -> (end: Result<
    usize,
    ArchiveError,
>)
    ensures
        match (end, payload_end(size_text@, offset as nat, archive_len as nat)) {
            (Ok(n), Ok(m)) => n == m,
            (Err(e), Err(f)) => e@ == f,
            _ => false,
        },
{
    match parse_decimal(size_text) {
        Err(cause) => Err(ArchiveFault::InvalidSize { offset, cause }),
        Ok(size) => match offset.checked_add(HEADER_LEN) {
            None => Err(ArchiveFault::OverflowingSize),
            Some(start) => match start.checked_add(size) {
                None => Err(ArchiveFault::OverflowingSize),
                Some(end) => if end > archive_len {
                    Err(ArchiveFault::TruncatedMember { offset })
                } else {
                    Ok(end)
                },
            },
        },
    }
}

/// A member as it lies in the archive: its raw name, and where its payload ends.
#[verifier::ext_equal]
pub struct RawMember {
    pub raw_name: Seq<char>,
    pub end: nat,
}

/// The member whose header starts at `offset`.
pub open spec fn raw_member_at(data: Seq<u8>, offset: nat) -> Result<
    RawMember,
    ArchiveFault<Seq<char>>,
> {
    let header = data.subrange(offset as int, (offset + HEADER_LEN) as int);
    if header[58] != 96 || header[59] != 10 {
        Err(ArchiveFault::InvalidHeader { offset: offset as usize })
    } else {
        let size_text = strip_padding(decoded_text(header.subrange(48, 58)));
        match payload_end(size_text, offset, data.len()) {
            Err(e) => Err(e),
            Ok(end) => Ok(
                RawMember { raw_name: strip_padding(decoded_text(header.subrange(0, 16))), end },
            ),
        }
    }
}

/// The payload of the member whose header starts at `offset`.
pub open spec fn payload_at(data: Seq<u8>, offset: nat, raw: RawMember) -> Seq<u8> {
    data.subrange((offset + HEADER_LEN) as int, raw.end as int)
}

/// The first offset after a payload that ends at `end`: members start at even
/// offsets.
pub open spec fn next_offset(end: nat) -> nat {
    end + end % 2
}

/// The members from `offset` on. `table` is the GNU string table read so far;
/// the member that holds the table is not among the members.
pub open spec fn members_from(data: Seq<u8>, offset: nat, table: Option<Seq<u8>>) -> Result<
    Seq<MemberView>,
    ArchiveFault<Seq<char>>,
>
    decreases data.len() + 1 - offset,
{
    if offset + HEADER_LEN > data.len() {
        if offset == data.len() {
            Ok(Seq::empty())
        } else {
            Err(ArchiveFault::TrailingBytes)
        }
    } else {
        match raw_member_at(data, offset) {
            Err(e) => Err(e),
            Ok(raw) => {
                let payload = payload_at(data, offset, raw);
                match named_member(raw.raw_name, payload, table) {
                    Err(e) => Err(e),
                    Ok(member) => if raw.raw_name == table_name() {
                        members_from(data, next_offset(raw.end), Some(payload))
                    } else {
                        after_members(
                            seq![member],
                            members_from(data, next_offset(raw.end), table),
                        )
                    },
                }
            },
        }
    }
}

/// `members` in front of the members that follow, or the fault that follows.
pub open spec fn after_members(
    members: Seq<MemberView>,
    rest: Result<Seq<MemberView>, ArchiveFault<Seq<char>>>,
) -> Result<Seq<MemberView>, ArchiveFault<Seq<char>>> {
    match rest {
        Err(e) => Err(e),
        Ok(following) => Ok(members + following),
    }
}

/// The members of an archive.
pub open spec fn members_of(data: Seq<u8>) -> Result<Seq<MemberView>, ArchiveFault<Seq<char>>> {
    if !magic().is_prefix_of(data) {
        Err(ArchiveFault::NotAnArchive)
    } else {
        members_from(data, magic().len(), None)
    }
}

/// What a sequence of members stands for.
pub open spec fn member_views(members: Seq<ArchiveMember>) -> Seq<MemberView> {
    members.map_values(|m: ArchiveMember| m@)
}

fn has_magic(data: &[u8]) -> (has: bool)
    ensures
        has == magic().is_prefix_of(data@),
{
    let has = data.len() >= 8 && data[0] == 33 && data[1] == 60 && data[2] == 97 && data[3] == 114
        && data[4] == 99 && data[5] == 104 && data[6] == 62 && data[7] == 10;
    proof {
        if has {
            assert(data@.subrange(0, 8) =~= magic());
        } else if magic().is_prefix_of(data@) {
            assert forall|i: int| 0 <= i < 8 implies data@[i] == magic()[i] by {
                assert(data@.subrange(0, 8)[i] == magic()[i]);
            }
        }
    }
    has
}

/// Reads the header at `offset`: the raw name of the member, and where its
/// payload ends.
fn read_header(data: &[u8], offset: usize) -> (header: Result<(String, usize), ArchiveError>)
    requires
        offset + HEADER_LEN <= data.len(),
    ensures
        match (header, raw_member_at(data@, offset as nat)) {
            (Ok(h), Ok(raw)) => h.0@ == raw.raw_name && h.1 == raw.end,
            (Err(e), Err(f)) => e@ == f,
            _ => false,
        },
{
    let header = slice_subrange(data, offset, offset + HEADER_LEN);
    if header[58] != 96 || header[59] != 10 {
        return Err(ArchiveFault::InvalidHeader { offset });
    }
    let raw_name = ascii_field(slice_subrange(header, 0, 16));
    let size_text = ascii_field(slice_subrange(header, 48, 58));
    match locate_payload_end(size_text.as_str(), offset, data.len()) {
        Err(e) => Err(e),
        Ok(end) => Ok((raw_name, end)),
    }
}

fn is_table_name(raw_name: &str) -> (is_table: bool)
    ensures
        is_table == (raw_name@ == table_name()),
{
    let chars = chars_of(raw_name);
    let is_table = chars.len() == 2 && chars[0] == '/' && chars[1] == '/';
    assert(is_table ==> raw_name@ =~= table_name());
    is_table
}

/// Reads the members of an archive, in order.
pub fn archive_members(data: &[u8]) -> (members: Result<Vec<ArchiveMember>, ArchiveError>)
    ensures
        match (members, members_of(data@)) {
            (Ok(m), Ok(n)) => member_views(m@) == n,
            (Err(e), Err(f)) => e@ == f,
            _ => false,
        },
{
    if !has_magic(data) {
        return Err(ArchiveFault::NotAnArchive);
    }
    let mut members: Vec<ArchiveMember> = Vec::new();
    let mut gnu_names: Option<&[u8]> = None;
    let mut offset: usize = 8;
    proof {
        let all = members_of(data@);
        assert(all is Ok ==> Seq::<MemberView>::empty() + all->Ok_0 =~= all->Ok_0);
        assert(member_views(members@) =~= Seq::empty());
    }
    while data.len() >= HEADER_LEN && offset <= data.len() - HEADER_LEN
        invariant
            offset <= data@.len(),
            members_of(data@) == after_members(
                member_views(members@),
                members_from(data@, offset as nat, table_view(gnu_names)),
            ),
        decreases data.len() - offset,
    {
        let ghost before = member_views(members@);
        let ghost table = table_view(gnu_names);
        let (raw_name, end) = match read_header(data, offset) {
            Err(e) => return Err(e),
            Ok(header) => header,
        };
        let payload = slice_subrange(data, offset + HEADER_LEN, end);
        let ghost raw = raw_member_at(data@, offset as nat)->Ok_0;
        assert(payload@ == payload_at(data@, offset as nat, raw));
        let (name, bytes) = match parse_archive_member(raw_name.as_str(), payload, gnu_names) {
            Err(e) => return Err(e),
            Ok(member) => member,
        };
        let ghost member = named_member(raw_name@, payload@, table)->Ok_0;
        if is_table_name(raw_name.as_str()) {
            gnu_names = Some(payload);
        } else {
            members.push(ArchiveMember { name, bytes });
            proof {
                let rest = members_from(data@, next_offset(end as nat), table);
                assert(member_views(members@) =~= before.push(member));
                assert(rest is Ok ==> before + (seq![member] + rest->Ok_0) =~= before.push(member)
                    + rest->Ok_0);
            }
        }
        if end % 2 == 1 {
            if end == data.len() {
                assert(members_from(data@, next_offset(end as nat), table_view(gnu_names)) is Err);
                return Err(ArchiveFault::TrailingBytes);
            }
            offset = end + 1;
        } else {
            offset = end;
        }
    }
    if offset != data.len() {
        return Err(ArchiveFault::TrailingBytes);
    }
    assert(member_views(members@) + Seq::<MemberView>::empty() =~= member_views(members@));
    Ok(members)
}

} // verus!

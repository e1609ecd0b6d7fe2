//! What reading an archive gives back of what was laid out in it.

use vstd::prelude::*;
use vstd::utf8::{
    encode_utf8, encode_utf8_decode_utf8, encode_utf8_valid_utf8, is_ascii_chars,
    is_ascii_chars_encode_utf8,
};

use crate::archive::{
    after_members, is_bsd_extended, is_gnu_long, is_name_end, is_padding, line_end, magic,
    members_from, members_of, name_source, named_member, next_offset, payload_at, raw_member_at,
    strip_name_end, strip_padding, strip_padding_end, strip_padding_start, table_name, ArchiveFault,
    MemberView, NameSource, RawMember, HEADER_LEN,
};
use crate::text::{
    all_digits, decimal_text, decimal_value, decoded_text, is_digit, law_decimal_round_trip,
    law_decimal_text_writes_number, DecimalError,
};
use crate::text_laws::{
    is_text_of, law_number_is_read, law_text_is_decoded, law_text_is_unique, writes,
};

verus! {

/// The encoding of a text is decoded to the text.
pub proof fn law_encoded_text_is_decoded(text: Seq<char>)
    ensures
        decoded_text(encode_utf8(text)) == text,
{
    encode_utf8_valid_utf8(text);
    encode_utf8_decode_utf8(text);
}

/// `n` spaces.
pub open spec fn spaces(n: nat) -> Seq<char> {
    Seq::new(n, |i: int| ' ')
}

/// `text` as a header field of `width` bytes, padded with spaces.
pub open spec fn field(text: Seq<char>, width: nat) -> Seq<u8> {
    encode_utf8(text + spaces((width - encode_utf8(text).len()) as nat))
}

/// Whether `ch` is a space or a NUL.
pub open spec fn pads(ch: char) -> bool {
    ch == ' ' || ch == '\0'
}

/// Whether `text` neither starts nor ends with padding.
pub open spec fn is_trimmed(text: Seq<char>) -> bool {
    text.len() > 0 ==> !pads(text.first()) && !pads(text.last())
}

/// Whether `text` is a run of padding, then `inner`, then a run of padding.
pub open spec fn is_padded(text: Seq<char>, inner: Seq<char>) -> bool {
    exists|start: int, end: int|
        {
            &&& 0 <= start <= end <= text.len()
            &&& inner == #[trigger] text.subrange(start, end)
            &&& forall|i: int| 0 <= i < start ==> pads(#[trigger] text[i])
            &&& forall|i: int| end <= i < text.len() ==> pads(#[trigger] text[i])
        }
}

/// Whether the header field `bytes` reads `text`: the text of the bytes, without the
/// padding at either end.
pub open spec fn field_reads(bytes: Seq<u8>, text: Seq<char>) -> bool {
    &&& is_trimmed(text)
    &&& exists|padded: Seq<char>| #[trigger] is_text_of(bytes, padded) && is_padded(padded, text)
}

/// A header field reads as one text: the one that is left of its decoded bytes
/// without the padding.
pub proof fn law_field_is_read(bytes: Seq<u8>, text: Seq<char>)
    ensures
        field_reads(bytes, text) <==> text == strip_padding(decoded_text(bytes)),
{
    let decoded = decoded_text(bytes);
    law_text_is_decoded(bytes);
    law_strip_padding(decoded);
    if field_reads(bytes, text) {
        let padded = choose|padded: Seq<char>| #[trigger]
            is_text_of(bytes, padded) && is_padded(padded, text);
        law_text_is_unique(bytes, padded);
        lemma_padding_is_unique(decoded, text, strip_padding(decoded));
    }
}

/// What is left of a text without its padding is one text.
proof fn lemma_padding_is_unique(text: Seq<char>, a: Seq<char>, b: Seq<char>)
    requires
        is_trimmed(a),
        is_padded(text, a),
        is_trimmed(b),
        is_padded(text, b),
    ensures
        a == b,
{
    let (s, e) = choose|s: int, e: int|
        {
            &&& 0 <= s <= e <= text.len()
            &&& a == #[trigger] text.subrange(s, e)
            &&& forall|i: int| 0 <= i < s ==> pads(#[trigger] text[i])
            &&& forall|i: int| e <= i < text.len() ==> pads(#[trigger] text[i])
        };
    let (t, f) = choose|t: int, f: int|
        {
            &&& 0 <= t <= f <= text.len()
            &&& b == #[trigger] text.subrange(t, f)
            &&& forall|i: int| 0 <= i < t ==> pads(#[trigger] text[i])
            &&& forall|i: int| f <= i < text.len() ==> pads(#[trigger] text[i])
        };
    if a.len() > 0 {
        assert(a.first() == text[s] && a.last() == text[e - 1]);
    }
    if b.len() > 0 {
        assert(b.first() == text[t] && b.last() == text[f - 1]);
    }
    assert(a =~= b);
}

proof fn lemma_strip_spaces(text: Seq<char>, n: nat)
    requires
        is_trimmed(text),
    ensures
        strip_padding(text + spaces(n)) == text,
    decreases n,
{
    let padded = text + spaces(n);
    if n > 0 {
        let fewer = (n - 1) as nat;
        assert(padded.drop_last() =~= text + spaces(fewer));
        lemma_strip_spaces(text, fewer);
        assert(padded.last() == ' ');
    } else {
        assert(padded =~= text);
    }
}

proof fn lemma_encode_concat(a: Seq<char>, b: Seq<char>)
    ensures
        encode_utf8(a + b) == encode_utf8(a) + encode_utf8(b),
    decreases a.len(),
{
    if a.len() == 0 {
        assert(a + b =~= b);
        assert(encode_utf8(a) + encode_utf8(b) =~= encode_utf8(b));
    } else {
        assert((a + b).drop_first() =~= a.drop_first() + b);
        lemma_encode_concat(a.drop_first(), b);
        assert(encode_utf8(a + b) =~= encode_utf8(a) + encode_utf8(b));
    }
}

/// A text that was padded to a header field is read back from it.
pub proof fn law_field_reads_back(text: Seq<char>, width: nat)
    requires
        is_trimmed(text),
        encode_utf8(text).len() <= width,
    ensures
        field(text, width).len() == width,
        strip_padding(decoded_text(field(text, width))) == text,
        field_reads(field(text, width), text),
{
    let padding = (width - encode_utf8(text).len()) as nat;
    lemma_encode_concat(text, spaces(padding));
    assert(is_ascii_chars(spaces(padding)));
    is_ascii_chars_encode_utf8(spaces(padding));
    law_encoded_text_is_decoded(text + spaces(padding));
    lemma_strip_spaces(text, padding);
    law_field_is_read(field(text, width), text);
}

/// A member as it is laid out: the two header fields that are read, the bytes
/// between them that are not, the payload, and the byte that follows a payload
/// of odd length, whatever it is.
pub struct Entry {
    pub name_field: Seq<u8>,
    pub unread: Seq<u8>,
    pub size_field: Seq<u8>,
    pub payload: Seq<u8>,
    pub pad: u8,
}

impl Entry {
    /// The raw name that the entry goes by.
    pub open spec fn raw_name(self) -> Seq<char> {
        strip_padding(decoded_text(self.name_field))
    }

    /// Whether the entry has a header of the right shape: fields of their widths,
    /// and the length of the payload in the size field.
    pub open spec fn fits(self) -> bool {
        &&& self.name_field.len() == 16
        &&& self.unread.len() == 32
        &&& self.size_field.len() == 10
        &&& exists|size: Seq<char>| #[trigger]
            field_reads(self.size_field, size) && writes(size, self.payload.len())
    }

    /// The header of the entry.
    pub open spec fn header(self) -> Seq<u8> {
        self.name_field + self.unread + self.size_field + seq![96u8, 10u8]
    }

    /// The entry as it lies in an archive: its header, its payload, and one more
    /// byte where the next header would else start at an odd offset.
    pub open spec fn laid_out(self) -> Seq<u8> {
        self.header() + self.payload + if self.payload.len() % 2 == 1 {
            seq![self.pad]
        } else {
            Seq::empty()
        }
    }
}

/// The bytes that every archive starts with, `!<arch>` and a newline.
pub open spec fn ar_start() -> Seq<u8> {
    seq![33u8, 60u8, 97u8, 114u8, 99u8, 104u8, 62u8, 10u8]
}

/// Entries one after the other.
pub open spec fn laid_out_all(entries: Seq<Entry>) -> Seq<u8>
    decreases entries.len(),
{
    if entries.len() == 0 {
        Seq::empty()
    } else {
        entries[0].laid_out() + laid_out_all(entries.drop_first())
    }
}

/// The members that entries make, after the string table `table` was read.
pub open spec fn resolved(entries: Seq<Entry>, table: Option<Seq<u8>>) -> Result<
    Seq<MemberView>,
    ArchiveFault<Seq<char>>,
>
    decreases entries.len(),
{
    if entries.len() == 0 {
        Ok(Seq::empty())
    } else {
        match named_member(entries[0].raw_name(), entries[0].payload, table) {
            Err(e) => Err(e),
            Ok(member) => if entries[0].raw_name() == seq!['/', '/'] {
                resolved(entries.drop_first(), Some(entries[0].payload))
            } else {
                after_members(seq![member], resolved(entries.drop_first(), table))
            },
        }
    }
}

proof fn lemma_size_is_read(entry: Entry)
    requires
        entry.fits(),
        entry.payload.len() <= usize::MAX,
    ensures
        decimal_value(strip_padding(decoded_text(entry.size_field))) == Ok::<nat, DecimalError>(
            entry.payload.len(),
        ),
{
    let size = choose|size: Seq<char>| #[trigger]
        field_reads(entry.size_field, size) && writes(size, entry.payload.len());
    law_field_is_read(entry.size_field, size);
    law_number_is_read(size, entry.payload.len());
}

proof fn lemma_members_from(before: Seq<u8>, entries: Seq<Entry>, table: Option<Seq<u8>>)
    requires
        before.len() % 2 == 0,
        forall|i: int| 0 <= i < entries.len() ==> (#[trigger] entries[i]).fits(),
        (before + laid_out_all(entries)).len() <= usize::MAX,
    ensures
        members_from(before + laid_out_all(entries), before.len(), table) == resolved(
            entries,
            table,
        ),
    decreases entries.len(),
{
    let data = before + laid_out_all(entries);
    let offset = before.len();
    if entries.len() > 0 {
        let entry = entries[0];
        let rest = entries.drop_first();
        assert(entries[0].fits());
        let header = entry.header();
        let payload = entry.payload;
        let end = offset + HEADER_LEN + payload.len();
        let next = before + entry.laid_out();
        assert(laid_out_all(entries) == entry.laid_out() + laid_out_all(rest));
        assert(entry.laid_out().len() >= header.len() + payload.len());
        assert(data.subrange(offset as int, (offset + HEADER_LEN) as int) =~= header);
        assert(header.subrange(0, 16) =~= entry.name_field);
        assert(header.subrange(48, 58) =~= entry.size_field);
        lemma_size_is_read(entry);
        assert(data.subrange((offset + HEADER_LEN) as int, end as int) =~= payload);
        assert(raw_member_at(data, offset) == Ok::<RawMember, ArchiveFault<Seq<char>>>(
            RawMember { raw_name: entry.raw_name(), end: end as nat },
        ));
        assert(next + laid_out_all(rest) =~= data);
        assert(next.len() == next_offset(end as nat));
        assert forall|i: int| 0 <= i < rest.len() implies (#[trigger] rest[i]).fits() by {
            assert(rest[i] == entries[i + 1]);
        }
        lemma_members_from(next, rest, table);
        lemma_members_from(next, rest, Some(payload));
    }
}

/// Reading an archive gives back the members that were laid out in it, whatever
/// stands in the bytes between the header fields and behind odd payloads.
pub proof fn law_archive_reads_back(entries: Seq<Entry>)
    requires
        forall|i: int| 0 <= i < entries.len() ==> (#[trigger] entries[i]).fits(),
        (ar_start() + laid_out_all(entries)).len() <= usize::MAX,
    ensures
        members_of(ar_start() + laid_out_all(entries)) == resolved(entries, None),
{
    let data = ar_start() + laid_out_all(entries);
    assert(data.subrange(0, 8) =~= magic());
    assert(magic() =~= ar_start());
    lemma_members_from(ar_start(), entries, None);
}

/// Whether `name` does not end in a character that closes a stored name.
pub open spec fn is_bare_name(name: Seq<char>) -> bool {
    name.len() > 0 ==> name.last() != '\0' && name.last() != '/'
}

/// The name that is left of a stored name ends in no NUL and no slash. It is the
/// stored name up to a run of these, and nothing more is stripped from it.
pub proof fn law_strip_name_end(name: Seq<char>)
    ensures
        is_bare_name(strip_name_end(name)),
        strip_name_end(name).is_prefix_of(name),
        forall|i: int|
            strip_name_end(name).len() <= i < name.len() ==> #[trigger] name[i] == '\0' || name[i]
                == '/',
        strip_name_end(strip_name_end(name)) == strip_name_end(name),
        is_bare_name(name) ==> strip_name_end(name) == name,
    decreases name.len(),
{
    if name.len() > 0 && is_name_end(name.last()) {
        law_strip_name_end(name.drop_last());
        let stripped = strip_name_end(name);
        assert(name.subrange(0, stripped.len() as int) =~= name.drop_last().subrange(
            0,
            stripped.len() as int,
        ));
        assert forall|i: int| stripped.len() <= i < name.len() implies #[trigger] name[i] == '\0'
            || name[i] == '/' by {
            if i < name.len() - 1 {
                assert(name.drop_last()[i] == name[i]);
            }
        }
    } else {
        assert(name.subrange(0, name.len() as int) =~= name);
    }
}

proof fn lemma_strip_padding_start(text: Seq<char>)
    ensures
        ({
            let stripped = strip_padding_start(text);
            let start = text.len() - stripped.len();
            &&& 0 <= start
            &&& stripped == text.skip(start)
            &&& stripped.len() > 0 ==> !is_padding(stripped.first())
            &&& forall|i: int| 0 <= i < start ==> is_padding(#[trigger] text[i])
        }),
    decreases text.len(),
{
    let stripped = strip_padding_start(text);
    let start = text.len() - stripped.len();
    if text.len() > 0 && is_padding(text.first()) {
        let rest = text.drop_first();
        lemma_strip_padding_start(rest);
        assert(rest.skip(start - 1) =~= text.skip(start));
        assert forall|i: int| 0 <= i < start implies is_padding(#[trigger] text[i]) by {
            if i > 0 {
                assert(rest[i - 1] == text[i]);
            }
        }
    } else {
        assert(text.skip(0) =~= text);
    }
}

proof fn lemma_strip_padding_end(text: Seq<char>)
    ensures
        ({
            let stripped = strip_padding_end(text);
            &&& stripped.len() <= text.len()
            &&& stripped == text.take(stripped.len() as int)
            &&& stripped.len() > 0 ==> !is_padding(stripped.last())
            &&& forall|i: int| stripped.len() <= i < text.len() ==> is_padding(#[trigger] text[i])
        }),
    decreases text.len(),
{
    let stripped = strip_padding_end(text);
    if text.len() > 0 && is_padding(text.last()) {
        let rest = text.drop_last();
        lemma_strip_padding_end(rest);
        assert(rest.take(stripped.len() as int) =~= text.take(stripped.len() as int));
        assert forall|i: int| stripped.len() <= i < text.len() implies is_padding(
            #[trigger] text[i],
        ) by {
            if i < text.len() - 1 {
                assert(rest[i] == text[i]);
            }
        }
    } else {
        assert(text.take(text.len() as int) =~= text);
    }
}

/// A header field is left without padding at either end. Only padding is removed,
/// and nothing more is stripped from what is left.
pub proof fn law_strip_padding(text: Seq<char>)
    ensures
        is_trimmed(strip_padding(text)),
        is_padded(text, strip_padding(text)),
        strip_padding(strip_padding(text)) == strip_padding(text),
{
    let front = strip_padding_end(text);
    let stripped = strip_padding(text);
    lemma_strip_padding_end(text);
    lemma_strip_padding_start(front);
    let start = front.len() - stripped.len();
    let end = front.len() as int;
    assert(stripped =~= text.subrange(start, end));
    assert forall|i: int| 0 <= i < start implies is_padding(#[trigger] text[i]) by {
        assert(front[i] == text[i]);
    }
    if stripped.len() > 0 {
        assert(stripped.last() == front.last());
    }
    assert(strip_padding_end(stripped) == stripped);
    assert(strip_padding_start(stripped) == stripped);
}

/// Whether `raw_name` starts with the mark of a BSD extended name.
pub open spec fn bsd_mark(raw_name: Seq<char>) -> bool {
    &&& raw_name.len() >= 3
    &&& raw_name[0] == '#'
    &&& raw_name[1] == '1'
    &&& raw_name[2] == '/'
}

/// Whether `raw_name` is a slash and digits, as a GNU long name is.
pub open spec fn gnu_mark(raw_name: Seq<char>) -> bool {
    &&& raw_name.len() > 1
    &&& raw_name[0] == '/'
    &&& all_digits(raw_name.skip(1))
}

/// A raw name is taken for a BSD extended name, or for a GNU long name, by its mark
/// alone.
pub proof fn law_names_are_told_by_their_marks(raw_name: Seq<char>)
    ensures
        is_bsd_extended(raw_name) <==> bsd_mark(raw_name),
        is_gnu_long(raw_name) <==> gnu_mark(raw_name),
{
    let mark = seq!['#', '1', '/'];
    if bsd_mark(raw_name) {
        assert(raw_name.subrange(0, 3) =~= mark);
    }
    if is_bsd_extended(raw_name) {
        assert(raw_name.subrange(0, 3)[0] == mark[0]);
        assert(raw_name.subrange(0, 3)[1] == mark[1]);
        assert(raw_name.subrange(0, 3)[2] == mark[2]);
    }
    if gnu_mark(raw_name) {
        assert forall|i: int| 1 <= i < raw_name.len() implies '0' <= #[trigger] raw_name[i]
            <= '9' by {
            assert(raw_name.skip(1)[i - 1] == raw_name[i]);
        }
    }
}

/// The raw name of a member whose name stands in the header, closed by a slash or
/// as it is.
pub open spec fn short_raw_name(name: Seq<char>, closed: bool) -> Seq<char> {
    if closed {
        name.push('/')
    } else {
        name
    }
}

/// A short name, stored in the header, is read back, closed by a slash or as it
/// is. The exceptions are names that would read as a BSD extended name or a GNU
/// long name.
pub proof fn law_short_name_reads_back(
    name: Seq<char>,
    closed: bool,
    payload: Seq<u8>,
    table: Option<Seq<u8>>,
)
    requires
        is_bare_name(name),
        !bsd_mark(short_raw_name(name, closed)),
        !gnu_mark(short_raw_name(name, closed)),
    ensures
        named_member(short_raw_name(name, closed), payload, table) == Ok::<
            MemberView,
            ArchiveFault<Seq<char>>,
        >(MemberView { name, bytes: payload }),
{
    law_names_are_told_by_their_marks(short_raw_name(name, closed));
    assert(name.push('/').drop_last() =~= name);
    law_strip_name_end(name);
}

/// `n` NULs.
pub open spec fn nuls(n: nat) -> Seq<char> {
    Seq::new(n, |i: int| '\0')
}

proof fn lemma_strip_nuls(name: Seq<char>, n: nat)
    requires
        is_bare_name(name),
    ensures
        strip_name_end(name + nuls(n)) == name,
    decreases n,
{
    let padded = name + nuls(n);
    if n > 0 {
        let fewer = (n - 1) as nat;
        assert(padded.drop_last() =~= name + nuls(fewer));
        assert(padded.last() == '\0');
        lemma_strip_nuls(name, fewer);
    } else {
        assert(padded =~= name);
    }
}

/// The raw name of a member whose name is the first `len` bytes of its payload.
pub open spec fn bsd_raw_name(len: nat) -> Seq<char> {
    seq!['#', '1', '/'] + decimal_text(len)
}

/// A BSD extended name, stored in front of the contents and padded with any
/// number of NULs, is read back, and so are the contents.
pub proof fn law_bsd_name_reads_back(
    name: Seq<char>,
    padding: nat,
    contents: Seq<u8>,
    table: Option<Seq<u8>>,
)
    requires
        is_bare_name(name),
        encode_utf8(name + nuls(padding)).len() <= usize::MAX,
    ensures
        ({
            let stored = encode_utf8(name + nuls(padding));
            named_member(bsd_raw_name(stored.len()), stored + contents, table) == Ok::<
                MemberView,
                ArchiveFault<Seq<char>>,
            >(MemberView { name, bytes: contents })
        }),
{
    let stored = encode_utf8(name + nuls(padding));
    let raw_name = bsd_raw_name(stored.len());
    let payload = stored + contents;
    assert(raw_name.subrange(0, 3) =~= seq!['#', '1', '/']);
    assert(raw_name.skip(3) =~= decimal_text(stored.len()));
    law_decimal_round_trip(stored.len() as usize, 0);
    assert(payload.take(stored.len() as int) =~= stored);
    assert(payload.skip(stored.len() as int) =~= contents);
    law_encoded_text_is_decoded(name + nuls(padding));
    lemma_strip_nuls(name, padding);
}

proof fn lemma_line_end(table: Seq<u8>, start: nat, end: nat)
    requires
        start <= end < table.len(),
        table[end as int] == 10,
        forall|i: int| start <= i < end ==> #[trigger] table[i] != 10,
    ensures
        line_end(table, start) == end,
    decreases end - start,
{
    if start < end {
        assert(table[start as int] != 10);
        lemma_line_end(table, start + 1, end);
    }
}

/// The raw name of a member whose name starts at `offset` of the string table.
pub open spec fn gnu_raw_name(offset: nat) -> Seq<char> {
    seq!['/'] + decimal_text(offset)
}

/// A GNU long name, stored as a line of the string table and closed by a slash,
/// is read back.
pub proof fn law_gnu_name_reads_back(
    name: Seq<char>,
    payload: Seq<u8>,
    before: Seq<u8>,
    after: Seq<u8>,
)
    requires
        is_bare_name(name),
        !encode_utf8(name.push('/')).contains(10),
        (before + encode_utf8(name.push('/')) + seq![10u8] + after).len() <= usize::MAX,
    ensures
        ({
            let table = before + encode_utf8(name.push('/')) + seq![10u8] + after;
            named_member(gnu_raw_name(before.len()), payload, Some(table)) == Ok::<
                MemberView,
                ArchiveFault<Seq<char>>,
            >(MemberView { name, bytes: payload })
        }),
{
    let stored = encode_utf8(name.push('/'));
    let table = before + stored + seq![10u8] + after;
    let raw_name = gnu_raw_name(before.len());
    let end = before.len() + stored.len();
    law_decimal_text_writes_number(before.len());
    law_decimal_round_trip(before.len() as usize, 0);
    assert(raw_name.skip(1) =~= decimal_text(before.len()));
    assert(is_gnu_long(raw_name)) by {
        assert forall|i: int| 1 <= i < raw_name.len() implies is_digit(#[trigger] raw_name[i]) by {
            assert(raw_name[i] == decimal_text(before.len())[i - 1]);
        }
    }
    assert forall|i: int| before.len() <= i < end implies #[trigger] table[i] != 10 by {
        assert(table[i] == stored[i - before.len()]);
    }
    lemma_line_end(table, before.len(), end);
    assert(table.subrange(before.len() as int, end as int) =~= stored);
    law_encoded_text_is_decoded(name.push('/'));
    assert(name.push('/').drop_last() =~= name);
    law_strip_name_end(name);
}

/// What the bytes of an entry hold that leave no trace in the member: those
/// between the header fields, the one behind an odd payload, and the number of
/// NULs behind a BSD extended name.
pub struct Filler {
    pub unread: Seq<u8>,
    pub pad: u8,
    pub nuls: nat,
}

/// The entry of this raw name and payload.
pub open spec fn sized_entry(raw_name: Seq<char>, payload: Seq<u8>, filler: Filler) -> Entry {
    Entry {
        name_field: field(raw_name, 16),
        unread: filler.unread,
        size_field: field(decimal_text(payload.len()), 10),
        payload,
        pad: filler.pad,
    }
}

/// Whether a raw name, a payload and a filler fit a header.
pub open spec fn fits_header(raw_name: Seq<char>, payload: Seq<u8>, filler: Filler) -> bool {
    &&& is_trimmed(raw_name)
    &&& encode_utf8(raw_name).len() <= 16
    &&& filler.unread.len() == 32
    &&& decimal_text(payload.len()).len() <= 10
}

proof fn lemma_digits_encode(digits: Seq<char>)
    requires
        all_digits(digits),
    ensures
        is_ascii_chars(digits),
        encode_utf8(digits).len() == digits.len(),
{
    assert forall|i: int| 0 <= i < digits.len() implies '\0' <= #[trigger] digits[i]
        <= '\u{7f}' by {
        assert(is_digit(digits[i]));
    }
    is_ascii_chars_encode_utf8(digits);
}

proof fn lemma_sized_entry(raw_name: Seq<char>, payload: Seq<u8>, filler: Filler)
    requires
        fits_header(raw_name, payload, filler),
        payload.len() <= usize::MAX,
    ensures
        sized_entry(raw_name, payload, filler).fits(),
        sized_entry(raw_name, payload, filler).raw_name() == raw_name,
{
    let size = decimal_text(payload.len());
    law_decimal_text_writes_number(payload.len());
    law_decimal_round_trip(payload.len() as usize, 0);
    lemma_digits_encode(size);
    assert(is_digit(size.first()));
    assert(is_digit(size.last()));
    law_field_reads_back(raw_name, 16);
    law_field_reads_back(size, 10);
    assert(writes(size, payload.len()));
}

proof fn lemma_payload_within(entries: Seq<Entry>, i: int)
    requires
        0 <= i < entries.len(),
    ensures
        entries[i].payload.len() <= laid_out_all(entries).len(),
    decreases entries.len(),
{
    assert(entries[0].laid_out().len() >= entries[0].payload.len());
    if i > 0 {
        assert(entries.drop_first()[i - 1] == entries[i]);
        lemma_payload_within(entries.drop_first(), i - 1);
    }
}

/// Whether each of `entries` makes the member of `members` at its place, after
/// the string table `table` was read.
spec fn make_members(
    entries: Seq<Entry>,
    members: Seq<MemberView>,
    table: Option<Seq<u8>>,
) -> bool {
    &&& entries.len() == members.len()
    &&& forall|i: int|
        0 <= i < entries.len() ==> {
            &&& (#[trigger] entries[i]).raw_name() != table_name()
            &&& named_member(entries[i].raw_name(), entries[i].payload, table) == Ok::<
                MemberView,
                ArchiveFault<Seq<char>>,
            >(members[i])
        }
}

proof fn lemma_resolved(entries: Seq<Entry>, members: Seq<MemberView>, table: Option<Seq<u8>>)
    requires
        make_members(entries, members, table),
    ensures
        resolved(entries, table) == Ok::<Seq<MemberView>, ArchiveFault<Seq<char>>>(members),
    decreases entries.len(),
{
    if entries.len() > 0 {
        let rest = entries.drop_first();
        let rest_members = members.drop_first();
        assert(entries[0].raw_name() != table_name());
        assert forall|i: int| 0 <= i < rest.len() implies {
            &&& (#[trigger] rest[i]).raw_name() != table_name()
            &&& named_member(rest[i].raw_name(), rest[i].payload, table) == Ok::<
                MemberView,
                ArchiveFault<Seq<char>>,
            >(rest_members[i])
        } by {
            assert(rest[i] == entries[i + 1]);
        }
        lemma_resolved(rest, rest_members, table);
        assert(seq![members[0]] + rest_members =~= members);
    } else {
        assert(members =~= Seq::empty());
    }
}

/// The entries that store `members` under short names, each closed by a slash or
/// not.
pub open spec fn short_entries(
    members: Seq<MemberView>,
    closed: Seq<bool>,
    fillers: Seq<Filler>,
) -> Seq<Entry> {
    Seq::new(
        members.len(),
        |i: int|
            sized_entry(short_raw_name(members[i].name, closed[i]), members[i].bytes, fillers[i]),
    )
}

/// Whether `member` can be stored under a short name.
pub open spec fn short_storable(member: MemberView, closed: bool, filler: Filler) -> bool {
    &&& is_bare_name(member.name)
    &&& !bsd_mark(short_raw_name(member.name, closed))
    &&& !gnu_mark(short_raw_name(member.name, closed))
    &&& fits_header(short_raw_name(member.name, closed), member.bytes, filler)
}

/// An archive that stores its members under short names is read back to exactly
/// these members, whatever their contents and however their names repeat.
pub proof fn law_short_archive_reads_back(
    members: Seq<MemberView>,
    closed: Seq<bool>,
    fillers: Seq<Filler>,
)
    requires
        closed.len() == members.len(),
        fillers.len() == members.len(),
        forall|i: int|
            0 <= i < members.len() ==> short_storable(#[trigger] members[i], closed[i], fillers[i]),
        (ar_start() + laid_out_all(short_entries(members, closed, fillers))).len() <= usize::MAX,
    ensures
        members_of(ar_start() + laid_out_all(short_entries(members, closed, fillers))) == Ok::<
            Seq<MemberView>,
            ArchiveFault<Seq<char>>,
        >(members),
{
    let entries = short_entries(members, closed, fillers);
    assert forall|i: int| 0 <= i < entries.len() implies {
        &&& (#[trigger] entries[i]).fits()
        &&& entries[i].raw_name() != table_name()
        &&& named_member(entries[i].raw_name(), entries[i].payload, None) == Ok::<
            MemberView,
            ArchiveFault<Seq<char>>,
        >(members[i])
    } by {
        let member = members[i];
        let raw_name = short_raw_name(member.name, closed[i]);
        assert(short_storable(member, closed[i], fillers[i]));
        lemma_payload_within(entries, i);
        lemma_sized_entry(raw_name, member.bytes, fillers[i]);
        law_short_name_reads_back(member.name, closed[i], member.bytes, None);
        if raw_name == table_name() {
            assert(member.name.last() == raw_name[member.name.len() - 1]);
        }
    }
    lemma_resolved(entries, members, None);
    law_archive_reads_back(entries);
}

/// The name of `member` as it is stored in front of its contents.
pub open spec fn bsd_stored(member: MemberView, filler: Filler) -> Seq<u8> {
    encode_utf8(member.name + nuls(filler.nuls))
}

/// The entry that stores `member` under a BSD extended name.
pub open spec fn bsd_entry(member: MemberView, filler: Filler) -> Entry {
    let stored = bsd_stored(member, filler);
    sized_entry(bsd_raw_name(stored.len()), stored + member.bytes, filler)
}

/// The entries that store `members` under BSD extended names.
pub open spec fn bsd_entries(members: Seq<MemberView>, fillers: Seq<Filler>) -> Seq<Entry> {
    Seq::new(members.len(), |i: int| bsd_entry(members[i], fillers[i]))
}

/// Whether `member` can be stored under a BSD extended name.
pub open spec fn bsd_storable(member: MemberView, filler: Filler) -> bool {
    &&& is_bare_name(member.name)
    &&& filler.unread.len() == 32
    &&& decimal_text(bsd_entry(member, filler).payload.len()).len() <= 10
}

proof fn lemma_decimal_text_grows(a: nat, b: nat)
    requires
        a <= b,
    ensures
        decimal_text(a).len() <= decimal_text(b).len(),
    decreases b,
{
    if a >= 10 {
        lemma_decimal_text_grows(a / 10, b / 10);
    } else {
        law_decimal_text_writes_number(b);
    }
}

/// A number behind a mark of ASCII characters makes a raw name that fits.
proof fn lemma_numbered_raw_name(mark: Seq<char>, n: nat)
    requires
        is_ascii_chars(mark),
        mark.len() > 0,
        !pads(mark.first()),
    ensures
        is_trimmed(mark + decimal_text(n)),
        encode_utf8(mark + decimal_text(n)).len() == mark.len() + decimal_text(n).len(),
{
    let digits = decimal_text(n);
    law_decimal_text_writes_number(n);
    lemma_digits_encode(digits);
    is_ascii_chars_encode_utf8(mark);
    lemma_encode_concat(mark, digits);
    assert((mark + digits).last() == digits.last());
    assert(is_digit(digits.last()));
}

/// An archive that stores its members under BSD extended names is read back to
/// exactly these members, whatever their contents, however their names repeat,
/// and however many NULs the names are padded with.
pub proof fn law_bsd_archive_reads_back(members: Seq<MemberView>, fillers: Seq<Filler>)
    requires
        fillers.len() == members.len(),
        forall|i: int|
            0 <= i < members.len() ==> bsd_storable(#[trigger] members[i], fillers[i]),
        (ar_start() + laid_out_all(bsd_entries(members, fillers))).len() <= usize::MAX,
    ensures
        members_of(ar_start() + laid_out_all(bsd_entries(members, fillers))) == Ok::<
            Seq<MemberView>,
            ArchiveFault<Seq<char>>,
        >(members),
{
    let entries = bsd_entries(members, fillers);
    assert forall|i: int| 0 <= i < entries.len() implies {
        &&& (#[trigger] entries[i]).fits()
        &&& entries[i].raw_name() != table_name()
        &&& named_member(entries[i].raw_name(), entries[i].payload, None) == Ok::<
            MemberView,
            ArchiveFault<Seq<char>>,
        >(members[i])
    } by {
        let member = members[i];
        let filler = fillers[i];
        let stored = bsd_stored(member, filler);
        assert(bsd_storable(member, filler));
        lemma_payload_within(entries, i);
        lemma_decimal_text_grows(stored.len(), (stored + member.bytes).len());
        lemma_numbered_raw_name(seq!['#', '1', '/'], stored.len());
        lemma_sized_entry(bsd_raw_name(stored.len()), stored + member.bytes, filler);
        law_bsd_name_reads_back(member.name, filler.nuls, member.bytes, None);
        assert(bsd_raw_name(stored.len())[0] != table_name()[0]);
    }
    lemma_resolved(entries, members, None);
    law_archive_reads_back(entries);
}

/// The line of the string table that stores the name of `member`.
pub open spec fn table_line(member: MemberView) -> Seq<u8> {
    encode_utf8(member.name.push('/')) + seq![10u8]
}

/// The string table that stores the names of `members`.
pub open spec fn string_table(members: Seq<MemberView>) -> Seq<u8>
    decreases members.len(),
{
    if members.len() == 0 {
        Seq::empty()
    } else {
        table_line(members[0]) + string_table(members.drop_first())
    }
}

proof fn lemma_string_table_concat(a: Seq<MemberView>, b: Seq<MemberView>)
    ensures
        string_table(a + b) == string_table(a) + string_table(b),
    decreases a.len(),
{
    if a.len() == 0 {
        assert(a + b =~= b);
        assert(string_table(a) + string_table(b) =~= string_table(b));
    } else {
        assert((a + b).drop_first() =~= a.drop_first() + b);
        lemma_string_table_concat(a.drop_first(), b);
        assert(string_table(a + b) =~= string_table(a) + string_table(b));
    }
}

/// The entries that store `members` under GNU long names: the string table, and
/// then each member under the offset of its name.
pub open spec fn gnu_entries(members: Seq<MemberView>, fillers: Seq<Filler>) -> Seq<Entry> {
    seq![sized_entry(seq!['/', '/'], string_table(members), fillers[0])] + Seq::new(
        members.len(),
        |i: int|
            sized_entry(
                gnu_raw_name(string_table(members.take(i)).len()),
                members[i].bytes,
                fillers[i + 1],
            ),
    )
}

/// Whether `member` can be stored under a GNU long name.
pub open spec fn gnu_storable(member: MemberView, filler: Filler) -> bool {
    &&& is_bare_name(member.name)
    &&& !encode_utf8(member.name.push('/')).contains(10)
    &&& filler.unread.len() == 32
    &&& decimal_text(member.bytes.len()).len() <= 10
}

/// The string table around the line of member `i`.
proof fn lemma_string_table_at(members: Seq<MemberView>, i: int)
    requires
        0 <= i < members.len(),
    ensures
        string_table(members) == string_table(members.take(i)) + encode_utf8(
            members[i].name.push('/'),
        ) + seq![10u8] + string_table(members.skip(i + 1)),
{
    let rest = members.skip(i);
    assert(members =~= members.take(i) + rest);
    lemma_string_table_concat(members.take(i), rest);
    assert(rest.drop_first() =~= members.skip(i + 1));
    assert(string_table(members.take(i)) + string_table(rest) =~= string_table(members.take(i))
        + encode_utf8(members[i].name.push('/')) + seq![10u8] + string_table(members.skip(i + 1)));
}

/// An archive that stores its members under GNU long names is read back to
/// exactly these members, whatever their contents and however their names
/// repeat; the string table is not among them.
pub proof fn law_gnu_archive_reads_back(members: Seq<MemberView>, fillers: Seq<Filler>)
    requires
        fillers.len() == members.len() + 1,
        fillers[0].unread.len() == 32,
        decimal_text(string_table(members).len()).len() <= 10,
        forall|i: int|
            0 <= i < members.len() ==> gnu_storable(#[trigger] members[i], fillers[i + 1]),
        (ar_start() + laid_out_all(gnu_entries(members, fillers))).len() <= usize::MAX,
    ensures
        members_of(ar_start() + laid_out_all(gnu_entries(members, fillers))) == Ok::<
            Seq<MemberView>,
            ArchiveFault<Seq<char>>,
        >(members),
{
    let entries = gnu_entries(members, fillers);
    let table = string_table(members);
    let rest = entries.drop_first();
    is_ascii_chars_encode_utf8(table_name());
    lemma_payload_within(entries, 0);
    lemma_sized_entry(table_name(), table, fillers[0]);
    assert(!is_digit(table_name()[1]));
    assert forall|i: int| 0 <= i < rest.len() implies {
        &&& (#[trigger] rest[i]).fits()
        &&& rest[i].raw_name() != table_name()
        &&& named_member(rest[i].raw_name(), rest[i].payload, Some(table)) == Ok::<
            MemberView,
            ArchiveFault<Seq<char>>,
        >(members[i])
    } by {
        let member = members[i];
        let before = string_table(members.take(i));
        let after = string_table(members.skip(i + 1));
        let raw_name = gnu_raw_name(before.len());
        assert(gnu_storable(member, fillers[i + 1]));
        lemma_string_table_at(members, i);
        lemma_payload_within(entries, i + 1);
        lemma_decimal_text_grows(before.len(), table.len());
        lemma_numbered_raw_name(seq!['/'], before.len());
        lemma_sized_entry(raw_name, member.bytes, fillers[i + 1]);
        law_gnu_name_reads_back(member.name, member.bytes, before, after);
        law_decimal_text_writes_number(before.len());
        assert(raw_name[1] == decimal_text(before.len())[0]);
        assert(is_digit(decimal_text(before.len())[0]));
    }
    lemma_resolved(rest, members, Some(table));
    assert forall|i: int| 0 <= i < entries.len() implies (#[trigger] entries[i]).fits() by {
        if i > 0 {
            assert(rest[i - 1].fits());
        }
    }
    law_archive_reads_back(entries);
}

/// Reading on in `data + tail` from an offset from which `data` can be read to
/// its end: first come the members of `data`, then those of `tail`, with the
/// string table that `data` leaves behind.
proof fn lemma_members_before(
    data: Seq<u8>,
    tail: Seq<u8>,
    offset: nat,
    table: Option<Seq<u8>>,
) -> (left: Option<Seq<u8>>)
    requires
        offset % 2 == 0,
        members_from(data, offset, table) is Ok,
        (data + tail).len() <= usize::MAX,
    ensures
        data.len() % 2 == 0,
        members_from(data + tail, offset, table) == after_members(
            members_from(data, offset, table)->Ok_0,
            members_from(data + tail, data.len(), left),
        ),
    decreases data.len() + 1 - offset,
{
    let all = data + tail;
    let members = members_from(data, offset, table)->Ok_0;
    if offset + HEADER_LEN > data.len() {
        let rest = members_from(all, offset, table);
        assert(rest is Ok ==> members + rest->Ok_0 =~= rest->Ok_0);
        table
    } else {
        let raw = raw_member_at(data, offset)->Ok_0;
        let payload = payload_at(data, offset, raw);
        let next = next_offset(raw.end);
        assert(all.subrange(offset as int, (offset + HEADER_LEN) as int) =~= data.subrange(
            offset as int,
            (offset + HEADER_LEN) as int,
        ));
        assert(raw_member_at(all, offset) == raw_member_at(data, offset));
        assert(payload_at(all, offset, raw) =~= payload);
        let member = named_member(raw.raw_name, payload, table)->Ok_0;
        if raw.raw_name == table_name() {
            lemma_members_before(data, tail, next, Some(payload))
        } else {
            let left = lemma_members_before(data, tail, next, table);
            let following = members_from(data, next, table)->Ok_0;
            let rest = members_from(all, data.len(), left);
            assert(rest is Ok ==> seq![member] + (following + rest->Ok_0) =~= (seq![member]
                + following) + rest->Ok_0);
            left
        }
    }
}

/// What an archive reads as does not change when its members stand behind
/// `before`, nor with a string table that was read before them.
proof fn lemma_members_behind(
    before: Seq<u8>,
    data: Seq<u8>,
    offset: nat,
    own: Option<Seq<u8>>,
    table: Option<Seq<u8>>,
)
    requires
        before.len() % 2 == 0,
        magic().len() <= offset,
        offset % 2 == 0,
        members_from(data, offset, own) is Ok,
        own is None || own == table,
        (before + data.skip(8)).len() <= usize::MAX,
    ensures
        members_from(
            before + data.skip(8),
            (before.len() + offset - 8) as nat,
            table,
        ) == members_from(data, offset, own),
    decreases data.len() + 1 - offset,
{
    let all = before + data.skip(8);
    let shifted = (before.len() + offset - 8) as nat;
    if offset + HEADER_LEN <= data.len() {
        let raw = raw_member_at(data, offset)->Ok_0;
        let moved = RawMember {
            raw_name: raw.raw_name,
            end: (before.len() + raw.end - 8) as nat,
        };
        let payload = payload_at(data, offset, raw);
        let next = next_offset(raw.end);
        assert(all.subrange(shifted as int, (shifted + HEADER_LEN) as int) =~= data.subrange(
            offset as int,
            (offset + HEADER_LEN) as int,
        ));
        assert(raw_member_at(all, shifted) == Ok::<RawMember, ArchiveFault<Seq<char>>>(moved));
        assert(payload_at(all, shifted, moved) =~= payload);
        assert(next_offset(moved.end) == (before.len() + next - 8) as nat);
        assert(named_member(raw.raw_name, payload, table) == named_member(
            raw.raw_name,
            payload,
            own,
        ));
        if raw.raw_name == table_name() {
            lemma_members_behind(before, data, next, Some(payload), Some(payload));
        } else {
            lemma_members_behind(before, data, next, own, table);
        }
    }
}

/// Two archives joined, the second without its magic, read as the members of the
/// first and then those of the second.
pub proof fn law_joined_archives_read_in_turn(first: Seq<u8>, second: Seq<u8>)
    requires
        members_of(first) is Ok,
        members_of(second) is Ok,
        (first + second.skip(8)).len() <= usize::MAX,
    ensures
        members_of(first + second.skip(8)) == Ok::<Seq<MemberView>, ArchiveFault<Seq<char>>>(
            members_of(first)->Ok_0 + members_of(second)->Ok_0,
        ),
{
    let joined = first + second.skip(8);
    assert(joined.subrange(0, 8) =~= first.subrange(0, 8));
    let left = lemma_members_before(first, second.skip(8), 8, None);
    lemma_members_behind(first, second, 8, None, left);
}

/// Whether `bytes` lie in `data` behind the magic, in one piece.
pub open spec fn lies_in(bytes: Seq<u8>, data: Seq<u8>) -> bool {
    exists|start: int, end: int|
        magic().len() <= start <= end <= data.len() && bytes == #[trigger] data.subrange(start, end)
}

proof fn lemma_members_lie_in_archive(data: Seq<u8>, offset: nat, table: Option<Seq<u8>>)
    requires
        magic().len() <= offset,
    ensures
        members_from(data, offset, table) matches Ok(members) ==> forall|i: int|
            0 <= i < members.len() ==> lies_in((#[trigger] members[i]).bytes, data),
    decreases data.len() + 1 - offset,
{
    if offset + HEADER_LEN <= data.len() {
        if let Ok(raw) = raw_member_at(data, offset) {
            let payload = payload_at(data, offset, raw);
            let start = (offset + HEADER_LEN) as int;
            if let Ok(member) = named_member(raw.raw_name, payload, table) {
                assert(lies_in(member.bytes, data)) by {
                    match name_source(raw.raw_name, payload.len(), table) {
                        Ok(NameSource::Payload(n)) => {
                            assert(member.bytes =~= data.subrange(start + n, raw.end as int));
                        },
                        _ => {
                            assert(member.bytes =~= data.subrange(start, raw.end as int));
                        },
                    }
                }
                lemma_members_lie_in_archive(data, next_offset(raw.end), table);
                lemma_members_lie_in_archive(data, next_offset(raw.end), Some(payload));
            }
        }
    }
}

/// The contents of every member lie in the archive in one piece: reading
/// changes no byte.
pub proof fn law_members_lie_in_archive(data: Seq<u8>)
    ensures
        members_of(data) matches Ok(members) ==> forall|i: int|
            0 <= i < members.len() ==> lies_in((#[trigger] members[i]).bytes, data),
{
    lemma_members_lie_in_archive(data, magic().len(), None);
}

} // verus!

use bundle_link::archive::{
    archive_member_filename, archive_member_name, archive_members, ascii_field, locate_member_name,
    locate_payload_end, parse_archive_member, trim_field, ArchiveError, ArchiveFault, ArchiveMember,
    NameSource,
};
use bundle_link::text::DecimalError;

const MAGIC: &[u8] = b"!<arch>\n";

fn entry(raw_name: &str, payload: &[u8]) -> Vec<u8> {
    let header = format!("{:<16}{:<32}{:<10}`\n", raw_name, "1700000000  0     0     100644", payload.len());
    let mut out = header.into_bytes();
    out.extend_from_slice(payload);
    if payload.len() % 2 == 1 {
        out.push(b'\n');
    }
    out
}

fn archive(entries: &[Vec<u8>]) -> Vec<u8> {
    let mut out = MAGIC.to_vec();
    for e in entries {
        out.extend_from_slice(e);
    }
    out
}

fn member(name: &str, bytes: &[u8]) -> ArchiveMember {
    ArchiveMember { name: name.to_string(), bytes: bytes.to_vec() }
}

fn error(data: &[u8]) -> ArchiveError {
    match archive_members(data) {
        Ok(members) => panic!("read {:?}", members),
        Err(e) => e,
    }
}

#[test]
fn fields_lose_their_padding() {
    assert_eq!(ascii_field(b"foo.o/          "), "foo.o/");
    assert_eq!(ascii_field(b"\0 a b \0"), "a b");
    assert_eq!(ascii_field(b"    "), "");
    assert_eq!(ascii_field(b""), "");
    assert_eq!(trim_field("\t x \t"), "\t x \t");
    assert_eq!(trim_field(&trim_field("  x\0 ")), trim_field("  x\0 "));
}

#[test]
fn fields_are_decoded() {
    assert_eq!(ascii_field("h\u{e9}\u{1f600} ".as_bytes()), "h\u{e9}\u{1f600}");
    assert_eq!(ascii_field(b" a\xffb "), "a\u{fffd}b");
    assert_eq!(ascii_field(b"Hello \xf0\x90\x80World"), "Hello \u{fffd}World");
}

#[test]
fn names_lose_their_terminators() {
    assert_eq!(archive_member_name("foo.o/"), "foo.o");
    assert_eq!(archive_member_name("foo.o\0\0\0"), "foo.o");
    assert_eq!(archive_member_name("a/b/\0/"), "a/b");
    assert_eq!(archive_member_name("/"), "");
    assert_eq!(archive_member_name("//"), "");
    assert_eq!(archive_member_name(""), "");
    assert_eq!(archive_member_name("/SYM64/"), "/SYM64");
}

#[test]
fn filenames_hold_no_separators() {
    assert_eq!(archive_member_filename("a/b\\c:d.o"), "a_b_c_d.o");
    assert_eq!(archive_member_filename("plain-name.o"), "plain-name.o");
    assert_eq!(archive_member_filename("\u{e9}:"), "\u{e9}_");
    assert_eq!(archive_member_filename(""), "");
}

#[test]
fn names_are_located() {
    let table: &[u8] = b"first.o/\nsecond.o/\nlast";
    assert_eq!(locate_member_name("foo.o/", 4, None), Ok(NameSource::Header));
    assert_eq!(locate_member_name("#1/20", 20, None), Ok(NameSource::Payload(20)));
    assert_eq!(locate_member_name("#1/+3", 20, None), Ok(NameSource::Payload(3)));
    assert_eq!(locate_member_name("/9", 4, Some(table)), Ok(NameSource::Table(9, 18)));
    assert_eq!(locate_member_name("/19", 4, Some(table)), Ok(NameSource::Table(19, 23)));
    assert_eq!(locate_member_name("/", 4, None), Ok(NameSource::Header));
    assert_eq!(locate_member_name("//", 4, None), Ok(NameSource::Header));
    assert_eq!(locate_member_name("/+9", 4, Some(table)), Ok(NameSource::Header));
    assert_eq!(locate_member_name("", 4, None), Ok(NameSource::Header));
}

#[test]
fn names_that_cannot_be_located() {
    let table: &[u8] = b"first.o/\n";
    assert_eq!(
        locate_member_name("#1/", 4, None),
        Err(ArchiveFault::BsdNameLength { text: "".to_string(), cause: DecimalError::Empty })
    );
    assert_eq!(
        locate_member_name("#1/5x", 9, None),
        Err(ArchiveFault::BsdNameLength { text: "5x".to_string(), cause: DecimalError::InvalidDigit })
    );
    assert_eq!(
        locate_member_name("#1/5", 4, None),
        Err(ArchiveFault::BsdNameTooLong { name_len: 5, payload_len: 4 })
    );
    assert_eq!(
        locate_member_name("/99999999999999999999", 4, Some(table)),
        Err(ArchiveFault::GnuNameOffset {
            text: "99999999999999999999".to_string(),
            cause: DecimalError::Overflow,
        })
    );
    assert_eq!(locate_member_name("/0", 4, None), Err(ArchiveFault::MissingNameTable));
    assert_eq!(
        locate_member_name("/9", 4, Some(table)),
        Err(ArchiveFault::GnuNameOutOfTable { offset: 9, table_len: 9 })
    );
}

#[test]
fn members_are_named() {
    assert_eq!(
        parse_archive_member("#1/8", b"ab.o\0\0\0\0rest", None),
        Ok(("ab.o".to_string(), b"rest".to_vec()))
    );
    assert_eq!(
        parse_archive_member("#1/3", b"\xff.orest", None),
        Ok(("\u{fffd}.o".to_string(), b"rest".to_vec()))
    );
    assert_eq!(
        parse_archive_member("/9", b"body", Some(b"first.o/\nsecond.o/\n")),
        Ok(("second.o".to_string(), b"body".to_vec()))
    );
    assert_eq!(
        parse_archive_member("short.o/", b"body", None),
        Ok(("short.o".to_string(), b"body".to_vec()))
    );
}

#[test]
fn payload_ends_are_located() {
    assert_eq!(locate_payload_end("12", 8, 80), Ok(80));
    assert_eq!(locate_payload_end("0", 8, 68), Ok(68));
    assert_eq!(locate_payload_end("13", 8, 80), Err(ArchiveFault::TruncatedMember { offset: 8 }));
    assert_eq!(
        locate_payload_end("", 8, 80),
        Err(ArchiveFault::InvalidSize { offset: 8, cause: DecimalError::Empty })
    );
    let huge = usize::MAX.to_string();
    assert_eq!(locate_payload_end(&huge, 8, 80), Err(ArchiveFault::OverflowingSize));
    assert_eq!(locate_payload_end("0", usize::MAX, 80), Err(ArchiveFault::OverflowingSize));
}

#[test]
fn bsd_archive_is_read() {
    let data = archive(&[
        entry("#1/12", b"__.SYMDEF\0\0\0index"),
        entry("#1/20", b"long_object_name.o\0\0code"),
        entry("a.o", b"odd"),
        entry("b.o", b""),
    ]);
    assert_eq!(
        archive_members(&data),
        Ok(vec![
            member("__.SYMDEF", b"index"),
            member("long_object_name.o", b"code"),
            member("a.o", b"odd"),
            member("b.o", b""),
        ])
    );
}

#[test]
fn gnu_archive_is_read() {
    let data = archive(&[
        entry("/", b"\0\0\0\0"),
        entry("//", b"first_long_object.o/\nsecond_long_object.o/\n"),
        entry("/21", b"two"),
        entry("short.o/", b"s"),
        entry("/0", b"one"),
    ]);
    assert_eq!(
        archive_members(&data),
        Ok(vec![
            member("", b"\0\0\0\0"),
            member("second_long_object.o", b"two"),
            member("short.o", b"s"),
            member("first_long_object.o", b"one"),
        ])
    );
}

#[test]
fn short_names_are_read_back() {
    let data = archive(&[
        entry("a.o/", b"odd"),
        entry("a.o", b""),
        entry("dir/a b.o/", b"same"),
        entry("fifteen_chars.o/", b"same"),
        entry("sixteen_charss.o", b"last"),
    ]);
    assert_eq!(
        archive_members(&data),
        Ok(vec![
            member("a.o", b"odd"),
            member("a.o", b""),
            member("dir/a b.o", b"same"),
            member("fifteen_chars.o", b"same"),
            member("sixteen_charss.o", b"last"),
        ])
    );
}

#[test]
fn short_names_fill_their_field_by_bytes() {
    let mut data = MAGIC.to_vec();
    data.extend_from_slice("h\u{e9}.o/          ".as_bytes());
    assert_eq!(data.len(), MAGIC.len() + 16);
    data.extend_from_slice(&entry("", b"body")[16..]);
    assert_eq!(archive_members(&data), Ok(vec![member("h\u{e9}.o", b"body")]));
}

#[test]
fn bsd_names_are_read_back_whatever_their_padding() {
    let data = archive(&[entry("#1/3", b"a.oone"), entry("#1/8", b"a.o\0\0\0\0\0two")]);
    assert_eq!(archive_members(&data), Ok(vec![member("a.o", b"one"), member("a.o", b"two")]));
}

#[test]
fn gnu_long_names_are_read_back() {
    let data = archive(&[
        entry("//", b"a_rather_long_name.o/\nb.o/\na_rather_long_name.o/\n"),
        entry("/0", b"one"),
        entry("/22", b"/0"),
        entry("/27", b""),
    ]);
    assert_eq!(
        archive_members(&data),
        Ok(vec![
            member("a_rather_long_name.o", b"one"),
            member("b.o", b"/0"),
            member("a_rather_long_name.o", b""),
        ])
    );
}

#[test]
fn the_byte_behind_an_odd_payload_is_not_read() {
    for pad in [b'\n', b'\0', b'x', 0xff] {
        let mut first = entry("a.o", b"odd");
        let last = first.len() - 1;
        first[last] = pad;
        let data = archive(&[first, entry("b.o", b"even")]);
        assert_eq!(archive_members(&data), Ok(vec![member("a.o", b"odd"), member("b.o", b"even")]));
    }
}

#[test]
fn joined_archives_are_read_in_turn() {
    let first = archive(&[entry("//", b"long_name_one.o/\n"), entry("/0", b"1")]);
    let second = archive(&[
        entry("b.o/", b"22"),
        entry("//", b"long_name_two.o/\n"),
        entry("/0", b"333"),
    ]);
    let mut joined = first.clone();
    joined.extend_from_slice(&second[8..]);
    assert_eq!(
        archive_members(&joined),
        Ok(vec![
            member("long_name_one.o", b"1"),
            member("b.o", b"22"),
            member("long_name_two.o", b"333"),
        ])
    );
}

#[test]
fn empty_archive_has_no_members() {
    assert_eq!(archive_members(MAGIC), Ok(vec![]));
}

#[test]
fn a_later_table_replaces_an_earlier_one() {
    let data = archive(&[
        entry("//", b"x.o/\n"),
        entry("/0", b"1"),
        entry("//", b"y.o/\n"),
        entry("/0", b"2"),
    ]);
    assert_eq!(archive_members(&data), Ok(vec![member("x.o", b"1"), member("y.o", b"2")]));
}

#[test]
fn faults_are_reported_in_words() {
    let shown = "dir/lib.a";
    assert_eq!(error(b"!<thin>\n").message(shown), "dir/lib.a is not an ar archive");
    assert_eq!(error(b"").message(shown), "dir/lib.a is not an ar archive");

    let mut broken = archive(&[entry("a.o", b"xy"), entry("b.o", b"z")]);
    broken[70 + 58] = b'x';
    assert_eq!(error(&broken), ArchiveFault::InvalidHeader { offset: 70 });
    assert_eq!(error(&broken).message(shown), "dir/lib.a has an invalid ar header at byte 70");

    let mut size = archive(&[entry("a.o", b"xy")]);
    size[8 + 48] = b'q';
    assert_eq!(
        error(&size).message(shown),
        "dir/lib.a has an invalid ar member size at byte 8: invalid digit found in string"
    );
    size[8 + 48] = 0xff;
    assert_eq!(
        error(&size),
        ArchiveFault::InvalidSize { offset: 8, cause: DecimalError::InvalidDigit }
    );
    for i in 48..58 {
        size[8 + i] = b' ';
    }
    assert_eq!(
        error(&size).message(shown),
        "dir/lib.a has an invalid ar member size at byte 8: cannot parse integer from empty string"
    );

    let mut cut = archive(&[entry("a.o", b"xyzw")]);
    cut.pop();
    assert_eq!(error(&cut).message(shown), "dir/lib.a has a truncated ar member at byte 8");

    let mut trailing = archive(&[entry("a.o", b"xy")]);
    trailing.push(b'\n');
    assert_eq!(error(&trailing), ArchiveFault::TrailingBytes);
    assert_eq!(
        error(&trailing).message(shown),
        "dir/lib.a has trailing bytes after the final ar member"
    );

    let mut unpadded = archive(&[entry("a.o", b"xyz")]);
    unpadded.pop();
    assert_eq!(error(&unpadded), ArchiveFault::TrailingBytes);

    assert_eq!(
        error(&archive(&[entry("#1/x", b"xy")])).message(shown),
        "invalid BSD ar extended-name length `x`: invalid digit found in string"
    );
    assert_eq!(
        error(&archive(&[entry("#1/9", b"xy")])).message(shown),
        "BSD ar extended-name length 9 exceeds member payload size 2"
    );
    assert_eq!(
        error(&archive(&[entry("/3", b"xy")])).message(shown),
        "GNU ar long-name member appeared before the string table"
    );
    assert_eq!(
        error(&archive(&[entry("//", b"x/\n"), entry("/3", b"xy")])).message(shown),
        "GNU ar long-name offset 3 exceeds string table size 3"
    );
    let long = ArchiveFault::GnuNameOffset {
        text: "99999999999999999999".to_string(),
        cause: DecimalError::Overflow,
    };
    assert_eq!(
        long.message(shown),
        "invalid GNU ar long-name offset `99999999999999999999`: number too large to fit in target type"
    );
    let overflow: ArchiveError = ArchiveFault::OverflowingSize;
    assert_eq!(overflow.message(shown), "dir/lib.a has an overflowing ar member size");
}

#[test]
fn a_bad_name_is_found_before_trailing_bytes() {
    let mut data = archive(&[entry("#1/9", b"xyz")]);
    data.pop();
    assert_eq!(error(&data), ArchiveFault::BsdNameTooLong { name_len: 9, payload_len: 3 });
}

use chrono::{FixedOffset, TimeZone};
use vstd::prelude::*;
use vstd::string::*;
use vstd::utf8::{decode_utf8, valid_utf8};
use crate::bytes::{
    bytes_eq, find_pair, first_index, lemma_append, lemma_find_pair, lemma_find_pair_after,
    lemma_first_index, lemma_first_index_after, lemma_first_index_is, lemma_skip_prefix,
    lemma_skip_skip, through,
};
use crate::cursor::Cursor;
use crate::decimal::{
    is_signed_decimal, lemma_signed_decimal, parse_signed_decimal, signed_decimal,
    signed_decimal_value, write_signed_decimal,
};
use crate::error::Error;
use crate::object::{store_bytes, stored_encoding, ObjectType};
use crate::oid::{hex_bytes, hex_chars, is_hex, lemma_unhex_of_hex, sha1_digest, unhex, Oid};
use crate::text::utf8;

verus! {

/// The largest zone offset, in minutes, that four digits of hours and
/// minutes can spell: 99 hours and 59 minutes.
pub const MAX_OFFSET_MINUTES: i32 = 5999;

/// The number of bytes of a line that holds an identifier: 40 hexadecimal
/// digits and a line feed.
pub const HEX_LINE_LEN: usize = 41;

/// A point in time with a fixed offset from UTC: seconds since the epoch,
/// and the offset in minutes, positive east of UTC. The offset is always one
/// that four digits of hours and minutes can spell. The view is the pair of
/// the seconds and the offset.
#[derive(Debug, Clone, Copy)]
pub struct Timestamp {
    seconds: i64,
    offset_minutes: i32,
}

/// Who wrote or committed a change, and when.
#[derive(Debug, Clone)]
pub struct Identity {
    name: Vec<u8>,
    email: Vec<u8>,
    datetime: Timestamp,
}

/// A commit record: the tree it snapshots, its parents in their order of
/// ancestry, who wrote and who committed it, and the message.
#[derive(Debug, Clone)]
pub struct Commit {
    tree: Oid,
    parents: Vec<Oid>,
    author: Identity,
    committer: Identity,
    message: Vec<u8>,
}

/// What an [`Identity`] holds, as plain values.
pub ghost struct IdentityView {
    pub name: Seq<u8>,
    pub email: Seq<u8>,
    pub seconds: int,
    pub offset_minutes: int,
}

/// What a [`Commit`] holds, as plain values.
pub ghost struct CommitView {
    pub tree: Seq<u8>,
    pub parents: Seq<Seq<u8>>,
    pub author: IdentityView,
    pub committer: IdentityView,
    pub message: Seq<u8>,
}

impl View for Timestamp {
    type V = (int, int);

    closed spec fn view(&self) -> (int, int) {
        (self.seconds as int, self.offset_minutes as int)
    }
}

impl View for Identity {
    type V = IdentityView;

    closed spec fn view(&self) -> IdentityView {
        IdentityView {
            name: self.name@,
            email: self.email@,
            seconds: self.datetime@.0,
            offset_minutes: self.datetime@.1,
        }
    }
}

/// The identifiers of a vector, as plain values.
pub open spec fn oid_views(oids: Seq<Oid>) -> Seq<Seq<u8>> {
    oids.map_values(|oid: Oid| oid@)
}

impl View for Commit {
    type V = CommitView;

    closed spec fn view(&self) -> CommitView {
        CommitView {
            tree: self.tree@,
            parents: oid_views(self.parents@),
            author: self.author@,
            committer: self.committer@,
            message: self.message@,
        }
    }
}

/// The two decimal digits of a number below 100.
pub open spec fn two_digits(n: int) -> Seq<u8> {
    seq![(48 + n / 10) as u8, (48 + n % 10) as u8]
}

/// The text of a zone offset: a sign, `+` for east of UTC and for UTC itself,
/// `-` for west, two digits of hours, and two digits of minutes.
pub open spec fn offset_encoding(minutes: int) -> Seq<u8> {
    let magnitude = if minutes < 0 {
        -minutes
    } else {
        minutes
    };
    seq![if minutes < 0 { 45u8 } else { 43u8 }] + two_digits(magnitude / 60) + two_digits(
        magnitude % 60,
    )
}

/// The text of an identity: the name, ` <`, the email, `> `, the seconds
/// since the epoch in decimal, a space, and the zone offset.
pub open spec fn identity_encoding(v: IdentityView) -> Seq<u8> {
    v.name + seq![32u8, 60u8] + v.email + seq![62u8, 32u8] + signed_decimal(v.seconds) + seq![32u8]
        + offset_encoding(v.offset_minutes)
}

/// The ASCII text `tree `, with its space.
pub open spec fn tree_word() -> Seq<u8> {
    seq![116u8, 114u8, 101u8, 101u8, 32u8]
}

/// The ASCII text `parent `, with its space.
pub open spec fn parent_word() -> Seq<u8> {
    seq![112u8, 97u8, 114u8, 101u8, 110u8, 116u8, 32u8]
}

/// The ASCII text `author `, with its space.
pub open spec fn author_word() -> Seq<u8> {
    seq![97u8, 117u8, 116u8, 104u8, 111u8, 114u8, 32u8]
}

/// The ASCII text `committer `, with its space.
pub open spec fn committer_word() -> Seq<u8> {
    seq![99u8, 111u8, 109u8, 109u8, 105u8, 116u8, 116u8, 101u8, 114u8, 32u8]
}

/// The text of the lines of parents.
pub open spec fn parents_encoding(parents: Seq<Seq<u8>>) -> Seq<u8>
    decreases parents.len(),
{
    if parents.len() == 0 {
        Seq::empty()
    } else {
        parent_word() + hex_bytes(parents[0]) + seq![10u8] + parents_encoding(parents.skip(1))
    }
}

/// The canonical encoding of a commit: the line of the tree, a line for each
/// parent in the stored order, the lines of the author and of the committer,
/// and the message as it is.
pub open spec fn commit_encoding(c: CommitView) -> Seq<u8> {
    tree_word() + hex_bytes(c.tree) + seq![10u8] + parents_encoding(c.parents) + author_word()
        + identity_encoding(c.author) + seq![10u8] + committer_word() + identity_encoding(
        c.committer,
    ) + seq![10u8] + c.message
}

/// Whether `c` is an ASCII decimal digit.
pub open spec fn is_digit(c: u8) -> bool {
    48 <= c <= 57
}

/// The zone offset, in minutes, that `zone` spells: a sign, two digits of
/// hours and two digits of minutes below 60. Anything else spells none.
pub open spec fn offset_decoding(zone: Seq<u8>) -> Option<int> {
    if zone.len() == 5 && (zone[0] == 43 || zone[0] == 45) && is_digit(zone[1]) && is_digit(zone[2])
        && is_digit(zone[3]) && is_digit(zone[4]) && (zone[3] - 48) * 10 + (zone[4] - 48) < 60 {
        let minutes = ((zone[1] - 48) * 10 + (zone[2] - 48)) * 60 + (zone[3] - 48) * 10 + (zone[4]
            - 48);
        Some(
            if zone[0] == 45 {
                -minutes
            } else {
                minutes
            },
        )
    } else {
        None
    }
}

/// What is left of `s` after the name and the ` <` that ends it.
pub open spec fn after_name(s: Seq<u8>) -> Seq<u8> {
    s.skip(find_pair(s, 32, 60) + 2)
}

/// What is left of `s` after the name, the email and the `> ` that ends it.
pub open spec fn after_email(s: Seq<u8>) -> Seq<u8> {
    after_name(s).skip(find_pair(after_name(s), 62, 32) + 2)
}

/// What is left of `s` after the name, the email, the seconds and the space
/// that ends them.
pub open spec fn after_seconds(s: Seq<u8>) -> Seq<u8> {
    after_email(s).skip(first_index(after_email(s), 32) + 1)
}

/// The number of bytes of the identity line at the start of `s`, its line
/// feed included.
pub open spec fn identity_len(s: Seq<u8>) -> int {
    find_pair(s, 32, 60) + 2 + find_pair(after_name(s), 62, 32) + 2 + first_index(
        after_email(s),
        32,
    ) + 1 + first_index(after_seconds(s), 10) + 1
}

/// The identity that the line at the start of `s` spells: the name up to
/// ` <`, the email up to `> `, the seconds up to a space, and the zone offset
/// up to a line feed. None where one of these ends is missing, where the
/// seconds are no numeral that fits in 64 bits, or where the zone spells no
/// offset.
#[verifier::opaque]
pub open spec fn parse_identity(s: Seq<u8>) -> Option<IdentityView> {
    let name_end = find_pair(s, 32, 60);
    let s1 = after_name(s);
    let email_end = find_pair(s1, 62, 32);
    let s2 = after_email(s);
    let seconds_end = first_index(s2, 32);
    let s3 = after_seconds(s);
    let zone_end = first_index(s3, 10);
    if name_end >= s.len() || email_end >= s1.len() || seconds_end >= s2.len() || zone_end
        >= s3.len() {
        None
    } else if !is_signed_decimal(s2.take(seconds_end)) || signed_decimal_value(s2.take(seconds_end))
        < i64::MIN || signed_decimal_value(s2.take(seconds_end)) > i64::MAX {
        None
    } else if offset_decoding(s3.take(zone_end)) is None {
        None
    } else {
        Some(
            IdentityView {
                name: s.take(name_end),
                email: s1.take(email_end),
                seconds: signed_decimal_value(s2.take(seconds_end)),
                offset_minutes: offset_decoding(s3.take(zone_end))->Some_0,
            },
        )
    }
}

/// The identifier that the line at the start of `s` spells: exactly 40
/// hexadecimal digits before the first line feed.
pub open spec fn parse_hex_line(s: Seq<u8>) -> Option<Seq<u8>> {
    if first_index(s, 10) == 40 && s.len() > 40 && is_hex(s.take(40)) {
        Some(unhex(s.take(40)))
    } else {
        None
    }
}

/// The lines of parents at the start of `s`, with the word `author ` after
/// the last of them: a word through the next space is read again and again,
/// `parent ` is followed by a line with an identifier, `author ` ends the
/// parents, and any other word is no commit.
pub open spec fn parse_parents(s: Seq<u8>) -> Option<Seq<Seq<u8>>>
    decreases s.len(),
    via parse_parents_decreases
{
    let word = s.take(through(s, 32));
    let rest = s.skip(through(s, 32));
    if word == author_word() {
        Some(Seq::empty())
    } else if word == parent_word() && parse_hex_line(rest) is Some {
        match parse_parents(rest.skip(HEX_LINE_LEN as int)) {
            Some(more) => Some(seq![parse_hex_line(rest)->Some_0] + more),
            None => None,
        }
    } else {
        None
    }
}

#[via_fn]
proof fn parse_parents_decreases(s: Seq<u8>) {
    lemma_first_index(s, 32);
}

/// The number of bytes of the lines of parents at the start of `s` and of
/// the word `author ` after them.
pub open spec fn parents_len(s: Seq<u8>) -> int
    decreases s.len(),
    via parents_len_decreases
{
    let word = s.take(through(s, 32));
    let rest = s.skip(through(s, 32));
    if word == parent_word() && parse_hex_line(rest) is Some {
        through(s, 32) + HEX_LINE_LEN + parents_len(rest.skip(HEX_LINE_LEN as int))
    } else {
        through(s, 32)
    }
}

#[via_fn]
proof fn parents_len_decreases(s: Seq<u8>) {
    lemma_first_index(s, 32);
}

/// `parents` before what `r` holds, where it holds anything.
pub open spec fn parents_before(parents: Seq<Seq<u8>>, r: Option<Seq<Seq<u8>>>) -> Option<
    Seq<Seq<u8>>,
> {
    match r {
        Some(more) => Some(parents + more),
        None => None,
    }
}

/// What is left of `s` after the line of the tree and the lines of the
/// parents, at the author's identity.
pub open spec fn at_author(s: Seq<u8>) -> Seq<u8> {
    let s1 = s.skip(through(s, 32) + HEX_LINE_LEN);
    s1.skip(parents_len(s1))
}

/// What is left of `s` after the author's line and the word after it, at
/// the committer's identity.
pub open spec fn at_committer(s: Seq<u8>) -> Seq<u8> {
    let s3 = at_author(s).skip(identity_len(at_author(s)));
    s3.skip(through(s3, 32))
}

/// The commit that `s` encodes, where it encodes one: the word `tree ` and a
/// line with an identifier, the parents up to the word `author `, the
/// author's identity, the word `committer ` and the committer's identity,
/// and what is left as the message.
pub open spec fn parse_commit(s: Seq<u8>) -> Option<CommitView> {
    let s0 = s.skip(through(s, 32));
    let s1 = s0.skip(HEX_LINE_LEN as int);
    let s2 = at_author(s);
    let s3 = s2.skip(identity_len(s2));
    let s4 = at_committer(s);
    if s.take(through(s, 32)) != tree_word() || parse_hex_line(s0) is None {
        None
    } else if parse_parents(s1) is None || parse_identity(s2) is None {
        None
    } else if s3.take(through(s3, 32)) != committer_word() || parse_identity(s4) is None {
        None
    } else {
        Some(
            CommitView {
                tree: parse_hex_line(s0)->Some_0,
                parents: parse_parents(s1)->Some_0,
                author: parse_identity(s2)->Some_0,
                committer: parse_identity(s4)->Some_0,
                message: s4.skip(identity_len(s4)),
            },
        )
    }
}

/// The text that the `chrono` crate writes for the point in time `seconds`
/// after the epoch, seen at `offset_seconds` east of UTC: the local date and
/// time of day, a space, and the offset. None where `chrono` has no such
/// point in time.
pub uninterp spec fn datetime_text(seconds: int, offset_seconds: int) -> Option<Seq<char>>;

/// `chrono`'s `Display` for a `DateTime<FixedOffset>`, on the value that
/// `FixedOffset::east_opt` and `TimeZone::timestamp_opt` make of the two
/// numbers: the text depends on the two numbers alone, and there is none
/// where either of the two constructors gives none.
#[verifier::external_body]
fn chrono_text(seconds: i64, offset_seconds: i32) -> (r: Option<String>)
    ensures
        r is Some <==> datetime_text(seconds as int, offset_seconds as int) is Some,
        r matches Some(text) ==> datetime_text(seconds as int, offset_seconds as int) == Some(
            text@,
        ),
{
    match FixedOffset::east_opt(offset_seconds) {
        Some(offset) => match offset.timestamp_opt(seconds, 0).single() {
            Some(datetime) => Some(datetime.to_string()),
            None => None,
        },
        None => None,
    }
}

/// The text of an identity in a listing, with `datetime` for its point in
/// time: the name, ` <`, the email, `> `, and `datetime`. An identity whose
/// name or email is not UTF-8 has no text.
pub open spec fn identity_text_with(v: IdentityView, datetime: Seq<char>) -> Option<Seq<char>> {
    if valid_utf8(v.name) && valid_utf8(v.email) {
        Some(
            decode_utf8(v.name) + seq![' ', '<'] + decode_utf8(v.email) + seq!['>', ' ']
                + datetime,
        )
    } else {
        None
    }
}

/// The text of an identity in a listing, with the point in time as `chrono`
/// writes it.
pub open spec fn identity_text(v: IdentityView) -> Option<Seq<char>> {
    match datetime_text(v.seconds, v.offset_minutes * 60) {
        Some(datetime) => identity_text_with(v, datetime),
        None => None,
    }
}

/// The lines of the parents in a listing.
pub open spec fn parents_text(parents: Seq<Seq<u8>>) -> Seq<char>
    decreases parents.len(),
{
    if parents.len() == 0 {
        Seq::empty()
    } else {
        parents_text(parents.drop_last()) + (seq!['p', 'a', 'r', 'e', 'n', 't', ' '] + hex_chars(
            parents.last(),
        ) + seq!['\n'])
    }
}

/// The listing of a commit, with `author` and `committer` for the texts of
/// its two identities: the line of the tree, the lines of the parents, the
/// author's line under the word `author`, the committer's line under the
/// word `comitter`, and the message. A commit whose message is not UTF-8 has
/// no listing.
pub open spec fn commit_text_with(c: CommitView, author: Seq<char>, committer: Seq<char>) -> Option<
    Seq<char>,
> {
    if valid_utf8(c.message) {
        Some(
            seq!['t', 'r', 'e', 'e', ' '] + hex_chars(c.tree) + seq!['\n'] + parents_text(c.parents)
                + seq!['a', 'u', 't', 'h', 'o', 'r', ' '] + author + seq!['\n'] + seq![
                'c',
                'o',
                'm',
                'i',
                't',
                't',
                'e',
                'r',
                ' ',
            ] + committer + seq!['\n'] + decode_utf8(c.message),
        )
    } else {
        None
    }
}

/// The listing of a commit.
pub open spec fn commit_text(c: CommitView) -> Option<Seq<char>> {
    if identity_text(c.author) is Some && identity_text(c.committer) is Some {
        commit_text_with(c, identity_text(c.author)->Some_0, identity_text(c.committer)->Some_0)
    } else {
        None
    }
}

impl Timestamp {
    #[verifier::type_invariant]
    spec fn in_range(&self) -> bool {
        -MAX_OFFSET_MINUTES <= self.offset_minutes <= MAX_OFFSET_MINUTES
    }

    /// The point in time `seconds` after the epoch, at `offset_minutes` east
    /// of UTC. There is none where the offset is beyond 99 hours and 59
    /// minutes.
    pub fn new(seconds: i64, offset_minutes: i32) -> (r: Option<Timestamp>)
        ensures
            r is Some <==> -MAX_OFFSET_MINUTES <= offset_minutes <= MAX_OFFSET_MINUTES,
            r matches Some(t) ==> t@ == (seconds as int, offset_minutes as int),
    {
        if -MAX_OFFSET_MINUTES <= offset_minutes && offset_minutes <= MAX_OFFSET_MINUTES {
            Some(Self { seconds, offset_minutes })
        } else {
            None
        }
    }

    /// The point in time as text: the local date and time of day, and the
    /// offset. There is none where the point in time is beyond what the
    /// `chrono` crate can hold.
    pub fn to_text(&self) -> (r: Option<String>)
        ensures
            r is Some <==> datetime_text(self@.0, self@.1 * 60) is Some,
            r matches Some(text) ==> datetime_text(self@.0, self@.1 * 60) == Some(text@),
    {
        proof {
            use_type_invariant(self);
        }
        chrono_text(self.seconds, self.offset_minutes * 60)
    }

    /// The seconds since the epoch.
    pub fn seconds(&self) -> (seconds: i64)
        ensures
            seconds == self@.0,
    {
        self.seconds
    }

    /// The offset from UTC in minutes, positive east of UTC.
    pub fn offset_minutes(&self) -> (minutes: i32)
        ensures
            minutes == self@.1,
            -MAX_OFFSET_MINUTES <= minutes <= MAX_OFFSET_MINUTES,
    {
        proof {
            use_type_invariant(self);
        }
        self.offset_minutes
    }
}

/// Appends the text of a zone offset.
fn write_offset(writer: &mut Vec<u8>, minutes: i32)
    requires
        -MAX_OFFSET_MINUTES <= minutes <= MAX_OFFSET_MINUTES,
    ensures
        final(writer)@ == old(writer)@ + offset_encoding(minutes as int),
{
    let sign: u8 = if minutes < 0 {
        45u8
    } else {
        43u8
    };
    let magnitude: i32 = if minutes < 0 {
        -minutes
    } else {
        minutes
    };
    let hours: i32 = magnitude / 60;
    let rest: i32 = magnitude % 60;
    writer.push(sign);
    writer.push((48 + hours / 10) as u8);
    writer.push((48 + hours % 10) as u8);
    writer.push((48 + rest / 10) as u8);
    writer.push((48 + rest % 10) as u8);
    assert(writer@ =~= old(writer)@ + offset_encoding(minutes as int));
}

/// Reads the text of a zone offset.
fn parse_offset(zone: &[u8]) -> (r: Option<i32>)
    ensures
        r is Some <==> offset_decoding(zone@) is Some,
        r matches Some(minutes) ==> offset_decoding(zone@) == Some(minutes as int)
            && -MAX_OFFSET_MINUTES <= minutes <= MAX_OFFSET_MINUTES,
{
    if zone.len() != 5 {
        return None;
    }
    if zone[0] != 43u8 && zone[0] != 45u8 {
        return None;
    }
    let mut i: usize = 1;
    while i < 5
        invariant
            1 <= i <= 5,
            zone@.len() == 5,
            forall|k: int| 1 <= k < i ==> is_digit(#[trigger] zone@[k]),
        decreases 5 - i,
    {
        if zone[i] < 48u8 || zone[i] > 57u8 {
            return None;
        }
        i = i + 1;
    }
    assert(is_digit(zone@[1]) && is_digit(zone@[2]) && is_digit(zone@[3]) && is_digit(zone@[4]));
    let hours: i32 = (zone[1] - 48u8) as i32 * 10 + (zone[2] - 48u8) as i32;
    let rest: i32 = (zone[3] - 48u8) as i32 * 10 + (zone[4] - 48u8) as i32;
    if rest >= 60 {
        return None;
    }
    let minutes: i32 = hours * 60 + rest;
    if zone[0] == 45u8 {
        Some(-minutes)
    } else {
        Some(minutes)
    }
}

impl Identity {
    /// The identity with the given name, email and point in time.
    pub fn new(name: Vec<u8>, email: Vec<u8>, datetime: Timestamp) -> (identity: Identity)
        ensures
            identity@ == (IdentityView {
                name: name@,
                email: email@,
                seconds: datetime@.0,
                offset_minutes: datetime@.1,
            }),
    {
        Self { name, email, datetime }
    }

    /// The name.
    pub fn name(&self) -> (name: &[u8])
        ensures
            name@ == self@.name,
    {
        self.name.as_slice()
    }

    /// The email address.
    pub fn email(&self) -> (email: &[u8])
        ensures
            email@ == self@.email,
    {
        self.email.as_slice()
    }

    /// The point in time.
    pub fn datetime(&self) -> (datetime: Timestamp)
        ensures
            datetime@ == (self@.seconds, self@.offset_minutes),
    {
        self.datetime
    }

    /// The text of the identity in a listing, with `datetime` for its point
    /// in time. A name or an email that is not UTF-8 is a `FormatError`.
    pub fn text_with(&self, datetime: &str) -> (r: Result<String, Error>)
        ensures
            match r {
                Ok(text) => identity_text_with(self@, datetime@) == Some(text@),
                Err(e) => e == Error::FormatError && identity_text_with(self@, datetime@) is None,
            },
    {
        let name = match utf8(self.name.as_slice()) {
            Ok(name) => name,
            Err(e) => return Err(e),
        };
        let email = match utf8(self.email.as_slice()) {
            Ok(email) => email,
            Err(e) => return Err(e),
        };
        proof {
            reveal_strlit(" <");
            reveal_strlit("> ");
        }
        let mut text = String::from_str(name);
        text.append(" <");
        text.append(email);
        text.append("> ");
        text.append(datetime);
        proof {
            assert(" <"@ =~= seq![' ', '<']);
            assert("> "@ =~= seq!['>', ' ']);
            assert(text@ =~= identity_text_with(self@, datetime@)->Some_0);
        }
        Ok(text)
    }

    /// The text of the identity in a listing: `name <email>` and the point
    /// in time as the `chrono` crate writes it. A point in time that `chrono`
    /// cannot hold, and a name or an email that is not UTF-8, are a
    /// `FormatError`.
    pub fn to_text(&self) -> (r: Result<String, Error>)
        ensures
            match r {
                Ok(text) => identity_text(self@) == Some(text@),
                Err(e) => e == Error::FormatError && identity_text(self@) is None,
            },
    {
        match self.datetime.to_text() {
            Some(datetime) => self.text_with(datetime.as_str()),
            None => Err(Error::FormatError),
        }
    }

    /// Appends the text of the identity: `name <email> seconds ±HHMM`.
    pub fn write(&self, writer: &mut Vec<u8>)
        ensures
            final(writer)@ == old(writer)@ + identity_encoding(self@),
    {
        let ghost w = writer@;
        writer.extend_from_slice(self.name.as_slice());
        writer.push(32u8);
        writer.push(60u8);
        writer.extend_from_slice(self.email.as_slice());
        writer.push(62u8);
        writer.push(32u8);
        let ghost head = self@.name + seq![32u8, 60u8] + self@.email + seq![62u8, 32u8];
        assert(writer@ =~= w + head);
        write_signed_decimal(writer, self.datetime.seconds());
        writer.push(32u8);
        let ghost mid = head + signed_decimal(self@.seconds) + seq![32u8];
        assert(writer@ =~= w + mid);
        write_offset(writer, self.datetime.offset_minutes());
        assert(writer@ == w + identity_encoding(self@)) by {
            lemma_append(w, mid, offset_encoding(self@.offset_minutes));
        }
    }

    /// Reads one identity line, through its line feed.
    pub fn from_reader(reader: &mut Cursor) -> (r: Result<Identity, Error>)
        ensures
            match r {
                Ok(identity) => {
                    &&& parse_identity(old(reader)@) == Some(identity@)
                    &&& final(reader)@ == old(reader)@.skip(identity_len(old(reader)@))
                },
                Err(e) => e == Error::FormatError && parse_identity(old(reader)@) is None,
            },
    {
        let ghost s = reader@;
        proof {
            reveal(parse_identity);
            lemma_find_pair(s, 32, 60);
            lemma_find_pair(after_name(s), 62, 32);
            lemma_first_index(after_email(s), 32);
            lemma_first_index(after_seconds(s), 10);
        }
        let name = match reader.read_until_pair(32u8, 60u8) {
            Some(name) => name,
            None => return Err(Error::FormatError),
        };
        let email = match reader.read_until_pair(62u8, 32u8) {
            Some(email) => email,
            None => return Err(Error::FormatError),
        };
        assert(reader@ == after_email(s));
        let mut seconds_text = reader.read_until(32u8);
        if seconds_text.len() == 0 || seconds_text[seconds_text.len() - 1] != 32u8 {
            return Err(Error::FormatError);
        }
        seconds_text.pop();
        assert(seconds_text@ =~= after_email(s).take(first_index(after_email(s), 32)));
        assert(reader@ == after_seconds(s));
        let seconds = match parse_signed_decimal(seconds_text.as_slice()) {
            Some(seconds) => seconds,
            None => return Err(Error::FormatError),
        };
        let mut zone = reader.read_until(10u8);
        if zone.len() == 0 || zone[zone.len() - 1] != 10u8 {
            return Err(Error::FormatError);
        }
        zone.pop();
        assert(zone@ =~= after_seconds(s).take(first_index(after_seconds(s), 10)));
        let minutes = match parse_offset(zone.as_slice()) {
            Some(minutes) => minutes,
            None => return Err(Error::FormatError),
        };
        let datetime = match Timestamp::new(seconds, minutes) {
            Some(datetime) => datetime,
            None => return Err(Error::FormatError),
        };
        assert(reader@ =~= s.skip(identity_len(s)));
        Ok(Identity::new(name, email, datetime))
    }
}

/// Reads a line that holds an identifier.
fn read_hex_line(reader: &mut Cursor) -> (r: Option<Oid>)
    ensures
        r is Some <==> parse_hex_line(old(reader)@) is Some,
        r matches Some(oid) ==> parse_hex_line(old(reader)@) == Some(oid@) && final(reader)@ == old(
            reader,
        )@.skip(HEX_LINE_LEN as int),
{
    let ghost s = reader@;
    proof {
        lemma_first_index(s, 10);
    }
    let mut line = reader.read_until(10u8);
    if line.len() == 0 || line[line.len() - 1] != 10u8 {
        return None;
    }
    line.pop();
    assert(line@ =~= s.take(first_index(s, 10)));
    match Oid::from_hex(line.as_slice()) {
        Ok(oid) => Some(oid),
        Err(_) => None,
    }
}

impl Commit {
    /// The identifier of the tree and those of the parents have their 20
    /// bytes each.
    pub proof fn lemma_identifiers(&self)
        ensures
            self@.tree.len() == 20,
            forall|i: int| 0 <= i < self@.parents.len() ==> (#[trigger] self@.parents[i]).len() == 20,
    {
        self.tree.lemma_len();
        assert forall|i: int| 0 <= i < self@.parents.len() implies (#[trigger] self@.parents[i]).len()
            == 20 by {
            self.parents@[i].lemma_len();
        }
    }

    /// The commit with the given tree, parents, identities and message.
    pub fn new(
        tree: Oid,
        parents: Vec<Oid>,
        author: Identity,
        committer: Identity,
        message: Vec<u8>,
    ) -> (commit: Commit)
        ensures
            commit@ == (CommitView {
                tree: tree@,
                parents: oid_views(parents@),
                author: author@,
                committer: committer@,
                message: message@,
            }),
    {
        Self { tree, parents, author, committer, message }
    }

    /// The identifier of the tree.
    pub fn tree(&self) -> (tree: Oid)
        ensures
            tree@ == self@.tree,
    {
        self.tree
    }

    /// The identifiers of the parents, in their stored order.
    pub fn parents(&self) -> (parents: &Vec<Oid>)
        ensures
            oid_views(parents@) == self@.parents,
    {
        &self.parents
    }

    /// The author.
    pub fn author(&self) -> (author: &Identity)
        ensures
            author@ == self@.author,
    {
        &self.author
    }

    /// The committer.
    pub fn committer(&self) -> (committer: &Identity)
        ensures
            committer@ == self@.committer,
    {
        &self.committer
    }

    /// The message.
    pub fn message(&self) -> (message: &[u8])
        ensures
            message@ == self@.message,
    {
        self.message.as_slice()
    }

    /// The canonical encoding of the commit.
    pub fn encode(&self) -> (data: Vec<u8>)
        ensures
            data@ == commit_encoding(self@),
    {
        let mut data: Vec<u8> = Vec::new();
        let tree_word_bytes = [116u8, 114u8, 101u8, 101u8, 32u8];
        let parent_word_bytes = [112u8, 97u8, 114u8, 101u8, 110u8, 116u8, 32u8];
        let author_word_bytes = [97u8, 117u8, 116u8, 104u8, 111u8, 114u8, 32u8];
        let committer_word_bytes = [99u8, 111u8, 109u8, 109u8, 105u8, 116u8, 116u8, 101u8, 114u8, 32u8];
        assert(tree_word_bytes@ =~= tree_word());
        assert(parent_word_bytes@ =~= parent_word());
        assert(author_word_bytes@ =~= author_word());
        assert(committer_word_bytes@ =~= committer_word());
        data.extend_from_slice(tree_word_bytes.as_slice());
        let tree_hex = self.tree.hex_bytes();
        data.extend_from_slice(tree_hex.as_slice());
        data.push(10u8);
        let ghost head = tree_word() + hex_bytes(self@.tree) + seq![10u8];
        assert(data@ =~= head);
        let ghost parents = oid_views(self.parents@);
        let mut i: usize = 0;
        assert(parents.take(0) =~= Seq::<Seq<u8>>::empty());
        assert(head + parents_encoding(parents.take(0)) =~= head);
        while i < self.parents.len()
            invariant
                i <= self.parents@.len(),
                parents == oid_views(self.parents@),
                parent_word_bytes@ == parent_word(),
                data@ == head + parents_encoding(parents.take(i as int)),
            decreases self.parents@.len() - i,
        {
            let ghost before = data@;
            data.extend_from_slice(parent_word_bytes.as_slice());
            let parent_hex = self.parents[i].hex_bytes();
            data.extend_from_slice(parent_hex.as_slice());
            data.push(10u8);
            proof {
                let line = parent_word() + hex_bytes(parents[i as int]) + seq![10u8];
                assert(data@ =~= before + line);
                lemma_parents_encoding_push(parents.take(i as int), parents[i as int]);
                assert(parents.take(i as int).push(parents[i as int]) =~= parents.take(i + 1));
                lemma_append(head, parents_encoding(parents.take(i as int)), line);
            }
            i = i + 1;
        }
        assert(parents.take(i as int) =~= parents);
        let ghost part1 = head + parents_encoding(parents);
        data.extend_from_slice(author_word_bytes.as_slice());
        let ghost part2 = part1 + author_word();
        self.author.write(&mut data);
        let ghost part3 = part2 + identity_encoding(self@.author);
        data.push(10u8);
        data.extend_from_slice(committer_word_bytes.as_slice());
        let ghost part4 = part3 + seq![10u8] + committer_word();
        assert(data@ =~= part4);
        self.committer.write(&mut data);
        let ghost part5 = part4 + identity_encoding(self@.committer);
        data.push(10u8);
        data.extend_from_slice(self.message.as_slice());
        assert(data@ =~= part5 + seq![10u8] + self@.message);
        data
    }

    /// The listing of the commit, with `author` and `committer` for the
    /// texts of its two identities. A message that is not UTF-8 is a
    /// `FormatError`.
    pub fn text_with(&self, author: &str, committer: &str) -> (r: Result<String, Error>)
        ensures
            match r {
                Ok(text) => commit_text_with(self@, author@, committer@) == Some(text@),
                Err(e) => e == Error::FormatError && commit_text_with(self@, author@, committer@)
                    is None,
            },
    {
        let message = match utf8(self.message.as_slice()) {
            Ok(message) => message,
            Err(e) => return Err(e),
        };
        proof {
            reveal_strlit("tree ");
            reveal_strlit("parent ");
            reveal_strlit("author ");
            reveal_strlit("comitter ");
            reveal_strlit("\n");
            assert("tree "@ =~= seq!['t', 'r', 'e', 'e', ' ']);
            assert("parent "@ =~= seq!['p', 'a', 'r', 'e', 'n', 't', ' ']);
            assert("author "@ =~= seq!['a', 'u', 't', 'h', 'o', 'r', ' ']);
            assert("comitter "@ =~= seq!['c', 'o', 'm', 'i', 't', 't', 'e', 'r', ' ']);
            assert("\n"@ =~= seq!['\n']);
        }
        let mut text = String::from_str("tree ");
        let tree_hex = self.tree.hex();
        text.append(tree_hex.as_str());
        text.append("\n");
        let ghost head = seq!['t', 'r', 'e', 'e', ' '] + hex_chars(self@.tree) + seq!['\n'];
        assert(text@ =~= head);
        let ghost parents = oid_views(self.parents@);
        let mut i: usize = 0;
        assert(parents.take(0) =~= Seq::<Seq<u8>>::empty());
        assert(head + parents_text(parents.take(0)) =~= head);
        while i < self.parents.len()
            invariant
                i <= self.parents@.len(),
                parents == oid_views(self.parents@),
                "parent "@ == seq!['p', 'a', 'r', 'e', 'n', 't', ' '],
                "\n"@ == seq!['\n'],
                text@ == head + parents_text(parents.take(i as int)),
            decreases self.parents@.len() - i,
        {
            let ghost before = text@;
            let parent_hex = self.parents[i].hex();
            text.append("parent ");
            text.append(parent_hex.as_str());
            text.append("\n");
            proof {
                let line = seq!['p', 'a', 'r', 'e', 'n', 't', ' '] + hex_chars(parents[i as int])
                    + seq!['\n'];
                assert(text@ =~= before + line);
                let next = parents.take(i + 1);
                assert(next.drop_last() =~= parents.take(i as int));
                assert(next.last() == parents[i as int]);
                assert(before + line =~= head + parents_text(next));
            }
            i = i + 1;
        }
        assert(parents.take(i as int) =~= parents);
        let ghost part = head + parents_text(parents);
        text.append("author ");
        text.append(author);
        text.append("\n");
        text.append("comitter ");
        text.append(committer);
        text.append("\n");
        text.append(message);
        assert(text@ =~= commit_text_with(self@, author@, committer@)->Some_0);
        Ok(text)
    }

    /// The listing of the commit: the line of the tree, the lines of the
    /// parents, the lines of the author and of the committer, and the
    /// message. What has no text is a `FormatError`: an identity whose point
    /// in time the `chrono` crate cannot hold, and a name, an email or a
    /// message that is not UTF-8.
    pub fn to_text(&self) -> (r: Result<String, Error>)
        ensures
            match r {
                Ok(text) => commit_text(self@) == Some(text@),
                Err(e) => e == Error::FormatError && commit_text(self@) is None,
            },
    {
        let author = match self.author.to_text() {
            Ok(author) => author,
            Err(e) => return Err(e),
        };
        let committer = match self.committer.to_text() {
            Ok(committer) => committer,
            Err(e) => return Err(e),
        };
        self.text_with(author.as_str(), committer.as_str())
    }

    /// The identifier of the commit: the digest of the bytes under which it
    /// is stored.
    pub fn id(&self) -> (oid: Oid)
        ensures
            oid@ == sha1_digest(stored_encoding(ObjectType::Commit, commit_encoding(self@))),
    {
        let payload = self.encode();
        let data = store_bytes(ObjectType::Commit, payload.as_slice());
        Oid::hash(data.as_slice())
    }

    /// Reads a commit: the line of the tree, the lines of the parents, the
    /// lines of the author and of the committer, and all that is left as the
    /// message. Anything that departs from this is a `FormatError`.
    pub fn from_reader(reader: &mut Cursor) -> (r: Result<Commit, Error>)
        ensures
            match r {
                Ok(commit) => parse_commit(old(reader)@) == Some(commit@) && final(reader)@
                    == Seq::<u8>::empty(),
                Err(e) => e == Error::FormatError && parse_commit(old(reader)@) is None,
            },
    {
        let ghost s = reader@;
        let tree_word_bytes = [116u8, 114u8, 101u8, 101u8, 32u8];
        let parent_word_bytes = [112u8, 97u8, 114u8, 101u8, 110u8, 116u8, 32u8];
        let author_word_bytes = [97u8, 117u8, 116u8, 104u8, 111u8, 114u8, 32u8];
        let committer_word_bytes = [99u8, 111u8, 109u8, 109u8, 105u8, 116u8, 116u8, 101u8, 114u8, 32u8];
        assert(tree_word_bytes@ =~= tree_word());
        assert(parent_word_bytes@ =~= parent_word());
        assert(author_word_bytes@ =~= author_word());
        assert(committer_word_bytes@ =~= committer_word());
        let word = reader.read_until(32u8);
        if !bytes_eq(word.as_slice(), tree_word_bytes.as_slice()) {
            return Err(Error::FormatError);
        }
        let tree = match read_hex_line(reader) {
            Some(tree) => tree,
            None => return Err(Error::FormatError),
        };
        let ghost s1 = reader@;
        assert(s1 == s.skip(through(s, 32)).skip(HEX_LINE_LEN as int));
        assert(s1 =~= s.skip(through(s, 32) + HEX_LINE_LEN)) by {
            lemma_first_index(s, 32);
        }
        let mut parents: Vec<Oid> = Vec::new();
        let ghost mut used: int = 0;
        proof {
            assert(s1.skip(0) =~= s1);
            let all = parse_parents(s1);
            if all is Some {
                assert(oid_views(parents@) + all->Some_0 =~= all->Some_0);
            }
        }
        loop
            invariant_except_break
                0 <= used <= s1.len(),
                reader@ == s1.skip(used),
                parse_parents(s1) == parents_before(oid_views(parents@), parse_parents(reader@)),
                parents_len(s1) == used + parents_len(reader@),
                parent_word_bytes@ == parent_word(),
                author_word_bytes@ == author_word(),
            invariant
                s == old(reader)@,
                s.take(through(s, 32)) == tree_word(),
                parse_hex_line(s.skip(through(s, 32))) is Some,
                s1 == s.skip(through(s, 32)).skip(HEX_LINE_LEN as int),
            ensures
                parse_parents(s1) == Some(oid_views(parents@)),
                reader@ == s1.skip(parents_len(s1)),
            decreases reader@.len(),
        {
            let ghost here = reader@;
            proof {
                lemma_first_index(here, 32);
            }
            let word = reader.read_until(32u8);
            if bytes_eq(word.as_slice(), author_word_bytes.as_slice()) {
                proof {
                    assert(oid_views(parents@) + Seq::<Seq<u8>>::empty() =~= oid_views(parents@));
                    assert(s1.skip(used).skip(through(here, 32)) =~= s1.skip(used + through(here, 32)));
                }
                break;
            }
            if !bytes_eq(word.as_slice(), parent_word_bytes.as_slice()) {
                return Err(Error::FormatError);
            }
            let parent = match read_hex_line(reader) {
                Some(parent) => parent,
                None => return Err(Error::FormatError),
            };
            proof {
                let step = through(here, 32) + HEX_LINE_LEN;
                assert(reader@ =~= s1.skip(used + step));
                let more = parse_parents(reader@);
                assert(oid_views(parents@.push(parent)) =~= oid_views(parents@).push(parent@));
                if more is Some {
                    assert(oid_views(parents@) + (seq![parent@] + more->Some_0) =~= oid_views(
                        parents@.push(parent),
                    ) + more->Some_0);
                }
                used = used + step;
            }
            parents.push(parent);
        }
        assert(reader@ == at_author(s));
        let author = match Identity::from_reader(reader) {
            Ok(author) => author,
            Err(e) => return Err(e),
        };
        let word = reader.read_until(32u8);
        if !bytes_eq(word.as_slice(), committer_word_bytes.as_slice()) {
            return Err(Error::FormatError);
        }
        assert(reader@ == at_committer(s));
        let committer = match Identity::from_reader(reader) {
            Ok(committer) => committer,
            Err(e) => return Err(e),
        };
        let message = reader.read_to_end();
        Ok(Commit::new(tree, parents, author, committer, message))
    }

    /// Decodes the canonical encoding of a commit.
    pub fn decode(data: &[u8]) -> (r: Result<Commit, Error>)
        ensures
            match r {
                Ok(commit) => parse_commit(data@) == Some(commit@),
                Err(e) => e == Error::FormatError && parse_commit(data@) is None,
            },
    {
        let mut reader = Cursor::new(vstd::slice::slice_to_vec(data));
        Commit::from_reader(&mut reader)
    }
}

/// Whether an identity is read back from its text as it was: its name holds
/// no ` <`, its email no `> `, its seconds fit in 64 bits with a sign, and
/// its zone offset is one that four digits can spell.
pub open spec fn identity_encodable(v: IdentityView) -> bool {
    &&& find_pair(v.name, 32, 60) == v.name.len()
    &&& find_pair(v.email, 62, 32) == v.email.len()
    &&& i64::MIN <= v.seconds <= i64::MAX
    &&& -MAX_OFFSET_MINUTES <= v.offset_minutes <= MAX_OFFSET_MINUTES
}

/// Whether a commit is read back from its encoding as it was: every
/// identifier has its 20 bytes, and both identities are encodable.
pub open spec fn commit_encodable(c: CommitView) -> bool {
    &&& c.tree.len() == 20
    &&& forall|i: int| 0 <= i < c.parents.len() ==> (#[trigger] c.parents[i]).len() == 20
    &&& identity_encodable(c.author)
    &&& identity_encodable(c.committer)
}

/// The text of a zone offset spells that offset.
pub proof fn lemma_offset_round_trip(minutes: int)
    requires
        -MAX_OFFSET_MINUTES <= minutes <= MAX_OFFSET_MINUTES,
    ensures
        offset_encoding(minutes).len() == 5,
        offset_decoding(offset_encoding(minutes)) == Some(minutes),
        first_index(offset_encoding(minutes), 10) == 5,
{
    let z = offset_encoding(minutes);
    let a = if minutes < 0 {
        -minutes
    } else {
        minutes
    };
    let h = a / 60;
    let r = a % 60;
    assert(0 <= h <= 99 && 0 <= r < 60);
    assert(z =~= seq![
        if minutes < 0 {
            45u8
        } else {
            43u8
        },
        (48 + h / 10) as u8,
        (48 + h % 10) as u8,
        (48 + r / 10) as u8,
        (48 + r % 10) as u8,
    ]);
    assert(h == (h / 10) * 10 + h % 10);
    assert(r == (r / 10) * 10 + r % 10);
    assert(a == h * 60 + r);
    lemma_first_index_is(z, 10, 5);
}

/// A word that ends with its only space is read, before anything, as that
/// word.
pub proof fn lemma_word(word: Seq<u8>, rest: Seq<u8>)
    requires
        word.len() > 0,
        first_index(word, 32) == word.len() - 1,
    ensures
        through(word + rest, 32) == word.len(),
        (word + rest).take(through(word + rest, 32)) == word,
        (word + rest).skip(through(word + rest, 32)) == rest,
{
    let s = word + rest;
    let k = word.len() - 1;
    lemma_first_index(word, 32);
    assert forall|i: int| 0 <= i < k implies s[i] != 32 by {
        assert(s[i] == word[i]);
    }
    assert(s[k] == word[k]);
    lemma_first_index_is(s, 32, k);
    lemma_skip_prefix(word, rest);
}

/// The four words of the grammar end with their only space, and no two of
/// them are the same.
pub proof fn lemma_words()
    ensures
        first_index(tree_word(), 32) == tree_word().len() - 1,
        first_index(parent_word(), 32) == parent_word().len() - 1,
        first_index(author_word(), 32) == author_word().len() - 1,
        first_index(committer_word(), 32) == committer_word().len() - 1,
        parent_word() != author_word(),
{
    lemma_first_index_is(tree_word(), 32, 4);
    lemma_first_index_is(parent_word(), 32, 6);
    lemma_first_index_is(author_word(), 32, 6);
    lemma_first_index_is(committer_word(), 32, 9);
    assert(parent_word()[0] != author_word()[0]);
}

/// No byte of hexadecimal text is a line feed.
pub proof fn lemma_hex_has_no_line_feed(oid: Seq<u8>)
    ensures
        first_index(hex_bytes(oid), 10) == hex_bytes(oid).len(),
{
    let h = hex_bytes(oid);
    lemma_unhex_of_hex(oid);
    assert forall|i: int| 0 <= i < h.len() implies h[i] != 10 by {
        assert(crate::oid::is_hex_digit(h[i]));
    }
    lemma_first_index_is(h, 10, h.len() as int);
}

/// The line of an identifier, before anything, is read as that identifier.
pub proof fn lemma_hex_line(oid: Seq<u8>, rest: Seq<u8>)
    requires
        oid.len() == 20,
    ensures
        parse_hex_line(hex_bytes(oid) + (seq![10u8] + rest)) == Some(oid),
        (hex_bytes(oid) + (seq![10u8] + rest)).skip(HEX_LINE_LEN as int) == rest,
{
    lemma_unhex_of_hex(oid);
    lemma_hex_has_no_line_feed(oid);
    lemma_first_index_after(hex_bytes(oid), 10, rest);
}

/// The text of the lines of parents with one more line after them.
pub proof fn lemma_parents_encoding_push(parents: Seq<Seq<u8>>, parent: Seq<u8>)
    ensures
        parents_encoding(parents.push(parent)) == parents_encoding(parents) + (parent_word()
            + hex_bytes(parent) + seq![10u8]),
    decreases parents.len(),
{
    let line = parent_word() + hex_bytes(parent) + seq![10u8];
    if parents.len() == 0 {
        let one = parents.push(parent);
        assert(one.skip(1) =~= Seq::<Seq<u8>>::empty());
        assert(parents_encoding(one.skip(1)) == Seq::<u8>::empty());
        assert(parents_encoding(one) == parent_word() + hex_bytes(one[0]) + seq![10u8]
            + parents_encoding(one.skip(1)));
        assert(parents_encoding(one) =~= parents_encoding(parents) + line);
    } else {
        lemma_parents_encoding_push(parents.skip(1), parent);
        assert(parents.push(parent).skip(1) =~= parents.skip(1).push(parent));
        let first = parent_word() + hex_bytes(parents[0]) + seq![10u8];
        lemma_append(first, parents_encoding(parents.skip(1)), line);
    }
}

/// The text of the lines of parents, before anything, starts with the line
/// of the first parent.
pub proof fn lemma_parents_encoding_first(parents: Seq<Seq<u8>>, rest: Seq<u8>)
    requires
        parents.len() > 0,
    ensures
        parents_encoding(parents) + rest == parent_word() + (hex_bytes(parents[0]) + (seq![10u8] + (
        parents_encoding(parents.skip(1)) + rest))),
        parents_encoding(parents).len() == 7 + hex_bytes(parents[0]).len() + 1 + parents_encoding(
            parents.skip(1),
        ).len(),
{
    let line = parent_word() + hex_bytes(parents[0]) + seq![10u8];
    let more = parents_encoding(parents.skip(1));
    assert(parents_encoding(parents) == line + more);
    lemma_append(line, more, rest);
    lemma_append(parent_word() + hex_bytes(parents[0]), seq![10u8], more + rest);
    lemma_append(parent_word(), hex_bytes(parents[0]), seq![10u8] + (more + rest));
}

/// The lines of parents, before the word `author ` and anything after it,
/// are read as those parents, and the read stops after the word.
pub proof fn lemma_parse_parents(parents: Seq<Seq<u8>>, rest: Seq<u8>)
    requires
        forall|i: int| 0 <= i < parents.len() ==> (#[trigger] parents[i]).len() == 20,
    ensures
        parse_parents(parents_encoding(parents) + (author_word() + rest)) == Some(parents),
        parents_len(parents_encoding(parents) + (author_word() + rest)) == parents_encoding(
            parents,
        ).len() + 7,
        (parents_encoding(parents) + (author_word() + rest)).skip(
            parents_encoding(parents).len() as int + 7,
        ) == rest,
    decreases parents.len(),
{
    let s = parents_encoding(parents) + (author_word() + rest);
    lemma_words();
    if parents.len() == 0 {
        assert(s =~= author_word() + rest);
        lemma_word(author_word(), rest);
        assert(parse_parents(s)->Some_0 =~= parents);
    } else {
        let tail = parents.skip(1);
        let after = parents_encoding(tail) + (author_word() + rest);
        let line = hex_bytes(parents[0]) + (seq![10u8] + after);
        lemma_parents_encoding_first(parents, author_word() + rest);
        assert(s == parent_word() + line);
        lemma_word(parent_word(), line);
        lemma_hex_line(parents[0], after);
        assert forall|i: int| 0 <= i < tail.len() implies (#[trigger] tail[i]).len() == 20 by {
            assert(tail[i] == parents[i + 1]);
        }
        lemma_parse_parents(tail, rest);
        assert(seq![parents[0]] + tail =~= parents);
        lemma_unhex_of_hex(parents[0]);
        let n = parents_encoding(tail).len() as int + 7;
        assert(parents_len(s) == 7 + 41 + parents_len(after));
        assert(s.skip(48) == after);
        assert(s.skip(48 + n) =~= s.skip(48).skip(n));
    }
}

/// No byte of the decimal text of a number is a space or a line feed.
pub proof fn lemma_signed_decimal_bytes(i: int)
    ensures
        first_index(signed_decimal(i), 32) == signed_decimal(i).len(),
{
    let t = signed_decimal(i);
    lemma_signed_decimal(i);
    assert forall|k: int| 0 <= k < t.len() implies t[k] != 32 by {
        if t[0] == 45 {
            if k > 0 {
                assert(t.skip(1)[k - 1] == t[k]);
            }
        }
    }
    lemma_first_index_is(t, 32, t.len() as int);
}

/// The text of an identity, before anything, as its parts, each with what
/// ends it and what follows it.
pub proof fn lemma_identity_parts(v: IdentityView, rest: Seq<u8>)
    ensures
        identity_encoding(v) + (seq![10u8] + rest) == v.name + (seq![32u8, 60u8] + (v.email + (seq![
            62u8,
            32u8,
        ] + (signed_decimal(v.seconds) + (seq![32u8] + (offset_encoding(v.offset_minutes) + (seq![
            10u8,
        ] + rest))))))),
        identity_encoding(v).len() == v.name.len() + 2 + v.email.len() + 2 + signed_decimal(
            v.seconds,
        ).len() + 1 + offset_encoding(v.offset_minutes).len(),
{
    let zone = offset_encoding(v.offset_minutes);
    let seconds = signed_decimal(v.seconds);
    let t4 = seq![10u8] + rest;
    let h1 = v.name + seq![32u8, 60u8];
    let h2 = h1 + v.email;
    let h3 = h2 + seq![62u8, 32u8];
    let h4 = h3 + seconds;
    let h5 = h4 + seq![32u8];
    lemma_append(h5, zone, t4);
    lemma_append(h4, seq![32u8], zone + t4);
    lemma_append(h3, seconds, seq![32u8] + (zone + t4));
    lemma_append(h2, seq![62u8, 32u8], seconds + (seq![32u8] + (zone + t4)));
    lemma_append(h1, v.email, seq![62u8, 32u8] + (seconds + (seq![32u8] + (zone + t4))));
    lemma_append(
        v.name,
        seq![32u8, 60u8],
        v.email + (seq![62u8, 32u8] + (seconds + (seq![32u8] + (zone + t4)))),
    );
}

/// Where the four parts of an identity line end, and what they are.
proof fn lemma_identity_shape(v: IdentityView, rest: Seq<u8>)
    requires
        identity_encodable(v),
    ensures
        ({
            let s = identity_encoding(v) + (seq![10u8] + rest);
            &&& find_pair(s, 32, 60) == v.name.len()
            &&& s.take(find_pair(s, 32, 60)) == v.name
            &&& find_pair(after_name(s), 62, 32) == v.email.len()
            &&& after_name(s).take(find_pair(after_name(s), 62, 32)) == v.email
            &&& first_index(after_email(s), 32) == signed_decimal(v.seconds).len()
            &&& after_email(s).take(first_index(after_email(s), 32)) == signed_decimal(v.seconds)
            &&& first_index(after_seconds(s), 10) == 5
            &&& after_seconds(s).take(5) == offset_encoding(v.offset_minutes)
            &&& after_seconds(s).skip(6) == rest
            &&& after_name(s).len() < s.len()
            &&& after_email(s).len() < after_name(s).len()
            &&& after_seconds(s).len() < after_email(s).len()
            &&& after_seconds(s).len() > 5
        }),
{
    let s = identity_encoding(v) + (seq![10u8] + rest);
    let seconds = signed_decimal(v.seconds);
    let zone = offset_encoding(v.offset_minutes);
    let t3 = zone + (seq![10u8] + rest);
    let t2 = seconds + (seq![32u8] + t3);
    let t1 = v.email + (seq![62u8, 32u8] + t2);
    lemma_identity_parts(v, rest);
    lemma_find_pair_after(v.name, 32, 60, t1);
    assert(after_name(s) == t1);
    lemma_find_pair_after(v.email, 62, 32, t2);
    assert(after_email(s) == t2);
    lemma_signed_decimal_bytes(v.seconds);
    lemma_first_index_after(seconds, 32, t3);
    assert(after_seconds(s) == t3);
    lemma_offset_round_trip(v.offset_minutes);
    lemma_first_index_after(zone, 10, rest);
}

/// The line of an encodable identity, before anything, is read as that
/// identity, and the read stops after the line feed.
pub proof fn lemma_parse_identity(v: IdentityView, rest: Seq<u8>)
    requires
        identity_encodable(v),
    ensures
        parse_identity(identity_encoding(v) + (seq![10u8] + rest)) == Some(v),
        identity_len(identity_encoding(v) + (seq![10u8] + rest)) == identity_encoding(v).len() + 1,
        (identity_encoding(v) + (seq![10u8] + rest)).skip(identity_encoding(v).len() as int + 1)
            == rest,
{
    reveal(parse_identity);
    let s = identity_encoding(v) + (seq![10u8] + rest);
    lemma_identity_shape(v, rest);
    lemma_identity_parts(v, rest);
    lemma_signed_decimal(v.seconds);
    lemma_offset_round_trip(v.offset_minutes);
    let n = v.name.len() as int;
    let e = v.email.len() as int;
    let d = signed_decimal(v.seconds).len() as int;
    assert(identity_len(s) == n + 2 + e + 2 + d + 1 + 5 + 1);
    lemma_skip_skip(s, n + 2, e + 2);
    lemma_skip_skip(s, n + 2 + e + 2, d + 1);
    lemma_skip_skip(s, n + 2 + e + 2 + d + 1, 6);
}

/// The encoding of a commit as its parts, each with what follows it.
pub proof fn lemma_commit_parts(c: CommitView)
    ensures
        commit_encoding(c) == tree_word() + (hex_bytes(c.tree) + (seq![10u8] + (parents_encoding(
            c.parents,
        ) + (author_word() + (identity_encoding(c.author) + (seq![10u8] + (committer_word() + (
        identity_encoding(c.committer) + (seq![10u8] + c.message))))))))),
{
    let h1 = tree_word() + hex_bytes(c.tree);
    let h2 = h1 + seq![10u8];
    let h3 = h2 + parents_encoding(c.parents);
    let h4 = h3 + author_word();
    let h5 = h4 + identity_encoding(c.author);
    let h6 = h5 + seq![10u8];
    let h7 = h6 + committer_word();
    let h8 = h7 + identity_encoding(c.committer);
    let h9 = h8 + seq![10u8];
    let t9 = seq![10u8] + c.message;
    let t8 = identity_encoding(c.committer) + t9;
    let t7 = committer_word() + t8;
    let t6 = seq![10u8] + t7;
    let t5 = identity_encoding(c.author) + t6;
    let t4 = author_word() + t5;
    let t3 = parents_encoding(c.parents) + t4;
    let t2 = seq![10u8] + t3;
    let t1 = hex_bytes(c.tree) + t2;
    lemma_append(h8, seq![10u8], c.message);
    lemma_append(h7, identity_encoding(c.committer), t9);
    lemma_append(h6, committer_word(), t8);
    lemma_append(h5, seq![10u8], t7);
    lemma_append(h4, identity_encoding(c.author), t6);
    lemma_append(h3, author_word(), t5);
    lemma_append(h2, parents_encoding(c.parents), t4);
    lemma_append(h1, seq![10u8], t3);
    lemma_append(tree_word(), hex_bytes(c.tree), t2);
}

/// An encodable commit is decoded from its canonical encoding as the commit
/// that it was.
pub proof fn lemma_commit_round_trip(c: CommitView)
    requires
        commit_encodable(c),
    ensures
        parse_commit(commit_encoding(c)) == Some(c),
{
    let s = commit_encoding(c);
    let t5 = identity_encoding(c.committer) + (seq![10u8] + c.message);
    let t4 = committer_word() + t5;
    let t3 = identity_encoding(c.author) + (seq![10u8] + t4);
    let t2 = parents_encoding(c.parents) + (author_word() + t3);
    let t1 = hex_bytes(c.tree) + (seq![10u8] + t2);
    lemma_commit_parts(c);
    assert(s == tree_word() + t1);
    lemma_words();
    lemma_word(tree_word(), t1);
    lemma_hex_line(c.tree, t2);
    let s0 = s.skip(through(s, 32));
    assert(s0 == t1);
    assert(s0.skip(HEX_LINE_LEN as int) == t2);
    assert(s.skip(through(s, 32) + HEX_LINE_LEN) =~= s0.skip(HEX_LINE_LEN as int));
    lemma_parse_parents(c.parents, t3);
    assert(at_author(s) == t3);
    lemma_parse_identity(c.author, t4);
    lemma_word(committer_word(), t5);
    assert(at_committer(s) == t5);
    lemma_parse_identity(c.committer, c.message);
}

} // verus!
